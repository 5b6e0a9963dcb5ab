use vstd::prelude::*;

use crate::dice::Dice;
use crate::direction::{direction_name, Direction};

verus! {

/// The character of a decimal digit.
pub open spec fn digit_char(d: nat) -> char {
    seq!['0', '1', '2', '3', '4', '5', '6', '7', '8', '9'][d as int]
}

/// The decimal digits of `n`, most significant first.
pub open spec fn digits(n: nat) -> Seq<char>
    decreases n,
{
    if n < 10 {
        seq![digit_char(n)]
    } else {
        digits(n / 10) + seq![digit_char(n % 10)]
    }
}

/// `n` in decimal, with a leading minus sign when it is negative.
pub open spec fn decimal(n: int) -> Seq<char> {
    if n < 0 {
        seq!['-'] + digits((-n) as nat)
    } else {
        digits(n as nat)
    }
}

/// A side's value as the explanation shows it.
pub open spec fn option_text(o: Option<i16>) -> Seq<char> {
    match o {
        Some(v) => "Some("@ + decimal(v as int) + ")"@,
        None => "None"@,
    }
}

/// A die as the explanation shows it.
pub open spec fn dice_text(d: Dice) -> Seq<char> {
    "Dice { top: "@ + option_text(d.top) + ", bottom: "@ + option_text(d.bottom) + ", left: "@
        + option_text(d.left) + ", right: "@ + option_text(d.right) + ", front: "@ + option_text(
        d.front,
    ) + ", back: "@ + option_text(d.back) + " }"@
}

/// The explanation's line for one turn.
pub open spec fn turn_line(
    turn: int,
    direction: Direction,
    top: int,
    score: int,
    new_score: int,
    cell_value: int,
) -> Seq<char> {
    "Turn "@ + decimal(turn) + " we rolled the dice "@ + direction_name(direction) + " (top="@
        + decimal(top) + "). Score was "@ + decimal(score) + ", now is `"@ + decimal(score)
        + " + ("@ + decimal(turn) + " x "@ + decimal(top) + ") = "@ + decimal(new_score)
        + "` (cell value = "@ + decimal(cell_value) + ")."@
}

fn digit_str(d: u64) -> (r: &'static str)
    requires
        d < 10,
    ensures
        r@ == seq![digit_char(d as nat)],
{
    if d == 0 {
        proof {
            reveal_strlit("0");
        }
        "0"
    } else if d == 1 {
        proof {
            reveal_strlit("1");
        }
        "1"
    } else if d == 2 {
        proof {
            reveal_strlit("2");
        }
        "2"
    } else if d == 3 {
        proof {
            reveal_strlit("3");
        }
        "3"
    } else if d == 4 {
        proof {
            reveal_strlit("4");
        }
        "4"
    } else if d == 5 {
        proof {
            reveal_strlit("5");
        }
        "5"
    } else if d == 6 {
        proof {
            reveal_strlit("6");
        }
        "6"
    } else if d == 7 {
        proof {
            reveal_strlit("7");
        }
        "7"
    } else if d == 8 {
        proof {
            reveal_strlit("8");
        }
        "8"
    } else {
        proof {
            reveal_strlit("9");
        }
        "9"
    }
}

fn push_digits(out: &mut String, n: u64)
    ensures
        final(out)@ == old(out)@ + digits(n as nat),
    decreases n,
{
    if n >= 10 {
        push_digits(out, n / 10);
    }
    out.append(digit_str(n % 10));
    assert(final(out)@ =~= old(out)@ + digits(n as nat));
}

/// Appends `v` in decimal.
pub fn push_decimal(out: &mut String, v: i64)
    ensures
        final(out)@ == old(out)@ + decimal(v as int),
{
    if v < 0 {
        proof {
            reveal_strlit("-");
        }
        out.append("-");
        let magnitude: u64 = (-(v as i128)) as u64;
        push_digits(out, magnitude);
        assert(final(out)@ =~= old(out)@ + decimal(v as int));
    } else {
        push_digits(out, v as u64);
    }
}

fn push_option(out: &mut String, o: Option<i16>)
    ensures
        final(out)@ == old(out)@ + option_text(o),
{
    match o {
        Some(v) => {
            out.append("Some(");
            push_decimal(out, v as i64);
            out.append(")");
            assert(final(out)@ =~= old(out)@ + option_text(o));
        },
        None => {
            out.append("None");
        },
    }
}

/// Appends a die's text.
pub fn push_dice(out: &mut String, d: &Dice)
    ensures
        final(out)@ == old(out)@ + dice_text(*d),
{
    out.append("Dice { top: ");
    push_option(out, d.top);
    out.append(", bottom: ");
    push_option(out, d.bottom);
    out.append(", left: ");
    push_option(out, d.left);
    out.append(", right: ");
    push_option(out, d.right);
    out.append(", front: ");
    push_option(out, d.front);
    out.append(", back: ");
    push_option(out, d.back);
    out.append(" }");
    assert(final(out)@ =~= old(out)@ + dice_text(*d));
}

/// Appends the line for one turn.
pub fn push_turn_line(
    out: &mut String,
    turn: i64,
    direction: Direction,
    top: i64,
    score: i64,
    new_score: i64,
    cell_value: i64,
)
    ensures
        final(out)@ == old(out)@ + turn_line(
            turn as int,
            direction,
            top as int,
            score as int,
            new_score as int,
            cell_value as int,
        ),
{
    out.append("Turn ");
    push_decimal(out, turn);
    out.append(" we rolled the dice ");
    out.append(direction.name());
    out.append(" (top=");
    push_decimal(out, top);
    out.append("). Score was ");
    push_decimal(out, score);
    out.append(", now is `");
    push_decimal(out, score);
    out.append(" + (");
    push_decimal(out, turn);
    out.append(" x ");
    push_decimal(out, top);
    out.append(") = ");
    push_decimal(out, new_score);
    out.append("` (cell value = ");
    push_decimal(out, cell_value);
    out.append(").");
    assert(final(out)@ =~= old(out)@ + turn_line(
        turn as int,
        direction,
        top as int,
        score as int,
        new_score as int,
        cell_value as int,
    ));
}

} // verus!
