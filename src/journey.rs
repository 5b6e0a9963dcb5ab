use vstd::prelude::*;

use crate::board::{
    end_position, in_bounds, neighbour_position, puzzle_grid, start_position, Board, Cell,
    Position,
};
use crate::dice::{lemma_roll_then_opposite, Dice};
use crate::solver::movement_result;
use crate::direction::Direction;
use crate::text::{dice_text, push_dice, push_turn_line, turn_line};

verus! {

/// A candidate path of the search: where the die has been, how often it was
/// rolled, and what is known of its sides so far.
pub struct Journey {
    /// The die as it stands now; some sides may still be unknown.
    pub dice: Dice,
    /// How many rolls the journey has made.
    pub turn: i16,
    /// The cells visited, in order; the last is where the die stands now.
    pub visited_cells: Vec<Cell>,
}

/// The direction of the single orthogonal step from `a` to `b`, if there is one.
pub open spec fn step_between(a: Position, b: Position) -> Option<Direction> {
    if b.1 == a.1 && b.0 + 1 == a.0 {
        Some(Direction::UP)
    } else if b.0 == a.0 && b.1 == a.1 + 1 {
        Some(Direction::RIGHT)
    } else if b.1 == a.1 && b.0 == a.0 + 1 {
        Some(Direction::DOWN)
    } else if b.0 == a.0 && b.1 + 1 == a.1 {
        Some(Direction::LEFT)
    } else {
        None
    }
}

/// `a` is the start of `b`.
pub open spec fn is_prefix_of(a: Seq<Cell>, b: Seq<Cell>) -> bool {
    a.len() <= b.len() && forall|k: int| 0 <= k < a.len() ==> #[trigger] a[k] == b[k]
}

/// The rolls that lead along a sequence of cells.
pub open spec fn moves_of(cells: Seq<Cell>) -> Seq<Direction> {
    Seq::new(
        (cells.len() - 1) as nat,
        |i: int| step_between(cells[i].position, cells[i + 1].position).unwrap(),
    )
}

/// The die after rolling `d` through `moves`, first to last.
pub open spec fn rolled_along(d: Dice, moves: Seq<Direction>) -> Dice
    decreases moves.len(),
{
    if moves.len() == 0 {
        d
    } else {
        rolled_along(d, moves.drop_last()).rolled(moves.last())
    }
}

/// The die before `moves` were made, given the die `d` after them.
pub open spec fn rolled_back(d: Dice, moves: Seq<Direction>) -> Dice
    decreases moves.len(),
{
    if moves.len() == 0 {
        d
    } else {
        rolled_back(d.rolled(moves.last().reversed()), moves.drop_last())
    }
}

/// `b` knows every side that `a` knows, with the same value.
pub open spec fn refines(a: Dice, b: Dice) -> bool {
    &&& (a.top is Some ==> b.top == a.top)
    &&& (a.bottom is Some ==> b.bottom == a.bottom)
    &&& (a.left is Some ==> b.left == a.left)
    &&& (a.right is Some ==> b.right == a.right)
    &&& (a.front is Some ==> b.front == a.front)
    &&& (a.back is Some ==> b.back == a.back)
}

impl Journey {
    /// The rolls the journey made, in order.
    pub open spec fn moves(&self) -> Seq<Direction> {
        moves_of(self.visited_cells@)
    }

    /// The die as it stood on the start cell, as far as the journey knows it.
    pub open spec fn initial_dice(&self) -> Dice {
        rolled_back(self.dice, self.moves())
    }

    /// The die after the first `k` rolls, replayed from the initial die.
    pub open spec fn dice_after(&self, k: int) -> Dice {
        rolled_along(self.initial_dice(), self.moves().take(k))
    }

    /// The score after the first `k` rolls, replayed from a score of zero.
    pub open spec fn replayed_score(&self, k: int) -> int
        decreases k,
    {
        if k <= 0 {
            0
        } else {
            self.replayed_score(k - 1) + k * self.dice_after(k).top.unwrap()
        }
    }

    /// The journey has visited a cell, and each cell is one orthogonal step
    /// from the one before.
    pub open spec fn is_walk(&self) -> bool {
        let cells = self.visited_cells@;
        &&& cells.len() >= 1
        &&& forall|i: int|
            0 <= i < cells.len() - 1 ==> (#[trigger] step_between(
                cells[i].position,
                cells[i + 1].position,
            )) is Some
    }

    /// The cells form a path of orthogonal steps on `b`, from the start cell.
    pub open spec fn is_path_on(&self, b: &Board) -> bool {
        let cells = self.visited_cells@;
        &&& self.is_walk()
        &&& self.turn == cells.len() - 1
        &&& cells[0] == b.cell_at(start_position())
        &&& forall|i: int|
            0 <= i < cells.len() ==> in_bounds(#[trigger] cells[i].position) && cells[i]
                == b.cell_at(cells[i].position)
    }

    /// Each roll brought a known value to the top, and the score rule held:
    /// the value of the cell reached by roll `i` is that of the cell before
    /// plus `i` times the top value.
    pub open spec fn obeys_score_rule(&self) -> bool {
        let cells = self.visited_cells@;
        forall|i: int|
            1 <= i < cells.len() ==> (#[trigger] self.dice_after(i)).top is Some && cells[i].value
                == cells[i - 1].value + i * self.dice_after(i).top.unwrap()
    }

    /// The explanation after its first `k` turns: the initial die, then one
    /// line per turn.
    pub open spec fn explanation_upto(&self, k: int) -> Seq<char>
        decreases k,
    {
        if k <= 0 {
            "We started with the following dice: "@ + dice_text(self.initial_dice())
        } else {
            self.explanation_upto(k - 1) + "\n"@ + turn_line(
                k,
                self.moves()[k - 1],
                self.dice_after(k).top.unwrap() as int,
                self.replayed_score(k - 1),
                self.replayed_score(k),
                self.visited_cells@[k].value as int,
            )
        }
    }

    /// The whole explanation of the journey.
    pub open spec fn explanation(&self) -> Seq<char> {
        self.explanation_upto(self.visited_cells@.len() - 1)
    }

    /// Every side of the die that the journey knows is known, with the same
    /// value, by every consistent journey on `b` that continues it.
    pub open spec fn knows_only_forced_faces(&self, b: &Board) -> bool {
        forall|s: Journey|
            #![trigger is_prefix_of(self.visited_cells@, s.visited_cells@)]
            s.is_consistent_on(b) && is_prefix_of(self.visited_cells@, s.visited_cells@) ==> refines(
                self.dice,
                s.dice_after(self.visited_cells@.len() - 1),
            )
    }

    /// No cell of the journey is the end cell.
    pub open spec fn avoids_end(&self) -> bool {
        forall|k: int|
            0 <= k < self.visited_cells@.len() ==> (#[trigger] self.visited_cells@[k]).position
                != end_position()
    }

    /// A journey the search may hold: a path on `b` that obeys the score rule.
    pub open spec fn is_consistent_on(&self, b: &Board) -> bool {
        self.is_path_on(b) && self.obeys_score_rule()
    }
}

impl Journey {
    /// The cell where the die stands now.
    pub fn get_last_visited_cell(&self) -> (r: &Cell)
        requires
            self.visited_cells@.len() > 0,
        ensures
            *r == self.visited_cells@.last(),
    {
        &self.visited_cells[self.visited_cells.len() - 1]
    }

    /// Works back from the die as it stands now to the die on the start cell,
    /// then replays the journey from there: one line for the initial die, then
    /// one per turn with the roll, the top value and the score before and
    /// after it.
    pub fn explain(&self) -> (r: String)
        requires
            self.is_walk(),
            self.obeys_score_rule(),
            self.turn == self.visited_cells@.len() - 1,
        ensures
            r@ == self.explanation(),
    {
        let n = self.visited_cells.len();
        let ghost moves = self.moves();
        // Undo the rolls from the last to the first.
        let mut dice = self.dice;
        let mut i: usize = n - 1;
        assert(moves.subrange(n - 1, n - 1) =~= Seq::<Direction>::empty());
        while i > 0
            invariant
                self.is_walk(),
                n == self.visited_cells@.len(),
                moves == self.moves(),
                i <= n - 1,
                dice == rolled_back(self.dice, moves.subrange(i as int, n - 1)),
            decreases i,
        {
            let direction = direction_between(
                self.visited_cells[i - 1].position,
                self.visited_cells[i].position,
            );
            proof {
                assert(moves.subrange(i - 1, n - 1) =~= seq![moves[i - 1]] + moves.subrange(
                    i as int,
                    n - 1,
                ));
                lemma_rolled_back_prepend(self.dice, moves[i - 1], moves.subrange(i as int, n - 1));
            }
            dice = dice.roll_in(direction.opposite());
            i -= 1;
        }
        assert(moves.subrange(0, n - 1) =~= moves);
        let mut explanation = String::new();
        explanation.append("We started with the following dice: ");
        push_dice(&mut explanation, &dice);
        assert(explanation@ =~= self.explanation_upto(0));
        // Replay the rolls from the first to the last.
        let mut score: i64 = 0;
        let mut turn: usize = 1;
        while turn < n
            invariant
                self.is_walk(),
                self.obeys_score_rule(),
                n == self.visited_cells@.len(),
                moves == self.moves(),
                1 <= turn <= n,
                n <= 32768,
                dice == self.dice_after(turn - 1),
                score == self.replayed_score(turn - 1),
                explanation@ == self.explanation_upto(turn - 1),
            decreases n - turn,
        {
            assert(step_between(
                self.visited_cells@[turn - 1].position,
                self.visited_cells@[turn - 1 + 1].position,
            ) is Some);
            let direction = direction_between(
                self.visited_cells[turn - 1].position,
                self.visited_cells[turn].position,
            );
            proof {
                lemma_dice_after_step(self, turn as int);
                lemma_replayed_score(self, turn - 1);
                lemma_replayed_score(self, turn as int);
            }
            dice = dice.roll_in(direction);
            let top = match dice.get_top() {
                Some(top) => top,
                None => {
                    assert(false);
                    0
                },
            };
            let cell_value = self.visited_cells[turn].get_value();
            let new_score: i64 = score + turn as i64 * top as i64;
            explanation.append("\n");
            push_turn_line(
                &mut explanation,
                turn as i64,
                direction,
                top as i64,
                score,
                new_score,
                cell_value as i64,
            );
            assert(explanation@ == self.explanation_upto(turn as int)) by {
                assert(new_score == self.replayed_score(turn as int));
            }
            score = new_score;
            turn += 1;
        }
        explanation
    }
}

/// The direction of the orthogonal step from `from` to `to`.
fn direction_between(from: Position, to: Position) -> (d: Direction)
    requires
        step_between(from, to) is Some,
    ensures
        step_between(from, to) == Some(d),
{
    if to.1 == from.1 && from.0 > 0 && to.0 == from.0 - 1 {
        Direction::UP
    } else if to.0 == from.0 && from.1 < to.1 {
        Direction::RIGHT
    } else if to.1 == from.1 && from.0 < to.0 {
        Direction::DOWN
    } else {
        Direction::LEFT
    }
}

proof fn lemma_dice_after_step(j: &Journey, k: int)
    requires
        j.is_walk(),
        1 <= k < j.visited_cells@.len(),
    ensures
        j.moves()[k - 1] == step_between(
            j.visited_cells@[k - 1].position,
            j.visited_cells@[k].position,
        ).unwrap(),
        j.dice_after(k) == j.dice_after(k - 1).rolled(j.moves()[k - 1]),
{
    let m = j.moves();
    assert(m.take(k).drop_last() =~= m.take(k - 1));
    assert(m.take(k).last() == m[k - 1]);
}

proof fn lemma_rolled_back_prepend(d: Dice, a: Direction, moves: Seq<Direction>)
    ensures
        rolled_back(d, seq![a] + moves) == rolled_back(d, moves).rolled(a.reversed()),
    decreases moves.len(),
{
    if moves.len() > 0 {
        let s = seq![a] + moves;
        assert(s.drop_last() =~= seq![a] + moves.drop_last());
        assert(s.last() == moves.last());
        lemma_rolled_back_prepend(d.rolled(moves.last().reversed()), a, moves.drop_last());
        assert(rolled_back(d, s) == rolled_back(d.rolled(s.last().reversed()), s.drop_last()));
        assert(rolled_back(d, moves) == rolled_back(
            d.rolled(moves.last().reversed()),
            moves.drop_last(),
        ));
    } else {
        let s = seq![a] + moves;
        assert(s.drop_last() =~= moves);
        assert(rolled_back(d, s) == rolled_back(d.rolled(a.reversed()), moves));
        assert(rolled_back(d.rolled(a.reversed()), moves) == d.rolled(a.reversed()));
    }
}

/// Replayed from zero, the score after `k` turns is how far the value of the
/// cell reached has come from that of the start cell.
proof fn lemma_replayed_score(j: &Journey, k: int)
    requires
        j.obeys_score_rule(),
        0 <= k < j.visited_cells@.len(),
    ensures
        j.replayed_score(k) == j.visited_cells@[k].value - j.visited_cells@[0].value,
    decreases k,
{
    if k > 0 {
        lemma_replayed_score(j, k - 1);
        assert(j.dice_after(k).top is Some);
    }
}

/// Replaying a journey that the search holds, from its reconstructed initial
/// die and a score of zero, finds a known top value at every turn, and after
/// every turn the score equals the value of the cell reached.
pub proof fn lemma_replay_matches_search(j: &Journey, b: &Board)
    requires
        b.wf(),
        j.is_consistent_on(b),
    ensures
        forall|k: int| 1 <= k < j.visited_cells@.len() ==> (#[trigger] j.dice_after(k)).top is Some,
        forall|k: int|
            0 <= k < j.visited_cells@.len() ==> #[trigger] j.replayed_score(k)
                == j.visited_cells@[k].value,
{
    assert(b.value_at(5, 0) as int == puzzle_grid()[5][0]);
    assert forall|k: int| 0 <= k < j.visited_cells@.len() implies #[trigger] j.replayed_score(k)
        == j.visited_cells@[k].value by {
        lemma_replayed_score(j, k);
    }
}

proof fn lemma_rolled_refines(a: Dice, b: Dice, d: Direction)
    requires
        refines(a, b),
    ensures
        refines(a.rolled(d), b.rolled(d)),
{
}

proof fn lemma_rolled_along_refines(a: Dice, b: Dice, moves: Seq<Direction>)
    requires
        refines(a, b),
    ensures
        refines(rolled_along(a, moves), rolled_along(b, moves)),
    decreases moves.len(),
{
    if moves.len() > 0 {
        lemma_rolled_along_refines(a, b, moves.drop_last());
        lemma_rolled_refines(
            rolled_along(a, moves.drop_last()),
            rolled_along(b, moves.drop_last()),
            moves.last(),
        );
    }
}

proof fn lemma_rolled_back_refines(a: Dice, b: Dice, moves: Seq<Direction>)
    requires
        refines(a, b),
    ensures
        refines(rolled_back(a, moves), rolled_back(b, moves)),
    decreases moves.len(),
{
    if moves.len() > 0 {
        lemma_rolled_refines(a, b, moves.last().reversed());
        lemma_rolled_back_refines(
            a.rolled(moves.last().reversed()),
            b.rolled(moves.last().reversed()),
            moves.drop_last(),
        );
    }
}

/// Rolling back and then forward through the same moves gives the same die.
proof fn lemma_back_then_along(d: Dice, moves: Seq<Direction>)
    ensures
        rolled_along(rolled_back(d, moves), moves) == d,
    decreases moves.len(),
{
    if moves.len() > 0 {
        let r = moves.last().reversed();
        lemma_back_then_along(d.rolled(r), moves.drop_last());
        lemma_roll_then_opposite(d, r);
        assert(r.reversed() == moves.last());
    }
}

proof fn lemma_neighbour_of_step(p: Position, q: Position)
    requires
        in_bounds(p),
        in_bounds(q),
        step_between(p, q) is Some,
    ensures
        neighbour_position(p, step_between(p, q).unwrap()) == Some(q),
{
}

/// A solution that continues a journey avoiding the end cell is longer than it.
pub proof fn lemma_solution_outgrows(p: &Journey, s: &Journey)
    requires
        p.avoids_end(),
        is_prefix_of(p.visited_cells@, s.visited_cells@),
        s.visited_cells@.len() >= 1,
        s.visited_cells@.last().position == end_position(),
    ensures
        s.visited_cells@.len() > p.visited_cells@.len(),
{
    let n = s.visited_cells@.len();
    if n <= p.visited_cells@.len() {
        assert(p.visited_cells@[n - 1] == s.visited_cells@[n - 1]);
    }
}

/// Along a consistent journey `s` that continues `p`, the roll out of `p`'s
/// last cell stays on the board and obeys the score rule for `p`'s die.
pub proof fn lemma_continuation_is_valid(p: &Journey, b: &Board, s: &Journey)
    requires
        p.is_consistent_on(b),
        p.knows_only_forced_faces(b),
        s.is_consistent_on(b),
        is_prefix_of(p.visited_cells@, s.visited_cells@),
        s.visited_cells@.len() > p.visited_cells@.len(),
    ensures
        ({
            let n = p.visited_cells@.len() as int;
            let last = p.visited_cells@.last();
            let next = s.visited_cells@[n];
            let d = step_between(last.position, next.position).unwrap();
            &&& step_between(last.position, next.position) is Some
            &&& b.neighbour(last.position, d) == Some(next)
            &&& p.turn < i16::MAX
            &&& movement_result(
                p.dice.rolled(d),
                last.value as int,
                n,
                next.value as int,
            ) is Some
        }),
{
    let n = p.visited_cells@.len() as int;
    let sc = s.visited_cells@;
    let last = p.visited_cells@.last();
    assert(last == sc[n - 1]);
    let next = sc[n];
    assert(step_between(sc[n - 1].position, sc[n - 1 + 1].position) is Some);
    let d = step_between(last.position, next.position).unwrap();
    assert(in_bounds(sc[n - 1].position) && in_bounds(sc[n].position));
    lemma_neighbour_of_step(last.position, next.position);
    assert(sc[n] == b.cell_at(sc[n].position));
    lemma_dice_after_step(s, n);
    assert(refines(p.dice, s.dice_after(n - 1)));
    lemma_rolled_refines(p.dice, s.dice_after(n - 1), d);
    let t = s.dice_after(n).top.unwrap();
    assert(s.dice_after(n).top is Some);
    assert(next.value == last.value + n * t);
    crate::solver::lemma_movement_rule(p.dice.rolled(d), last.value as int, n, next.value as int);
    if p.dice.rolled(d).top is None {
        vstd::arithmetic::div_mod::lemma_fundamental_div_mod_converse(
            next.value - last.value,
            n,
            t as int,
            0,
        );
    }
}

/// A journey made by a valid roll out of `p` knows only what every
/// consistent continuation of it knows, as `p` did.
pub proof fn lemma_child_knows_only_forced_faces(
    p: &Journey,
    b: &Board,
    d: Direction,
    cell: Cell,
    c: &Journey,
)
    requires
        p.is_consistent_on(b),
        p.knows_only_forced_faces(b),
        b.neighbour(p.visited_cells@.last().position, d) == Some(cell),
        movement_result(
            p.dice.rolled(d),
            p.visited_cells@.last().value as int,
            p.visited_cells@.len() as int,
            cell.value as int,
        ) == Some(c.dice),
        c.visited_cells@ == p.visited_cells@.push(cell),
    ensures
        c.knows_only_forced_faces(b),
{
    let n = p.visited_cells@.len() as int;
    let last = p.visited_cells@.last();
    assert(in_bounds(p.visited_cells@[n - 1].position));
    lemma_step_of_neighbour(last.position, d, cell.position);
    crate::solver::lemma_movement_rule(
        p.dice.rolled(d),
        last.value as int,
        n,
        cell.value as int,
    );
    assert forall|s: Journey|
        #![trigger is_prefix_of(c.visited_cells@, s.visited_cells@)]
        s.is_consistent_on(b) && is_prefix_of(c.visited_cells@, s.visited_cells@) implies refines(
        c.dice,
        s.dice_after(c.visited_cells@.len() - 1),
    ) by {
        let sc = s.visited_cells@;
        assert(is_prefix_of(p.visited_cells@, sc)) by {
            assert forall|k: int| 0 <= k < n implies #[trigger] p.visited_cells@[k] == sc[k] by {
                assert(c.visited_cells@[k] == sc[k]);
            }
        }
        assert(c.visited_cells@[n] == sc[n]);
        assert(last == sc[n - 1]) by {
            assert(c.visited_cells@[n - 1] == sc[n - 1]);
        }
        lemma_dice_after_step(&s, n);
        assert(refines(p.dice, s.dice_after(n - 1)));
        lemma_rolled_refines(p.dice, s.dice_after(n - 1), d);
        let t = s.dice_after(n).top.unwrap();
        assert(sc[n].value == sc[n - 1].value + n * t);
        if p.dice.rolled(d).top is None {
            vstd::arithmetic::div_mod::lemma_fundamental_div_mod_converse(
                cell.value - last.value,
                n,
                t as int,
                0,
            );
        }
    }
}

proof fn lemma_step_of_neighbour(p: Position, d: Direction, q: Position)
    requires
        in_bounds(p),
        neighbour_position(p, d) == Some(q),
    ensures
        step_between(p, q) == Some(d),
{
}

/// A consistent journey stays consistent when extended by one valid roll.
pub proof fn lemma_extend_consistent(
    j: &Journey,
    b: &Board,
    d: Direction,
    cell: Cell,
    new_dice: Dice,
    next: &Journey,
)
    requires
        j.is_consistent_on(b),
        b.neighbour(j.visited_cells@.last().position, d) == Some(cell),
        next.visited_cells@ == j.visited_cells@.push(cell),
        next.turn == j.turn + 1,
        next.dice == new_dice,
        refines(j.dice.rolled(d), new_dice),
        new_dice == (Dice { top: new_dice.top, ..j.dice.rolled(d) }),
        new_dice.top is Some,
        cell.value == j.visited_cells@.last().value + next.turn * new_dice.top.unwrap(),
    ensures
        next.is_consistent_on(b),
{
    let cells = j.visited_cells@;
    let ncells = next.visited_cells@;
    let n = cells.len();
    let last = cells.last();
    assert(in_bounds(cells[n - 1].position));
    lemma_step_of_neighbour(last.position, d, cell.position);
    assert(next.moves() =~= j.moves().push(d));
    let mv = j.moves();
    // The initial die of the extended journey knows at least what the old one knew.
    lemma_roll_then_opposite(j.dice, d);
    lemma_rolled_refines(j.dice.rolled(d), new_dice, d.reversed());
    assert(next.initial_dice() == rolled_back(new_dice.rolled(d.reversed()), mv)) by {
        assert(next.moves().drop_last() =~= mv);
    }
    lemma_rolled_back_refines(j.dice, new_dice.rolled(d.reversed()), mv);
    assert forall|i: int| 1 <= i < ncells.len() implies (#[trigger] next.dice_after(i)).top is Some
        && ncells[i].value == ncells[i - 1].value + i * next.dice_after(i).top.unwrap() by {
        if i < n {
            assert(next.moves().take(i) =~= mv.take(i));
            lemma_rolled_along_refines(j.initial_dice(), next.initial_dice(), mv.take(i));
            assert(j.dice_after(i).top is Some);
        } else {
            assert(next.moves().take(i) =~= next.moves());
            lemma_back_then_along(new_dice, next.moves());
        }
    }
    assert forall|i: int| 0 <= i < ncells.len() - 1 implies (#[trigger] step_between(
        ncells[i].position,
        ncells[i + 1].position,
    )) is Some by {
        if i < n - 1 {
            assert(ncells[i] == cells[i] && ncells[i + 1] == cells[i + 1]);
        }
    }
    assert forall|i: int| 0 <= i < ncells.len() implies in_bounds(
        #[trigger] ncells[i].position,
    ) && ncells[i] == b.cell_at(ncells[i].position) by {
        if i < n {
            assert(ncells[i] == cells[i]);
        }
    }
}

} // verus!
