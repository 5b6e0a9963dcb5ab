use vstd::prelude::*;

use crate::direction::Direction;

verus! {

/// The value on each side of a six-sided die. A side is `None` while its
/// value is not known.
#[derive(Clone, Copy, Debug, PartialEq, Eq, Structural)]
pub struct Dice {
    pub top: Option<i16>,
    pub bottom: Option<i16>,
    pub left: Option<i16>,
    pub right: Option<i16>,
    pub front: Option<i16>,
    pub back: Option<i16>,
}

/// A die none of whose sides is known.
pub open spec fn unknown_dice() -> Dice {
    Dice { top: None, bottom: None, left: None, right: None, front: None, back: None }
}

impl Default for Dice {
    fn default() -> (r: Dice)
        ensures
            r == unknown_dice(),
    {
        Dice { top: None, bottom: None, left: None, right: None, front: None, back: None }
    }
}

impl Dice {
    /// The die after one roll in direction `d`: the values stay on their
    /// physical sides, only the sides change places.
    pub open spec fn rolled(self, d: Direction) -> Dice {
        match d {
            Direction::UP => Dice {
                top: self.back,
                bottom: self.front,
                left: self.left,
                right: self.right,
                front: self.top,
                back: self.bottom,
            },
            Direction::DOWN => Dice {
                top: self.front,
                bottom: self.back,
                left: self.left,
                right: self.right,
                front: self.bottom,
                back: self.top,
            },
            Direction::LEFT => Dice {
                top: self.right,
                bottom: self.left,
                left: self.top,
                right: self.bottom,
                front: self.front,
                back: self.back,
            },
            Direction::RIGHT => Dice {
                top: self.left,
                bottom: self.right,
                left: self.bottom,
                right: self.top,
                front: self.front,
                back: self.back,
            },
        }
    }

    /// The die with its top side pinned to `top`.
    pub open spec fn with_top(self, top: i16) -> Dice {
        Dice { top: Some(top), ..self }
    }

    /// Pins the top side, which was not known, to `top`.
    pub fn set_top(self, top: i16) -> (r: Dice)
        requires
            self.top is None,
        ensures
            r == self.with_top(top),
    {
        let mut d = self;
        d.top = Some(top);
        d
    }

    /// The die after a roll in the given direction.
    pub fn roll_in(&self, direction: Direction) -> (r: Dice)
        ensures
            r == self.rolled(direction),
    {
        match direction {
            Direction::UP => self.roll_up(),
            Direction::RIGHT => self.roll_right(),
            Direction::DOWN => self.roll_down(),
            Direction::LEFT => self.roll_left(),
        }
    }

    pub fn roll_up(&self) -> (r: Dice)
        ensures
            r == self.rolled(Direction::UP),
    {
        Dice {
            top: self.back,
            bottom: self.front,
            left: self.left,
            right: self.right,
            front: self.top,
            back: self.bottom,
        }
    }

    pub fn roll_down(&self) -> (r: Dice)
        ensures
            r == self.rolled(Direction::DOWN),
    {
        Dice {
            top: self.front,
            bottom: self.back,
            left: self.left,
            right: self.right,
            front: self.bottom,
            back: self.top,
        }
    }

    pub fn roll_left(&self) -> (r: Dice)
        ensures
            r == self.rolled(Direction::LEFT),
    {
        Dice {
            top: self.right,
            bottom: self.left,
            left: self.top,
            right: self.bottom,
            front: self.front,
            back: self.back,
        }
    }

    pub fn roll_right(&self) -> (r: Dice)
        ensures
            r == self.rolled(Direction::RIGHT),
    {
        Dice {
            top: self.left,
            bottom: self.right,
            left: self.bottom,
            right: self.top,
            front: self.front,
            back: self.back,
        }
    }

    /// The value on top of the die, if known.
    pub fn get_top(&self) -> (r: Option<i16>)
        ensures
            r == self.top,
    {
        self.top
    }
}

/// A roll followed by the roll the opposite way leaves the die as it was.
pub proof fn lemma_roll_then_opposite(d: Dice, dir: Direction)
    ensures
        d.rolled(dir).rolled(dir.reversed()) == d,
{
}

/// Four rolls in the same direction leave the die as it was.
pub proof fn lemma_roll_four_times(d: Dice, dir: Direction)
    ensures
        d.rolled(dir).rolled(dir).rolled(dir).rolled(dir) == d,
{
}

} // verus!
