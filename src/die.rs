use vstd::prelude::*;

verus! {

/// A six-sided die with small face values, rolled forward, backward, left or
/// right. A side is `None` while its value is not known.
#[derive(Debug, PartialEq, Eq, Structural)]
pub struct Die {
    pub top: Option<i8>,
    pub bottom: Option<i8>,
    pub left: Option<i8>,
    pub right: Option<i8>,
    pub front: Option<i8>,
    pub back: Option<i8>,
}

/// The four rolls of a [`Die`].
#[derive(Clone, Copy, Debug, PartialEq, Eq, Structural)]
pub enum Roll {
    Forward,
    Backward,
    Left,
    Right,
}

impl Default for Die {
    fn default() -> (r: Die)
        ensures
            r.top is None && r.bottom is None && r.left is None,
            r.right is None && r.front is None && r.back is None,
    {
        Die { top: None, bottom: None, left: None, right: None, front: None, back: None }
    }
}

impl Die {
    /// The die after one roll: the values stay on their physical sides, only
    /// the sides change places.
    pub open spec fn rolled(&self, roll: Roll) -> Die {
        match roll {
            Roll::Forward => Die {
                top: self.back,
                bottom: self.front,
                left: self.left,
                right: self.right,
                front: self.top,
                back: self.bottom,
            },
            Roll::Backward => Die {
                top: self.front,
                bottom: self.back,
                left: self.left,
                right: self.right,
                front: self.bottom,
                back: self.top,
            },
            Roll::Left => Die {
                top: self.right,
                bottom: self.left,
                left: self.top,
                right: self.bottom,
                front: self.front,
                back: self.back,
            },
            Roll::Right => Die {
                top: self.left,
                bottom: self.right,
                left: self.bottom,
                right: self.top,
                front: self.front,
                back: self.back,
            },
        }
    }

    pub fn roll_forward(&self) -> (r: Die)
        ensures
            r == self.rolled(Roll::Forward),
    {
        Die {
            top: self.back,
            bottom: self.front,
            left: self.left,
            right: self.right,
            front: self.top,
            back: self.bottom,
        }
    }

    pub fn roll_backward(&self) -> (r: Die)
        ensures
            r == self.rolled(Roll::Backward),
    {
        Die {
            top: self.front,
            bottom: self.back,
            left: self.left,
            right: self.right,
            front: self.bottom,
            back: self.top,
        }
    }

    pub fn roll_left(&self) -> (r: Die)
        ensures
            r == self.rolled(Roll::Left),
    {
        Die {
            top: self.right,
            bottom: self.left,
            left: self.top,
            right: self.bottom,
            front: self.front,
            back: self.back,
        }
    }

    pub fn roll_right(&self) -> (r: Die)
        ensures
            r == self.rolled(Roll::Right),
    {
        Die {
            top: self.left,
            bottom: self.right,
            left: self.bottom,
            right: self.top,
            front: self.front,
            back: self.back,
        }
    }

    /// The value on top of the die, if known.
    pub fn get_top(&self) -> (r: &Option<i8>)
        ensures
            *r == self.top,
    {
        &self.top
    }

    /// Replaces the top side's value; the other sides keep theirs.
    pub fn set_top(&mut self, top: Option<i8>)
        ensures
            *final(self) == (Die { top, ..*old(self) }),
    {
        self.top = top;
    }
}

/// The roll that undoes `roll`.
pub open spec fn reverse_roll(roll: Roll) -> Roll {
    match roll {
        Roll::Forward => Roll::Backward,
        Roll::Backward => Roll::Forward,
        Roll::Left => Roll::Right,
        Roll::Right => Roll::Left,
    }
}

/// A roll followed by the opposite roll leaves the die as it was.
pub proof fn lemma_die_roll_then_opposite(d: Die, roll: Roll)
    ensures
        d.rolled(roll).rolled(reverse_roll(roll)) == d,
{
}

/// Four identical rolls leave the die as it was.
pub proof fn lemma_die_roll_four_times(d: Die, roll: Roll)
    ensures
        d.rolled(roll).rolled(roll).rolled(roll).rolled(roll) == d,
{
}

} // verus!
