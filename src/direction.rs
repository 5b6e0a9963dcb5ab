use vstd::prelude::*;

verus! {

/// The orthogonal moves a die can make on the board.
#[derive(Clone, Copy, Debug, PartialEq, Eq, Structural)]
pub enum Direction {
    UP,
    RIGHT,
    DOWN,
    LEFT,
}

/// The order in which the search tries the four directions.
pub open spec fn direction_order() -> Seq<Direction> {
    seq![Direction::UP, Direction::RIGHT, Direction::DOWN, Direction::LEFT]
}

/// Where a direction stands in the order the search tries them.
pub open spec fn order_index(d: Direction) -> int {
    match d {
        Direction::UP => 0,
        Direction::RIGHT => 1,
        Direction::DOWN => 2,
        Direction::LEFT => 3,
    }
}

/// The name a direction is shown under.
pub open spec fn direction_name(d: Direction) -> Seq<char> {
    match d {
        Direction::UP => seq!['U', 'P'],
        Direction::RIGHT => seq!['R', 'I', 'G', 'H', 'T'],
        Direction::DOWN => seq!['D', 'O', 'W', 'N'],
        Direction::LEFT => seq!['L', 'E', 'F', 'T'],
    }
}

impl Direction {
    /// The direction that undoes a move in this one.
    pub open spec fn reversed(self) -> Direction {
        match self {
            Direction::UP => Direction::DOWN,
            Direction::RIGHT => Direction::LEFT,
            Direction::DOWN => Direction::UP,
            Direction::LEFT => Direction::RIGHT,
        }
    }

    pub fn opposite(self) -> (r: Direction)
        ensures
            r == self.reversed(),
    {
        match self {
            Direction::UP => Direction::DOWN,
            Direction::RIGHT => Direction::LEFT,
            Direction::DOWN => Direction::UP,
            Direction::LEFT => Direction::RIGHT,
        }
    }

    /// All four directions, in the order the search tries them.
    pub fn all() -> (r: [Direction; 4])
        ensures
            r@ == direction_order(),
    {
        let r: [Direction; 4] = [Direction::UP, Direction::RIGHT, Direction::DOWN, Direction::LEFT];
        assert(r@ =~= direction_order());
        r
    }

    /// The direction's name, as the explanation prints it.
    pub fn name(self) -> (r: &'static str)
        ensures
            r@ == direction_name(self),
    {
        match self {
            Direction::UP => {
                proof {
                    reveal_strlit("UP");
                }
                "UP"
            },
            Direction::RIGHT => {
                proof {
                    reveal_strlit("RIGHT");
                }
                "RIGHT"
            },
            Direction::DOWN => {
                proof {
                    reveal_strlit("DOWN");
                }
                "DOWN"
            },
            Direction::LEFT => {
                proof {
                    reveal_strlit("LEFT");
                }
                "LEFT"
            },
        }
    }
}

} // verus!
