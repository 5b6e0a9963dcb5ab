use vstd::prelude::*;

use std::collections::VecDeque;

use crate::board::{end_position, start_position, Board, Cell, Position};
use crate::dice::{unknown_dice, Dice};
use crate::direction::{direction_order, order_index, Direction};
use crate::journey::{
    is_prefix_of, lemma_child_knows_only_forced_faces, lemma_continuation_is_valid,
    lemma_extend_consistent, lemma_solution_outgrows, refines, step_between, Journey,
};

verus! {

/// The die after rolling it, now showing `rolled` from the top, onto a cell of
/// value `value` at turn `turn`, when the score before the roll was `score`;
/// `None` when no die can make that move under the score rule.
///
/// A known top value `t` must give `score + turn * t == value`. An unknown
/// one is inferred as `(value - score) / turn`, which must divide exactly and
/// fit a side's value.
pub open spec fn movement_result(rolled: Dice, score: int, turn: int, value: int) -> Option<Dice> {
    match rolled.top {
        Some(t) => if score + turn * t == value {
            Some(rolled)
        } else {
            None
        },
        None => if (value - score) % turn == 0 && i16::MIN <= (value - score) / turn
            <= i16::MAX {
            Some(rolled.with_top(((value - score) / turn) as i16))
        } else {
            None
        },
    }
}

/// A move that the rule accepts leaves a known top value `t` with
/// `score + turn * t == value`, and changes nothing of the die but a top value
/// that was unknown. Conversely, with a known top value `t` the move is
/// accepted exactly when `score + turn * t == value`; with an unknown one,
/// exactly when `turn` divides `value - score` and the quotient fits a side,
/// and the inferred top value is then that quotient.
pub proof fn lemma_movement_rule(rolled: Dice, score: int, turn: int, value: int)
    requires
        turn >= 1,
    ensures
        rolled.top matches Some(t) ==> (movement_result(rolled, score, turn, value) is Some
            <==> score + turn * t == value),
        rolled.top is None ==> (movement_result(rolled, score, turn, value) is Some <==> ((value
            - score) % turn == 0 && i16::MIN <= (value - score) / turn <= i16::MAX)),
        movement_result(rolled, score, turn, value) matches Some(d) ==> {
            &&& d.top is Some
            &&& score + turn * d.top.unwrap() == value
            &&& d == (Dice { top: d.top, ..rolled })
            &&& refines(rolled, d)
            &&& (rolled.top is None ==> d.top.unwrap() == (value - score) / turn)
        },
{
    vstd::arithmetic::div_mod::lemma_fundamental_div_mod(value - score, turn);
}

/// What came of an attempt to roll the die onto a neighbouring cell.
pub enum MovementOutcome {
    /// The move was valid and reached the end cell.
    SolutionJourney(Journey),
    /// The move was valid and the end cell is still ahead.
    ValidJourney(Journey),
    /// The move breaks the score rule.
    Invalid,
}

/// Whether `r` is the outcome owed for a move onto `cell` that leaves the die
/// as `d` (`None`: an invalid move), at turn `turn`, after `visited`.
pub open spec fn is_outcome_of(
    r: MovementOutcome,
    d: Option<Dice>,
    turn: i16,
    visited: Seq<Cell>,
    cell: Cell,
) -> bool {
    match d {
        None => r is Invalid,
        Some(d) => match r {
            MovementOutcome::SolutionJourney(j) => {
                &&& cell.position == end_position()
                &&& j.dice == d
                &&& j.turn == turn
                &&& j.visited_cells@ == visited.push(cell)
            },
            MovementOutcome::ValidJourney(j) => {
                &&& cell.position != end_position()
                &&& j.dice == d
                &&& j.turn == turn
                &&& j.visited_cells@ == visited.push(cell)
            },
            MovementOutcome::Invalid => false,
        },
    }
}

/// `diff / n` when `n` divides `diff` exactly.
fn exact_quotient(diff: i32, n: i32) -> (r: Option<i32>)
    requires
        n >= 1,
        -100_000 <= diff <= 100_000,
    ensures
        (r is Some) == ((diff as int) % (n as int) == 0),
        r matches Some(q) ==> q as int == (diff as int) / (n as int),
{
    let d: u32 = n as u32;
    if diff >= 0 {
        let u: u32 = diff as u32;
        proof {
            vstd::arithmetic::div_mod::lemma_fundamental_div_mod(u as int, d as int);
        }
        if u % d == 0 {
            proof {
                vstd::arithmetic::div_mod::lemma_fundamental_div_mod_converse(
                    diff as int,
                    n as int,
                    (u / d) as int,
                    0,
                );
            }
            Some((u / d) as i32)
        } else {
            None
        }
    } else {
        let u: u32 = (-diff) as u32;
        proof {
            vstd::arithmetic::div_mod::lemma_fundamental_div_mod(u as int, d as int);
            vstd::arithmetic::div_mod::lemma_fundamental_div_mod(diff as int, n as int);
        }
        if u % d == 0 {
            let q: i32 = (u / d) as i32;
            proof {
                assert(diff == n * (-q)) by (nonlinear_arith)
                    requires
                        u == d * (u / d) + 0,
                        q == u / d,
                        diff == -u,
                        d == n,
                ;
                vstd::arithmetic::div_mod::lemma_fundamental_div_mod_converse(
                    diff as int,
                    n as int,
                    -q,
                    0,
                );
            }
            Some(-q)
        } else {
            proof {
                if (diff as int) % (n as int) == 0 {
                    let k = (diff as int) / (n as int);
                    assert(u == n * (-k)) by (nonlinear_arith)
                        requires
                            diff == n * k + 0,
                            diff == -u,
                    ;
                    vstd::arithmetic::div_mod::lemma_fundamental_div_mod_converse(
                        u as int,
                        n as int,
                        -k,
                        0,
                    );
                }
            }
            None
        }
    }
}

/// The cells of `visited` followed by `cell`.
fn extended_path(visited: &Vec<Cell>, cell: Cell) -> (r: Vec<Cell>)
    ensures
        r@ == visited@.push(cell),
{
    let mut r: Vec<Cell> = Vec::new();
    let mut i: usize = 0;
    while i < visited.len()
        invariant
            i <= visited@.len(),
            r@ == visited@.take(i as int),
        decreases visited@.len() - i,
    {
        r.push(visited[i]);
        i += 1;
        assert(r@ =~= visited@.take(i as int));
    }
    assert(visited@.take(i as int) =~= visited@);
    r.push(cell);
    r
}

/// The positions of a sequence of cells.
pub open spec fn positions_of(cells: Seq<Cell>) -> Seq<Position> {
    cells.map_values(|c: Cell| c.position)
}

/// Whether `j` is a journey that solves the puzzle on `b`: a path of
/// orthogonal steps from the start cell to the end cell that obeys the score
/// rule at every roll.
pub open spec fn is_solution_on(j: Journey, b: &Board) -> bool {
    &&& j.is_consistent_on(b)
    &&& j.visited_cells@.last().position == end_position()
}

/// Some journey of `q` is the start of `s`.
pub open spec fn extends_some(q: Seq<Journey>, s: Journey) -> bool {
    exists|i: int| 0 <= i < q.len() && is_prefix_of(#[trigger] q[i].visited_cells@, s.visited_cells@)
}

/// `j` is a solution on `b` that continues a journey of `q`, meets the end
/// cell only at its last step, and takes no more rolls than any other
/// solution that continues a journey of `q`.
pub open spec fn is_first_solution(j: Journey, b: &Board, q: Seq<Journey>) -> bool {
    &&& is_solution_on(j, b)
    &&& forall|k: int|
        0 <= k < j.visited_cells@.len() - 1 ==> (#[trigger] j.visited_cells@[k]).position
            != end_position()
    &&& extends_some(q, j)
    &&& forall|s: Journey| #[trigger] is_solution_on(s, b) && extends_some(q, s) ==> j.turn <= s.turn
}

/// How much search a journey at turn `t` may still cause: a journey leads to
/// at most four journeys, each one turn later, and none past `i16::MAX`.
pub open spec fn turn_weight(t: int) -> nat
    decreases i16::MAX - t,
{
    if t >= i16::MAX {
        1
    } else {
        5 * turn_weight(t + 1)
    }
}

/// The sum of the weights of the journeys of a queue.
pub open spec fn queue_weight(q: Seq<Journey>) -> nat
    decreases q.len(),
{
    if q.len() == 0 {
        0
    } else {
        queue_weight(q.drop_last()) + turn_weight(q.last().turn as int)
    }
}

proof fn lemma_turn_weight_positive(t: int)
    ensures
        turn_weight(t) >= 1,
    decreases i16::MAX - t,
{
    if t < i16::MAX {
        lemma_turn_weight_positive(t + 1);
    }
}

proof fn lemma_queue_weight_push(q: Seq<Journey>, j: Journey)
    ensures
        queue_weight(q.push(j)) == queue_weight(q) + turn_weight(j.turn as int),
{
    assert(q.push(j).drop_last() =~= q);
}

proof fn lemma_queue_weight_front(q: Seq<Journey>)
    requires
        q.len() > 0,
    ensures
        queue_weight(q) == turn_weight(q[0].turn as int) + queue_weight(q.subrange(1, q.len() as int)),
    decreases q.len(),
{
    if q.len() == 1 {
        assert(q.subrange(1, 1) =~= Seq::<Journey>::empty());
        assert(q.drop_last() =~= Seq::<Journey>::empty());
    } else {
        lemma_queue_weight_front(q.drop_last());
        assert(q.subrange(1, q.len() as int).drop_last() =~= q.drop_last().subrange(
            1,
            q.len() - 1,
        ));
    }
}

/// Solves the puzzle by a breadth-first search over journeys.
pub struct Solver {
    board: Board,
    /// The journeys still to extend, oldest first.
    journeys: VecDeque<Journey>,
}

/// The outcome of solving the puzzle.
pub enum Solution {
    /// The sum of the values of the cells the winning path never visited,
    /// and a text that replays the path turn by turn.
    Found(i16, String),
    /// The search found no path.
    NotFound,
}

impl Solution {
    /// Whether a solution was found.
    pub fn found_solution(&self) -> (r: bool)
        ensures
            r == (self is Found),
    {
        match self {
            Solution::Found(..) => true,
            Solution::NotFound => false,
        }
    }

    /// The sum and the explanation of a found solution.
    pub fn unwrap(self) -> (r: (i16, String))
        requires
            self is Found,
        ensures
            self matches Solution::Found(sum, text) && r.0 == sum && r.1 == text,
    {
        match self {
            Solution::Found(sum, explanation) => (sum, explanation),
            Solution::NotFound => {
                assert(false);
                (0, String::new())
            },
        }
    }
}

/// Every journey of `q` is consistent on `b`, knows only the sides its path
/// forces and avoids the end cell.
pub open spec fn queue_ok(q: Seq<Journey>, b: &Board) -> bool {
    forall|i: int|
        0 <= i < q.len() ==> (#[trigger] q[i]).is_consistent_on(b) && q[i].knows_only_forced_faces(b)
            && q[i].avoids_end()
}

impl Solver {
    /// The board is the puzzle's; every queued journey is consistent on it,
    /// knows only the sides its path forces and avoids the end cell; and the
    /// queue holds journeys of at most two successive turns, in order.
    pub closed spec fn wf(&self) -> bool {
        &&& self.board.wf()
        &&& queue_ok(self.journeys@, &self.board)
        &&& forall|i: int, k: int|
            0 <= i <= k < self.journeys@.len() ==> #[trigger] self.journeys@[i].turn
                <= #[trigger] self.journeys@[k].turn
        &&& forall|i: int, k: int|
            0 <= i < self.journeys@.len() && 0 <= k < self.journeys@.len() ==> #[trigger] self.journeys@[k].turn
                <= #[trigger] self.journeys@[i].turn + 1
    }

    /// The board the solver searches.
    pub closed spec fn spec_board(&self) -> Board {
        self.board
    }

    /// The journeys still to extend, oldest first.
    pub closed spec fn queue(&self) -> Seq<Journey> {
        self.journeys@
    }

    /// A solver whose queue holds one journey: the start cell, no roll made,
    /// and a die none of whose sides is known.
    pub fn new() -> (r: Solver)
        ensures
            r.wf(),
            r.spec_board().wf(),
            r.queue().len() == 1,
            r.queue()[0].dice == unknown_dice(),
            r.queue()[0].turn == 0,
            r.queue()[0].visited_cells@ == seq![r.spec_board().cell_at(start_position())],
            forall|s: Journey|
                #[trigger] s.is_consistent_on(&r.spec_board()) ==> extends_some(r.queue(), s),
    {
        let board = Board::new();
        let first_journey = Journey {
            dice: Dice::default(),
            turn: 0,
            visited_cells: vec![board.start_cell()],
        };
        let mut journeys: VecDeque<Journey> = VecDeque::new();
        journeys.push_back(first_journey);
        let r = Solver { board, journeys };
        assert(r.journeys@[0].is_consistent_on(&r.board));
        assert(r.journeys@[0].visited_cells@ =~= seq![r.board.cell_at(start_position())]);
        assert forall|s: Journey| #[trigger] s.is_consistent_on(&r.board) implies extends_some(
            r.journeys@,
            s,
        ) by {
            assert(is_prefix_of(r.journeys@[0].visited_cells@, s.visited_cells@));
        }
        r
    }

    /// The board the solver searches.
    pub fn board(&self) -> (r: &Board)
        ensures
            *r == self.spec_board(),
    {
        &self.board
    }

    /// Solves the puzzle, which uses up the solver. `Found` comes exactly when
    /// some solution continues a queued journey, and then holds, for the
    /// solution the search found first, the sum of the values of the cells it
    /// never visited and its explanation.
    pub fn solve(self) -> (r: Solution)
        requires
            self.wf(),
        ensures
            (r is Found) <==> exists|s: Journey|
                #[trigger] is_solution_on(s, &self.spec_board()) && extends_some(self.queue(), s),
            r matches Solution::Found(sum, text) ==> exists|j: Journey|
                #[trigger] is_first_solution(j, &self.spec_board(), self.queue()) && sum
                    == self.spec_board().unvisited_sum(positions_of(j.visited_cells@).to_set())
                    && text@ == j.explanation(),
    {
        let ghost board = self.board;
        let ghost queue = self.journeys@;
        let mut solver = self;
        match solver.find_solution_journey() {
            Some(solution_journey) => {
                let sum = solver.compute_sum_of_unvisited_cells(&solution_journey);
                let explanation = solution_journey.explain();
                assert(is_first_solution(solution_journey, &board, queue));
                assert(is_solution_on(solution_journey, &board));
                Solution::Found(sum, explanation)
            },
            None => Solution::NotFound,
        }
    }

    /// The sum of the values of the cells that `solution_journey` never
    /// visited.
    pub fn compute_sum_of_unvisited_cells(&self, solution_journey: &Journey) -> (r: i16)
        requires
            self.spec_board().wf(),
        ensures
            r == self.spec_board().unvisited_sum(
                positions_of(solution_journey.visited_cells@).to_set(),
            ),
    {
        let cells = &solution_journey.visited_cells;
        let mut unique_visited_positions: Vec<Position> = Vec::new();
        let mut i: usize = 0;
        while i < cells.len()
            invariant
                i <= cells@.len(),
                unique_visited_positions@ == positions_of(cells@.take(i as int)),
            decreases cells@.len() - i,
        {
            unique_visited_positions.push(*cells[i].get_position());
            i += 1;
            assert(unique_visited_positions@ =~= positions_of(cells@.take(i as int)));
        }
        assert(cells@.take(i as int) =~= cells@);
        self.board.compute_sum_of_unvisited_cells(&unique_visited_positions)
    }

    /// Attempts to roll the die, now showing `dice`, onto `cell` at turn
    /// `new_turn`, when the score before the roll was `score` and the path so
    /// far is `visited_cells`.
    pub fn try_dice_movement(
        dice: Dice,
        score: i16,
        new_turn: i16,
        cell: Cell,
        visited_cells: &Vec<Cell>,
    ) -> (r: MovementOutcome)
        requires
            new_turn >= 1,
        ensures
            is_outcome_of(
                r,
                movement_result(dice, score as int, new_turn as int, cell.value as int),
                new_turn,
                visited_cells@,
                cell,
            ),
    {
        let new_dice = match dice.get_top() {
            Some(dice_top) => {
                proof {
                    assert(-32768 * 32768 <= new_turn * dice_top <= 32768 * 32768)
                        by (nonlinear_arith)
                        requires
                            1 <= new_turn <= 32767,
                            -32768 <= dice_top <= 32767,
                    ;
                }
                let new_score: i32 = score as i32 + new_turn as i32 * dice_top as i32;
                if new_score != cell.get_value() as i32 {
                    return MovementOutcome::Invalid;
                }
                dice
            },
            None => {
                let score_diff: i32 = cell.get_value() as i32 - score as i32;
                let quotient = exact_quotient(score_diff, new_turn as i32);
                match quotient {
                    Some(new_dice_top) => {
                        if new_dice_top < i16::MIN as i32 || new_dice_top > i16::MAX as i32 {
                            return MovementOutcome::Invalid;
                        }
                        dice.set_top(new_dice_top as i16)
                    },
                    None => {
                        return MovementOutcome::Invalid;
                    },
                }
            },
        };
        let valid_journey = Journey {
            dice: new_dice,
            turn: new_turn,
            visited_cells: extended_path(visited_cells, cell),
        };
        if cell.is_end_cell() {
            MovementOutcome::SolutionJourney(valid_journey)
        } else {
            MovementOutcome::ValidJourney(valid_journey)
        }
    }

    /// Runs the search: takes journeys from the front of the queue and tries
    /// the four rolls from each, queueing the valid ones at the back, until a
    /// roll reaches the end cell. The journey returned then takes the fewest
    /// rolls of all solutions that continue a queued journey; `None` comes
    /// only once the queue is empty, when no solution continues one.
    pub fn find_solution_journey(&mut self) -> (r: Option<Journey>)
        requires
            old(self).wf(),
        ensures
            final(self).wf(),
            final(self).spec_board() == old(self).spec_board(),
            r matches Some(j) ==> is_first_solution(j, &old(self).spec_board(), old(self).queue()),
            r is None ==> final(self).queue().len() == 0 && forall|s: Journey|
                #[trigger] is_solution_on(s, &old(self).spec_board()) ==> !extends_some(
                    old(self).queue(),
                    s,
                ),
    {
        let ghost oq = self.journeys@;
        loop
            invariant
                self.wf(),
                self.board == old(self).board,
                oq == old(self).journeys@,
                forall|s: Journey|
                    #[trigger] is_solution_on(s, &self.board) && extends_some(oq, s)
                        ==> extends_some(self.journeys@, s),
                forall|i: int| 0 <= i < self.journeys@.len() ==> extends_some(oq, #[trigger] self.journeys@[i]),
            decreases queue_weight(self.journeys@),
        {
            let ghost q0 = self.journeys@;
            let journey = match self.journeys.pop_front() {
                Some(journey) => journey,
                None => {
                    return None;
                },
            };
            let ghost rest = self.journeys@;
            let ghost n = journey.visited_cells@.len() as int;
            proof {
                assert(q0[0] == journey);
                assert(rest =~= q0.subrange(1, q0.len() as int));
                lemma_queue_weight_front(q0);
                assert forall|i: int| 0 <= i < rest.len() implies #[trigger] rest[i] == q0[i + 1] by {}
                assert(queue_ok(rest, &self.board)) by {
                    assert forall|i: int| 0 <= i < rest.len() implies (#[trigger] rest[i]).is_consistent_on(&self.board)
                        && rest[i].knows_only_forced_faces(&self.board) && rest[i].avoids_end() by {
                        assert(rest[i] == q0[i + 1]);
                    }
                }
                assert forall|s: Journey|
                    #[trigger] is_solution_on(s, &self.board) && extends_some(oq, s) implies extends_some(rest, s)
                        || (is_prefix_of(journey.visited_cells@, s.visited_cells@)
                        && s.visited_cells@.len() > n) by {
                    assert(extends_some(q0, s));
                    let i = choose|i: int| 0 <= i < q0.len() && is_prefix_of(#[trigger] q0[i].visited_cells@, s.visited_cells@);
                    if i == 0 {
                        lemma_solution_outgrows(&journey, &s);
                    } else {
                        assert(rest[i - 1] == q0[i]);
                    }
                }
            }
            if journey.turn < i16::MAX {
                let last_visited_cell = journey.get_last_visited_cell();
                let new_turn = journey.turn + 1;
                let directions = Direction::all();
                let mut k: usize = 0;
                while k < 4
                    invariant
                        self.board.wf(),
                        self.board == old(self).board,
                        oq == old(self).journeys@,
                        journey.is_consistent_on(&self.board),
                        journey.knows_only_forced_faces(&self.board),
                        journey.avoids_end(),
                        extends_some(oq, journey),
                        n == journey.visited_cells@.len(),
                        *last_visited_cell == journey.visited_cells@.last(),
                        new_turn == journey.turn + 1,
                        directions@ == direction_order(),
                        k <= 4,
                        queue_ok(self.journeys@, &self.board),
                        forall|i: int, m: int|
                            0 <= i <= m < self.journeys@.len() ==> #[trigger] self.journeys@[i].turn
                                <= #[trigger] self.journeys@[m].turn,
                        forall|i: int|
                            0 <= i < self.journeys@.len() ==> journey.turn <= #[trigger] self.journeys@[i].turn
                                <= journey.turn + 1,
                        forall|i: int| 0 <= i < self.journeys@.len() ==> extends_some(oq, #[trigger] self.journeys@[i]),
                        forall|s: Journey|
                            #[trigger] is_solution_on(s, &self.board) && extends_some(oq, s)
                                ==> extends_some(self.journeys@, s) || (is_prefix_of(
                                journey.visited_cells@,
                                s.visited_cells@,
                            ) && s.visited_cells@.len() > n && order_index(
                                step_between(
                                    journey.visited_cells@.last().position,
                                    s.visited_cells@[n].position,
                                ).unwrap(),
                            ) >= k),
                        queue_weight(self.journeys@) <= queue_weight(rest) + k * turn_weight(
                            journey.turn + 1,
                        ),
                    decreases 4 - k,
                {
                    let direction = directions[k];
                    let ghost cur = self.journeys@;
                    assert(order_index(direction) == k);
                    let moved = self.board.move_in(last_visited_cell, direction);
                    proof {
                        assert forall|s: Journey|
                            #[trigger] is_solution_on(s, &self.board) && extends_some(oq, s) && !extends_some(cur, s)
                                && order_index(
                                step_between(
                                    journey.visited_cells@.last().position,
                                    s.visited_cells@[n].position,
                                ).unwrap(),
                            ) == k implies moved == Some(s.visited_cells@[n]) && movement_result(
                            journey.dice.rolled(direction),
                            last_visited_cell.value as int,
                            new_turn as int,
                            s.visited_cells@[n].value as int,
                        ) is Some by {
                            lemma_continuation_is_valid(&journey, &self.board, &s);
                        }
                    }
                    if let Some(cell) = moved {
                        let rolled_dice = journey.dice.roll_in(direction);
                        let outcome = Solver::try_dice_movement(
                            rolled_dice,
                            last_visited_cell.get_value(),
                            new_turn,
                            cell,
                            &journey.visited_cells,
                        );
                        proof {
                            lemma_movement_rule(
                                rolled_dice,
                                last_visited_cell.value as int,
                                new_turn as int,
                                cell.value as int,
                            );
                        }
                        match outcome {
                            MovementOutcome::SolutionJourney(next) => {
                                proof {
                                    lemma_extend_consistent(
                                        &journey,
                                        &self.board,
                                        direction,
                                        cell,
                                        next.dice,
                                        &next,
                                    );
                                    let m = choose|m: int| 0 <= m < oq.len() && is_prefix_of(#[trigger] oq[m].visited_cells@, journey.visited_cells@);
                                    assert(is_prefix_of(oq[m].visited_cells@, next.visited_cells@)) by {
                                        assert forall|t: int| 0 <= t < oq[m].visited_cells@.len() implies #[trigger] oq[m].visited_cells@[t]
                                            == next.visited_cells@[t] by {
                                            assert(oq[m].visited_cells@[t] == journey.visited_cells@[t]);
                                        }
                                    }
                                    assert forall|t: int| 0 <= t < next.visited_cells@.len() - 1 implies (#[trigger] next.visited_cells@[t]).position
                                        != end_position() by {
                                        assert(next.visited_cells@[t] == journey.visited_cells@[t]);
                                    }
                                    assert forall|s: Journey| #[trigger] is_solution_on(s, &self.board) && extends_some(oq, s) implies next.turn <= s.turn by {
                                        if extends_some(cur, s) {
                                            let i = choose|i: int| 0 <= i < cur.len() && is_prefix_of(#[trigger] cur[i].visited_cells@, s.visited_cells@);
                                            lemma_solution_outgrows(&cur[i], &s);
                                        }
                                    }
                                    assert(self.journeys@.len() > 0 ==> self.journeys@[0].turn >= journey.turn);
                                }
                                return Some(next);
                            },
                            MovementOutcome::ValidJourney(next) => {
                                proof {
                                    lemma_extend_consistent(
                                        &journey,
                                        &self.board,
                                        direction,
                                        cell,
                                        next.dice,
                                        &next,
                                    );
                                    lemma_child_knows_only_forced_faces(
                                        &journey,
                                        &self.board,
                                        direction,
                                        cell,
                                        &next,
                                    );
                                    assert forall|t: int| 0 <= t < next.visited_cells@.len() implies (#[trigger] next.visited_cells@[t]).position
                                        != end_position() by {
                                        if t < n {
                                            assert(next.visited_cells@[t] == journey.visited_cells@[t]);
                                        }
                                    }
                                    let m = choose|m: int| 0 <= m < oq.len() && is_prefix_of(#[trigger] oq[m].visited_cells@, journey.visited_cells@);
                                    assert(is_prefix_of(oq[m].visited_cells@, next.visited_cells@)) by {
                                        assert forall|t: int| 0 <= t < oq[m].visited_cells@.len() implies #[trigger] oq[m].visited_cells@[t]
                                            == next.visited_cells@[t] by {
                                            assert(oq[m].visited_cells@[t] == journey.visited_cells@[t]);
                                        }
                                    }
                                    lemma_queue_weight_push(cur, next);
                                }
                                self.journeys.push_back(next);
                                proof {
                                    let q = self.journeys@;
                                    assert(q == cur.push(next));
                                    assert forall|i: int| 0 <= i < cur.len() implies #[trigger] q[i] == cur[i] by {}
                                    assert(q[cur.len() as int] == next);
                                    assert forall|s: Journey|
                                        #[trigger] is_solution_on(s, &self.board) && extends_some(oq, s) && order_index(
                                            step_between(
                                                journey.visited_cells@.last().position,
                                                s.visited_cells@[n].position,
                                            ).unwrap(),
                                        ) == k && is_prefix_of(journey.visited_cells@, s.visited_cells@)
                                            && s.visited_cells@.len() > n && !extends_some(cur, s) implies extends_some(q, s) by {
                                        assert(is_prefix_of(q[cur.len() as int].visited_cells@, s.visited_cells@)) by {
                                            assert forall|t: int| 0 <= t < next.visited_cells@.len() implies #[trigger] next.visited_cells@[t]
                                                == s.visited_cells@[t] by {
                                                if t < n {
                                                    assert(next.visited_cells@[t] == journey.visited_cells@[t]);
                                                }
                                            }
                                        }
                                    }
                                    assert forall|s: Journey| #[trigger] is_solution_on(s, &self.board) && extends_some(cur, s) implies extends_some(q, s) by {
                                        let i = choose|i: int| 0 <= i < cur.len() && is_prefix_of(#[trigger] cur[i].visited_cells@, s.visited_cells@);
                                        assert(q[i] == cur[i]);
                                    }
                                    assert((k + 1) * turn_weight(journey.turn + 1) == k * turn_weight(journey.turn + 1) + turn_weight(journey.turn + 1)) by (nonlinear_arith);
                                }
                            },
                            MovementOutcome::Invalid => {
                                proof {
                                    assert((k + 1) * turn_weight(journey.turn + 1) >= k * turn_weight(journey.turn + 1)) by (nonlinear_arith);
                                }
                            },
                        }
                    } else {
                        proof {
                            assert((k + 1) * turn_weight(journey.turn + 1) >= k * turn_weight(journey.turn + 1)) by (nonlinear_arith);
                        }
                    }
                    k += 1;
                }
                proof {
                    assert(turn_weight(journey.turn as int) == 5 * turn_weight(journey.turn + 1));
                    lemma_turn_weight_positive(journey.turn + 1);
                    assert forall|s: Journey| #[trigger] is_solution_on(s, &self.board) && extends_some(oq, s) implies extends_some(self.journeys@, s) by {
                        assert(order_index(
                            step_between(
                                journey.visited_cells@.last().position,
                                s.visited_cells@[n].position,
                            ).unwrap(),
                        ) < 4);
                    }
                }
            } else {
                proof {
                    lemma_turn_weight_positive(journey.turn as int);
                    assert forall|s: Journey| #[trigger] is_solution_on(s, &self.board) && extends_some(oq, s) implies extends_some(rest, s) by {
                        if !extends_some(rest, s) {
                            lemma_continuation_is_valid(&journey, &self.board, &s);
                        }
                    }
                }
            }
        }
    }
}

} // verus!
