use die_agony::board::Cell;
use die_agony::dice::Dice;
use die_agony::journey::Journey;
use die_agony::solver::{MovementOutcome, Solution, Solver};

fn create_default_journey() -> Journey {
    Journey {
        dice: Dice::default(),
        turn: 0,
        visited_cells: Vec::new(),
    }
}

#[test]
fn solver_compute_sum_of_unvisited_cells_works() {
    let solver = Solver::new();
    let mut journey = create_default_journey();

    assert_eq!(
        solver.compute_sum_of_unvisited_cells(&journey),
        solver.board().compute_sum_of_unvisited_cells(&Vec::new())
    );

    let visited_position = (3, 2);
    let visited_cell = solver.board().get_cell_at(visited_position.clone()).unwrap();
    journey.visited_cells = vec![visited_cell];

    assert_eq!(
        solver.compute_sum_of_unvisited_cells(&journey),
        solver
            .board()
            .compute_sum_of_unvisited_cells(&vec![visited_position])
    );
}

#[test]
fn solver_finds_right_solution() {
    let solution = Solver::new().solve();

    assert!(solution.found_solution());
    let (sum_unvisited_cells, _) = solution.unwrap();
    assert_eq!(sum_unvisited_cells, 1935);
}

fn start() -> Cell {
    Cell {
        value: 0,
        position: (5, 0),
    }
}

fn journey_of(outcome: MovementOutcome) -> Option<(bool, Journey)> {
    match outcome {
        MovementOutcome::SolutionJourney(j) => Some((true, j)),
        MovementOutcome::ValidJourney(j) => Some((false, j)),
        MovementOutcome::Invalid => None,
    }
}

#[test]
fn known_top_must_give_the_cell_value() {
    let dice = Dice::default().set_top(4);
    let cell = Cell {
        value: 17,
        position: (4, 2),
    };
    let (done, j) = journey_of(Solver::try_dice_movement(dice, 5, 3, cell, &vec![start()])).unwrap();
    assert!(!done);
    assert_eq!(j.dice, dice);
    assert_eq!(j.turn, 3);
    assert_eq!(j.visited_cells, vec![start(), cell]);

    let wrong = Cell {
        value: 18,
        position: (4, 2),
    };
    assert!(journey_of(Solver::try_dice_movement(dice, 5, 3, wrong, &vec![start()])).is_none());
}

#[test]
fn unknown_top_is_inferred_when_it_divides() {
    let cell = Cell {
        value: -7,
        position: (3, 0),
    };
    let (done, j) = journey_of(Solver::try_dice_movement(
        Dice::default(),
        5,
        2,
        cell,
        &vec![start()],
    ))
    .unwrap();
    assert!(!done);
    assert_eq!(j.dice.get_top(), Some(-6));
    assert_eq!(j.dice, Dice::default().set_top(-6));

    let odd = Cell {
        value: -6,
        position: (3, 0),
    };
    assert!(journey_of(Solver::try_dice_movement(Dice::default(), 5, 2, odd, &vec![start()])).is_none());
}

#[test]
fn inferred_top_must_fit_a_side() {
    let cell = Cell {
        value: 32767,
        position: (0, 0),
    };
    assert!(journey_of(Solver::try_dice_movement(Dice::default(), -32768, 1, cell, &vec![start()])).is_none());
    let (_, j) = journey_of(Solver::try_dice_movement(Dice::default(), -32768, 3, cell, &vec![start()])).unwrap();
    assert_eq!(j.dice.get_top(), Some(21845));
}

#[test]
fn reaching_the_end_cell_solves_the_journey() {
    let end = Cell {
        value: 732,
        position: (0, 5),
    };
    let (done, j) = journey_of(Solver::try_dice_movement(
        Dice::default(),
        508,
        7,
        end,
        &vec![start()],
    ))
    .unwrap();
    assert!(done);
    assert_eq!(j.dice.get_top(), Some(32));
    assert_eq!(j.visited_cells.last(), Some(&end));
}

#[test]
fn explanation_replays_a_short_journey() {
    let cells = vec![
        start(),
        Cell {
            value: 5,
            position: (4, 0),
        },
        Cell {
            value: -7,
            position: (3, 0),
        },
    ];
    let dice = Dice {
        top: Some(-6),
        bottom: None,
        left: None,
        right: None,
        front: Some(5),
        back: None,
    };
    let journey = Journey {
        dice,
        turn: 2,
        visited_cells: cells,
    };
    assert_eq!(
        journey.explain(),
        "We started with the following dice: Dice { top: None, bottom: Some(-6), left: None, right: None, front: None, back: Some(5) }\n\
         Turn 1 we rolled the dice UP (top=5). Score was 0, now is `0 + (1 x 5) = 5` (cell value = 5).\n\
         Turn 2 we rolled the dice UP (top=-6). Score was 5, now is `5 + (2 x -6) = -7` (cell value = -7)."
    );
    assert_eq!(journey.get_last_visited_cell().get_value(), -7);
}

#[test]
fn solution_explanation_scores_match_the_cells() {
    let (_, explanation) = Solver::new().solve().unwrap();
    let mut lines = explanation.lines();
    assert!(lines
        .next()
        .unwrap()
        .starts_with("We started with the following dice: Dice { top: "));
    let mut previous = 0i64;
    let mut turns = 0;
    for (index, line) in lines.enumerate() {
        assert!(line.starts_with(&format!("Turn {} we rolled the dice ", index + 1)));
        let score_was: i64 = line
            .split("Score was ")
            .nth(1)
            .unwrap()
            .split(',')
            .next()
            .unwrap()
            .parse()
            .unwrap();
        let new_score: i64 = line
            .split(") = ")
            .nth(1)
            .unwrap()
            .split('`')
            .next()
            .unwrap()
            .parse()
            .unwrap();
        let cell_value: i64 = line
            .split("(cell value = ")
            .nth(1)
            .unwrap()
            .trim_end_matches(").")
            .parse()
            .unwrap();
        assert_eq!(score_was, previous);
        assert_eq!(new_score, cell_value);
        previous = new_score;
        turns += 1;
    }
    assert!(turns > 0);
    assert_eq!(previous, 732);
}

#[test]
fn no_solution_is_not_found() {
    assert!(!Solution::NotFound.found_solution());
}

#[test]
fn search_returns_a_path_that_meets_the_end_cell_only_at_its_last_step() {
    let mut solver = Solver::new();
    let start_cell = solver.board().start_cell();
    let journey = solver.find_solution_journey().unwrap();
    let cells = &journey.visited_cells;
    assert_eq!(cells[0], start_cell);
    assert_eq!(journey.turn as usize, cells.len() - 1);
    assert!(cells.last().unwrap().is_end_cell());
    assert!(cells[..cells.len() - 1].iter().all(|c| !c.is_end_cell()));
    for pair in cells.windows(2) {
        let (a, b) = (pair[0].get_position(), pair[1].get_position());
        let step = a.0.abs_diff(b.0) + a.1.abs_diff(b.1);
        assert_eq!(step, 1);
    }
}
