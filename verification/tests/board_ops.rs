use rush_hour::board::Board;
use rush_hour::state::{generate_successors, heuristic, State};
use rush_hour::step::{MovementDirection, Orientation, Step};

fn scenario_board() -> [[i8; 6]; 6] {
    [
        [0, 0, 0, 0, 0, 0],
        [0, 0, 2, 0, 0, 0],
        [1, 1, 2, 3, 0, 0],
        [0, 0, 0, 3, 0, 0],
        [0, 0, 0, 0, 0, 0],
        [0, 0, 0, 0, 0, 0],
    ]
}

fn goal_board() -> [[i8; 6]; 6] {
    [
        [0, 0, 0, 0, 0, 0],
        [0, 0, 0, 0, 0, 0],
        [0, 0, 0, 0, 1, 1],
        [0, 0, 0, 0, 0, 0],
        [0, 0, 0, 0, 0, 0],
        [0, 0, 0, 0, 0, 0],
    ]
}

#[test]
fn goal_test_detects_target_at_exit() {
    assert!(Board::new(goal_board()).is_goal());
}

#[test]
fn goal_test_rejects_target_away_from_exit() {
    assert!(!Board::new(scenario_board()).is_goal());
    let nearly = [
        [0, 0, 0, 0, 0, 0],
        [0, 0, 0, 0, 0, 0],
        [0, 0, 0, 1, 1, 0],
        [0, 0, 0, 0, 0, 0],
        [0, 0, 0, 0, 0, 0],
        [0, 0, 0, 0, 0, 0],
    ];
    assert!(!Board::new(nearly).is_goal());
}

#[test]
fn possible_steps_of_scenario_board() {
    let steps = Board::new(scenario_board()).get_possible_steps();
    let expected = vec![
        Step { car_id: 2, direction: MovementDirection::Up },
        Step { car_id: 2, direction: MovementDirection::Down },
        Step { car_id: 3, direction: MovementDirection::Up },
        Step { car_id: 3, direction: MovementDirection::Down },
    ];
    assert_eq!(steps, expected);
}

#[test]
fn possible_steps_stay_on_grid_and_on_empty_cells() {
    let b = Board::new(scenario_board());
    for step in b.get_possible_steps() {
        // applying a generated step must succeed and keep one cell of the
        // moved piece adjacent to where it was
        let after = b.apply_step(step);
        let mut before_count = 0;
        let mut after_count = 0;
        for x in 0..6 {
            for y in 0..6 {
                if b.at(x, y) == step.car_id {
                    before_count += 1;
                }
                if after.at(x, y) == step.car_id {
                    after_count += 1;
                }
            }
        }
        assert_eq!(before_count, after_count);
    }
}

#[test]
fn apply_step_shifts_the_piece_one_cell() {
    let b = Board::new(scenario_board());
    let after = b.apply_step(Step { car_id: 2, direction: MovementDirection::Up });
    assert_eq!(after.at(0, 2), 2);
    assert_eq!(after.at(1, 2), 2);
    assert_eq!(after.at(2, 2), 0);
    // everything else is untouched
    assert_eq!(after.at(2, 0), 1);
    assert_eq!(after.at(2, 1), 1);
    assert_eq!(after.at(2, 3), 3);
    assert_eq!(after.at(3, 3), 3);
    assert_eq!(after.at(5, 5), 0);
}

#[test]
fn orientation_is_read_from_the_grid() {
    let state = State { board: Board::new(scenario_board()), total_cost: 0, steps: Vec::new() };
    assert_eq!(state.get_orientation(1), Some(Orientation::Horizontal));
    assert_eq!(state.get_orientation(2), Some(Orientation::Vertical));
    assert_eq!(state.get_orientation(3), Some(Orientation::Vertical));
    assert_eq!(state.get_orientation(9), None);
}

#[test]
fn can_move_respects_blockers_and_axes() {
    let state = State { board: Board::new(scenario_board()), total_cost: 0, steps: Vec::new() };
    assert!(state.can_move(2, &MovementDirection::Up));
    assert!(state.can_move(2, &MovementDirection::Down));
    assert!(state.can_move(3, &MovementDirection::Up));
    assert!(state.can_move(3, &MovementDirection::Down));
    // the target piece is blocked on the right and at the wall on the left
    assert!(!state.can_move(1, &MovementDirection::Right));
    assert!(!state.can_move(1, &MovementDirection::Left));
    // no piece moves off its own axis
    assert!(!state.can_move(1, &MovementDirection::Up));
    assert!(!state.can_move(2, &MovementDirection::Left));
}

#[test]
fn successors_extend_cost_and_steps() {
    let state = State { board: Board::new(scenario_board()), total_cost: 0, steps: Vec::new() };
    let successors = generate_successors(&state);
    // exactly one successor per legal step, in the move generator's order
    let steps = state.board.get_possible_steps();
    assert_eq!(successors.len(), steps.len());
    assert_eq!(successors.len(), 4);
    for (su, step) in successors.iter().zip(steps.iter()) {
        assert_eq!(su.total_cost, 1);
        assert_eq!(su.steps, vec![*step]);
        assert!(!su.board.is_goal());
    }
}

#[test]
fn heuristic_counts_columns_to_exit() {
    let far = State { board: Board::new(scenario_board()), total_cost: 0, steps: Vec::new() };
    assert_eq!(heuristic(&far), 4);
    let done = State { board: Board::new(goal_board()), total_cost: 0, steps: Vec::new() };
    assert_eq!(heuristic(&done), 0);
}
