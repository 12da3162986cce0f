use rush_hour::board::Board;
use rush_hour::state::{heuristic, State};
use rush_hour::{bfs, ida_star};

fn scenario_board() -> [[i8; 6]; 6] {
    [
        [0, 0, 0, 0, 0, 0],
        [0, 0, 2, 0, 0, 0],
        [1, 1, 2, 3, 0, 0],
        [0, 0, 0, 3, 0, 0],
        [0, 0, 0, 0, 0, 0],
        [0, 0, 0, 0, 0, 0],
    ]
}

fn goal_board() -> [[i8; 6]; 6] {
    [
        [0, 0, 0, 0, 0, 0],
        [0, 0, 0, 0, 0, 0],
        [0, 0, 0, 0, 1, 1],
        [0, 0, 0, 0, 0, 0],
        [0, 0, 0, 0, 0, 0],
        [0, 0, 0, 0, 0, 0],
    ]
}

/// The target can never pass the length-3 piece parked over the exit
/// columns of its own row.
fn blocked_board() -> [[i8; 6]; 6] {
    [
        [0, 0, 0, 0, 0, 0],
        [0, 0, 0, 0, 0, 0],
        [1, 1, 0, 2, 2, 2],
        [0, 0, 0, 0, 0, 0],
        [0, 0, 0, 0, 0, 0],
        [0, 0, 0, 0, 0, 0],
    ]
}

/// Every row is packed with horizontal pieces, so no piece has a step.
fn gridlocked_board() -> [[i8; 6]; 6] {
    [
        [2, 2, 2, 3, 3, 3],
        [4, 4, 4, 5, 5, 5],
        [1, 1, 6, 6, 7, 7],
        [8, 8, 9, 9, 10, 10],
        [11, 11, 11, 12, 12, 12],
        [13, 13, 14, 14, 15, 15],
    ]
}

#[test]
fn scenario_solved_in_six_moves() {
    let bfs_solution = bfs::solve(scenario_board());
    let ida_solution = ida_star::solve(scenario_board());
    assert_eq!(bfs_solution.len(), 6);
    assert_eq!(ida_solution.len(), 6);
}

#[test]
fn both_solvers_agree_on_length() {
    for board in [scenario_board(), goal_board(), blocked_board(), gridlocked_board()] {
        assert_eq!(bfs::solve(board).len(), ida_star::solve(board).len());
    }
}

#[test]
fn replaying_bfs_solution_reaches_goal() {
    let board = scenario_board();
    let mut current = Board::new(board);
    for step in bfs::solve(board) {
        current = current.apply_step(step);
    }
    assert!(current.is_goal());
}

#[test]
fn replaying_ida_solution_reaches_goal() {
    let board = scenario_board();
    let mut current = Board::new(board);
    for step in ida_star::solve(board) {
        current = current.apply_step(step);
    }
    assert!(current.is_goal());
}

#[test]
fn solved_board_yields_empty_solutions() {
    assert!(bfs::solve(goal_board()).is_empty());
    assert!(ida_star::solve(goal_board()).is_empty());
}

#[test]
fn blocked_board_yields_empty_solutions() {
    assert!(bfs::solve(blocked_board()).is_empty());
    assert!(ida_star::solve(blocked_board()).is_empty());
}

#[test]
fn gridlocked_board_yields_empty_solutions() {
    assert!(Board::new(gridlocked_board()).get_possible_steps().is_empty());
    assert!(bfs::solve(gridlocked_board()).is_empty());
    assert!(ida_star::solve(gridlocked_board()).is_empty());
}

#[test]
fn heuristic_never_exceeds_solution_length() {
    let state = State { board: Board::new(scenario_board()), total_cost: 0, steps: Vec::new() };
    let estimate = heuristic(&state) as usize;
    assert!(estimate <= bfs::solve(scenario_board()).len());
}
