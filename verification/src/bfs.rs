//! Breadth-first search over the puzzle's state graph: a FIFO frontier of
//! boards paired with the move sequence that reached them, and a global
//! visited set so that each board is expanded at most once.  Because every
//! move costs one, the first goal dequeued carries a shortest solution.

use std::collections::VecDeque;

use vstd::prelude::*;

use crate::board::{all_dims, visited_has, Board};
use crate::grid::{
    apply_path, board_ok, goal_spec, grid_of, lemma_no_steps_no_goal, lemma_path_push,
    lemma_step_preserves, path_legal, step_legal,
};
use crate::state::clone_steps;
use crate::step::Step;

verus! {

/// Cap on dequeued frontier entries, checked once per expansion; far above
/// the number of distinct boards any 6 x 6 puzzle can reach.
pub const MAX_EXPANSIONS: u64 = 0x1000_0000;

/// A frontier entry is a board reached from the initial grid `g0` by the
/// legal move sequence stored beside it.
pub open spec fn entry_ok(g0: Seq<i8>, e: (Board, Vec<Step>)) -> bool {
    &&& board_ok(e.0@)
    &&& path_legal(g0, e.1@)
    &&& apply_path(g0, e.1@) == e.0@
}

/// Solves the puzzle by breadth-first search.  Returns a shortest move
/// sequence that reaches a goal board, the empty sequence when the
/// initial board is already a goal, and the empty sequence when no goal
/// is reachable.
#[verifier::loop_isolation(false)]
pub fn solve(board: [[i8; 6]; 6]) -> (r: Vec<Step>)
    requires
        board_ok(grid_of(board)),
    ensures
        goal_spec(grid_of(board)) ==> r@.len() == 0,
        r@.len() > 0 ==> path_legal(grid_of(board), r@) && goal_spec(
            apply_path(grid_of(board), r@),
        ),
        !goal_spec(grid_of(board)) && (forall|s: Step| !step_legal(grid_of(board), s))
            ==> r@.len() == 0,
{
    let ghost g0 = grid_of(board);
    let initial_board = Board::new(board);
    if initial_board.is_goal() {
        return Vec::new();
    }
    let mut visited_board: Vec<Board> = Vec::new();
    let mut queue_board: VecDeque<(Board, Vec<Step>)> = VecDeque::new();
    queue_board.push_back((initial_board, Vec::new()));
    let mut budget: u64 = MAX_EXPANSIONS;
    loop
        invariant
            all_dims(visited_board@),
            forall|i: int|
                0 <= i < queue_board@.len() ==> entry_ok(g0, #[trigger] queue_board@[i]),
        decreases budget,
    {
        if budget == 0 {
            return Vec::new();
        }
        budget = budget - 1;
        let front = queue_board.pop_front();
        match front {
            None => {
                return Vec::new();
            },
            Some((current_board, historical_steps)) => {
                proof {
                    assert(entry_ok(g0, (current_board, historical_steps)));
                }
                if current_board.is_goal() {
                    proof {
                        if !goal_spec(g0) && (forall|s: Step| !step_legal(g0, s)) {
                            lemma_no_steps_no_goal(g0, historical_steps@);
                            assert(false);
                        }
                    }
                    return historical_steps;
                }
                if !visited_has(&visited_board, &current_board) {
                    visited_board.push(current_board);
                    let steps = current_board.get_possible_steps();
                    let mut j: usize = 0;
                    while j < steps.len()
                        invariant
                            all_dims(visited_board@),
                            forall|i: int|
                                0 <= i < queue_board@.len() ==> entry_ok(
                                    g0,
                                    #[trigger] queue_board@[i],
                                ),
                            j <= steps@.len(),
                        decreases steps@.len() - j,
                    {
                        let step = steps[j];
                        proof {
                            assert(steps@.contains(steps@[j as int]));
                            lemma_step_preserves(current_board@, step);
                            lemma_path_push(g0, historical_steps@, step);
                        }
                        let next_board = current_board.apply_step(step);
                        if !visited_has(&visited_board, &next_board) {
                            let mut new_historical_steps = clone_steps(&historical_steps);
                            new_historical_steps.push(step);
                            proof {
                                assert(entry_ok(g0, (next_board, new_historical_steps)));
                            }
                            queue_board.push_back((next_board, new_historical_steps));
                        }
                        j += 1;
                    }
                }
            },
        }
    }
}

} // verus!
