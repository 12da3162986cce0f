//! Iterative-deepening A* search: a depth-first search bounded by an
//! accumulated-cost-plus-heuristic threshold, retried with the smallest
//! overrun seen until a goal is found or the whole space is exhausted.
//!
//! The visited set is scoped to the current search path: a board is marked
//! on entry to a branch and unmarked when the branch is exhausted, so the
//! same board may be revisited on a different branch or a later iteration,
//! but never within a cycle along the current path.

use vstd::prelude::*;

use crate::board::{
    all_dims, lemma_avoids_push_or_suffix, lemma_path_avoids_empty, path_avoids, visited_contains,
    visited_has, Board,
};
use crate::grid::{
    apply_path, apply_step_spec, board_ok, goal_spec, grid_of, h_run, heuristic_spec,
    lemma_goal_iff_heuristic_zero, lemma_heuristic_admissible, lemma_path_push,
    lemma_step_preserves, lemma_target_run_rightmost, lemma_target_wf_in_row, path_legal,
    step_legal,
};
use crate::state::{
    clone_steps, generate_successors, has_successor, heuristic, successor_for, successor_of, State,
};
use crate::step::Step;

verus! {

/// Any goal path from a node is at least as costly as the bound that the
/// node's fully explored successors report: the path's first step leads
/// into one of the successors, and either its remainder stays off the
/// current search path and is bounded there, or it comes back through
/// this node, where a path at most as long starts and the same argument
/// applies to it.
proof fn lemma_search_bound(st: State, succs: Seq<State>, vs: Seq<Board>, min: u32, q: Seq<Step>)
    requires
        board_ok(st.board@),
        !goal_spec(st.board@),
        forall|i: int| 0 <= i < succs.len() ==> successor_of(st, #[trigger] succs[i]),
        forall|s: Step| #[trigger] step_legal(st.board@, s) ==> has_successor(st, succs, s),
        forall|k: int, q2: Seq<Step>|
            0 <= k < succs.len() && path_legal(succs[k].board@, q2) && goal_spec(
                apply_path(succs[k].board@, q2),
            ) && #[trigger] path_avoids(succs[k].board@, q2, vs.push(st.board)) ==> st.total_cost
                + 1 + q2.len() >= min,
        path_legal(st.board@, q),
        goal_spec(apply_path(st.board@, q)),
        path_avoids(st.board@, q, vs),
    ensures
        st.total_cost + q.len() >= min,
    decreases q.len(),
{
    assert(q.len() != 0);
    let s = q[0];
    assert(step_legal(st.board@, s));
    let b1 = apply_step_spec(st.board@, s);
    let q1 = q.drop_first();
    assert(path_avoids(b1, q1, vs));
    lemma_avoids_push_or_suffix(b1, q1, vs, st.board);
    if path_avoids(b1, q1, vs.push(st.board)) {
        assert(has_successor(st, succs, s));
        let k = choose|k: int| 0 <= k < succs.len() && successor_for(st, #[trigger] succs[k], s);
        assert(succs[k].board@ == b1);
        assert(path_avoids(succs[k].board@, q1, vs.push(st.board)));
        assert(st.total_cost + 1 + q1.len() >= min);
    } else {
        let q2 = choose|q2: Seq<Step>|
            path_legal(st.board@, q2) && goal_spec(apply_path(st.board@, q2)) && #[trigger]
            path_avoids(st.board@, q2, vs) && q2.len() <= q1.len();
        lemma_search_bound(st, succs, vs, min, q2);
    }
}

/// One bounded depth-first pass.  Returns either a goal path (found), or
/// a candidate next threshold: no goal path from this node that keeps off
/// the boards already on the search path costs less than the candidate,
/// which is `u32::MAX` when the branch is exhausted and otherwise
/// exceeds the threshold.
#[verifier::loop_isolation(false)]
pub fn search(
    state: &State,
    total_cost: u32,
    threshold: u32,
    visited: &mut Vec<Board>,
    initial: Ghost<Seq<i8>>,
) -> (r: (bool, u32, Vec<Step>))
    requires
        board_ok(state.board@),
        path_legal(initial@, state.steps@),
        apply_path(initial@, state.steps@) == state.board@,
        state.total_cost == total_cost,
        state.steps@.len() == total_cost,
        total_cost <= threshold,
        threshold < u32::MAX,
        all_dims(old(visited)@),
    ensures
        all_dims(final(visited)@),
        r.0 ==> path_legal(initial@, r.2@) && goal_spec(apply_path(initial@, r.2@)) && r.1
            == threshold && r.2@.len() <= threshold && r.2@.len() >= state.steps@.len()
            && r.2@.subrange(0, state.steps@.len() as int) == state.steps@,
        !r.0 ==> final(visited)@ == old(visited)@ && r.1 > threshold && r.2@.len() == 0,
        visited_contains(old(visited)@, state.board@) ==> !r.0 && r.1 == u32::MAX,
        !visited_contains(old(visited)@, state.board@) && total_cost + heuristic_spec(state.board@)
            > threshold ==> !r.0 && r.1 == (if total_cost + heuristic_spec(state.board@)
            <= u32::MAX {
            total_cost + heuristic_spec(state.board@)
        } else {
            u32::MAX as int
        }),
        !visited_contains(old(visited)@, state.board@) && total_cost + heuristic_spec(state.board@)
            <= threshold && goal_spec(state.board@) ==> r.0 && r.2@ == state.steps@,
        !visited_contains(old(visited)@, state.board@) && total_cost + heuristic_spec(state.board@)
            <= threshold && !goal_spec(state.board@) && (forall|s: Step|
            !step_legal(state.board@, s)) ==> !r.0 && r.1 == u32::MAX,
        !r.0 ==> forall|q: Seq<Step>|
            path_legal(state.board@, q) && goal_spec(apply_path(state.board@, q)) && #[trigger]
            path_avoids(state.board@, q, old(visited)@) ==> total_cost + q.len() >= r.1,
    decreases threshold - total_cost,
{
    if visited_has(visited, &state.board) {
        proof {
            assert forall|q: Seq<Step>|
                path_legal(state.board@, q) && goal_spec(apply_path(state.board@, q)) && #[trigger]
                path_avoids(state.board@, q, old(visited)@) implies total_cost + q.len()
                >= u32::MAX by {
                assert(!visited_contains(old(visited)@, state.board@));
            }
        }
        return (false, u32::MAX, Vec::new());
    }
    proof {
        lemma_target_wf_in_row(state.board@);
    }
    let h = heuristic(state);
    let cost64: u64 = total_cost as u64 + h as u64;
    if cost64 > threshold as u64 {
        let cand: u32 = if cost64 <= u32::MAX as u64 {
            cost64 as u32
        } else {
            u32::MAX
        };
        proof {
            assert forall|q: Seq<Step>|
                path_legal(state.board@, q) && goal_spec(apply_path(state.board@, q)) && #[trigger]
                path_avoids(state.board@, q, old(visited)@) implies total_cost + q.len()
                >= cand by {
                lemma_heuristic_admissible(state.board@, q);
            }
        }
        return (false, cand, Vec::new());
    }
    if state.board.is_goal() {
        proof {
            assert(state.steps@.subrange(0, state.steps@.len() as int) =~= state.steps@);
        }
        return (true, threshold, clone_steps(&state.steps));
    }
    proof {
        lemma_goal_iff_heuristic_zero(state.board@);
    }
    visited.push(state.board);
    let successors = generate_successors(state);
    let mut min: u32 = u32::MAX;
    let mut i: usize = 0;
    while i < successors.len()
        invariant
            i <= successors@.len(),
            min > threshold,
            i == 0 ==> min == u32::MAX,
            visited@ == old(visited)@.push(state.board),
            all_dims(visited@),
            forall|k: int, q2: Seq<Step>|
                0 <= k < i && path_legal(successors@[k].board@, q2) && goal_spec(
                    apply_path(successors@[k].board@, q2),
                ) && #[trigger] path_avoids(
                    successors@[k].board@,
                    q2,
                    old(visited)@.push(state.board),
                ) ==> total_cost + 1 + q2.len() >= min,
        decreases successors@.len() - i,
    {
        let successor = &successors[i];
        proof {
            let s = choose|s: Step| successor_for(*state, successors@[i as int], s);
            lemma_step_preserves(state.board@, s);
            lemma_path_push(initial@, state.steps@, s);
        }
        let ghost min_before = min;
        let (found, new_threshold, steps) = search(
            successor,
            total_cost + 1,
            threshold,
            visited,
            initial,
        );
        if found {
            proof {
                if forall|s: Step| !step_legal(state.board@, s) {
                    let s0 = choose|s: Step| successor_for(*state, successors@[i as int], s);
                    assert(false);
                }
                // the node's own steps stay a prefix of the found path
                let s2 = choose|s: Step| successor_for(*state, successors@[i as int], s);
                assert(successors@[i as int].steps@ == state.steps@.push(s2));
                let n = state.steps@.len() as int;
                assert forall|j: int| 0 <= j < n implies steps@[j] == state.steps@[j] by {
                    assert(steps@.subrange(0, n + 1)[j] == steps@[j]);
                    assert(state.steps@.push(s2)[j] == state.steps@[j]);
                }
                assert(steps@.subrange(0, n) =~= state.steps@);
            }
            return (true, new_threshold, steps);
        } else if new_threshold < min {
            min = new_threshold;
        }
        proof {
            assert forall|k: int, q2: Seq<Step>|
                0 <= k < i + 1 && path_legal(successors@[k].board@, q2) && goal_spec(
                    apply_path(successors@[k].board@, q2),
                ) && #[trigger] path_avoids(
                    successors@[k].board@,
                    q2,
                    old(visited)@.push(state.board),
                ) implies total_cost + 1 + q2.len() >= min by {
                if k < i {
                    assert(total_cost + 1 + q2.len() >= min_before);
                } else {
                    assert(total_cost + 1 + q2.len() >= new_threshold);
                }
            }
        }
        i += 1;
    }
    proof {
        assert forall|q: Seq<Step>|
            path_legal(state.board@, q) && goal_spec(apply_path(state.board@, q)) && #[trigger]
            path_avoids(state.board@, q, old(visited)@) implies total_cost + q.len() >= min by {
            lemma_search_bound(*state, successors@, old(visited)@, min, q);
        }
        if forall|s: Step| !step_legal(state.board@, s) {
            if successors.len() > 0 {
                let s0 = choose|s: Step| successor_for(*state, successors@[0], s);
                assert(false);
            }
        }
    }
    let _ = visited.pop();
    proof {
        assert(visited@ =~= old(visited)@);
    }
    (false, min, Vec::new())
}

/// Solves the puzzle by iterative-deepening A*: the threshold starts at
/// the heuristic of the initial board and grows to the smallest overrun
/// of each failed pass.  The result is a legal move sequence that reaches
/// a goal board and is no longer than any other such sequence; it is
/// empty when the initial board is already a goal, and empty when no goal
/// is reachable.
#[verifier::loop_isolation(false)]
pub fn solve(board: [[i8; 6]; 6]) -> (r: Vec<Step>)
    requires
        board_ok(grid_of(board)),
    ensures
        goal_spec(grid_of(board)) ==> r@.len() == 0,
        r@.len() > 0 ==> path_legal(grid_of(board), r@) && goal_spec(
            apply_path(grid_of(board), r@),
        ),
        forall|q: Seq<Step>|
            path_legal(grid_of(board), q) && goal_spec(apply_path(grid_of(board), q))
                ==> r@.len() <= q.len(),
        !goal_spec(grid_of(board)) && (exists|q: Seq<Step>|
            path_legal(grid_of(board), q) && goal_spec(apply_path(grid_of(board), q)) && q.len()
                < u32::MAX) ==> r@.len() > 0,
{
    let ghost g0 = grid_of(board);
    let b = Board::new(board);
    if b.is_goal() {
        return Vec::new();
    }
    let state = State { board: b, total_cost: 0, steps: Vec::new() };
    proof {
        lemma_target_wf_in_row(g0);
        let (c0, l) = choose|c0: int, l: int| h_run(g0, 1, 2, c0, l);
        lemma_target_run_rightmost(g0, c0, l);
    }
    let mut threshold = heuristic(&state);
    proof {
        assert forall|q: Seq<Step>|
            path_legal(g0, q) && goal_spec(apply_path(g0, q)) implies q.len() >= threshold by {
            lemma_heuristic_admissible(g0, q);
        }
    }
    let mut visited: Vec<Board> = Vec::new();
    loop
        invariant
            threshold < u32::MAX,
            visited@.len() == 0,
            state.board@ == g0,
            state.total_cost == 0,
            state.steps@.len() == 0,
            forall|q: Seq<Step>|
                path_legal(g0, q) && goal_spec(#[trigger] apply_path(g0, q)) ==> q.len()
                    >= threshold,
        decreases u32::MAX - threshold,
    {
        let ghost pre_visited = visited@;
        let (found, new_threshold, steps) = search(&state, 0, threshold, &mut visited, Ghost(g0));
        if found {
            proof {
                assert(steps@.len() <= threshold);
                if steps@.len() == 0 {
                    assert(apply_path(g0, steps@) == g0);
                    assert(false);
                }
                assert forall|q: Seq<Step>|
                    path_legal(g0, q) && goal_spec(apply_path(g0, q)) implies steps@.len()
                    <= q.len() by {}
            }
            return steps;
        }
        proof {
            assert forall|q: Seq<Step>|
                path_legal(g0, q) && goal_spec(#[trigger] apply_path(g0, q)) implies q.len()
                >= new_threshold by {
                lemma_path_avoids_empty(g0, q, pre_visited);
            }
        }
        if new_threshold == u32::MAX {
            proof {
                if !goal_spec(g0) && (exists|q: Seq<Step>|
                    path_legal(g0, q) && goal_spec(apply_path(g0, q)) && q.len() < u32::MAX) {
                    let q = choose|q: Seq<Step>|
                        path_legal(g0, q) && goal_spec(apply_path(g0, q)) && q.len() < u32::MAX;
                    assert(q.len() >= new_threshold);
                    assert(false);
                }
            }
            return Vec::new();
        }
        threshold = new_threshold;
    }
}

} // verus!
