//! Search nodes and successor generation for the iterative-deepening
//! solver: a node carries a board, the accumulated move count, and the
//! steps taken from the initial board.

use vstd::prelude::*;

use crate::board::{scanned_before, Board};
use crate::grid::{
    apply_step_spec, board_wf, can_shift, cell_at, col_delta, grid_dims, h_run, heuristic_spec,
    in_grid, is_horizontal, is_vertical, lemma_h_run_orient, lemma_target_rightmost_scan,
    lemma_v_run_orient, piece_wf, present, row_delta, step_legal, target_in_row, v_run,
};
use crate::step::{MovementDirection, Orientation, Step};

verus! {

/// A search node: the board reached so far, the number of moves taken,
/// and those moves in order.
pub struct State {
    pub board: Board,
    pub total_cost: u32,
    pub steps: Vec<Step>,
}

/// `su` extends `st` by the single legal step `s`.
pub open spec fn successor_for(st: State, su: State, s: Step) -> bool {
    &&& step_legal(st.board@, s)
    &&& su.board@ == apply_step_spec(st.board@, s)
    &&& su.steps@ == st.steps@.push(s)
    &&& su.total_cost == st.total_cost + 1
}

/// `su` extends `st` by some single legal step.
pub open spec fn successor_of(st: State, su: State) -> bool {
    exists|s: Step| #[trigger] successor_for(st, su, s)
}

/// Some entry of `v` extends `st` by exactly the step `s`.
pub open spec fn has_successor(st: State, v: Seq<State>, s: Step) -> bool {
    exists|i: int| 0 <= i < v.len() && successor_for(st, #[trigger] v[i], s)
}

impl State {
    /// Locates the piece and reads its orientation off any two adjacent
    /// same-identifier cells; `None` when the piece is absent.
    #[verifier::loop_isolation(false)]
    pub fn get_orientation(&self, car_id: i8) -> (r: Option<Orientation>)
        requires
            board_wf(self.board@),
            car_id != 0,
        ensures
            r == (if is_horizontal(self.board@, car_id) {
                Some(Orientation::Horizontal)
            } else if is_vertical(self.board@, car_id) {
                Some(Orientation::Vertical)
            } else {
                None::<Orientation>
            }),
    {
        let ghost g = self.board@;
        let mut x: usize = 0;
        while x < 6
            invariant
                x <= 6,
                forall|rr: int, cc: int|
                    in_grid(rr, cc) && scanned_before(rr, cc, x as int, 0) ==> #[trigger] cell_at(
                        g,
                        rr,
                        cc,
                    ) != car_id,
            decreases 6 - x,
        {
            let mut y: usize = 0;
            while y < 6
                invariant
                    x < 6,
                    y <= 6,
                    forall|rr: int, cc: int|
                        in_grid(rr, cc) && scanned_before(rr, cc, x as int, y as int)
                            ==> #[trigger] cell_at(g, rr, cc) != car_id,
                decreases 6 - y,
            {
                if self.board.at(x, y) == car_id {
                    proof {
                        assert(present(g, car_id));
                        assert(piece_wf(g, car_id));
                    }
                    if y < 5 && self.board.at(x, y + 1) == car_id {
                        proof {
                            assert(is_horizontal(g, car_id));
                            if exists|r0: int, c: int, l: int| v_run(g, car_id, r0, c, l) {
                                let (r0, c, l) = choose|r0: int, c: int, l: int|
                                    v_run(g, car_id, r0, c, l);
                                lemma_v_run_orient(g, car_id, r0, c, l);
                            } else {
                                let (r, c0, l) = choose|r: int, c0: int, l: int|
                                    h_run(g, car_id, r, c0, l);
                                lemma_h_run_orient(g, car_id, r, c0, l);
                            }
                        }
                        return Some(Orientation::Horizontal);
                    }
                    if x < 5 && self.board.at(x + 1, y) == car_id {
                        proof {
                            assert(is_vertical(g, car_id));
                            if exists|r: int, c0: int, l: int| h_run(g, car_id, r, c0, l) {
                                let (r, c0, l) = choose|r: int, c0: int, l: int|
                                    h_run(g, car_id, r, c0, l);
                                lemma_h_run_orient(g, car_id, r, c0, l);
                            } else {
                                let (r0, c, l) = choose|r0: int, c: int, l: int|
                                    v_run(g, car_id, r0, c, l);
                                lemma_v_run_orient(g, car_id, r0, c, l);
                            }
                        }
                        return Some(Orientation::Vertical);
                    }
                    // a well-formed piece of length 2 or 3 always shows an
                    // adjacent cell next to its first cell in scan order
                    proof {
                        if exists|r: int, c0: int, l: int| h_run(g, car_id, r, c0, l) {
                            let (r, c0, l) = choose|r: int, c0: int, l: int|
                                h_run(g, car_id, r, c0, l);
                            assert(x == r && c0 <= y < c0 + l);
                            if y as int != c0 {
                                assert(cell_at(g, x as int, y as int - 1) == car_id);
                                assert(scanned_before(x as int, y as int - 1, x as int, y as int));
                            }
                            assert(cell_at(g, x as int, y as int + 1) == car_id);
                            assert(false);
                        } else {
                            let (r0, c, l) = choose|r0: int, c: int, l: int|
                                v_run(g, car_id, r0, c, l);
                            assert(y == c && r0 <= x < r0 + l);
                            if x as int != r0 {
                                assert(cell_at(g, x as int - 1, y as int) == car_id);
                                assert(scanned_before(x as int - 1, y as int, x as int, y as int));
                            }
                            assert(cell_at(g, x as int + 1, y as int) == car_id);
                            assert(false);
                        }
                    }
                }
                y += 1;
            }
            x += 1;
        }
        proof {
            assert forall|rr: int, cc: int| in_grid(rr, cc) implies #[trigger] cell_at(g, rr, cc)
                != car_id by {
                assert(scanned_before(rr, cc, 6, 0));
            }
            assert(!is_horizontal(g, car_id));
            assert(!is_vertical(g, car_id));
        }
        None
    }

    /// Whether every cell of the piece can slide one column in the given
    /// horizontal direction.
    #[verifier::loop_isolation(false)]
    pub fn can_move_horizontal(&self, car_id: i8, direction: &MovementDirection) -> (r: bool)
        requires
            grid_dims(self.board@),
            *direction == MovementDirection::Left || *direction == MovementDirection::Right,
        ensures
            r == can_shift(self.board@, car_id, *direction),
    {
        let ghost g = self.board@;
        let ghost dc = col_delta(*direction);
        let mut x: usize = 0;
        while x < 6
            invariant
                x <= 6,
                forall|rr: int, cc: int|
                    in_grid(rr, cc) && scanned_before(rr, cc, x as int, 0) && (#[trigger] cell_at(
                        g,
                        rr,
                        cc,
                    )) == car_id ==> in_grid(rr, cc + dc) && (cell_at(g, rr, cc + dc) == 0
                        || cell_at(g, rr, cc + dc) == car_id),
            decreases 6 - x,
        {
            let mut y: usize = 0;
            while y < 6
                invariant
                    x < 6,
                    y <= 6,
                    forall|rr: int, cc: int|
                        in_grid(rr, cc) && scanned_before(rr, cc, x as int, y as int) && (
                        #[trigger] cell_at(g, rr, cc)) == car_id ==> in_grid(rr, cc + dc) && (
                        cell_at(g, rr, cc + dc) == 0 || cell_at(g, rr, cc + dc) == car_id),
                decreases 6 - y,
            {
                if self.board.at(x, y) == car_id {
                    match *direction {
                        MovementDirection::Left => {
                            if y == 0 || (self.board.at(x, y - 1) != 0 && self.board.at(x, y - 1)
                                != car_id) {
                                return false;
                            }
                        },
                        _ => {
                            if y == 5 || (self.board.at(x, y + 1) != 0 && self.board.at(x, y + 1)
                                != car_id) {
                                return false;
                            }
                        },
                    }
                }
                y += 1;
            }
            x += 1;
        }
        proof {
            assert forall|rr: int, cc: int|
                in_grid(rr, cc) && (#[trigger] cell_at(g, rr, cc)) == car_id implies in_grid(
                rr + row_delta(*direction),
                cc + dc,
            ) && (cell_at(g, rr + row_delta(*direction), cc + dc) == 0 || cell_at(
                g,
                rr + row_delta(*direction),
                cc + dc,
            ) == car_id) by {
                assert(scanned_before(rr, cc, 6, 0));
            }
        }
        true
    }

    /// Whether every cell of the piece can slide one row in the given
    /// vertical direction.
    #[verifier::loop_isolation(false)]
    pub fn can_move_vertical(&self, car_id: i8, direction: &MovementDirection) -> (r: bool)
        requires
            grid_dims(self.board@),
            *direction == MovementDirection::Up || *direction == MovementDirection::Down,
        ensures
            r == can_shift(self.board@, car_id, *direction),
    {
        let ghost g = self.board@;
        let ghost dr = row_delta(*direction);
        let mut x: usize = 0;
        while x < 6
            invariant
                x <= 6,
                forall|rr: int, cc: int|
                    in_grid(rr, cc) && scanned_before(rr, cc, x as int, 0) && (#[trigger] cell_at(
                        g,
                        rr,
                        cc,
                    )) == car_id ==> in_grid(rr + dr, cc) && (cell_at(g, rr + dr, cc) == 0
                        || cell_at(g, rr + dr, cc) == car_id),
            decreases 6 - x,
        {
            let mut y: usize = 0;
            while y < 6
                invariant
                    x < 6,
                    y <= 6,
                    forall|rr: int, cc: int|
                        in_grid(rr, cc) && scanned_before(rr, cc, x as int, y as int) && (
                        #[trigger] cell_at(g, rr, cc)) == car_id ==> in_grid(rr + dr, cc) && (
                        cell_at(g, rr + dr, cc) == 0 || cell_at(g, rr + dr, cc) == car_id),
                decreases 6 - y,
            {
                if self.board.at(x, y) == car_id {
                    match *direction {
                        MovementDirection::Up => {
                            if x == 0 || (self.board.at(x - 1, y) != 0 && self.board.at(x - 1, y)
                                != car_id) {
                                return false;
                            }
                        },
                        _ => {
                            if x == 5 || (self.board.at(x + 1, y) != 0 && self.board.at(x + 1, y)
                                != car_id) {
                                return false;
                            }
                        },
                    }
                }
                y += 1;
            }
            x += 1;
        }
        proof {
            assert forall|rr: int, cc: int|
                in_grid(rr, cc) && (#[trigger] cell_at(g, rr, cc)) == car_id implies in_grid(
                rr + dr,
                cc + col_delta(*direction),
            ) && (cell_at(g, rr + dr, cc + col_delta(*direction)) == 0 || cell_at(
                g,
                rr + dr,
                cc + col_delta(*direction),
            ) == car_id) by {
                assert(scanned_before(rr, cc, 6, 0));
            }
        }
        true
    }

    /// Whether sliding the piece one cell in the given direction is a
    /// legal move on this board.
    pub fn can_move(&self, car_id: i8, direction: &MovementDirection) -> (r: bool)
        requires
            board_wf(self.board@),
            car_id != 0,
        ensures
            r == step_legal(self.board@, Step { car_id, direction: *direction }),
    {
        let ghost g = self.board@;
        proof {
            if is_horizontal(g, car_id) || is_vertical(g, car_id) {
                assert(present(g, car_id));
                assert(piece_wf(g, car_id));
                if exists|r: int, c0: int, l: int| h_run(g, car_id, r, c0, l) {
                    let (r, c0, l) = choose|r: int, c0: int, l: int| h_run(g, car_id, r, c0, l);
                    lemma_h_run_orient(g, car_id, r, c0, l);
                } else {
                    let (r0, c, l) = choose|r0: int, c: int, l: int| v_run(g, car_id, r0, c, l);
                    lemma_v_run_orient(g, car_id, r0, c, l);
                }
            }
        }
        match self.get_orientation(car_id) {
            Some(Orientation::Vertical) => match direction {
                MovementDirection::Up | MovementDirection::Down => self.can_move_vertical(
                    car_id,
                    direction,
                ),
                _ => false,
            },
            Some(Orientation::Horizontal) => match direction {
                MovementDirection::Left | MovementDirection::Right => self.can_move_horizontal(
                    car_id,
                    direction,
                ),
                _ => false,
            },
            _ => false,
        }
    }
}

/// Copies a step sequence.
pub(crate) fn clone_steps(v: &Vec<Step>) -> (r: Vec<Step>)
    ensures
        r@ == v@,
{
    let mut r: Vec<Step> = Vec::new();
    proof {
        assert(Seq::<Step>::empty() =~= v@.take(0));
    }
    let mut i: usize = 0;
    while i < v.len()
        invariant
            i <= v.len(),
            r@ == v@.take(i as int),
        decreases v.len() - i,
    {
        r.push(v[i]);
        proof {
            assert(v@.take(i as int + 1) =~= v@.take(i as int).push(v@[i as int]));
        }
        i += 1;
    }
    proof {
        assert(v@.take(v@.len() as int) =~= v@);
    }
    r
}

/// Enumerates the successor nodes of `state`: exactly one node for each
/// legal step, in the move generator's order, with the step appended to
/// the node's move sequence.
pub fn generate_successors(state: &State) -> (r: Vec<State>)
    requires
        board_wf(state.board@),
        state.total_cost < u32::MAX,
    ensures
        forall|i: int| 0 <= i < r@.len() ==> successor_of(*state, #[trigger] r@[i]),
        forall|s: Step| #[trigger] step_legal(state.board@, s) ==> has_successor(*state, r@, s),
        forall|i: int, j: int, s: Step|
            0 <= i < r@.len() && 0 <= j < r@.len() && #[trigger] successor_for(*state, r@[i], s)
                && #[trigger] successor_for(*state, r@[j], s) ==> i == j,
{
    let ghost g = state.board@;
    let steps = state.board.get_possible_steps();
    let mut successors: Vec<State> = Vec::new();
    let mut j: usize = 0;
    while j < steps.len()
        invariant
            j <= steps@.len(),
            successors@.len() == j,
            board_wf(g),
            g == state.board@,
            state.total_cost < u32::MAX,
            forall|s: Step| steps@.contains(s) <==> step_legal(g, s),
            forall|i1: int, j1: int| 0 <= i1 < j1 < steps@.len() ==> steps@[i1] != steps@[j1],
            forall|i: int|
                0 <= i < j ==> successor_for(*state, #[trigger] successors@[i], steps@[i]),
        decreases steps@.len() - j,
    {
        let step = steps[j];
        proof {
            assert(steps@.contains(steps@[j as int]));
        }
        let new_board = state.board.apply_step(step);
        let mut new_steps = clone_steps(&state.steps);
        new_steps.push(step);
        successors.push(
            State { board: new_board, total_cost: state.total_cost + 1, steps: new_steps },
        );
        j += 1;
    }
    proof {
        assert forall|i: int| 0 <= i < successors@.len() implies successor_of(
            *state,
            #[trigger] successors@[i],
        ) by {
            assert(successor_for(*state, successors@[i], steps@[i]));
        }
        assert forall|s: Step| #[trigger] step_legal(state.board@, s) implies has_successor(
            *state,
            successors@,
            s,
        ) by {
            assert(steps@.contains(s));
            let k = choose|k: int| 0 <= k < steps@.len() && steps@[k] == s;
            assert(successor_for(*state, successors@[k], s));
        }
        assert forall|i: int, j1: int, s: Step|
            0 <= i < successors@.len() && 0 <= j1 < successors@.len() && #[trigger] successor_for(
                *state,
                successors@[i],
                s,
            ) && #[trigger] successor_for(*state, successors@[j1], s) implies i == j1 by {
            // an entry's step is the last element of its move sequence
            assert(successors@[i].steps@ == state.steps@.push(s));
            assert(successors@[i].steps@ == state.steps@.push(steps@[i]));
            assert(state.steps@.push(s)[state.steps@.len() as int] == s);
            assert(steps@[i] == s);
            assert(steps@[j1] == s);
        }
    }
    successors
}

/// Cost-to-goal estimate: the number of columns between the target
/// piece's rightmost cell and the exit column.
#[verifier::loop_isolation(false)]
pub fn heuristic(state: &State) -> (r: u32)
    requires
        grid_dims(state.board@),
        target_in_row(state.board@),
    ensures
        r as int == heuristic_spec(state.board@),
{
    let ghost g = state.board@;
    let mut c: usize = 6;
    while c > 0
        invariant
            c <= 6,
            forall|j: int| c <= j <= 5 ==> cell_at(g, 2, j) != 1,
        decreases c,
    {
        c -= 1;
        if state.board.at(2, c) == 1 {
            proof {
                lemma_target_rightmost_scan(g, 5, c as int);
            }
            return (5 - c) as u32;
        }
    }
    proof {
        let j = choose|j: int| 0 <= j < 6 && #[trigger] cell_at(g, 2, j) == 1;
        assert(false);
    }
    0
}

} // verus!
