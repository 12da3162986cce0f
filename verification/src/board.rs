//! The executable board: a 6 x 6 grid of piece identifiers, stored
//! row-major in 36 cells, with the goal test, move generation and move
//! application.

use vstd::prelude::*;
use vstd::seq_lib::lemma_seq_contains_after_push;

use crate::grid::{
    apply_path, apply_step_spec, board_wf, cell_at, goal_spec, grid_dims, grid_of, h_run,
    in_grid, lemma_apply_cells, lemma_grid_of_cells, lemma_h_run_moves, lemma_rc,
    lemma_v_run_moves, path_legal, piece_wf, present, step_legal, v_run,
};
use crate::step::{MovementDirection, Step};

verus! {

broadcast use lemma_seq_contains_after_push;

/// The complete occupancy grid at one point in the search.  Cell value 0
/// is empty space; any other value is the piece occupying the cell.
#[derive(Clone, Copy, Debug)]
pub struct Board {
    cells: [i8; 36],
}

impl View for Board {
    type V = Seq<i8>;

    closed spec fn view(&self) -> Seq<i8> {
        self.cells@
    }
}

/// A cell `(rr, cc)` comes before `(x, y)` in row-major traversal order.
pub open spec fn scanned_before(rr: int, cc: int, x: int, y: int) -> bool {
    rr < x || (rr == x && cc < y)
}

/// Some cell scanned before `(x, y)` holds `id`.
pub open spec fn seen_before(g: Seq<i8>, id: i8, x: int, y: int) -> bool {
    exists|rr: int, cc: int|
        in_grid(rr, cc) && scanned_before(rr, cc, x, y) && #[trigger] cell_at(g, rr, cc) == id
}

/// Scanning one more cell extends `seen_before` by exactly that cell.
pub proof fn lemma_seen_step(g: Seq<i8>, x: int, y: int)
    requires
        in_grid(x, y),
    ensures
        forall|id: i8| #[trigger]
            seen_before(g, id, x, y + 1) <==> (seen_before(g, id, x, y) || cell_at(g, x, y) == id),
{
    assert forall|id: i8| #[trigger]
        seen_before(g, id, x, y + 1) <==> (seen_before(g, id, x, y) || cell_at(g, x, y)
            == id) by {
        if seen_before(g, id, x, y + 1) {
            let (rr, cc) = choose|rr: int, cc: int|
                in_grid(rr, cc) && scanned_before(rr, cc, x, y + 1) && #[trigger] cell_at(g, rr, cc)
                    == id;
            if !(rr == x && cc == y) {
                assert(scanned_before(rr, cc, x, y));
            }
        }
        if seen_before(g, id, x, y) {
            let (rr, cc) = choose|rr: int, cc: int|
                in_grid(rr, cc) && scanned_before(rr, cc, x, y) && #[trigger] cell_at(g, rr, cc)
                    == id;
            assert(scanned_before(rr, cc, x, y + 1));
        }
        if cell_at(g, x, y) == id {
            assert(scanned_before(x, y, x, y + 1));
        }
    }
}

/// Finishing a row leaves `seen_before` where the next row starts.
pub proof fn lemma_seen_row(g: Seq<i8>, x: int)
    requires
        0 <= x < 6,
    ensures
        forall|id: i8| #[trigger]
            seen_before(g, id, x, 6) <==> seen_before(g, id, x + 1, 0),
{
    assert forall|id: i8| #[trigger]
        seen_before(g, id, x, 6) <==> seen_before(g, id, x + 1, 0) by {
        if seen_before(g, id, x, 6) {
            let (rr, cc) = choose|rr: int, cc: int|
                in_grid(rr, cc) && scanned_before(rr, cc, x, 6) && #[trigger] cell_at(g, rr, cc)
                    == id;
            assert(scanned_before(rr, cc, x + 1, 0));
        }
        if seen_before(g, id, x + 1, 0) {
            let (rr, cc) = choose|rr: int, cc: int|
                in_grid(rr, cc) && scanned_before(rr, cc, x + 1, 0) && #[trigger] cell_at(g, rr, cc)
                    == id;
            assert(scanned_before(rr, cc, x, 6));
        }
    }
}

/// Every board of the collection has the full 36-cell grid.
pub open spec fn all_dims(v: Seq<Board>) -> bool {
    forall|i: int| 0 <= i < v.len() ==> grid_dims((#[trigger] v[i])@)
}

/// Some board of the collection has grid contents `g`.
pub open spec fn visited_contains(v: Seq<Board>, g: Seq<i8>) -> bool {
    exists|i: int| 0 <= i < v.len() && (#[trigger] v[i])@ == g
}

/// Whether a board with these grid contents was recorded in the visited
/// collection.
#[verifier::loop_isolation(false)]
pub fn visited_has(visited: &Vec<Board>, board: &Board) -> (r: bool)
    requires
        grid_dims(board@),
        all_dims(visited@),
    ensures
        r == visited_contains(visited@, board@),
{
    let mut i: usize = 0;
    while i < visited.len()
        invariant
            i <= visited@.len(),
            forall|j: int| 0 <= j < i ==> (#[trigger] visited@[j])@ != board@,
        decreases visited@.len() - i,
    {
        if visited[i].same_cells(board) {
            return true;
        }
        i += 1;
    }
    proof {
        if visited_contains(visited@, board@) {
            let j = choose|j: int| 0 <= j < visited@.len() && (#[trigger] visited@[j])@ == board@;
            assert(false);
        }
    }
    false
}

/// No board that the path `q` visits, the start `g` included, is in the
/// collection `vs`.
pub open spec fn path_avoids(g: Seq<i8>, q: Seq<Step>, vs: Seq<Board>) -> bool
    decreases q.len(),
{
    !visited_contains(vs, g) && (q.len() == 0 || path_avoids(
        apply_step_spec(g, q[0]),
        q.drop_first(),
        vs,
    ))
}

/// Every path avoids an empty collection.
pub proof fn lemma_path_avoids_empty(g: Seq<i8>, q: Seq<Step>, vs: Seq<Board>)
    requires
        vs.len() == 0,
    ensures
        path_avoids(g, q, vs),
    decreases q.len(),
{
    if q.len() != 0 {
        lemma_path_avoids_empty(apply_step_spec(g, q[0]), q.drop_first(), vs);
    }
}

/// Membership in a board collection extended by one board.
pub proof fn lemma_visited_push(vs: Seq<Board>, bd: Board)
    ensures
        forall|x: Seq<i8>| #[trigger]
            visited_contains(vs.push(bd), x) <==> (visited_contains(vs, x) || bd@ == x),
{
    assert forall|x: Seq<i8>| #[trigger]
        visited_contains(vs.push(bd), x) <==> (visited_contains(vs, x) || bd@ == x) by {
        if visited_contains(vs.push(bd), x) {
            let i = choose|i: int| 0 <= i < vs.push(bd).len() && (#[trigger] vs.push(bd)[i])@ == x;
            if i < vs.len() {
                assert(vs[i]@ == x);
            }
        }
        if visited_contains(vs, x) {
            let i = choose|i: int| 0 <= i < vs.len() && (#[trigger] vs[i])@ == x;
            assert(vs.push(bd)[i]@ == x);
        }
        if bd@ == x {
            assert(vs.push(bd)[vs.len() as int]@ == x);
        }
    }
}

/// A goal path that avoids `vs` either also avoids `vs` extended by one
/// board, or that board itself starts a goal path, no longer, that
/// avoids `vs`.
pub proof fn lemma_avoids_push_or_suffix(g: Seq<i8>, q: Seq<Step>, vs: Seq<Board>, bd: Board)
    requires
        path_legal(g, q),
        goal_spec(apply_path(g, q)),
        path_avoids(g, q, vs),
    ensures
        path_avoids(g, q, vs.push(bd)) || exists|q2: Seq<Step>|
            path_legal(bd@, q2) && goal_spec(apply_path(bd@, q2)) && #[trigger] path_avoids(
                bd@,
                q2,
                vs,
            ) && q2.len() <= q.len(),
    decreases q.len(),
{
    lemma_visited_push(vs, bd);
    if visited_contains(vs.push(bd), g) {
        assert(bd@ == g);
        assert(path_legal(bd@, q) && goal_spec(apply_path(bd@, q)) && path_avoids(bd@, q, vs)
            && q.len() <= q.len());
    } else if q.len() == 0 {
        assert(path_avoids(g, q, vs.push(bd)));
    } else {
        lemma_avoids_push_or_suffix(apply_step_spec(g, q[0]), q.drop_first(), vs, bd);
        if path_avoids(apply_step_spec(g, q[0]), q.drop_first(), vs.push(bd)) {
            assert(path_avoids(g, q, vs.push(bd)));
        }
    }
}

impl Board {
    /// Builds a board from a 6 x 6 input grid.
    pub fn new(board: [[i8; 6]; 6]) -> (b: Board)
        ensures
            b@ == grid_of(board),
    {
        let mut cells: [i8; 36] = [0; 36];
        proof {
            lemma_grid_of_cells(board);
        }
        let mut x: usize = 0;
        while x < 6
            invariant
                x <= 6,
                cells@.len() == 36,
                forall|j: int| 0 <= j < x * 6 ==> cells@[j] == grid_of(board)[j],
            decreases 6 - x,
        {
            let mut y: usize = 0;
            while y < 6
                invariant
                    x < 6,
                    y <= 6,
                    cells@.len() == 36,
                    forall|j: int| 0 <= j < x * 6 + y ==> cells@[j] == grid_of(board)[j],
                decreases 6 - y,
            {
                cells[x * 6 + y] = board[x][y];
                proof {
                    lemma_rc(x as int, y as int);
                }
                y += 1;
            }
            x += 1;
        }
        let b = Board { cells };
        proof {
            assert(b@ =~= grid_of(board));
        }
        b
    }

    /// Reads the cell at row `x`, column `y`.
    pub fn at(&self, x: usize, y: usize) -> (v: i8)
        requires
            grid_dims(self@),
            x < 6,
            y < 6,
        ensures
            v == cell_at(self@, x as int, y as int),
    {
        self.cells[x * 6 + y]
    }

    /// The goal test: the target piece (id 1) holds the two rightmost
    /// cells of its fixed row 2.
    pub fn is_goal(&self) -> (r: bool)
        requires
            grid_dims(self@),
        ensures
            r == goal_spec(self@),
    {
        self.cells[16] == 1 && self.cells[17] == 1
    }

    /// Structural comparison of the full grid contents.
    pub fn same_cells(&self, other: &Board) -> (r: bool)
        requires
            grid_dims(self@),
            grid_dims(other@),
        ensures
            r == (self@ == other@),
    {
        let mut k: usize = 0;
        while k < 36
            invariant
                k <= 36,
                grid_dims(self@),
                grid_dims(other@),
                forall|j: int| 0 <= j < k ==> self@[j] == other@[j],
            decreases 36 - k,
        {
            if self.cells[k] != other.cells[k] {
                return false;
            }
            k += 1;
        }
        proof {
            assert(self@ =~= other@);
        }
        true
    }

    /// Enumerates all legal single-cell steps on this board.  Pieces are
    /// grouped by identifier: the scan visits the first cell of each piece
    /// in row-major order, derives the piece's orientation and extreme
    /// coordinates, and checks the one cell of slack beyond each extreme.
    /// The result contains a step if and only if the step is legal.
    #[verifier::loop_isolation(false)]
    pub fn get_possible_steps(&self) -> (steps: Vec<Step>)
        requires
            board_wf(self@),
        ensures
            forall|s: Step| steps@.contains(s) <==> step_legal(self@, s),
            forall|i: int, j: int| 0 <= i < j < steps@.len() ==> steps@[i] != steps@[j],
    {
        let ghost g = self@;
        let mut steps_new: Vec<Step> = Vec::new();
        let mut x: usize = 0;
        while x < 6
            invariant
                x <= 6,
                forall|s: Step| #[trigger]
                    steps_new@.contains(s) <==> (step_legal(g, s) && seen_before(
                        g,
                        s.car_id,
                        x as int,
                        0,
                    )),
                forall|i: int, j: int|
                    0 <= i < j < steps_new@.len() ==> steps_new@[i] != steps_new@[j],
            decreases 6 - x,
        {
            let mut y: usize = 0;
            while y < 6
                invariant
                    x < 6,
                    y <= 6,
                    forall|s: Step| #[trigger]
                        steps_new@.contains(s) <==> (step_legal(g, s) && seen_before(
                            g,
                            s.car_id,
                            x as int,
                            y as int,
                        )),
                    forall|i: int, j: int|
                        0 <= i < j < steps_new@.len() ==> steps_new@[i] != steps_new@[j],
                decreases 6 - y,
            {
                let car_id = self.at(x, y);
                let ghost pre = steps_new@;
                if car_id != 0 {
                    let left_same = y > 0 && self.at(x, y - 1) == car_id;
                    let up_same = x > 0 && self.at(x - 1, y) == car_id;
                    if !left_same && !up_same {
                        // (x, y) is the first cell of its piece in scan order
                        proof {
                            assert(present(g, car_id));
                            assert(piece_wf(g, car_id));
                        }
                        if y < 5 && self.at(x, y + 1) == car_id {
                            // the piece runs horizontally, anchored at (x, y)
                            proof {
                                if exists|r0: int, c: int, l: int| v_run(g, car_id, r0, c, l) {
                                    let (r0, c, l) = choose|r0: int, c: int, l: int|
                                        v_run(g, car_id, r0, c, l);
                                    assert(y == c);
                                    assert(y + 1 == c);
                                }
                            }
                            let ghost (hr, hc, hl) = choose|hr: int, hc: int, hl: int|
                                h_run(g, car_id, hr, hc, hl);
                            proof {
                                assert(x == hr);
                                if y as int != hc {
                                    assert(cell_at(g, x as int, y as int - 1) == car_id);
                                    assert(false);
                                }
                            }
                            let len3 = y + 2 < 6 && self.at(x, y + 2) == car_id;
                            let l: usize = if len3 {
                                3
                            } else {
                                2
                            };
                            proof {
                                if hl == 3 {
                                    assert(cell_at(g, x as int, y as int + 2) == car_id);
                                }
                                assert(hl == l as int);
                                lemma_h_run_moves(g, car_id, hr, hc, hl);
                                assert forall|k: int| 0 <= k < pre.len() implies (
                                #[trigger] pre[k]).car_id != car_id by {
                                    assert(pre.contains(pre[k]));
                                    if pre[k].car_id == car_id {
                                        let (rr, cc) = choose|rr: int, cc: int|
                                            in_grid(rr, cc) && scanned_before(
                                                rr,
                                                cc,
                                                x as int,
                                                y as int,
                                            ) && #[trigger] cell_at(g, rr, cc) == car_id;
                                        assert(rr == hr && hc <= cc);
                                        assert(false);
                                    }
                                }
                            }
                            if y > 0 && self.at(x, y - 1) == 0 {
                                steps_new.push(
                                    Step { car_id, direction: MovementDirection::Left },
                                );
                            }
                            if y + l <= 5 && self.at(x, y + l) == 0 {
                                steps_new.push(
                                    Step { car_id, direction: MovementDirection::Right },
                                );
                            }
                        } else {
                            // the piece runs vertically, anchored at (x, y)
                            proof {
                                if exists|r: int, c0: int, l: int| h_run(g, car_id, r, c0, l) {
                                    let (r, c0, l) = choose|r: int, c0: int, l: int|
                                        h_run(g, car_id, r, c0, l);
                                    assert(x == r && c0 <= y < c0 + l);
                                    if y as int + 1 < c0 + l {
                                        assert(cell_at(g, x as int, y as int + 1) == car_id);
                                        assert(false);
                                    }
                                    assert(cell_at(g, x as int, y as int - 1) == car_id);
                                    assert(false);
                                }
                            }
                            let ghost (vr, vc, vl) = choose|vr: int, vc: int, vl: int|
                                v_run(g, car_id, vr, vc, vl);
                            proof {
                                assert(y == vc);
                                if x as int != vr {
                                    assert(cell_at(g, x as int - 1, y as int) == car_id);
                                    assert(false);
                                }
                            }
                            let len3 = x + 2 < 6 && self.at(x + 2, y) == car_id;
                            let l: usize = if len3 {
                                3
                            } else {
                                2
                            };
                            proof {
                                if vl == 3 {
                                    assert(cell_at(g, x as int + 2, y as int) == car_id);
                                }
                                assert(vl == l as int);
                                lemma_v_run_moves(g, car_id, vr, vc, vl);
                                assert forall|k: int| 0 <= k < pre.len() implies (
                                #[trigger] pre[k]).car_id != car_id by {
                                    assert(pre.contains(pre[k]));
                                    if pre[k].car_id == car_id {
                                        let (rr, cc) = choose|rr: int, cc: int|
                                            in_grid(rr, cc) && scanned_before(
                                                rr,
                                                cc,
                                                x as int,
                                                y as int,
                                            ) && #[trigger] cell_at(g, rr, cc) == car_id;
                                        assert(cc == vc && vr <= rr);
                                        assert(false);
                                    }
                                }
                            }
                            if x > 0 && self.at(x - 1, y) == 0 {
                                steps_new.push(Step { car_id, direction: MovementDirection::Up });
                            }
                            if x + l <= 5 && self.at(x + l, y) == 0 {
                                steps_new.push(
                                    Step { car_id, direction: MovementDirection::Down },
                                );
                            }
                        }
                        proof {
                            lemma_seen_step(g, x as int, y as int);
                            assert forall|s: Step| #[trigger]
                                steps_new@.contains(s) <==> (step_legal(g, s) && seen_before(
                                    g,
                                    s.car_id,
                                    x as int,
                                    y as int + 1,
                                )) by {
                                if s.car_id == car_id {
                                    if step_legal(g, s) {
                                        match s.direction {
                                            MovementDirection::Up => {},
                                            MovementDirection::Right => {},
                                            MovementDirection::Down => {},
                                            MovementDirection::Left => {},
                                        }
                                    }
                                    if pre.contains(s) {
                                        assert(step_legal(g, s));
                                    }
                                }
                            }
                            assert forall|i2: int, j2: int|
                                0 <= i2 < j2 < steps_new@.len() implies steps_new@[i2]
                                != steps_new@[j2] by {
                                if j2 >= pre.len() {
                                    assert(steps_new@[j2].car_id == car_id);
                                    if i2 < pre.len() {
                                        assert(steps_new@[i2] == pre[i2]);
                                    }
                                } else {
                                    assert(steps_new@[i2] == pre[i2] && steps_new@[j2] == pre[j2]);
                                }
                            }
                        }
                    } else {
                        // a cell of the same piece was scanned earlier
                        proof {
                            if left_same {
                                assert(scanned_before(x as int, y as int - 1, x as int, y as int));
                            } else {
                                assert(scanned_before(x as int - 1, y as int, x as int, y as int));
                            }
                            assert(seen_before(g, car_id, x as int, y as int));
                            lemma_seen_step(g, x as int, y as int);
                        }
                    }
                } else {
                    proof {
                        lemma_seen_step(g, x as int, y as int);
                    }
                }
                y += 1;
            }
            proof {
                lemma_seen_row(g, x as int);
            }
            x += 1;
        }
        proof {
            assert forall|s: Step| steps_new@.contains(s) <==> step_legal(g, s) by {
                if step_legal(g, s) {
                    match s.direction {
                        MovementDirection::Left | MovementDirection::Right => {
                            let (r, c) = choose|r: int, c: int|
                                in_grid(r, c) && in_grid(r, c + 1) && (#[trigger] cell_at(g, r, c))
                                    == s.car_id && cell_at(g, r, c + 1) == s.car_id;
                            assert(scanned_before(r, c, 6, 0));
                            assert(seen_before(g, s.car_id, 6, 0));
                        },
                        MovementDirection::Up | MovementDirection::Down => {
                            let (r, c) = choose|r: int, c: int|
                                in_grid(r, c) && in_grid(r + 1, c) && (#[trigger] cell_at(g, r, c))
                                    == s.car_id && cell_at(g, r + 1, c) == s.car_id;
                            assert(scanned_before(r, c, 6, 0));
                            assert(seen_before(g, s.car_id, 6, 0));
                        },
                    }
                }
            }
        }
        steps_new
    }

    /// Applies a legal step, returning the new board; the receiver is
    /// untouched.
    pub fn apply_step(&self, step: Step) -> (b: Board)
        requires
            grid_dims(self@),
            step_legal(self@, step),
        ensures
            b@ == apply_step_spec(self@, step),
    {
        let mut new_board = Board { cells: self.cells };
        move_car(step.car_id, &step.direction, &mut new_board);
        new_board
    }
}

/// Shifts every cell of the piece `car_id` one cell in `direction`,
/// rewriting the board in place to `apply_step_spec` of its old value.
#[verifier::loop_isolation(false)]
pub fn move_car(car_id: i8, direction: &MovementDirection, board: &mut Board)
    requires
        grid_dims(old(board)@),
    ensures
        final(board)@ == apply_step_spec(
            old(board)@,
            Step { car_id, direction: *direction },
        ),
{
    let ghost s = Step { car_id, direction: *direction };
    proof {
        lemma_apply_cells(old(board)@, s);
    }
    let src = board.cells;
    let (di, dj): (i32, i32) = match *direction {
        MovementDirection::Up => (-1, 0),
        MovementDirection::Down => (1, 0),
        MovementDirection::Left => (0, -1),
        MovementDirection::Right => (0, 1),
    };
    let mut x: usize = 0;
    while x < 6
        invariant
            x <= 6,
            board.cells@.len() == 36,
            src@ == old(board)@,
            di == crate::grid::row_delta(*direction),
            dj == crate::grid::col_delta(*direction),
            forall|j: int| 0 <= j < x * 6 ==> board.cells@[j] == apply_step_spec(src@, s)[j],
        decreases 6 - x,
    {
        let mut y: usize = 0;
        while y < 6
            invariant
                x < 6,
                y <= 6,
                board.cells@.len() == 36,
                src@ == old(board)@,
                di == crate::grid::row_delta(*direction),
                dj == crate::grid::col_delta(*direction),
                forall|j: int| 0 <= j < x * 6 + y ==> board.cells@[j] == apply_step_spec(
                    src@,
                    s,
                )[j],
            decreases 6 - y,
        {
            let sx = x as i32 - di;
            let sy = y as i32 - dj;
            let from_piece = 0 <= sx && sx < 6 && 0 <= sy && sy < 6 && src[(sx * 6 + sy) as usize]
                == car_id;
            proof {
                if 0 <= sx && sx < 6 && 0 <= sy && sy < 6 {
                    lemma_rc(sx as int, sy as int);
                }
            }
            let here = src[x * 6 + y];
            let v = if from_piece {
                car_id
            } else if here == car_id {
                0i8
            } else {
                here
            };
            board.cells[x * 6 + y] = v;
            proof {
                lemma_rc(x as int, y as int);
                assert(v == crate::grid::shifted_cell(src@, car_id, *direction, x as int, y as int));
                assert(cell_at(apply_step_spec(src@, s), x as int, y as int) == crate::grid::shifted_cell(
                    src@,
                    car_id,
                    *direction,
                    x as int,
                    y as int,
                ));
            }
            y += 1;
        }
        x += 1;
    }
    proof {
        assert(board.cells@ =~= apply_step_spec(old(board)@, s));
    }
}

} // verus!
