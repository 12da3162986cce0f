//! The mathematical model of a puzzle board.
//!
//! A grid is a `Seq<i8>` of 36 cells, row-major.  The spec functions here
//! define the board invariants (every piece is a straight run of 2 or 3
//! cells), legality of a single-cell move, the result of applying a move,
//! the goal test, the solver heuristic, and the replay of a whole move
//! sequence.

use vstd::arithmetic::div_mod::lemma_fundamental_div_mod_converse;
use vstd::prelude::*;

use crate::step::{MovementDirection, Step};

verus! {

/// Row/column bounds of the 6 x 6 grid.
pub open spec fn in_grid(r: int, c: int) -> bool {
    0 <= r < 6 && 0 <= c < 6
}

/// The cell of `g` at row `r`, column `c` (row-major storage).
pub open spec fn cell_at(g: Seq<i8>, r: int, c: int) -> i8 {
    g[r * 6 + c]
}

/// The grid holds exactly the 36 cells of a 6 x 6 board.
pub open spec fn grid_dims(g: Seq<i8>) -> bool {
    g.len() == 36
}

/// Row displacement of a one-cell move in direction `d`.
pub open spec fn row_delta(d: MovementDirection) -> int {
    match d {
        MovementDirection::Up => -1,
        MovementDirection::Down => 1,
        MovementDirection::Right => 0,
        MovementDirection::Left => 0,
    }
}

/// Column displacement of a one-cell move in direction `d`.
pub open spec fn col_delta(d: MovementDirection) -> int {
    match d {
        MovementDirection::Up => 0,
        MovementDirection::Down => 0,
        MovementDirection::Right => 1,
        MovementDirection::Left => -1,
    }
}

/// Piece `id` occupies exactly the cells `(r, c0) .. (r, c0 + len - 1)`:
/// a horizontal run.
pub open spec fn h_run(g: Seq<i8>, id: i8, r: int, c0: int, len: int) -> bool {
    0 <= r < 6 && 0 <= c0 && c0 + len <= 6 && 2 <= len <= 3
        && forall|rr: int, cc: int|
            in_grid(rr, cc) ==> ((#[trigger] cell_at(g, rr, cc)) == id <==> (rr == r && c0 <= cc
                < c0 + len))
}

/// Piece `id` occupies exactly the cells `(r0, c) .. (r0 + len - 1, c)`:
/// a vertical run.
pub open spec fn v_run(g: Seq<i8>, id: i8, r0: int, c: int, len: int) -> bool {
    0 <= c < 6 && 0 <= r0 && r0 + len <= 6 && 2 <= len <= 3
        && forall|rr: int, cc: int|
            in_grid(rr, cc) ==> ((#[trigger] cell_at(g, rr, cc)) == id <==> (cc == c && r0 <= rr
                < r0 + len))
}

/// Some cell of `g` holds `id`.
pub open spec fn present(g: Seq<i8>, id: i8) -> bool {
    exists|r: int, c: int| in_grid(r, c) && #[trigger] cell_at(g, r, c) == id
}

/// Piece `id` forms a straight run of 2 or 3 cells.
pub open spec fn piece_wf(g: Seq<i8>, id: i8) -> bool {
    (exists|r: int, c0: int, len: int| h_run(g, id, r, c0, len)) || (exists|r0: int, c: int, len: int|
        v_run(g, id, r0, c, len))
}

/// Board invariant: right dimensions, and every piece on the board is a
/// straight 2- or 3-cell run.
pub open spec fn board_wf(g: Seq<i8>) -> bool {
    grid_dims(g) && forall|id: i8| id != 0 && #[trigger] present(g, id) ==> piece_wf(g, id)
}

/// The target piece (id 1) is a horizontal run in its fixed row 2.
pub open spec fn target_wf(g: Seq<i8>) -> bool {
    exists|c0: int, len: int| h_run(g, 1, 2, c0, len)
}

/// A valid solver input: well-formed board carrying the target piece.
pub open spec fn board_ok(g: Seq<i8>) -> bool {
    board_wf(g) && target_wf(g)
}

/// Two horizontally adjacent cells hold `id`.
pub open spec fn is_horizontal(g: Seq<i8>, id: i8) -> bool {
    exists|r: int, c: int|
        in_grid(r, c) && in_grid(r, c + 1) && (#[trigger] cell_at(g, r, c)) == id && cell_at(
            g,
            r,
            c + 1,
        ) == id
}

/// Two vertically adjacent cells hold `id`.
pub open spec fn is_vertical(g: Seq<i8>, id: i8) -> bool {
    exists|r: int, c: int|
        in_grid(r, c) && in_grid(r + 1, c) && (#[trigger] cell_at(g, r, c)) == id && cell_at(
            g,
            r + 1,
            c,
        ) == id
}

/// Every cell of piece `id` can shift one cell in direction `d`: the
/// shifted position is on the grid and is empty or belongs to the piece
/// itself.
pub open spec fn can_shift(g: Seq<i8>, id: i8, d: MovementDirection) -> bool {
    forall|r: int, c: int|
        in_grid(r, c) && (#[trigger] cell_at(g, r, c)) == id ==> in_grid(
            r + row_delta(d),
            c + col_delta(d),
        ) && (cell_at(g, r + row_delta(d), c + col_delta(d)) == 0 || cell_at(
            g,
            r + row_delta(d),
            c + col_delta(d),
        ) == id)
}

/// A step is legal when its piece exists, the direction runs along the
/// piece's axis, and every cell of the piece can shift by one.
pub open spec fn step_legal(g: Seq<i8>, s: Step) -> bool {
    s.car_id != 0 && match s.direction {
        MovementDirection::Left | MovementDirection::Right => is_horizontal(g, s.car_id)
            && can_shift(g, s.car_id, s.direction),
        MovementDirection::Up | MovementDirection::Down => is_vertical(g, s.car_id) && can_shift(
            g,
            s.car_id,
            s.direction,
        ),
    }
}

/// The value of cell `(r, c)` after piece `id` shifts one cell in
/// direction `d`: a cell vacated by the piece becomes empty, a cell the
/// piece shifts onto holds the piece, and every other cell is unchanged.
pub open spec fn shifted_cell(g: Seq<i8>, id: i8, d: MovementDirection, r: int, c: int) -> i8 {
    if in_grid(r - row_delta(d), c - col_delta(d)) && cell_at(
        g,
        r - row_delta(d),
        c - col_delta(d),
    ) == id {
        id
    } else if cell_at(g, r, c) == id {
        0
    } else {
        cell_at(g, r, c)
    }
}

/// The grid produced by applying step `s` to `g`.
pub open spec fn apply_step_spec(g: Seq<i8>, s: Step) -> Seq<i8> {
    Seq::new(36, |j: int| shifted_cell(g, s.car_id, s.direction, j / 6, j % 6))
}

/// The goal: the target piece holds the two rightmost cells of row 2.
pub open spec fn goal_spec(g: Seq<i8>) -> bool {
    cell_at(g, 2, 4) == 1 && cell_at(g, 2, 5) == 1
}

/// The rightmost column `<= c` of row 2 holding the target id, or -1.
pub open spec fn target_rightmost(g: Seq<i8>, c: int) -> int
    decreases c + 1 when c >= -1
{
    if c < 0 {
        -1
    } else if cell_at(g, 2, c) == 1 {
        c
    } else {
        target_rightmost(g, c - 1)
    }
}

/// Cost-to-goal estimate: columns from the target piece's rightmost cell
/// to the exit column.
pub open spec fn heuristic_spec(g: Seq<i8>) -> int {
    5 - target_rightmost(g, 5)
}

/// The grid reached by replaying the steps of `p` in order from `g`.
pub open spec fn apply_path(g: Seq<i8>, p: Seq<Step>) -> Seq<i8>
    decreases p.len(),
{
    if p.len() == 0 {
        g
    } else {
        apply_path(apply_step_spec(g, p[0]), p.drop_first())
    }
}

/// Every step of `p` is legal on the board it is applied to.
pub open spec fn path_legal(g: Seq<i8>, p: Seq<Step>) -> bool
    decreases p.len(),
{
    p.len() == 0 || (step_legal(g, p[0]) && path_legal(apply_step_spec(g, p[0]), p.drop_first()))
}

/// The row-major flattening of a 6 x 6 input grid.
pub open spec fn grid_of(b: [[i8; 6]; 6]) -> Seq<i8> {
    Seq::new(36, |j: int| b@[j / 6]@[j % 6])
}

/// Row-major index arithmetic: `(r, c)` maps to `r * 6 + c` and back.
pub proof fn lemma_rc(r: int, c: int)
    requires
        in_grid(r, c),
    ensures
        0 <= r * 6 + c < 36,
        (r * 6 + c) / 6 == r,
        (r * 6 + c) % 6 == c,
{
    lemma_fundamental_div_mod_converse(r * 6 + c, 6, r, c);
}

/// Pointwise reading of the grid built by `apply_step_spec`.
pub proof fn lemma_apply_cells(g: Seq<i8>, s: Step)
    ensures
        apply_step_spec(g, s).len() == 36,
        forall|r: int, c: int|
            in_grid(r, c) ==> #[trigger] cell_at(apply_step_spec(g, s), r, c) == shifted_cell(
                g,
                s.car_id,
                s.direction,
                r,
                c,
            ),
{
    assert forall|r: int, c: int| in_grid(r, c) implies #[trigger] cell_at(
        apply_step_spec(g, s),
        r,
        c,
    ) == shifted_cell(g, s.car_id, s.direction, r, c) by {
        lemma_rc(r, c);
    }
}

/// A horizontal run shows horizontally adjacent cells and no vertically
/// adjacent ones.
pub proof fn lemma_h_run_orient(g: Seq<i8>, id: i8, r: int, c0: int, len: int)
    requires
        h_run(g, id, r, c0, len),
    ensures
        is_horizontal(g, id),
        !is_vertical(g, id),
{
    assert(cell_at(g, r, c0) == id);
    assert(cell_at(g, r, c0 + 1) == id);
    assert(is_horizontal(g, id));
    assert forall|rr: int, cc: int| in_grid(rr, cc) && in_grid(rr + 1, cc) implies !(
    (#[trigger] cell_at(g, rr, cc)) == id && cell_at(g, rr + 1, cc) == id) by {}
    assert(!is_vertical(g, id));
}

/// A vertical run shows vertically adjacent cells and no horizontally
/// adjacent ones.
pub proof fn lemma_v_run_orient(g: Seq<i8>, id: i8, r0: int, c: int, len: int)
    requires
        v_run(g, id, r0, c, len),
    ensures
        is_vertical(g, id),
        !is_horizontal(g, id),
{
    assert(cell_at(g, r0, c) == id);
    assert(cell_at(g, r0 + 1, c) == id);
    assert(is_vertical(g, id));
    assert forall|rr: int, cc: int| in_grid(rr, cc) && in_grid(rr, cc + 1) implies !(
    (#[trigger] cell_at(g, rr, cc)) == id && cell_at(g, rr, cc + 1) == id) by {}
    assert(!is_horizontal(g, id));
}

/// Row 2 holds at least one cell of the target piece.
pub open spec fn target_in_row(g: Seq<i8>) -> bool {
    exists|c: int| 0 <= c < 6 && #[trigger] cell_at(g, 2, c) == 1
}

/// A well-formed target run puts a target cell in row 2.
pub proof fn lemma_target_wf_in_row(g: Seq<i8>)
    requires
        target_wf(g),
    ensures
        target_in_row(g),
{
    let (c0, l) = choose|c0: int, l: int| h_run(g, 1, 2, c0, l);
    assert(cell_at(g, 2, c0) == 1);
}

/// For a horizontal run, a move is legal exactly when the cell beyond the
/// run's extreme in the move's direction exists and is empty, and no
/// vertical move is legal.
pub proof fn lemma_h_run_moves(g: Seq<i8>, id: i8, r: int, c0: int, len: int)
    requires
        h_run(g, id, r, c0, len),
        id != 0,
    ensures
        step_legal(g, Step { car_id: id, direction: MovementDirection::Left }) == (c0 > 0
            && cell_at(g, r, c0 - 1) == 0),
        step_legal(g, Step { car_id: id, direction: MovementDirection::Right }) == (c0 + len <= 5
            && cell_at(g, r, c0 + len) == 0),
        !step_legal(g, Step { car_id: id, direction: MovementDirection::Up }),
        !step_legal(g, Step { car_id: id, direction: MovementDirection::Down }),
{
    assert(cell_at(g, r, c0) == id);
    assert(cell_at(g, r, c0 + 1) == id);
    assert(is_horizontal(g, id));
    assert forall|rr: int, cc: int| in_grid(rr, cc) && in_grid(rr + 1, cc) implies !(
    (#[trigger] cell_at(g, rr, cc)) == id && cell_at(g, rr + 1, cc) == id) by {}
    assert(!is_vertical(g, id));
    // Left
    if c0 > 0 && cell_at(g, r, c0 - 1) == 0 {
        assert forall|rr: int, cc: int|
            in_grid(rr, cc) && (#[trigger] cell_at(g, rr, cc)) == id implies in_grid(rr, cc - 1)
            && (cell_at(g, rr, cc - 1) == 0 || cell_at(g, rr, cc - 1) == id) by {}
        assert(can_shift(g, id, MovementDirection::Left));
    }
    if can_shift(g, id, MovementDirection::Left) {
        assert(in_grid(r, c0 - 1) && (cell_at(g, r, c0 - 1) == 0 || cell_at(g, r, c0 - 1) == id));
        assert(cell_at(g, r, c0 - 1) == 0);
    }
    // Right
    if c0 + len <= 5 && cell_at(g, r, c0 + len) == 0 {
        assert forall|rr: int, cc: int|
            in_grid(rr, cc) && (#[trigger] cell_at(g, rr, cc)) == id implies in_grid(rr, cc + 1)
            && (cell_at(g, rr, cc + 1) == 0 || cell_at(g, rr, cc + 1) == id) by {}
        assert(can_shift(g, id, MovementDirection::Right));
    }
    if can_shift(g, id, MovementDirection::Right) {
        assert(cell_at(g, r, c0 + len - 1) == id);
        assert(in_grid(r, c0 + len) && (cell_at(g, r, c0 + len) == 0 || cell_at(g, r, c0 + len)
            == id));
        assert(cell_at(g, r, c0 + len) == 0);
    }
}

/// For a vertical run, a move is legal exactly when the cell beyond the
/// run's extreme in the move's direction exists and is empty, and no
/// horizontal move is legal.
pub proof fn lemma_v_run_moves(g: Seq<i8>, id: i8, r0: int, c: int, len: int)
    requires
        v_run(g, id, r0, c, len),
        id != 0,
    ensures
        step_legal(g, Step { car_id: id, direction: MovementDirection::Up }) == (r0 > 0 && cell_at(
            g,
            r0 - 1,
            c,
        ) == 0),
        step_legal(g, Step { car_id: id, direction: MovementDirection::Down }) == (r0 + len <= 5
            && cell_at(g, r0 + len, c) == 0),
        !step_legal(g, Step { car_id: id, direction: MovementDirection::Left }),
        !step_legal(g, Step { car_id: id, direction: MovementDirection::Right }),
{
    assert(cell_at(g, r0, c) == id);
    assert(cell_at(g, r0 + 1, c) == id);
    assert(is_vertical(g, id));
    assert forall|rr: int, cc: int| in_grid(rr, cc) && in_grid(rr, cc + 1) implies !(
    (#[trigger] cell_at(g, rr, cc)) == id && cell_at(g, rr, cc + 1) == id) by {}
    assert(!is_horizontal(g, id));
    // Up
    if r0 > 0 && cell_at(g, r0 - 1, c) == 0 {
        assert forall|rr: int, cc: int|
            in_grid(rr, cc) && (#[trigger] cell_at(g, rr, cc)) == id implies in_grid(rr - 1, cc)
            && (cell_at(g, rr - 1, cc) == 0 || cell_at(g, rr - 1, cc) == id) by {}
        assert(can_shift(g, id, MovementDirection::Up));
    }
    if can_shift(g, id, MovementDirection::Up) {
        assert(in_grid(r0 - 1, c) && (cell_at(g, r0 - 1, c) == 0 || cell_at(g, r0 - 1, c) == id));
        assert(cell_at(g, r0 - 1, c) == 0);
    }
    // Down
    if r0 + len <= 5 && cell_at(g, r0 + len, c) == 0 {
        assert forall|rr: int, cc: int|
            in_grid(rr, cc) && (#[trigger] cell_at(g, rr, cc)) == id implies in_grid(rr + 1, cc)
            && (cell_at(g, rr + 1, cc) == 0 || cell_at(g, rr + 1, cc) == id) by {}
        assert(can_shift(g, id, MovementDirection::Down));
    }
    if can_shift(g, id, MovementDirection::Down) {
        assert(cell_at(g, r0 + len - 1, c) == id);
        assert(in_grid(r0 + len, c) && (cell_at(g, r0 + len, c) == 0 || cell_at(g, r0 + len, c)
            == id));
        assert(cell_at(g, r0 + len, c) == 0);
    }
}

/// Cells that belong neither to the moved piece before the step nor to it
/// after the step are untouched by `apply_step_spec`.
pub proof fn lemma_other_cells(g: Seq<i8>, s: Step)
    requires
        step_legal(g, s),
    ensures
        apply_step_spec(g, s).len() == 36,
        forall|r: int, c: int|
            in_grid(r, c) && cell_at(g, r, c) != s.car_id && cell_at(g, r, c) != 0
                ==> #[trigger] cell_at(apply_step_spec(g, s), r, c) == cell_at(g, r, c),
        forall|r: int, c: int|
            in_grid(r, c) && (#[trigger] cell_at(apply_step_spec(g, s), r, c)) != s.car_id
                && cell_at(apply_step_spec(g, s), r, c) != 0 ==> cell_at(
                apply_step_spec(g, s),
                r,
                c,
            ) == cell_at(g, r, c),
{
    lemma_apply_cells(g, s);
    let d = s.direction;
    let g2 = apply_step_spec(g, s);
    assert forall|r: int, c: int|
        in_grid(r, c) && cell_at(g, r, c) != s.car_id && cell_at(g, r, c)
            != 0 implies #[trigger] cell_at(g2, r, c) == cell_at(g, r, c) by {
        if in_grid(r - row_delta(d), c - col_delta(d)) && cell_at(
            g,
            r - row_delta(d),
            c - col_delta(d),
        ) == s.car_id {
            // the piece would shift onto (r, c), but every shifted cell of a
            // legal step lands on empty space or on the piece itself
            assert(in_grid(r, c) && (cell_at(g, r, c) == 0 || cell_at(g, r, c) == s.car_id));
        }
    }
}

/// A legal step of a horizontally-run piece moves sideways and shifts its
/// run one column.
pub proof fn lemma_h_run_after(g: Seq<i8>, s: Step, r: int, c0: int, l: int)
    requires
        h_run(g, s.car_id, r, c0, l),
        step_legal(g, s),
    ensures
        row_delta(s.direction) == 0,
        h_run(apply_step_spec(g, s), s.car_id, r, c0 + col_delta(s.direction), l),
{
    lemma_h_run_moves(g, s.car_id, r, c0, l);
    lemma_apply_cells(g, s);
    let dc = col_delta(s.direction);
    let g2 = apply_step_spec(g, s);
    // grid bounds of the shifted run, from the shifted extreme cell
    if s.direction == MovementDirection::Left {
        assert(cell_at(g, r, c0) == s.car_id);
        assert(in_grid(r, c0 - 1));
    } else {
        assert(cell_at(g, r, c0 + l - 1) == s.car_id);
        assert(in_grid(r, c0 + l - 1 + 1));
    }
    assert forall|rr: int, cc: int| in_grid(rr, cc) implies ((#[trigger] cell_at(g2, rr, cc))
        == s.car_id <==> (rr == r && c0 + dc <= cc < c0 + dc + l)) by {
        if rr == r && c0 + dc <= cc < c0 + dc + l {
            assert(in_grid(rr, cc - dc));
            assert(cell_at(g, rr, cc - dc) == s.car_id);
        }
        if cell_at(g2, rr, cc) == s.car_id {
            assert(in_grid(rr, cc - dc) && cell_at(g, rr, cc - dc) == s.car_id);
        }
    }
}

/// A legal step of a vertically-run piece moves along its column and
/// shifts its run one row.
pub proof fn lemma_v_run_after(g: Seq<i8>, s: Step, r0: int, c: int, l: int)
    requires
        v_run(g, s.car_id, r0, c, l),
        step_legal(g, s),
    ensures
        col_delta(s.direction) == 0,
        v_run(apply_step_spec(g, s), s.car_id, r0 + row_delta(s.direction), c, l),
{
    lemma_v_run_moves(g, s.car_id, r0, c, l);
    lemma_apply_cells(g, s);
    let dr = row_delta(s.direction);
    let g2 = apply_step_spec(g, s);
    if s.direction == MovementDirection::Up {
        assert(cell_at(g, r0, c) == s.car_id);
        assert(in_grid(r0 - 1, c));
    } else {
        assert(cell_at(g, r0 + l - 1, c) == s.car_id);
        assert(in_grid(r0 + l - 1 + 1, c));
    }
    assert forall|rr: int, cc: int| in_grid(rr, cc) implies ((#[trigger] cell_at(g2, rr, cc))
        == s.car_id <==> (cc == c && r0 + dr <= rr < r0 + dr + l)) by {
        if cc == c && r0 + dr <= rr < r0 + dr + l {
            assert(in_grid(rr - dr, cc));
            assert(cell_at(g, rr - dr, cc) == s.car_id);
        }
        if cell_at(g2, rr, cc) == s.car_id {
            assert(in_grid(rr - dr, cc) && cell_at(g, rr - dr, cc) == s.car_id);
        }
    }
}

/// Applying a legal step preserves the board invariants: every piece of
/// the new board is again a straight 2- or 3-cell run, and the target
/// piece stays a horizontal run in row 2.
pub proof fn lemma_step_preserves(g: Seq<i8>, s: Step)
    requires
        board_wf(g),
        step_legal(g, s),
    ensures
        board_wf(apply_step_spec(g, s)),
        target_wf(g) ==> target_wf(apply_step_spec(g, s)),
{
    lemma_apply_cells(g, s);
    lemma_other_cells(g, s);
    let g2 = apply_step_spec(g, s);
    // the moved piece is present in g, hence forms a run there
    if s.direction == MovementDirection::Left || s.direction == MovementDirection::Right {
        let (r, c) = choose|r: int, c: int|
            in_grid(r, c) && in_grid(r, c + 1) && (#[trigger] cell_at(g, r, c)) == s.car_id
                && cell_at(g, r, c + 1) == s.car_id;
        assert(present(g, s.car_id));
    } else {
        let (r, c) = choose|r: int, c: int|
            in_grid(r, c) && in_grid(r + 1, c) && (#[trigger] cell_at(g, r, c)) == s.car_id
                && cell_at(g, r + 1, c) == s.car_id;
        assert(present(g, s.car_id));
    }
    assert(piece_wf(g, s.car_id));
    // the moved piece's run shifts by one cell
    if exists|r: int, c0: int, l: int| h_run(g, s.car_id, r, c0, l) {
        let (r, c0, l) = choose|r: int, c0: int, l: int| h_run(g, s.car_id, r, c0, l);
        lemma_h_run_after(g, s, r, c0, l);
        assert(piece_wf(g2, s.car_id));
    } else {
        let (r0, c, l) = choose|r0: int, c: int, l: int| v_run(g, s.car_id, r0, c, l);
        lemma_v_run_after(g, s, r0, c, l);
        assert(piece_wf(g2, s.car_id));
    }
    // every piece of the new board is a run
    assert forall|id: i8| id != 0 && #[trigger] present(g2, id) implies piece_wf(g2, id) by {
        if id != s.car_id {
            let (rr, cc) = choose|rr: int, cc: int|
                in_grid(rr, cc) && #[trigger] cell_at(g2, rr, cc) == id;
            assert(cell_at(g, rr, cc) == id);
            assert(present(g, id));
            assert(piece_wf(g, id));
            if exists|r: int, c0: int, l: int| h_run(g, id, r, c0, l) {
                let (r, c0, l) = choose|r: int, c0: int, l: int| h_run(g, id, r, c0, l);
                assert forall|ar: int, ac: int| in_grid(ar, ac) implies ((#[trigger] cell_at(
                    g2,
                    ar,
                    ac,
                )) == id <==> (ar == r && c0 <= ac < c0 + l)) by {
                    assert(cell_at(g2, ar, ac) == id <==> cell_at(g, ar, ac) == id);
                }
                assert(h_run(g2, id, r, c0, l));
            } else {
                let (r0, c, l) = choose|r0: int, c: int, l: int| v_run(g, id, r0, c, l);
                assert forall|ar: int, ac: int| in_grid(ar, ac) implies ((#[trigger] cell_at(
                    g2,
                    ar,
                    ac,
                )) == id <==> (ac == c && r0 <= ar < r0 + l)) by {
                    assert(cell_at(g2, ar, ac) == id <==> cell_at(g, ar, ac) == id);
                }
                assert(v_run(g2, id, r0, c, l));
            }
        }
    }
    assert(board_wf(g2));
    // the target piece stays a horizontal run in row 2
    if target_wf(g) {
        let (c0, l) = choose|c0: int, l: int| h_run(g, 1, 2, c0, l);
        if s.car_id == 1 {
            lemma_h_run_after(g, s, 2, c0, l);
            assert(h_run(g2, 1, 2, c0 + col_delta(s.direction), l));
        } else {
            assert forall|ar: int, ac: int| in_grid(ar, ac) implies ((#[trigger] cell_at(
                g2,
                ar,
                ac,
            )) == 1 <==> (ar == 2 && c0 <= ac < c0 + l)) by {
                assert(cell_at(g2, ar, ac) == 1 <==> cell_at(g, ar, ac) == 1);
            }
            assert(h_run(g2, 1, 2, c0, l));
        }
    }
}

/// `target_rightmost` finds `rm` when row 2 holds the target id at `rm`
/// and nowhere to its right up to `hi`.
pub proof fn lemma_target_rightmost_scan(g: Seq<i8>, hi: int, rm: int)
    requires
        0 <= rm <= hi <= 5,
        cell_at(g, 2, rm) == 1,
        forall|j: int| rm < j <= hi ==> cell_at(g, 2, j) != 1,
    ensures
        target_rightmost(g, hi) == rm,
    decreases hi,
{
    if hi > rm {
        lemma_target_rightmost_scan(g, hi - 1, rm);
    }
}

/// The rightmost target cell of a well-formed target run is the run's
/// right end, so the heuristic lies between 0 and 4.
pub proof fn lemma_target_run_rightmost(g: Seq<i8>, c0: int, l: int)
    requires
        h_run(g, 1, 2, c0, l),
    ensures
        target_rightmost(g, 5) == c0 + l - 1,
        0 <= heuristic_spec(g) <= 4,
{
    assert(cell_at(g, 2, c0 + l - 1) == 1);
    assert forall|j: int| c0 + l - 1 < j <= 5 implies cell_at(g, 2, j) != 1 by {
        assert(in_grid(2, j));
    }
    lemma_target_rightmost_scan(g, 5, c0 + l - 1);
}

/// The goal holds exactly when the heuristic reaches zero.
pub proof fn lemma_goal_iff_heuristic_zero(g: Seq<i8>)
    requires
        target_wf(g),
    ensures
        goal_spec(g) <==> heuristic_spec(g) == 0,
{
    let (c0, l) = choose|c0: int, l: int| h_run(g, 1, 2, c0, l);
    lemma_target_run_rightmost(g, c0, l);
    if goal_spec(g) {
        assert(cell_at(g, 2, 5) == 1);
        assert(c0 + l == 6);
    }
    if heuristic_spec(g) == 0 {
        assert(c0 + l - 1 == 5);
        assert(cell_at(g, 2, 4) == 1);
        assert(cell_at(g, 2, 5) == 1);
    }
}

/// One legal step lowers the heuristic by at most one.
pub proof fn lemma_step_heuristic(g: Seq<i8>, s: Step)
    requires
        target_wf(g),
        step_legal(g, s),
    ensures
        heuristic_spec(apply_step_spec(g, s)) >= heuristic_spec(g) - 1,
{
    let g2 = apply_step_spec(g, s);
    let (c0, l) = choose|c0: int, l: int| h_run(g, 1, 2, c0, l);
    lemma_target_run_rightmost(g, c0, l);
    if s.car_id == 1 {
        lemma_h_run_after(g, s, 2, c0, l);
        lemma_target_run_rightmost(g2, c0 + col_delta(s.direction), l);
    } else {
        lemma_other_cells(g, s);
        assert forall|ar: int, ac: int| in_grid(ar, ac) implies ((#[trigger] cell_at(g2, ar, ac))
            == 1 <==> (ar == 2 && c0 <= ac < c0 + l)) by {
            assert(cell_at(g2, ar, ac) == 1 <==> cell_at(g, ar, ac) == 1);
        }
        assert(h_run(g2, 1, 2, c0, l));
        lemma_target_run_rightmost(g2, c0, l);
    }
}

/// Admissibility of the heuristic: it never exceeds the length of any
/// legal move sequence that reaches a goal board.
pub proof fn lemma_heuristic_admissible(g: Seq<i8>, p: Seq<Step>)
    requires
        board_ok(g),
        path_legal(g, p),
        goal_spec(apply_path(g, p)),
    ensures
        heuristic_spec(g) <= p.len(),
    decreases p.len(),
{
    if p.len() == 0 {
        lemma_goal_iff_heuristic_zero(g);
    } else {
        let g1 = apply_step_spec(g, p[0]);
        lemma_step_preserves(g, p[0]);
        lemma_step_heuristic(g, p[0]);
        lemma_heuristic_admissible(g1, p.drop_first());
    }
}

/// Extending a legal path by one legal step keeps it legal and applies
/// the step at its end.
pub proof fn lemma_path_push(g0: Seq<i8>, p: Seq<Step>, s: Step)
    requires
        path_legal(g0, p),
        step_legal(apply_path(g0, p), s),
    ensures
        path_legal(g0, p.push(s)),
        apply_path(g0, p.push(s)) == apply_step_spec(apply_path(g0, p), s),
    decreases p.len(),
{
    if p.len() == 0 {
        assert(p.push(s)[0] == s);
        assert(apply_path(g0, p) == g0);
        assert(p.push(s).drop_first() =~= Seq::<Step>::empty());
        assert(path_legal(apply_step_spec(g0, s), Seq::<Step>::empty()));
        assert(apply_path(apply_step_spec(g0, s), Seq::<Step>::empty()) == apply_step_spec(g0, s));
    } else {
        assert(p.push(s)[0] == p[0]);
        lemma_path_push(apply_step_spec(g0, p[0]), p.drop_first(), s);
        assert(p.push(s).drop_first() =~= p.drop_first().push(s));
        assert(path_legal(g0, p.push(s)));
    }
}

/// A non-goal board with no legal step reaches no goal by any legal path.
pub proof fn lemma_no_steps_no_goal(g: Seq<i8>, p: Seq<Step>)
    requires
        !goal_spec(g),
        forall|s: Step| !step_legal(g, s),
        path_legal(g, p),
    ensures
        !goal_spec(apply_path(g, p)),
{
    if p.len() != 0 {
        assert(step_legal(g, p[0]));
        assert(false);
    }
}

/// Pointwise reading of the flattening of a 6 x 6 input grid.
pub proof fn lemma_grid_of_cells(b: [[i8; 6]; 6])
    ensures
        grid_of(b).len() == 36,
        forall|r: int, c: int|
            in_grid(r, c) ==> #[trigger] cell_at(grid_of(b), r, c) == b@[r]@[c],
{
    assert forall|r: int, c: int| in_grid(r, c) implies #[trigger] cell_at(grid_of(b), r, c)
        == b@[r]@[c] by {
        lemma_rc(r, c);
    }
}

} // verus!
