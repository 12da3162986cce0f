use vstd::prelude::*;

verus! {

/// The four single-cell movement directions.
#[derive(Clone, Copy, PartialEq, Eq, Structural, Debug)]
pub enum MovementDirection {
    Up,
    Right,
    Down,
    Left,
}

/// One single-cell move: the piece named by `car_id` slides one cell in
/// `direction`.  A step is meaningful only relative to the board it was
/// generated from.
#[derive(Clone, Copy, PartialEq, Eq, Structural, Debug)]
pub struct Step {
    pub car_id: i8,
    pub direction: MovementDirection,
}

/// The axis along which a piece's cells run.  A piece never rotates, so its
/// orientation is a fixed property recomputed from the board on demand.
#[derive(Clone, Copy, PartialEq, Eq, Structural, Debug)]
pub enum Orientation {
    Horizontal,
    Vertical,
}

} // verus!
