use vstd::prelude::*;

verus! {

/// What a cell holds: a mine, a count of adjacent mines (1..=8), or nothing.
/// A count of zero is represented as `Empty`, never as `Number(0)`.
#[derive(Clone, Copy, Debug, PartialEq, Eq, Structural)]
pub enum CellType {
    Mine,
    Number(usize),
    Empty,
}

/// Whether a cell has been revealed. Cells start `Hidden` and only ever
/// move to `Visible`.
#[derive(Clone, Copy, Debug, PartialEq, Eq, Structural)]
pub enum CellState {
    Visible,
    Hidden,
}

/// One grid position: an immutable content tag plus a visibility state.
#[derive(Clone, Copy, Debug, PartialEq, Eq, Structural)]
pub struct Cell {
    pub cell_type: CellType,
    pub cell_state: CellState,
}

impl Cell {
    pub fn new(cell_type: CellType, cell_state: CellState) -> (c: Cell)
        ensures
            c.cell_type == cell_type,
            c.cell_state == cell_state,
    {
        Cell { cell_type, cell_state }
    }

    pub fn update_state(&mut self, cell_state: CellState)
        ensures
            final(self).cell_type == old(self).cell_type,
            final(self).cell_state == cell_state,
    {
        self.cell_state = cell_state;
    }
}

} // verus!
