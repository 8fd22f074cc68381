//! The hexagonal grid world: cells and the moves between them.
use vstd::prelude::*;

verus! {

/// A cell of the grid. Cells of one row are two columns apart, and the cells
/// of the next row stand one column to the side.
#[derive(Clone, Copy, Debug, PartialEq, Eq, Structural)]
pub struct HexCell {
    pub row: i32,
    pub col: i32,
}

/// The six moves.
#[derive(Clone, Copy, Debug, PartialEq, Eq, Structural)]
pub enum HexMove {
    E,
    SE,
    SW,
    W,
    NW,
    NE,
}

/// The change of row that a move makes.
pub open spec fn row_step(action: HexMove) -> int {
    match action {
        HexMove::NE | HexMove::NW => -1,
        HexMove::SE | HexMove::SW => 1,
        HexMove::E | HexMove::W => 0,
    }
}

/// The change of column that a move makes.
pub open spec fn col_step(action: HexMove) -> int {
    match action {
        HexMove::E => 2,
        HexMove::NE | HexMove::SE => 1,
        HexMove::SW | HexMove::W | HexMove::NW => -1,
    }
}

/// `cell` is where `action` leads from `from`.
pub open spec fn is_target(from: HexCell, action: HexMove, cell: HexCell) -> bool {
    &&& cell.row == from.row + row_step(action)
    &&& cell.col == from.col + col_step(action)
}

/// The cell that `action` leads to from `from`, if it is one of `states`;
/// nothing if the move leaves the grid.
pub fn make_target_state(from: HexCell, action: HexMove, states: &Vec<HexCell>) -> (target: Option<
    HexCell,
>)
    ensures
        match target {
            Some(cell) => is_target(from, action, cell) && states@.contains(cell),
            None => forall|i: int|
                0 <= i < states@.len() ==> !is_target(from, action, #[trigger] states@[i]),
        },
{
    let mut row: i64 = from.row as i64;
    let mut col: i64 = from.col as i64;
    match action {
        HexMove::NE => {
            row -= 1;
            col += 1;
        },
        HexMove::E => {
            col += 2;
        },
        HexMove::SE => {
            row += 1;
            col += 1;
        },
        HexMove::SW => {
            row += 1;
            col -= 1;
        },
        HexMove::W => {
            col -= 1;
        },
        HexMove::NW => {
            row -= 1;
            col -= 1;
        },
    }
    let mut i: usize = 0;
    while i < states.len()
        invariant
            i <= states@.len(),
            row == from.row + row_step(action),
            col == from.col + col_step(action),
            forall|j: int| 0 <= j < i ==> !is_target(from, action, #[trigger] states@[j]),
        decreases states@.len() - i,
    {
        let state = states[i];
        if state.row as i64 == row && state.col as i64 == col {
            return Some(state);
        }
        i += 1;
    }
    None
}

} // verus!
