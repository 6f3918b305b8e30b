use vstd::prelude::*;

verus! {

/// State of one square of the board.
#[derive(Clone, Copy, Debug, PartialEq, Eq, Structural)]
pub enum Cell {
    Alive,
    Dead,
}

/// The survive/birth rule: a live cell stays alive with two or three live
/// neighbours, a dead cell comes alive with exactly three.
pub open spec fn rule(current: Cell, alive_neighbours: int) -> Cell {
    if (current == Cell::Alive && (alive_neighbours == 2 || alive_neighbours == 3))
        || (current == Cell::Dead && alive_neighbours == 3) {
        Cell::Alive
    } else {
        Cell::Dead
    }
}

/// Next state of a cell from its current state and its count of live neighbours.
pub fn next_state(current: Cell, alive_neighbours: u8) -> (r: Cell)
    ensures
        r == rule(current, alive_neighbours as int),
{
    match current {
        Cell::Alive => if alive_neighbours == 2 || alive_neighbours == 3 {
            Cell::Alive
        } else {
            Cell::Dead
        },
        Cell::Dead => if alive_neighbours == 3 {
            Cell::Alive
        } else {
            Cell::Dead
        },
    }
}

} // verus!
