//! A board that is advanced and edited one step at a time, with a window of
//! half its side in the middle for showing.
use vstd::prelude::*;
use crate::cell::Cell;
use crate::grid::{is_side, next_generation, lemma_side_facts, lemma_index};
use crate::node::Node;
use crate::cache::{EvolutionCache, copy_cells};

verus! {

/// A board of side `2 * size`, the cache its steps share, and a window of
/// side `size` at its middle.
pub struct Universe {
    size: usize,
    cells: Vec<Cell>,
    cache: EvolutionCache,
}

/// The place on a board of side `2 * size` of cell (`row`, `col`) of the window.
pub open spec fn window_index(size: int, row: int, col: int) -> int {
    (size / 2 + row) * (2 * size) + size / 2 + col
}

/// The other state.
pub open spec fn flipped(c: Cell) -> Cell {
    if c == Cell::Alive {
        Cell::Dead
    } else {
        Cell::Alive
    }
}

impl Universe {
    /// The side of the window.
    pub closed spec fn window(&self) -> int {
        self.size as int
    }

    /// The whole board, row by row.
    pub closed spec fn board(&self) -> Seq<Cell> {
        self.cells@
    }

    /// The board has side twice the window's, a side this library accepts.
    pub closed spec fn wf(&self) -> bool {
        &&& is_side(self.size as int)
        &&& self.cells@.len() == 4 * self.size * self.size
        &&& self.cache.wf()
    }

    /// An all-dead board whose window has side `size`.
    pub fn new(size: usize) -> (u: Universe)
        requires
            is_side(size as int),
            4 * size * size <= usize::MAX,
        ensures
            u.wf(),
            u.window() == size,
            u.board() == Seq::new((4 * size * size) as nat, |i: int| Cell::Dead),
    {
        proof {
            lemma_side_facts(size as int);
            assert(4 * size <= 4 * size * size) by (nonlinear_arith)
                requires
                    size >= 2,
            ;
        }
        let n = 4 * size * size;
        let cells: Vec<Cell> = vec![Cell::Dead; n];
        assert(cells@ =~= Seq::new((4 * size * size) as nat, |i: int| Cell::Dead));
        Universe { size, cells, cache: EvolutionCache::new() }
    }

    /// The side of the window.
    pub fn size(&self) -> (n: usize)
        ensures
            n == self.window(),
    {
        self.size
    }

    /// The whole board, row by row.
    pub fn cells(&self) -> (v: Vec<Cell>)
        ensures
            v@ == self.board(),
    {
        copy_cells(&self.cells)
    }

    /// Advances the board one generation.
    pub fn tick(&mut self)
        requires
            old(self).wf(),
        ensures
            final(self).wf(),
            final(self).window() == old(self).window(),
            final(self).board() == next_generation(old(self).board(), 2 * old(self).window()),
    {
        let ghost s = self.size as int;
        proof {
            lemma_side_facts(s);
            assert(is_side(2 * s));
            assert((2 * s) * (2 * s) == 4 * s * s) by (nonlinear_arith);
        }
        match Node::new(copy_cells(&self.cells)) {
            Ok(t) => {
                proof {
                    if t.side() != 2 * s {
                        assert(t.side() >= 2 && t.side() * t.side() == (2 * s) * (2 * s));
                        if t.side() < 2 * s {
                            assert(t.side() * t.side() < (2 * s) * (2 * s)) by (nonlinear_arith)
                                requires
                                    t.side() >= 2,
                                    t.side() < 2 * s,
                            ;
                        } else {
                            assert(t.side() * t.side() > (2 * s) * (2 * s)) by (nonlinear_arith)
                                requires
                                    s >= 2,
                                    t.side() > 2 * s,
                            ;
                        }
                    }
                }
                let next = t.evolve(&mut self.cache);
                self.cells = next;
            },
            Err(_) => {
                proof {
                    assert(is_side(2 * s) && (2 * s) * (2 * s) == self.cells@.len());
                }
            },
        }
    }

    /// Whether cell (`row`, `col`) of the window is alive.
    pub fn is_alive(&self, row: usize, col: usize) -> (b: bool)
        requires
            self.wf(),
            row < self.window(),
            col < self.window(),
        ensures
            b == (self.board()[window_index(self.window(), row as int, col as int)] == Cell::Alive),
    {
        let i = self.index(row, col);
        self.cells[i] == Cell::Alive
    }

    /// Flips cell (`row`, `col`) of the window between alive and dead.
    pub fn toggle(&mut self, row: usize, col: usize)
        requires
            old(self).wf(),
            row < old(self).window(),
            col < old(self).window(),
        ensures
            final(self).wf(),
            final(self).window() == old(self).window(),
            final(self).board() == old(self).board().update(
                window_index(old(self).window(), row as int, col as int),
                flipped(old(self).board()[window_index(old(self).window(), row as int, col as int)]),
            ),
    {
        let i = self.index(row, col);
        let x = match self.cells[i] {
            Cell::Alive => Cell::Dead,
            Cell::Dead => Cell::Alive,
        };
        self.cells.set(i, x);
    }

    /// The place on the board of cell (`row`, `col`) of the window.
    fn index(&self, row: usize, col: usize) -> (i: usize)
        requires
            self.wf(),
            row < self.window(),
            col < self.window(),
        ensures
            i == window_index(self.window(), row as int, col as int),
            i < self.board().len(),
    {
        let len = self.cells.len();
        let s = self.size;
        proof {
            lemma_side_facts(s as int);
            assert((2 * s) * (2 * s) == 4 * s * s) by (nonlinear_arith);
            lemma_index(2 * s as int, s / 2 + row, s / 2 + col);
            assert(2 * s <= 4 * s * s) by (nonlinear_arith)
                requires
                    s >= 2,
            ;
        }
        (s / 2 + row) * (2 * s) + s / 2 + col
    }
}

} // verus!
