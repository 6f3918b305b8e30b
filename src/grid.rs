//! Square boards stored row by row, and the one-generation step on them.
use vstd::prelude::*;
use vstd::arithmetic::div_mod::{lemma_fundamental_div_mod, lemma_fundamental_div_mod_converse};
use crate::cell::{Cell, rule, next_state};

verus! {

/// Whether `n` is a board side this library accepts: a power of two, at least 2.
pub open spec fn is_side(n: int) -> bool
    decreases n,
{
    if n <= 2 {
        n == 2
    } else {
        n % 2 == 0 && is_side(n / 2)
    }
}

/// The cell at row `r`, column `c` of the `n`-wide board `g`.
pub open spec fn cell_at(g: Seq<Cell>, n: int, r: int, c: int) -> Cell {
    g[r * n + c]
}

/// 1 when (`r`, `c`) lies on the board and holds a live cell, else 0.
pub open spec fn alive_at(g: Seq<Cell>, n: int, r: int, c: int) -> int {
    if 0 <= r < n && 0 <= c < n && cell_at(g, n, r, c) == Cell::Alive {
        1
    } else {
        0
    }
}

/// Live cells among the eight Moore neighbours of (`r`, `c`).
pub open spec fn alive_neighbours(g: Seq<Cell>, n: int, r: int, c: int) -> int {
    alive_at(g, n, r - 1, c - 1) + alive_at(g, n, r - 1, c) + alive_at(g, n, r - 1, c + 1)
        + alive_at(g, n, r, c - 1) + alive_at(g, n, r, c + 1)
        + alive_at(g, n, r + 1, c - 1) + alive_at(g, n, r + 1, c) + alive_at(g, n, r + 1, c + 1)
}

/// Whether (`r`, `c`) is on the outer ring of an `n`-wide board.
pub open spec fn on_border(n: int, r: int, c: int) -> bool {
    r == 0 || c == 0 || r == n - 1 || c == n - 1
}

/// The state of (`r`, `c`) one generation on. Cells of the outer ring have
/// no full neighbourhood on the board and keep their state; every other cell
/// follows the survive/birth rule.
pub open spec fn next_cell(g: Seq<Cell>, n: int, r: int, c: int) -> Cell {
    if on_border(n, r, c) {
        cell_at(g, n, r, c)
    } else {
        rule(cell_at(g, n, r, c), alive_neighbours(g, n, r, c))
    }
}

/// The whole `n`-wide board `g` advanced one generation.
pub open spec fn next_generation(g: Seq<Cell>, n: int) -> Seq<Cell> {
    Seq::new((n * n) as nat, |i: int| next_cell(g, n, i / n, i % n))
}

/// The `m`-wide square of `g` whose top left corner is (`r0`, `c0`).
pub open spec fn sub_grid(g: Seq<Cell>, n: int, r0: int, c0: int, m: int) -> Seq<Cell> {
    Seq::new((m * m) as nat, |i: int| cell_at(g, n, r0 + i / m, c0 + i % m))
}

/// Sides are even, and those above 2 and 4 split into quarters and eighths.
pub proof fn lemma_side_facts(n: int)
    requires
        is_side(n),
    ensures
        n >= 2,
        n % 2 == 0,
        n > 2 ==> n >= 4 && n % 4 == 0,
        n > 4 ==> n >= 8 && n % 8 == 0,
    decreases n,
{
    if n > 2 {
        lemma_side_facts(n / 2);
    }
}

/// No side lies strictly between a side and its double.
pub proof fn lemma_side_gap(a: int, b: int)
    requires
        is_side(a),
        is_side(b),
        a < b,
    ensures
        2 * a <= b,
    decreases b,
{
    lemma_side_facts(a);
    lemma_side_facts(b);
    if a > 2 {
        lemma_side_gap(a / 2, b / 2);
    }
}

/// The side of a board of `len` cells, if it has one this library accepts.
pub fn side_length(len: usize) -> (r: Option<usize>)
    ensures
        match r {
            Some(n) => is_side(n as int) && n * n == len,
            None => !exists|n: int| is_side(n) && #[trigger] (n * n) == len,
        },
{
    let mut s: usize = 2;
    loop
        invariant
            is_side(s as int),
            forall|t: int| is_side(t) && t < s ==> #[trigger] (t * t) < len,
        decreases usize::MAX - s,
    {
        proof {
            lemma_side_facts(s as int);
        }
        match s.checked_mul(s) {
            Some(sq) => {
                if sq == len {
                    return Some(s);
                }
                if sq > len {
                    proof {
                        assert forall|t: int| is_side(t) implies #[trigger] (t * t) != len by {
                            if t > s {
                                assert(t * t > s * s) by (nonlinear_arith)
                                    requires
                                        t > s,
                                        s >= 2,
                                ;
                            }
                        }
                    }
                    return None;
                }
                assert(2 * s <= s * s) by (nonlinear_arith)
                    requires
                        s >= 2,
                ;
                proof {
                    assert forall|t: int| is_side(t) && t < 2 * s implies #[trigger] (t * t) < len by {
                        if t > s {
                            lemma_side_gap(s as int, t);
                        }
                    }
                    assert(is_side(2 * s as int));
                }
                s = 2 * s;
            },
            None => {
                proof {
                    assert forall|t: int| is_side(t) implies #[trigger] (t * t) != len by {
                        if t >= s {
                            assert(t * t >= s * s) by (nonlinear_arith)
                                requires
                                    t >= s,
                                    s >= 2,
                            ;
                        }
                    }
                }
                return None;
            },
        }
    }
}

/// Row-major indexing is a bijection between cells and positions.
pub proof fn lemma_index(n: int, r: int, c: int)
    requires
        0 <= r < n,
        0 <= c < n,
    ensures
        0 <= r * n + c < n * n,
        (r * n + c) / n == r,
        (r * n + c) % n == c,
{
    assert(0 <= r * n + c < n * n) by (nonlinear_arith)
        requires
            0 <= r < n,
            0 <= c < n,
    ;
    lemma_fundamental_div_mod_converse(r * n + c, n, r, c);
}

/// A position splits into its row and its column.
pub proof fn lemma_split(n: int, i: int)
    requires
        n >= 0,
        0 <= i < n * n,
    ensures
        0 <= i / n < n,
        0 <= i % n < n,
        i == (i / n) * n + i % n,
{
    assert(n > 0) by (nonlinear_arith)
        requires
            n >= 0,
            0 <= i < n * n,
    ;
    lemma_fundamental_div_mod(i, n);
    assert((i / n) * n == n * (i / n)) by (nonlinear_arith);
    assert(i / n < n) by (nonlinear_arith)
        requires
            0 <= i < n * n,
            n > 0,
            i == (i / n) * n + i % n,
            0 <= i % n < n,
    ;
    assert(0 <= i / n) by (nonlinear_arith)
        requires
            0 <= i,
            n > 0,
    ;
}

/// Each cell of a sub-square is the cell of the board at the shifted place.
pub proof fn lemma_sub_grid_at(g: Seq<Cell>, n: int, r0: int, c0: int, m: int, a: int, b: int)
    requires
        0 <= a < m,
        0 <= b < m,
    ensures
        0 <= a * m + b < m * m,
        sub_grid(g, n, r0, c0, m)[a * m + b] == cell_at(g, n, r0 + a, c0 + b),
{
    lemma_index(m, a, b);
}

/// A board whose cells are all equal by position is the next generation.
pub proof fn lemma_next_generation_ext(s: Seq<Cell>, g: Seq<Cell>, n: int)
    requires
        n >= 0,
        s.len() == n * n,
        forall|i: int| 0 <= i < n * n ==> s[i] == #[trigger] next_generation(g, n)[i],
    ensures
        s == next_generation(g, n),
{
    assert(s =~= next_generation(g, n));
}

/// A cell inside a sub-square is alive there exactly when it is alive on the board.
proof fn lemma_sub_alive(g: Seq<Cell>, n: int, r0: int, c0: int, m: int, a: int, b: int)
    requires
        0 <= a < m,
        0 <= b < m,
    ensures
        alive_at(sub_grid(g, n, r0, c0, m), m, a, b) == alive_at(g, n, r0 + a, c0 + b)
            || !(0 <= r0 + a < n && 0 <= c0 + b < n),
{
    lemma_sub_grid_at(g, n, r0, c0, m, a, b);
}

/// The next generation of a cell read inside a sub-square equals that read on
/// the whole board, where a cell on the sub-square's ring lies on the board's
/// ring too.
pub proof fn lemma_sub_next(g: Seq<Cell>, n: int, r0: int, c0: int, m: int, a: int, b: int)
    requires
        g.len() == n * n,
        0 <= r0,
        r0 + m <= n,
        0 <= c0,
        c0 + m <= n,
        0 <= a < m,
        0 <= b < m,
        on_border(m, a, b) ==> on_border(n, r0 + a, c0 + b),
    ensures
        next_cell(sub_grid(g, n, r0, c0, m), m, a, b) == next_cell(g, n, r0 + a, c0 + b),
{
    let s = sub_grid(g, n, r0, c0, m);
    lemma_sub_grid_at(g, n, r0, c0, m, a, b);
    if !on_border(m, a, b) {
        lemma_sub_alive(g, n, r0, c0, m, a - 1, b - 1);
        lemma_sub_alive(g, n, r0, c0, m, a - 1, b);
        lemma_sub_alive(g, n, r0, c0, m, a - 1, b + 1);
        lemma_sub_alive(g, n, r0, c0, m, a, b - 1);
        lemma_sub_alive(g, n, r0, c0, m, a, b + 1);
        lemma_sub_alive(g, n, r0, c0, m, a + 1, b - 1);
        lemma_sub_alive(g, n, r0, c0, m, a + 1, b);
        lemma_sub_alive(g, n, r0, c0, m, a + 1, b + 1);
        assert(alive_neighbours(s, m, a, b) == alive_neighbours(g, n, r0 + a, c0 + b));
    }
}

/// A board with no live cell has none one generation on.
pub proof fn lemma_dead_stays_dead(g: Seq<Cell>, n: int)
    requires
        is_side(n),
        g.len() == n * n,
        forall|i: int| 0 <= i < g.len() ==> g[i] == Cell::Dead,
    ensures
        forall|i: int| 0 <= i < n * n ==> #[trigger] next_generation(g, n)[i] == Cell::Dead,
{
    assert forall|r: int, c: int| 0 <= r < n && 0 <= c < n implies #[trigger] cell_at(g, n, r, c) == Cell::Dead by {
        lemma_index(n, r, c);
    }
    assert forall|i: int| 0 <= i < n * n implies #[trigger] next_generation(g, n)[i] == Cell::Dead by {
        lemma_split(n, i);
    }
}

/// Reads one cell of the board.
pub fn read_cell(g: &Vec<Cell>, n: usize, r: usize, c: usize) -> (x: Cell)
    requires
        g@.len() == n * n,
        r < n,
        c < n,
    ensures
        x == cell_at(g@, n as int, r as int, c as int),
{
    proof {
        lemma_index(n as int, r as int, c as int);
    }
    let len = g.len();
    assert(r * n + c < len);
    g[r * n + c]
}

/// Live cells among the eight neighbours of a cell off the outer ring.
pub fn count_alive_neighbours(g: &Vec<Cell>, n: usize, r: usize, c: usize) -> (k: u8)
    requires
        g@.len() == n * n,
        1 <= r,
        r + 1 < n,
        1 <= c,
        c + 1 < n,
    ensures
        k as int == alive_neighbours(g@, n as int, r as int, c as int),
{
    let mut k: u8 = 0;
    let mut dr: usize = 0;
    while dr < 3
        invariant
            g@.len() == n * n,
            1 <= r,
            r + 1 < n,
            1 <= c,
            c + 1 < n,
            dr <= 3,
            k as int == (if dr > 0 { alive_at(g@, n as int, r - 1, c - 1) + alive_at(g@, n as int, r - 1, c as int) + alive_at(g@, n as int, r - 1, c + 1) } else { 0 })
                + (if dr > 1 { alive_at(g@, n as int, r as int, c - 1) + alive_at(g@, n as int, r as int, c + 1) } else { 0 })
                + (if dr > 2 { alive_at(g@, n as int, r + 1, c - 1) + alive_at(g@, n as int, r + 1, c as int) + alive_at(g@, n as int, r + 1, c + 1) } else { 0 }),
        decreases 3 - dr,
    {
        let row = r + dr - 1;
        let mut dc: usize = 0;
        let before: u8 = k;
        while dc < 3
            invariant
                g@.len() == n * n,
                row < n,
                1 <= c,
                c + 1 < n,
                dc <= 3,
                before <= 6,
                k as int == before as int
                    + (if dc > 0 { alive_at(g@, n as int, row as int, c - 1) } else { 0 })
                    + (if dc > 1 && row != r { alive_at(g@, n as int, row as int, c as int) } else { 0 })
                    + (if dc > 2 { alive_at(g@, n as int, row as int, c + 1) } else { 0 }),
            decreases 3 - dc,
        {
            let col = c + dc - 1;
            if !(row == r && col == c) {
                if read_cell(g, n, row, col) == Cell::Alive {
                    k = k + 1;
                }
            }
            dc = dc + 1;
        }
        dr = dr + 1;
    }
    k
}

/// Copies out the `m`-wide square of `g` whose top left corner is (`r0`, `c0`).
pub fn extract(g: &Vec<Cell>, n: usize, r0: usize, c0: usize, m: usize) -> (s: Vec<Cell>)
    requires
        g@.len() == n * n,
        r0 + m <= n,
        c0 + m <= n,
    ensures
        s@ == sub_grid(g@, n as int, r0 as int, c0 as int, m as int),
{
    let mut s: Vec<Cell> = Vec::new();
    let mut a: usize = 0;
    while a < m
        invariant
            g@.len() == n * n,
            r0 + m <= n,
            c0 + m <= n,
            a <= m,
            s@.len() == a * m,
            forall|i: int| 0 <= i < s@.len() ==> s@[i] == #[trigger] sub_grid(g@, n as int, r0 as int, c0 as int, m as int)[i],
        decreases m - a,
    {
        let mut b: usize = 0;
        while b < m
            invariant
                g@.len() == n * n,
                r0 + m <= n,
                c0 + m <= n,
                a < m,
                b <= m,
                s@.len() == a * m + b,
                forall|i: int| 0 <= i < s@.len() ==> s@[i] == #[trigger] sub_grid(g@, n as int, r0 as int, c0 as int, m as int)[i],
            decreases m - b,
        {
            proof {
                lemma_sub_grid_at(g@, n as int, r0 as int, c0 as int, m as int, a as int, b as int);
            }
            let x = read_cell(g, n, r0 + a, c0 + b);
            s.push(x);
            b = b + 1;
        }
        assert(a * m + m == (a + 1) * m) by (nonlinear_arith);
        a = a + 1;
    }
    assert(s@ =~= sub_grid(g@, n as int, r0 as int, c0 as int, m as int));
    s
}

} // verus!
