//! The quadtree: a square board as nine overlapping half-size regions.
use vstd::prelude::*;
use crate::cell::{Cell, rule, next_state};
use crate::grid::{
    is_side, sub_grid, alive_neighbours, next_generation, on_border, extract, side_length,
    count_alive_neighbours, lemma_side_facts, lemma_split, lemma_index, lemma_sub_grid_at,
    lemma_sub_next, lemma_next_generation_ext,
};
use crate::cache::{EvolutionCache, copy_cells};

verus! {

/// One child of a region: a smaller region, or a single cell at the bottom level.
#[derive(Debug)]
pub enum NodePointer {
    Node(Box<Node>),
    Cell(Cell),
}

/// A square region of side `depth` (a power of two) and `area` cells.
///
/// Four children are its quadrants (`nw`, `ne`, `sw`, `se`), four straddle
/// one edge each over the middle half of it (`nn`, `ee`, `ss`, `ww`), and `cc`
/// is the middle half in both directions. The overlap lets every child be
/// advanced on its own and the results be pieced together. A region of side
/// 2 holds its four cells in the quadrants and dead cells elsewhere.
#[derive(Debug)]
pub struct Node {
    nw: NodePointer,
    ne: NodePointer,
    sw: NodePointer,
    se: NodePointer,
    nn: NodePointer,
    ee: NodePointer,
    ss: NodePointer,
    ww: NodePointer,
    cc: NodePointer,
    depth: usize,
    area: usize,
}

/// Why a flat board could not be turned into a tree.
#[derive(Clone, Copy, Debug, PartialEq, Eq, Structural)]
pub enum BuildError {
    /// The length is not the square of a power of two of at least 2.
    InvalidShape,
}

/// Whether a board of `len` cells has a side this library accepts.
pub open spec fn valid_area(len: int) -> bool {
    exists|n: int| is_side(n) && #[trigger] (n * n) == len
}

/// `p` is a region that holds the `d / 2`-wide square of `g` at (`r0`, `c0`).
pub closed spec fn part_represents(p: NodePointer, g: Seq<Cell>, d: int, r0: int, c0: int) -> bool
    decreases p,
{
    match p {
        NodePointer::Node(b) => b.represents(sub_grid(g, d, r0, c0, d / 2), d / 2),
        NodePointer::Cell(_) => false,
    }
}

impl Node {
    /// The tree is the `d`-wide board `g`, every child holding its part of it.
    pub closed spec fn represents(self, g: Seq<Cell>, d: int) -> bool
        decreases self,
    {
        &&& self.depth == d
        &&& self.area == d * d
        &&& g.len() == d * d
        &&& is_side(d)
        &&& if d == 2 {
            &&& self.nw == NodePointer::Cell(g[0])
            &&& self.ne == NodePointer::Cell(g[1])
            &&& self.sw == NodePointer::Cell(g[2])
            &&& self.se == NodePointer::Cell(g[3])
            &&& self.nn == NodePointer::Cell(Cell::Dead)
            &&& self.ee == NodePointer::Cell(Cell::Dead)
            &&& self.ss == NodePointer::Cell(Cell::Dead)
            &&& self.ww == NodePointer::Cell(Cell::Dead)
            &&& self.cc == NodePointer::Cell(Cell::Dead)
        } else {
            &&& part_represents(self.nw, g, d, 0, 0)
            &&& part_represents(self.nn, g, d, 0, d / 4)
            &&& part_represents(self.ne, g, d, 0, d / 2)
            &&& part_represents(self.ww, g, d, d / 4, 0)
            &&& part_represents(self.cc, g, d, d / 4, d / 4)
            &&& part_represents(self.ee, g, d, d / 4, d / 2)
            &&& part_represents(self.sw, g, d, d / 2, 0)
            &&& part_represents(self.ss, g, d, d / 2, d / 4)
            &&& part_represents(self.se, g, d, d / 2, d / 2)
        }
    }

    /// The side of the region.
    pub closed spec fn side(self) -> int {
        self.depth as int
    }

    /// The tree is well formed: it holds some board of its side.
    pub closed spec fn wf(self) -> bool {
        exists|g: Seq<Cell>| self.represents(g, self.side())
    }

    /// The board that a well-formed tree holds, row by row.
    pub closed spec fn cells(self) -> Seq<Cell> {
        choose|g: Seq<Cell>| self.represents(g, self.side())
    }
}

/// The board that a child holds is fixed by the child.
proof fn lemma_part_unique(p: NodePointer, g1: Seq<Cell>, g2: Seq<Cell>, d: int, r0: int, c0: int)
    requires
        part_represents(p, g1, d, r0, c0),
        part_represents(p, g2, d, r0, c0),
    ensures
        sub_grid(g1, d, r0, c0, d / 2) == sub_grid(g2, d, r0, c0, d / 2),
    decreases p,
{
    match p {
        NodePointer::Node(b) => lemma_unique(*b, sub_grid(g1, d, r0, c0, d / 2), sub_grid(g2, d, r0, c0, d / 2), d / 2),
        NodePointer::Cell(_) => {},
    }
}

/// A tree holds one board only.
proof fn lemma_unique(t: Node, g1: Seq<Cell>, g2: Seq<Cell>, d: int)
    requires
        t.represents(g1, d),
        t.represents(g2, d),
    ensures
        g1 == g2,
    decreases t,
{
    if d == 2 {
        assert(g1 =~= g2);
    } else {
        lemma_side_facts(d);
        let m = d / 2;
        lemma_part_unique(t.nw, g1, g2, d, 0, 0);
        lemma_part_unique(t.ne, g1, g2, d, 0, m);
        lemma_part_unique(t.sw, g1, g2, d, m, 0);
        lemma_part_unique(t.se, g1, g2, d, m, m);
        assert forall|i: int| 0 <= i < d * d implies g1[i] == g2[i] by {
            lemma_split(d, i);
            let r = i / d;
            let c = i % d;
            let r0 = if r < m { 0 } else { m };
            let c0 = if c < m { 0 } else { m };
            lemma_sub_grid_at(g1, d, r0, c0, m, r - r0, c - c0);
            lemma_sub_grid_at(g2, d, r0, c0, m, r - r0, c - c0);
        }
        assert(g1 =~= g2);
    }
}

/// Two children that hold the same part of a board are the same.
proof fn lemma_part_same(p: NodePointer, q: NodePointer, g: Seq<Cell>, d: int, r0: int, c0: int)
    requires
        part_represents(p, g, d, r0, c0),
        part_represents(q, g, d, r0, c0),
    ensures
        p == q,
    decreases p,
{
    match p {
        NodePointer::Node(b) => match q {
            NodePointer::Node(e) => lemma_same(*b, *e, sub_grid(g, d, r0, c0, d / 2), d / 2),
            NodePointer::Cell(_) => {},
        },
        NodePointer::Cell(_) => {},
    }
}

/// Two trees that hold the same board are the same tree.
proof fn lemma_same(a: Node, b: Node, g: Seq<Cell>, d: int)
    requires
        a.represents(g, d),
        b.represents(g, d),
    ensures
        a == b,
    decreases a,
{
    if d != 2 {
        lemma_part_same(a.nw, b.nw, g, d, 0, 0);
        lemma_part_same(a.nn, b.nn, g, d, 0, d / 4);
        lemma_part_same(a.ne, b.ne, g, d, 0, d / 2);
        lemma_part_same(a.ww, b.ww, g, d, d / 4, 0);
        lemma_part_same(a.cc, b.cc, g, d, d / 4, d / 4);
        lemma_part_same(a.ee, b.ee, g, d, d / 4, d / 2);
        lemma_part_same(a.sw, b.sw, g, d, d / 2, 0);
        lemma_part_same(a.ss, b.ss, g, d, d / 2, d / 4);
        lemma_part_same(a.se, b.se, g, d, d / 2, d / 2);
    }
}

impl Node {
    /// A tree that holds `g` is well formed, with `g` as its board.
    proof fn lemma_cells(self, g: Seq<Cell>, d: int)
        requires
            self.represents(g, d),
        ensures
            self.wf(),
            self.side() == d,
            self.cells() == g,
    {
        assert(self.represents(g, self.side()));
        lemma_unique(self, g, self.cells(), d);
    }
}

/// Builds the tree of the `n`-wide board `cells`.
fn build(cells: &Vec<Cell>, n: usize) -> (t: Node)
    requires
        cells@.len() == n * n,
        is_side(n as int),
    ensures
        t.represents(cells@, n as int),
    decreases n,
{
    let len = cells.len();
    if n == 2 {
        Node {
            nw: NodePointer::Cell(cells[0]),
            ne: NodePointer::Cell(cells[1]),
            sw: NodePointer::Cell(cells[2]),
            se: NodePointer::Cell(cells[3]),
            nn: NodePointer::Cell(Cell::Dead),
            ee: NodePointer::Cell(Cell::Dead),
            ss: NodePointer::Cell(Cell::Dead),
            ww: NodePointer::Cell(Cell::Dead),
            cc: NodePointer::Cell(Cell::Dead),
            depth: 2,
            area: 4,
        }
    } else {
        proof {
            lemma_side_facts(n as int);
        }
        let m = n / 2;
        let q = n / 4;
        assert(m * m >= 0) by (nonlinear_arith);
        let nw = build(&extract(cells, n, 0, 0, m), m);
        let nn = build(&extract(cells, n, 0, q, m), m);
        let ne = build(&extract(cells, n, 0, m, m), m);
        let ww = build(&extract(cells, n, q, 0, m), m);
        let cc = build(&extract(cells, n, q, q, m), m);
        let ee = build(&extract(cells, n, q, m, m), m);
        let sw = build(&extract(cells, n, m, 0, m), m);
        let ss = build(&extract(cells, n, m, q, m), m);
        let se = build(&extract(cells, n, m, m, m), m);
        Node {
            nw: NodePointer::Node(Box::new(nw)),
            ne: NodePointer::Node(Box::new(ne)),
            sw: NodePointer::Node(Box::new(sw)),
            se: NodePointer::Node(Box::new(se)),
            nn: NodePointer::Node(Box::new(nn)),
            ee: NodePointer::Node(Box::new(ee)),
            ss: NodePointer::Node(Box::new(ss)),
            ww: NodePointer::Node(Box::new(ww)),
            cc: NodePointer::Node(Box::new(cc)),
            depth: n,
            area: len,
        }
    }
}

impl Node {
    /// The side of the region.
    pub fn depth(&self) -> (d: usize)
        ensures
            d == self.side(),
    {
        self.depth
    }

    /// Builds the tree of a flat board given row by row. The board must be
    /// square with a side that is a power of two of at least 2; otherwise
    /// the result is `InvalidShape`.
    pub fn new(cells: Vec<Cell>) -> (r: Result<Node, BuildError>)
        ensures
            match r {
                Ok(t) => valid_area(cells@.len() as int) && t.wf() && t.cells() == cells@
                    && is_side(t.side()) && t.side() * t.side() == cells@.len(),
                Err(e) => !valid_area(cells@.len() as int) && e == BuildError::InvalidShape,
            },
    {
        match side_length(cells.len()) {
            Some(n) => {
                let t = build(&cells, n);
                proof {
                    t.lemma_cells(cells@, n as int);
                }
                Ok(t)
            },
            None => Err(BuildError::InvalidShape),
        }
    }
}

/// Whether two trees have the same content.
pub fn node_eq(a: &Node, b: &Node) -> (r: bool)
    ensures
        r == (*a == *b),
    decreases *a,
{
    a.depth == b.depth && a.area == b.area && part_eq(&a.nw, &b.nw) && part_eq(&a.ne, &b.ne)
        && part_eq(&a.sw, &b.sw) && part_eq(&a.se, &b.se) && part_eq(&a.nn, &b.nn)
        && part_eq(&a.ee, &b.ee) && part_eq(&a.ss, &b.ss) && part_eq(&a.ww, &b.ww)
        && part_eq(&a.cc, &b.cc)
}

/// Whether two children have the same content.
pub fn part_eq(a: &NodePointer, b: &NodePointer) -> (r: bool)
    ensures
        r == (*a == *b),
    decreases *a,
{
    match a {
        NodePointer::Node(x) => match b {
            NodePointer::Node(y) => node_eq(x, y),
            NodePointer::Cell(_) => false,
        },
        NodePointer::Cell(x) => match b {
            NodePointer::Node(_) => false,
            NodePointer::Cell(y) => *x == *y,
        },
    }
}

impl PartialEq for Node {
    fn eq(&self, other: &Node) -> (r: bool) {
        node_eq(self, other)
    }
}

impl vstd::std_specs::cmp::PartialEqSpecImpl for Node {
    open spec fn obeys_eq_spec() -> bool {
        true
    }

    open spec fn eq_spec(&self, other: &Node) -> bool {
        *self == *other
    }
}

impl Eq for Node {
}

impl PartialEq for NodePointer {
    fn eq(&self, other: &NodePointer) -> (r: bool) {
        part_eq(self, other)
    }
}

impl vstd::std_specs::cmp::PartialEqSpecImpl for NodePointer {
    open spec fn obeys_eq_spec() -> bool {
        true
    }

    open spec fn eq_spec(&self, other: &NodePointer) -> bool {
        *self == *other
    }
}

impl Eq for NodePointer {
}

/// A copy of a tree.
fn copy_node(a: &Node) -> (r: Node)
    ensures
        r == *a,
    decreases *a,
{
    Node {
        nw: copy_part(&a.nw),
        ne: copy_part(&a.ne),
        sw: copy_part(&a.sw),
        se: copy_part(&a.se),
        nn: copy_part(&a.nn),
        ee: copy_part(&a.ee),
        ss: copy_part(&a.ss),
        ww: copy_part(&a.ww),
        cc: copy_part(&a.cc),
        depth: a.depth,
        area: a.area,
    }
}

/// A copy of a child.
fn copy_part(p: &NodePointer) -> (r: NodePointer)
    ensures
        r == *p,
    decreases *p,
{
    match p {
        NodePointer::Node(b) => NodePointer::Node(Box::new(copy_node(b))),
        NodePointer::Cell(x) => NodePointer::Cell(*x),
    }
}

/// What one call of `evolve` on `node` does, with `before` and `after` the
/// cache's contents around the call and `r` its result: `r` is the node's
/// board one generation on, the cache keeps what it had and now holds `r`
/// for the node, and a node that was already there leaves it untouched.
pub open spec fn evolution(
    node: Node,
    before: Map<Node, Seq<Cell>>,
    after: Map<Node, Seq<Cell>>,
    r: Seq<Cell>,
) -> bool {
    &&& r == next_generation(node.cells(), node.side())
    &&& before.submap_of(after)
    &&& after.contains_key(node)
    &&& after[node] == r
    &&& before.contains_key(node) ==> after == before
}

/// The next generation of child `k` of a `d`-wide board `g`, children taken
/// row by row over a three-by-three grid of places a quarter side apart.
spec fn child_result(g: Seq<Cell>, d: int, k: int) -> Seq<Cell> {
    next_generation(sub_grid(g, d, band_start(k / 3, d), band_start(k % 3, d), d / 2), d / 2)
}

/// Where the children of band `b` start along a `d`-wide side.
spec fn band_start(b: int, d: int) -> int {
    if b == 0 {
        0
    } else if b == 1 {
        d / 4
    } else {
        d / 2
    }
}

/// Whether row or column `x` of a `d`-wide board lies in band `b`.
spec fn in_band(d: int, x: int, b: int) -> bool {
    ||| b == 0 && 0 <= x < 3 * (d / 8)
    ||| b == 1 && 3 * (d / 8) <= x < 5 * (d / 8)
    ||| b == 2 && 5 * (d / 8) <= x < d
}

/// Cell (`row`, `col`) of the pieced-together result, read from the child of
/// its bands, is that cell one generation on.
proof fn lemma_stitch(g: Seq<Cell>, d: int, row: int, col: int, br: int, bc: int)
    requires
        g.len() == d * d,
        d >= 8,
        d % 8 == 0,
        in_band(d, row, br),
        in_band(d, col, bc),
    ensures
        0 <= (row - band_start(br, d)) * (d / 2) + (col - band_start(bc, d)) < (d / 2) * (d / 2),
        0 <= row * d + col < d * d,
        child_result(g, d, 3 * br + bc)[(row - band_start(br, d)) * (d / 2) + (col - band_start(bc, d))]
            == next_generation(g, d)[row * d + col],
{
    let e = d / 8;
    assert(d == 8 * e);
    assert(d / 4 == 2 * e);
    assert(d / 2 == 4 * e);
    let m = d / 2;
    let q = d / 4;
    let a = row - band_start(br, d);
    let b = col - band_start(bc, d);
    assert(0 <= a < m);
    assert(0 <= b < m);
    assert((3 * br + bc) / 3 == br);
    assert((3 * br + bc) % 3 == bc);
    lemma_index(m, a, b);
    lemma_index(d, row, col);
    lemma_sub_next(g, d, band_start(br, d), band_start(bc, d), m, a, b);
}

/// Which third of a `d`-wide side a row or column falls into when the nine
/// results are pieced together: the first three eighths, the middle quarter,
/// or the last three eighths.
fn band(d: usize, x: usize) -> (b: usize)
    requires
        d % 8 == 0,
        x < d,
    ensures
        b < 3,
        in_band(d as int, x as int, b as int),
{
    let e = d / 8;
    if x < 3 * e {
        0
    } else if x < 5 * e {
        1
    } else {
        2
    }
}

/// The child that holds a part of the board, where it is a region.
fn branch<'a>(
    p: &'a NodePointer,
    Ghost(g): Ghost<Seq<Cell>>,
    Ghost(d): Ghost<int>,
    Ghost(r0): Ghost<int>,
    Ghost(c0): Ghost<int>,
) -> (t: &'a Node)
    requires
        part_represents(*p, g, d, r0, c0),
    ensures
        t.represents(sub_grid(g, d, r0, c0, d / 2), d / 2),
{
    match p {
        NodePointer::Node(b) => &**b,
        NodePointer::Cell(_) => {
            proof {
                assert(false);
            }
            vstd::pervasive::unreached()
        },
    }
}

/// The cell of a child at the bottom level.
fn leaf(p: &NodePointer) -> (x: Cell)
    requires
        *p is Cell,
    ensures
        *p == NodePointer::Cell(x),
{
    match p {
        NodePointer::Cell(x) => *x,
        NodePointer::Node(_) => vstd::pervasive::unreached(),
    }
}

/// The cells of a side-2 quadrant of a side-4 board.
proof fn lemma_quadrant(t: &Node, g: Seq<Cell>, r0: int, c0: int)
    requires
        t.represents(sub_grid(g, 4, r0, c0, 2), 2),
    ensures
        t.nw == NodePointer::Cell(g[r0 * 4 + c0]),
        t.ne == NodePointer::Cell(g[r0 * 4 + c0 + 1]),
        t.sw == NodePointer::Cell(g[r0 * 4 + c0 + 4]),
        t.se == NodePointer::Cell(g[r0 * 4 + c0 + 5]),
{
    lemma_sub_grid_at(g, 4, r0, c0, 2, 0, 0);
    lemma_sub_grid_at(g, 4, r0, c0, 2, 0, 1);
    lemma_sub_grid_at(g, 4, r0, c0, 2, 1, 0);
    lemma_sub_grid_at(g, 4, r0, c0, 2, 1, 1);
}

/// A side-4 board whose ring is kept and whose four middle cells follow the
/// rule is the next generation.
#[verifier::rlimit(40)]
proof fn lemma_base(g: Seq<Cell>, r: Seq<Cell>)
    requires
        g.len() == 16,
        r.len() == 16,
        forall|i: int| 0 <= i < 16 && i != 5 && i != 6 && i != 9 && i != 10 ==> r[i] == g[i],
        r[5] == rule(g[5], alive_neighbours(g, 4, 1, 1)),
        r[6] == rule(g[6], alive_neighbours(g, 4, 1, 2)),
        r[9] == rule(g[9], alive_neighbours(g, 4, 2, 1)),
        r[10] == rule(g[10], alive_neighbours(g, 4, 2, 2)),
    ensures
        r == next_generation(g, 4),
{
    assert forall|i: int| 0 <= i < 16 implies r[i] == #[trigger] next_generation(g, 4)[i] by {
        lemma_split(4, i);
        let row = i / 4;
        let col = i % 4;
        assert(i == row * 4 + col);
        if on_border(4, row, col) {
            assert(r[i] == g[i]);
        } else {
            assert(row == 1 || row == 2);
            assert(col == 1 || col == 2);
        }
    }
    lemma_next_generation_ext(r, g, 4);
}

impl Node {
    /// Child `k` of a region of side 4 or more, the children taken row by
    /// row over a three-by-three grid of places a quarter side apart.
    fn part(&self, k: usize, Ghost(g): Ghost<Seq<Cell>>) -> (p: &NodePointer)
        requires
            k < 9,
            self.represents(g, self.side()),
            self.side() > 2,
        ensures
            part_represents(*p, g, self.side(), band_start(k as int / 3, self.side()), band_start(k as int % 3, self.side())),
    {
        proof {
            lemma_side_facts(self.side());
        }
        match k {
            0 => &self.nw,
            1 => &self.nn,
            2 => &self.ne,
            3 => &self.ww,
            4 => &self.cc,
            5 => &self.ee,
            6 => &self.sw,
            7 => &self.ss,
            _ => &self.se,
        }
    }

    /// The quadrants of a side-4 region hold the quarters of its board.
    proof fn lemma_corners(self, g: Seq<Cell>)
        requires
            self.wf(),
            self.side() == 4,
            g == self.cells(),
        ensures
            part_represents(self.nw, g, 4, 0, 0),
            part_represents(self.ne, g, 4, 0, 2),
            part_represents(self.sw, g, 4, 2, 0),
            part_represents(self.se, g, 4, 2, 2),
            g.len() == 16,
    {
        assert(self.represents(g, 4));
    }

    /// The board of a side-4 region, read from the cells of its quadrants.
    #[verifier::spinoff_prover]
    fn base_board(&self) -> (b: Vec<Cell>)
        requires
            self.wf(),
            self.side() == 4,
        ensures
            b@ == self.cells(),
    {
        let ghost g = self.cells();
        proof {
            self.lemma_corners(g);
        }
        let nw = branch(&self.nw, Ghost(g), Ghost(4), Ghost(0), Ghost(0));
        let ne = branch(&self.ne, Ghost(g), Ghost(4), Ghost(0), Ghost(2));
        let sw = branch(&self.sw, Ghost(g), Ghost(4), Ghost(2), Ghost(0));
        let se = branch(&self.se, Ghost(g), Ghost(4), Ghost(2), Ghost(2));
        proof {
            lemma_quadrant(nw, g, 0, 0);
            lemma_quadrant(ne, g, 0, 2);
            lemma_quadrant(sw, g, 2, 0);
            lemma_quadrant(se, g, 2, 2);
        }
        let b: Vec<Cell> = vec![
            leaf(&nw.nw), leaf(&nw.ne), leaf(&ne.nw), leaf(&ne.ne),
            leaf(&nw.sw), leaf(&nw.se), leaf(&ne.sw), leaf(&ne.se),
            leaf(&sw.nw), leaf(&sw.ne), leaf(&se.nw), leaf(&se.ne),
            leaf(&sw.sw), leaf(&sw.se), leaf(&se.sw), leaf(&se.se),
        ];
        assert(b@ =~= g);
        b
    }

    /// Advances a side-4 region: the four middle cells follow the rule, the
    /// outer ring stays.
    fn evolve_base(&self) -> (r: Vec<Cell>)
        requires
            self.wf(),
            self.side() == 4,
        ensures
            r@ == next_generation(self.cells(), 4),
    {
        let ghost g = self.cells();
        let b = self.base_board();
        let mut r = copy_cells(&b);
        let x = next_state(b[5], count_alive_neighbours(&b, 4, 1, 1));
        r.set(5, x);
        let x = next_state(b[6], count_alive_neighbours(&b, 4, 1, 2));
        r.set(6, x);
        let x = next_state(b[9], count_alive_neighbours(&b, 4, 2, 1));
        r.set(9, x);
        let x = next_state(b[10], count_alive_neighbours(&b, 4, 2, 2));
        r.set(10, x);
        proof {
            lemma_base(g, r@);
        }
        r
    }

    /// Advances a region of side 8 or more: each of the nine children is
    /// advanced, and the result is pieced together from them, the band of
    /// each row and column choosing the child.
    fn evolve_split(&self, cache: &mut EvolutionCache) -> (r: Vec<Cell>)
        requires
            self.wf(),
            self.side() >= 8,
            old(cache).wf(),
        ensures
            final(cache).wf(),
            old(cache)@.submap_of(final(cache)@),
            r@ == next_generation(self.cells(), self.side()),
        decreases self.side(), 0int,
    {
        let ghost g = self.cells();
        let d = self.depth;
        let ghost di = d as int;
        assert(self.represents(g, di));
        proof {
            lemma_side_facts(di);
        }
        let m = d / 2;
        let q = d / 4;
        let mut parts: Vec<Vec<Cell>> = Vec::new();
        let mut k: usize = 0;
        while k < 9
            invariant
                k <= 9,
                parts@.len() == k,
                cache.wf(),
                old(cache)@.submap_of(cache@),
                self.represents(g, di),
                di == self.side(),
                di >= 8,
                di % 8 == 0,
                m == di / 2,
                q == di / 4,
                forall|j: int| 0 <= j < k ==> (#[trigger] parts@[j])@ == child_result(g, di, j),
            decreases 9 - k,
        {
            let ghost r0 = band_start(k as int / 3, di);
            let ghost c0 = band_start(k as int % 3, di);
            let p = self.part(k, Ghost(g));
            let t = branch(p, Ghost(g), Ghost(di), Ghost(r0), Ghost(c0));
            proof {
                t.lemma_cells(sub_grid(g, di, r0, c0, m as int), m as int);
            }
            let ghost before = cache@;
            let x = t.evolve(cache);
            proof {
                vstd::map_lib::lemma_submap_of_trans(old(cache)@, before, cache@);
            }
            parts.push(x);
            k = k + 1;
        }
        let mut out: Vec<Cell> = Vec::new();
        let mut row: usize = 0;
        while row < d
            invariant
                parts@.len() == 9,
                g.len() == di * di,
                di >= 8,
                di % 8 == 0,
                d == di,
                m == di / 2,
                q == di / 4,
                row <= d,
                out@.len() == row * d,
                forall|j: int| 0 <= j < 9 ==> (#[trigger] parts@[j])@ == child_result(g, di, j),
                forall|i: int| 0 <= i < out@.len() ==> out@[i] == #[trigger] next_generation(g, di)[i],
            decreases d - row,
        {
            let br = band(d, row);
            let r0 = if br == 0 {
                0
            } else if br == 1 {
                q
            } else {
                m
            };
            let mut col: usize = 0;
            while col < d
                invariant
                    parts@.len() == 9,
                    g.len() == di * di,
                    di >= 8,
                    di % 8 == 0,
                    d == di,
                    m == di / 2,
                    q == di / 4,
                    row < d,
                    in_band(di, row as int, br as int),
                    r0 == band_start(br as int, di),
                    col <= d,
                    out@.len() == row * d + col,
                    forall|j: int| 0 <= j < 9 ==> (#[trigger] parts@[j])@ == child_result(g, di, j),
                    forall|i: int| 0 <= i < out@.len() ==> out@[i] == #[trigger] next_generation(g, di)[i],
                decreases d - col,
            {
                let bc = band(d, col);
                let c0 = if bc == 0 {
                    0
                } else if bc == 1 {
                    q
                } else {
                    m
                };
                proof {
                    lemma_stitch(g, di, row as int, col as int, br as int, bc as int);
                }
                let src = &parts[3 * br + bc];
                let len = src.len();
                let x = src[(row - r0) * m + (col - c0)];
                out.push(x);
                col = col + 1;
            }
            assert(row * d + d == (row + 1) * d) by (nonlinear_arith);
            row = row + 1;
        }
        proof {
            lemma_next_generation_ext(out@, g, di);
        }
        out
    }

    /// This region advanced one generation, row by row. A region already in
    /// the cache is answered from it; any other is computed and then stored.
    pub fn evolve(&self, cache: &mut EvolutionCache) -> (r: Vec<Cell>)
        requires
            self.wf(),
            self.side() >= 4,
            old(cache).wf(),
        ensures
            final(cache).wf(),
            evolution(*self, old(cache)@, final(cache)@, r@),
        decreases self.side(), 1int,
    {
        if let Some(v) = cache.get(self) {
            proof {
                cache.lemma_entry(*self);
            }
            return v;
        }
        let r = if self.depth == 4 {
            self.evolve_base()
        } else {
            proof {
                let g = self.cells();
                assert(self.represents(g, self.side()));
                lemma_side_facts(self.side());
            }
            self.evolve_split(cache)
        };
        cache.put(copy_node(self), copy_cells(&r));
        r
    }
}

/// Trees built separately from one board are the same key to the cache:
/// once one has been advanced, advancing the other gives the same board and
/// leaves the cache as it was, so nothing is computed again.
pub proof fn lemma_rebuilt_tree_is_cached(
    a: Node,
    b: Node,
    c0: Map<Node, Seq<Cell>>,
    c1: Map<Node, Seq<Cell>>,
    c2: Map<Node, Seq<Cell>>,
    r1: Seq<Cell>,
    r2: Seq<Cell>,
)
    requires
        a.wf(),
        b.wf(),
        a.side() == b.side(),
        a.cells() == b.cells(),
        evolution(a, c0, c1, r1),
        evolution(b, c1, c2, r2),
    ensures
        a == b,
        r2 == r1,
        c2 == c1,
{
    assert(a.represents(a.cells(), a.side()));
    assert(b.represents(b.cells(), b.side()));
    lemma_same(a, b, a.cells(), a.side());
}

/// Advancing keeps the size of the board: a tree built from `cells` gives
/// back as many cells.
pub proof fn lemma_evolve_keeps_length(
    cells: Seq<Cell>,
    t: Node,
    before: Map<Node, Seq<Cell>>,
    after: Map<Node, Seq<Cell>>,
    r: Seq<Cell>,
)
    requires
        t.wf(),
        t.side() >= 4,
        t.cells() == cells,
        evolution(t, before, after, r),
    ensures
        r.len() == cells.len(),
{
    assert(t.represents(t.cells(), t.side()));
    assert(t.side() * t.side() >= 0) by (nonlinear_arith);
}

} // verus!
