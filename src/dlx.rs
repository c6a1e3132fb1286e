//! Dancing links: the toroidal structure of an exact-cover matrix, held in an
//! arena addressed by `(row, col)` coordinates.
//!
//! Row `-1` holds the column headers, and `(-1, -1)` is the root. Every link
//! field of every node is pinned down by the matrix and by the sequence of
//! columns covered so far (see `exp_at`), so the structure reached after a
//! `cover` and its `uncover` is the very one from before.
use vstd::prelude::*;
use crate::ring::{
    later, lemma_cnt_bounds, lemma_ring_unlink, pres, ring_count, ring_next, ring_prev,
};

verus! {

/// Coordinates of a node: `row == -1` for a column header, `(-1, -1)` for the root.
#[derive(Clone, Copy, Debug, PartialEq, Eq, Structural)]
pub struct Addr {
    pub row: i32,
    pub col: i32,
}

impl Addr {
    /// The root's address, also the value of a link not set yet.
    pub fn new() -> (r: Addr)
        ensures
            r == root_addr(),
    {
        Addr { row: -1, col: -1 }
    }
}

pub open spec fn root_addr() -> Addr {
    Addr { row: -1i32, col: -1i32 }
}

pub open spec fn addr(row: int, col: int) -> Addr {
    Addr { row: row as i32, col: col as i32 }
}

/// One entry of the arena: a 1 of the matrix, a column header or the root.
#[derive(Clone, Copy, Debug, PartialEq, Eq, Structural)]
pub struct Node {
    pub addr: Addr,
    pub root: bool,
    pub is_header: bool,
    pub is_legit: bool,
    /// Number of live nodes in the column (headers only).
    pub size: usize,
    pub header: Addr,
    pub left: Addr,
    pub right: Addr,
    pub up: Addr,
    pub down: Addr,
}

/// A node with no links yet.
pub open spec fn blank(row: int, col: int, is_header: bool) -> Node {
    Node {
        addr: addr(row, col),
        root: false,
        is_header,
        is_legit: false,
        size: 0,
        header: root_addr(),
        left: root_addr(),
        right: root_addr(),
        up: root_addr(),
        down: root_addr(),
    }
}

impl Node {
    pub fn new(row: i32, col: i32, is_header: bool) -> (n: Node)
        ensures
            n == blank(row as int, col as int, is_header),
    {
        Node {
            addr: Addr { row, col },
            root: false,
            is_header,
            is_legit: false,
            size: 0,
            header: Addr::new(),
            left: Addr::new(),
            right: Addr::new(),
            up: Addr::new(),
            down: Addr::new(),
        }
    }

    /// Sets the owning column of a matrix node.
    pub fn set_header(&mut self, h: Addr)
        requires
            !old(self).is_header,
            !old(self).root,
        ensures
            *final(self) == (Node { header: h, ..*old(self) }),
    {
        self.header = h;
    }

    /// One more live node in this header's column.
    pub fn incr_size(&mut self)
        requires
            old(self).is_header,
            old(self).size < usize::MAX,
        ensures
            *final(self) == (Node { size: (old(self).size + 1) as usize, ..*old(self) }),
    {
        self.size = self.size + 1;
    }

    /// One live node less in this header's column.
    pub fn decr_size(&mut self)
        requires
            old(self).is_header,
            old(self).size > 0,
        ensures
            *final(self) == (Node { size: (old(self).size - 1) as usize, ..*old(self) }),
    {
        self.size = self.size - 1;
    }

    pub fn set_left(&mut self, a: Addr)
        ensures
            *final(self) == (Node { left: a, ..*old(self) }),
    {
        self.left = a;
    }

    pub fn set_right(&mut self, a: Addr)
        ensures
            *final(self) == (Node { right: a, ..*old(self) }),
    {
        self.right = a;
    }

    pub fn set_up(&mut self, a: Addr)
        ensures
            *final(self) == (Node { up: a, ..*old(self) }),
    {
        self.up = a;
    }

    pub fn set_down(&mut self, a: Addr)
        ensures
            *final(self) == (Node { down: a, ..*old(self) }),
    {
        self.down = a;
    }
}

// ---------------------------------------------------------------------------
// The matrix and the times at which nodes and columns were unlinked
// ---------------------------------------------------------------------------

pub open spec fn nrows(m: Seq<Seq<bool>>) -> int {
    m.len() as int
}

pub open spec fn ncols(m: Seq<Seq<bool>>) -> int {
    if m.len() == 0 {
        0
    } else {
        m[0].len() as int
    }
}

/// All rows have the same length, and the sizes fit the coordinates.
pub open spec fn rect(m: Seq<Seq<bool>>) -> bool {
    &&& forall|r: int| 0 <= r < m.len() ==> (#[trigger] m[r]).len() == ncols(m)
    &&& m.len() < i32::MAX
    &&& ncols(m) < i32::MAX
}

/// Index of the first column of `cs` that row `r` has a 1 in, `cs.len()` if none.
pub open spec fn first_hit(m: Seq<Seq<bool>>, cs: Seq<int>, r: int) -> int
    decreases cs.len(),
{
    if cs.len() == 0 {
        0
    } else {
        let h = first_hit(m, cs.drop_last(), r);
        if h < cs.len() - 1 {
            h
        } else if m[r][cs.last()] {
            cs.len() - 1
        } else {
            cs.len() as int
        }
    }
}

/// Row `r` shares no column with the covered columns `cs`.
pub open spec fn row_alive(m: Seq<Seq<bool>>, cs: Seq<int>, r: int) -> bool {
    first_hit(m, cs, r) == cs.len()
}

/// When node `(r, c)` was unlinked from its column, `-1` if it is linked: a row
/// leaves every column but one when the first of its columns is covered.
pub open spec fn node_time(m: Seq<Seq<bool>>, cs: Seq<int>, r: int, c: int) -> int {
    if 0 <= r < nrows(m) && 0 <= c < ncols(m) && m[r][c] {
        let h = first_hit(m, cs, r);
        if h == cs.len() || cs[h] == c {
            -1
        } else {
            h * nrows(m) + r
        }
    } else {
        -1
    }
}

/// Position of column `c` in `cs`, `-1` if it is not covered.
pub open spec fn col_pos(cs: Seq<int>, c: int) -> int
    decreases cs.len(),
{
    if cs.len() == 0 {
        -1
    } else {
        let p = col_pos(cs.drop_last(), c);
        if p != -1 {
            p
        } else if cs.last() == c {
            cs.len() - 1
        } else {
            -1
        }
    }
}

pub open spec fn tf_of(m: Seq<Seq<bool>>, cs: Seq<int>) -> spec_fn(int, int) -> int {
    |r: int, c: int| node_time(m, cs, r, c)
}

pub open spec fn tau_of(cs: Seq<int>) -> spec_fn(int) -> int {
    |c: int| col_pos(cs, c)
}

// ---------------------------------------------------------------------------
// The links that every node must hold
// ---------------------------------------------------------------------------

pub open spec fn col_mem(m: Seq<Seq<bool>>, c: int) -> spec_fn(int) -> bool {
    |k: int| m[k][c]
}

pub open spec fn col_times(tf: spec_fn(int, int) -> int, c: int) -> spec_fn(int) -> int {
    |k: int| tf(k, c)
}

pub open spec fn row_mem(m: Seq<Seq<bool>>, r: int) -> spec_fn(int) -> bool {
    |k: int| m[r][k]
}

pub open spec fn any_mem() -> spec_fn(int) -> bool {
    |k: int| true
}

pub open spec fn never() -> spec_fn(int) -> int {
    |k: int| -1int
}

/// Column of the next 1 to the right in row `r`, wrapping around.
pub open spec fn row_right(m: Seq<Seq<bool>>, r: int, c: int) -> int {
    let k = ring_next(ncols(m), row_mem(m, r), never(), c);
    if k == -1 {
        ring_next(ncols(m), row_mem(m, r), never(), -1)
    } else {
        k
    }
}

/// Column of the next 1 to the left in row `r`, wrapping around.
pub open spec fn row_left(m: Seq<Seq<bool>>, r: int, c: int) -> int {
    let k = ring_prev(ncols(m), row_mem(m, r), never(), c);
    if k == -1 {
        ring_prev(ncols(m), row_mem(m, r), never(), -1)
    } else {
        k
    }
}

pub open spec fn vert_up(m: Seq<Seq<bool>>, tf: spec_fn(int, int) -> int, r: int, c: int) -> int {
    ring_prev(nrows(m), col_mem(m, c), col_times(tf, c), r)
}

pub open spec fn vert_down(m: Seq<Seq<bool>>, tf: spec_fn(int, int) -> int, r: int, c: int) -> int {
    ring_next(nrows(m), col_mem(m, c), col_times(tf, c), r)
}

/// Number of live nodes of column `c`.
pub open spec fn col_size(m: Seq<Seq<bool>>, tf: spec_fn(int, int) -> int, c: int) -> int {
    ring_count(nrows(m), col_mem(m, c), col_times(tf, c))
}

pub open spec fn exp_root(m: Seq<Seq<bool>>, tau: spec_fn(int) -> int) -> Node {
    Node {
        addr: root_addr(),
        root: true,
        is_header: true,
        is_legit: false,
        size: 0,
        header: root_addr(),
        left: addr(-1, ring_prev(ncols(m), any_mem(), tau, -1)),
        right: addr(-1, ring_next(ncols(m), any_mem(), tau, -1)),
        up: root_addr(),
        down: root_addr(),
    }
}

pub open spec fn exp_header(
    m: Seq<Seq<bool>>,
    tf: spec_fn(int, int) -> int,
    tau: spec_fn(int) -> int,
    c: int,
) -> Node {
    Node {
        addr: addr(-1, c),
        root: false,
        is_header: true,
        is_legit: false,
        size: col_size(m, tf, c) as usize,
        header: root_addr(),
        left: addr(-1, ring_prev(ncols(m), any_mem(), tau, c)),
        right: addr(-1, ring_next(ncols(m), any_mem(), tau, c)),
        up: addr(vert_up(m, tf, -1, c), c),
        down: addr(vert_down(m, tf, -1, c), c),
    }
}

pub open spec fn exp_node(m: Seq<Seq<bool>>, tf: spec_fn(int, int) -> int, r: int, c: int) -> Node {
    if m[r][c] {
        Node {
            addr: addr(r, c),
            root: false,
            is_header: false,
            is_legit: true,
            size: 0,
            header: addr(-1, c),
            left: addr(r, row_left(m, r, c)),
            right: addr(r, row_right(m, r, c)),
            up: addr(vert_up(m, tf, r, c), c),
            down: addr(vert_down(m, tf, r, c), c),
        }
    } else {
        blank(r, c, false)
    }
}

/// The node that address `z` must hold, given the removal times of nodes
/// (`tf`) and of columns (`tau`).
pub open spec fn exp_at(
    m: Seq<Seq<bool>>,
    tf: spec_fn(int, int) -> int,
    tau: spec_fn(int) -> int,
    z: Addr,
) -> Node {
    if z.row == -1 {
        if z.col == -1 {
            exp_root(m, tau)
        } else {
            exp_header(m, tf, tau, z.col as int)
        }
    } else {
        exp_node(m, tf, z.row as int, z.col as int)
    }
}

/// `z` addresses the root, a header, or an entry of `m`.
pub open spec fn valid_in(m: Seq<Seq<bool>>, z: Addr) -> bool {
    ||| (z.row == -1 && -1 <= z.col < ncols(m))
    ||| (0 <= z.row < nrows(m) && 0 <= z.col < ncols(m))
}

/// Node `e` at `z` once the node between `u` and `d` has left their column `hd`.
pub open spec fn unlinked(e: Node, z: Addr, u: Addr, d: Addr, hd: Addr) -> Node {
    Node {
        down: if z == u {
            d
        } else {
            e.down
        },
        up: if z == d {
            u
        } else {
            e.up
        },
        size: if z == hd {
            (e.size - 1) as usize
        } else {
            e.size
        },
        ..e
    }
}

/// Node `e` at `z` once the header between `l` and `r` has left the header ring.
pub open spec fn spliced(e: Node, z: Addr, l: Addr, r: Addr) -> Node {
    Node {
        right: if z == l {
            r
        } else {
            e.right
        },
        left: if z == r {
            l
        } else {
            e.left
        },
        ..e
    }
}

/// Moving node `(r0, k0)` from linked to removed at a time later than every
/// earlier removal in its column changes exactly what unlinking it does.
pub proof fn lemma_model_unlink(
    m: Seq<Seq<bool>>,
    tfa: spec_fn(int, int) -> int,
    tfb: spec_fn(int, int) -> int,
    tau: spec_fn(int) -> int,
    r0: int,
    k0: int,
    tn: int,
)
    requires
        rect(m),
        0 <= r0 < nrows(m),
        0 <= k0 < ncols(m),
        m[r0][k0],
        tfa(r0, k0) == -1,
        tfb(r0, k0) == tn,
        tn >= 0,
        forall|r: int, k: int| !(r == r0 && k == k0) ==> #[trigger] tfb(r, k) == tfa(r, k),
        forall|r: int|
            0 <= r < nrows(m) && m[r][k0] && r != r0 && #[trigger] tfa(r, k0) != -1 ==> 0 <= tfa(
                r,
                k0,
            ) < tn,
    ensures
        ({
            let x = addr(r0, k0);
            let e = exp_at(m, tfa, tau, x);
            let hd = addr(-1, k0);
            &&& e.up.col == k0 && -1 <= e.up.row < nrows(m) && e.up != x
            &&& e.down.col == k0 && -1 <= e.down.row < nrows(m) && e.down != x
            &&& exp_at(m, tfa, tau, e.up).down == x
            &&& exp_at(m, tfa, tau, e.down).up == x
            &&& exp_at(m, tfa, tau, hd).size >= 1
            &&& exp_at(m, tfa, tau, hd).size <= nrows(m)
            &&& exp_at(m, tfb, tau, x) == e
            &&& forall|z: Addr| #[trigger]
                valid_in(m, z) ==> exp_at(m, tfb, tau, z) == unlinked(
                    exp_at(m, tfa, tau, z),
                    z,
                    e.up,
                    e.down,
                    hd,
                )
        }),
{
    let nr = nrows(m);
    let nc = ncols(m);
    let mem = col_mem(m, k0);
    let ta = col_times(tfa, k0);
    let tb = col_times(tfb, k0);
    assert forall|k: int| k != r0 implies #[trigger] tb(k) == ta(k) by {
        assert(tfb(k, k0) == tfa(k, k0));
    }
    assert forall|k: int| 0 <= k < nr && mem(k) && k != r0 && #[trigger] ta(k) != -1 implies 0
        <= ta(k) < tn by {
        assert(tfa(k, k0) != -1);
    }
    lemma_ring_unlink(nr, mem, ta, tb, r0, tn);
    let x = addr(r0, k0);
    let e = exp_at(m, tfa, tau, x);
    let hd = addr(-1, k0);
    let ur = ring_prev(nr, mem, ta, r0);
    let dr = ring_next(nr, mem, ta, r0);
    assert(e.up == addr(ur, k0));
    assert(e.down == addr(dr, k0));
    assert(e.up.row as int == ur);
    assert(e.down.row as int == dr);
    let lc = col_size(m, tfa, k0);
    assert(col_size(m, tfb, k0) == lc - 1);
    assert(e.up.col as int == k0 && e.down.col as int == k0);
    if ur == -1 {
        assert(exp_at(m, tfa, tau, e.up) == exp_header(m, tfa, tau, k0));
    } else {
        assert(exp_at(m, tfa, tau, e.up) == exp_node(m, tfa, ur, k0));
    }
    assert(exp_at(m, tfa, tau, e.up).down == x);
    if dr == -1 {
        assert(exp_at(m, tfa, tau, e.down) == exp_header(m, tfa, tau, k0));
    } else {
        assert(exp_at(m, tfa, tau, e.down) == exp_node(m, tfa, dr, k0));
    }
    assert(exp_at(m, tfa, tau, e.down).up == x);
    lemma_cnt_bounds(pres(nr, mem, ta, -1), nr);
    assert(exp_at(m, tfa, tau, hd).size >= 1);
    assert(exp_at(m, tfa, tau, hd).size <= nrows(m));
    assert(exp_at(m, tfb, tau, x) == e);
    assert forall|z: Addr| #[trigger]
        valid_in(m, z) implies exp_at(m, tfb, tau, z) == unlinked(
            exp_at(m, tfa, tau, z),
            z,
            e.up,
            e.down,
            hd,
        ) by {
        let ea = exp_at(m, tfa, tau, z);
        let eb = exp_at(m, tfb, tau, z);
        let c = z.col as int;
        let r = z.row as int;
        let goal = unlinked(ea, z, e.up, e.down, hd);
        if z.row == -1 && z.col == -1 {
            assert(eb == goal);
        } else if c != k0 {
            assert(col_times(tfb, c) =~= col_times(tfa, c));
            assert(eb == goal);
        } else if z.row == -1 {
            assert(z == hd);
            assert(ring_next(nr, mem, tb, -1) == if -1 == ur {
                dr
            } else {
                ring_next(nr, mem, ta, -1)
            });
            assert(ring_prev(nr, mem, tb, -1) == if -1 == dr {
                ur
            } else {
                ring_prev(nr, mem, ta, -1)
            });
            lemma_cnt_bounds(pres(nr, mem, ta, -1), nr);
            assert(eb == goal);
        } else if !m[r][c] {
            assert(eb == goal);
        } else if r == r0 {
            assert(z == x);
            assert(eb == goal);
        } else {
            assert(ring_next(nr, mem, tb, r) == if r == ur {
                dr
            } else {
                ring_next(nr, mem, ta, r)
            });
            assert(ring_prev(nr, mem, tb, r) == if r == dr {
                ur
            } else {
                ring_prev(nr, mem, ta, r)
            });
            assert(eb == goal);
        }
    }
}

/// Moving column `c0` out of the header ring at a time later than every
/// earlier cover changes exactly what splicing its header out does.
pub proof fn lemma_model_splice(
    m: Seq<Seq<bool>>,
    tf: spec_fn(int, int) -> int,
    taua: spec_fn(int) -> int,
    taub: spec_fn(int) -> int,
    c0: int,
    j: int,
)
    requires
        rect(m),
        0 <= c0 < ncols(m),
        taua(c0) == -1,
        taub(c0) == j,
        j >= 0,
        forall|k: int| k != c0 ==> #[trigger] taub(k) == taua(k),
        forall|k: int| 0 <= k < ncols(m) && k != c0 && #[trigger] taua(k) != -1 ==> 0 <= taua(k) < j,
    ensures
        ({
            let hc = addr(-1, c0);
            let e = exp_at(m, tf, taua, hc);
            &&& e.left.row == -1 && -1 <= e.left.col < ncols(m) && e.left != hc
            &&& e.right.row == -1 && -1 <= e.right.col < ncols(m) && e.right != hc
            &&& exp_at(m, tf, taua, e.left).right == hc
            &&& exp_at(m, tf, taua, e.right).left == hc
            &&& exp_at(m, tf, taub, hc) == e
            &&& forall|z: Addr| #[trigger]
                valid_in(m, z) ==> exp_at(m, tf, taub, z) == spliced(
                    exp_at(m, tf, taua, z),
                    z,
                    e.left,
                    e.right,
                )
        }),
{
    let nc = ncols(m);
    let mem = any_mem();
    lemma_ring_unlink(nc, mem, taua, taub, c0, j);
    let hc = addr(-1, c0);
    let e = exp_at(m, tf, taua, hc);
    let lc = ring_prev(nc, mem, taua, c0);
    let rc = ring_next(nc, mem, taua, c0);
    assert(e.left == addr(-1, lc));
    assert(e.right == addr(-1, rc));
    assert(e.left.col as int == lc);
    assert(e.right.col as int == rc);
    assert forall|z: Addr| #[trigger]
        valid_in(m, z) implies exp_at(m, tf, taub, z) == spliced(
            exp_at(m, tf, taua, z),
            z,
            e.left,
            e.right,
        ) by {
        let c = z.col as int;
        if z.row == -1 {
            if c == -1 {
            } else if c == c0 {
                assert(z == hc);
            } else {
                assert(ring_next(nc, mem, taub, c) == if c == lc {
                    rc
                } else {
                    ring_next(nc, mem, taua, c)
                });
                assert(ring_prev(nc, mem, taub, c) == if c == rc {
                    lc
                } else {
                    ring_prev(nc, mem, taua, c)
                });
            }
        }
    }
}

// ---------------------------------------------------------------------------
// The abstract state of the structure
// ---------------------------------------------------------------------------

/// What an `A` holds: its nodes, the matrix it was built from, and the
/// columns covered so far, in the order they were covered.
pub struct Model {
    pub root: Node,
    pub headers: Seq<Node>,
    pub nodes: Seq<Seq<Node>>,
    pub matrix: Seq<Seq<bool>>,
    pub covered: Seq<int>,
}

impl Model {
    pub open spec fn valid(self, z: Addr) -> bool {
        valid_in(self.matrix, z)
    }

    pub open spec fn node_at(self, z: Addr) -> Node {
        if z.row == -1 {
            if z.col == -1 {
                self.root
            } else {
                self.headers[z.col as int]
            }
        } else {
            self.nodes[z.row as int][z.col as int]
        }
    }

    /// The arena has one node per matrix entry and one header per column.
    pub open spec fn dims(self) -> bool {
        &&& rect(self.matrix)
        &&& self.nodes.len() == nrows(self.matrix)
        &&& self.headers.len() == ncols(self.matrix)
        &&& forall|r: int|
            0 <= r < self.nodes.len() ==> (#[trigger] self.nodes[r]).len() == ncols(self.matrix)
    }

    /// Every node holds the links that the given removal times call for.
    pub open spec fn shaped(self, tf: spec_fn(int, int) -> int, tau: spec_fn(int) -> int) -> bool {
        &&& self.dims()
        &&& forall|z: Addr| #[trigger]
            self.valid(z) ==> self.node_at(z) == exp_at(self.matrix, tf, tau, z)
    }

    /// The covered columns are distinct columns of the matrix.
    pub open spec fn covered_ok(self) -> bool {
        &&& self.covered.no_duplicates()
        &&& forall|i: int|
            0 <= i < self.covered.len() ==> 0 <= #[trigger] self.covered[i] < ncols(self.matrix)
    }

    /// The structure is exactly the one for its matrix with `covered` covered.
    pub open spec fn wf(self) -> bool {
        &&& self.covered_ok()
        &&& self.shaped(tf_of(self.matrix, self.covered), tau_of(self.covered))
    }

    /// Column `c` is still in the header ring.
    pub open spec fn is_active(self, c: int) -> bool {
        0 <= c < ncols(self.matrix) && !self.covered.contains(c)
    }
}

/// The state of a dancing-links structure.
pub struct A {
    pub(crate) root: Node,
    pub(crate) headers: Vec<Node>,
    pub(crate) nodes: Vec<Vec<Node>>,
    pub(crate) matrix: Ghost<Seq<Seq<bool>>>,
    pub(crate) covered: Ghost<Seq<int>>,
}

impl View for A {
    type V = Model;

    closed spec fn view(&self) -> Model {
        Model {
            root: self.root,
            headers: self.headers@,
            nodes: self.nodes@.map_values(|v: Vec<Node>| v@),
            matrix: self.matrix@,
            covered: self.covered@,
        }
    }
}

/// `b` differs from `a` at most in the node at `z`, which is now `n`.
pub open spec fn same_but(a: Model, b: Model, z: Addr, n: Node) -> bool {
    &&& b.dims()
    &&& b.matrix == a.matrix
    &&& b.covered == a.covered
    &&& forall|y: Addr| #[trigger]
        b.valid(y) ==> b.node_at(y) == if y == z {
            n
        } else {
            a.node_at(y)
        }
}

impl A {
    /// The node at address `a`.
    pub fn get_node(&self, a: Addr) -> (n: Node)
        requires
            self@.dims(),
            self@.valid(a),
        ensures
            n == self@.node_at(a),
    {
        if a.row < 0 {
            if a.col < 0 {
                self.root
            } else {
                self.headers[a.col as usize]
            }
        } else {
            assert(self@.nodes[a.row as int].len() == ncols(self@.matrix));
            self.nodes[a.row as usize][a.col as usize]
        }
    }

    /// An `A` holding the given nodes, with nothing covered yet.
    pub(crate) fn assemble(root: Node, headers: Vec<Node>, nodes: Vec<Vec<Node>>, m: Ghost<Seq<Seq<bool>>>) -> (a: A)
        ensures
            a@ == (Model {
                root,
                headers: headers@,
                nodes: nodes@.map_values(|v: Vec<Node>| v@),
                matrix: m@,
                covered: Seq::empty(),
            }),
    {
        A { root, headers, nodes, matrix: m, covered: Ghost(Seq::empty()) }
    }

    /// Stores `n` at address `at`.
    pub(crate) fn set_node(&mut self, at: Addr, n: Node)
        requires
            old(self)@.dims(),
            old(self)@.valid(at),
        ensures
            same_but(old(self)@, final(self)@, at, n),
    {
        let ghost before = self@;
        if at.row < 0 {
            if at.col < 0 {
                self.root = n;
            } else {
                self.headers.set(at.col as usize, n);
            }
        } else {
            assert(self@.nodes[at.row as int].len() == ncols(self@.matrix));
            self.nodes[at.row as usize][at.col as usize] = n;
        }
        proof {
            let after = self@;
            assert forall|r: int| 0 <= r < after.nodes.len() implies (#[trigger] after.nodes[r]).len()
                == ncols(after.matrix) by {
                assert(before.nodes[r].len() == ncols(before.matrix));
            }
            assert forall|y: Addr| #[trigger] after.valid(y) implies after.node_at(y) == if y == at {
                n
            } else {
                before.node_at(y)
            } by {
                if y.row != -1 {
                    assert(before.nodes[y.row as int].len() == ncols(before.matrix));
                }
            }
        }
    }

    pub(crate) fn set_covered(&mut self, cs: Ghost<Seq<int>>)
        ensures
            final(self)@ == (Model { covered: cs@, ..old(self)@ }),
    {
        self.covered = cs;
    }

    pub(crate) fn set_left(&mut self, node: Addr, other: Addr)
        requires
            old(self)@.dims(),
            old(self)@.valid(node),
        ensures
            same_but(old(self)@, final(self)@, node, Node { left: other, ..old(self)@.node_at(node) }),
    {
        let mut n = self.get_node(node);
        n.set_left(other);
        self.set_node(node, n);
    }

    pub(crate) fn set_right(&mut self, node: Addr, other: Addr)
        requires
            old(self)@.dims(),
            old(self)@.valid(node),
        ensures
            same_but(old(self)@, final(self)@, node, Node { right: other, ..old(self)@.node_at(node) }),
    {
        let mut n = self.get_node(node);
        n.set_right(other);
        self.set_node(node, n);
    }

    pub(crate) fn set_up(&mut self, node: Addr, other: Addr)
        requires
            old(self)@.dims(),
            old(self)@.valid(node),
        ensures
            same_but(old(self)@, final(self)@, node, Node { up: other, ..old(self)@.node_at(node) }),
    {
        let mut n = self.get_node(node);
        n.set_up(other);
        self.set_node(node, n);
    }

    pub(crate) fn set_down(&mut self, node: Addr, other: Addr)
        requires
            old(self)@.dims(),
            old(self)@.valid(node),
        ensures
            same_but(old(self)@, final(self)@, node, Node { down: other, ..old(self)@.node_at(node) }),
    {
        let mut n = self.get_node(node);
        n.set_down(other);
        self.set_node(node, n);
    }
}

} // verus!
