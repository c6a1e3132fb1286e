//! Algorithm X over the dancing-links structure.
use vstd::prelude::*;
use crate::ring::{cnt, lemma_cnt_bounds, lemma_cnt_remove, lemma_nxt, nxt, pres, ring_next};
use crate::dlx::{
    addr, any_mem, col_size, exp_at, ncols, nrows, rect, root_addr, row_left, row_right, tau_of, tf_of, Addr,
    Model, Node, A,
};
use crate::cover::lemma_col_pos;
use crate::builder::{bits, format_error, from_matrix, is_binary_matrix, MatrixFormatError};

verus! {

/// Columns still in the header ring.
pub open spec fn active_cols(md: Model) -> spec_fn(int) -> bool {
    pres(ncols(md.matrix), any_mem(), tau_of(md.covered), -1)
}

pub proof fn lemma_active(md: Model, k: int)
    ensures
        active_cols(md)(k) <==> md.is_active(k),
{
    lemma_col_pos(md.covered, k);
}

impl A {
    /// The header of the remaining column with the fewest live nodes; among
    /// equals, the leftmost one.
    pub fn choose_col(&self) -> (h: Node)
        requires
            self@.wf(),
            exists|k: int| self@.is_active(k),
        ensures
            h.addr.row == -1,
            self@.is_active(h.addr.col as int),
            h == self@.headers[h.addr.col as int],
            forall|k: int| #[trigger] self@.is_active(k) ==> h.size <= self@.headers[k].size,
            forall|k: int|
                #[trigger] self@.is_active(k) && k < h.addr.col ==> h.size < self@.headers[k].size,
    {
        let ghost md = self@;
        let ghost m = md.matrix;
        let ghost nc = ncols(m);
        let ghost tf = tf_of(m, md.covered);
        let ghost tau = tau_of(md.covered);
        let ghost act = active_cols(md);
        proof {
            assert(md.valid(root_addr()));
            assert forall|k: int| #[trigger] act(k) <==> md.is_active(k) by {
                lemma_active(md, k);
            }
        }
        let root = self.get_node(Addr::new());
        proof {
            assert(root == exp_at(m, tf, tau, root_addr()));
            assert(ring_next(nc, any_mem(), tau, -1) == nxt(nc, act, 0));
            lemma_nxt(nc, act, 0);
            let k = choose|k: int| md.is_active(k);
            assert(act(k));
            assert(md.valid(root.right));
        }
        let mut cur = self.get_node(root.right);
        let mut best = cur;
        proof {
            assert(cur == exp_at(m, tf, tau, root.right));
        }
        while cur.addr.col != -1
            invariant
                md == self@,
                md.wf(),
                m == md.matrix,
                nc == ncols(m),
                tf == tf_of(m, md.covered),
                tau == tau_of(md.covered),
                act == active_cols(md),
                forall|k: int| #[trigger] act(k) <==> md.is_active(k),
                cur.addr.row == -1,
                -1 <= cur.addr.col < nc,
                cur.addr.col != -1 ==> act(cur.addr.col as int),
                cur.addr.col != -1 ==> cur == md.headers[cur.addr.col as int],
                best.addr.row == -1,
                act(best.addr.col as int),
                best == md.headers[best.addr.col as int],
                forall|k: int|
                    #[trigger] act(k) && (cur.addr.col == -1 || k < cur.addr.col) ==> best.size
                        <= md.headers[k].size,
                forall|k: int| #[trigger] act(k) && k < best.addr.col ==> best.size < md.headers[k].size,
                cur.addr.col != -1 ==> best.addr.col <= cur.addr.col,
            decreases (if cur.addr.col == -1 {
                0
            } else {
                nc - cur.addr.col + 1
            }),
        {
            if cur.size < best.size {
                best = cur;
            }
            let ghost c = cur.addr.col as int;
            proof {
                assert(md.valid(addr(-1, c)));
                assert(addr(-1, c) == cur.addr) by {
                    assert(cur == exp_at(m, tf, tau, addr(-1, c)));
                }
                assert(cur == exp_at(m, tf, tau, addr(-1, c)));
                assert(tau(c) == -1);
                assert(ring_next(nc, any_mem(), tau, c) == nxt(nc, act, c + 1));
                lemma_nxt(nc, act, c + 1);
                assert(md.valid(cur.right));
            }
            cur = self.get_node(cur.right);
            proof {
                if cur.addr.col != -1 {
                    assert(md.valid(addr(-1, cur.addr.col as int)));
                }
            }
        }
        proof {
            assert forall|k: int| #[trigger] md.is_active(k) implies best.size <= md.headers[k].size by {
                assert(act(k));
            }
            assert forall|k: int| #[trigger] md.is_active(k) && k < best.addr.col implies best.size
                < md.headers[k].size by {
                assert(act(k));
            }
        }
        best
    }
}

} // verus!

verus! {

/// Row `r` has a 1 somewhere.
pub open spec fn nonempty_row(m: Seq<Seq<bool>>, r: int) -> bool {
    exists|c: int| 0 <= c < ncols(m) && #[trigger] m[r][c]
}

/// Row `r` of `s` has a 1 in column `c`.
pub open spec fn covers_col(m: Seq<Seq<bool>>, s: Set<int>, c: int, r: int) -> bool {
    s.contains(r) && m[r][c]
}

/// Exactly one row of `s` has a 1 in column `c`.
pub open spec fn covered_once(m: Seq<Seq<bool>>, s: Set<int>, c: int) -> bool {
    exists|r: int|
        #[trigger] covers_col(m, s, c, r) && forall|r2: int| #[trigger]
            covers_col(m, s, c, r2) ==> r2 == r
}

/// `s` is an exact cover of `m`: a set of rows of `m`, each with at least one
/// 1, such that every column has a 1 in exactly one of them.
pub open spec fn exact_cover(m: Seq<Seq<bool>>, s: Set<int>) -> bool {
    &&& forall|r: int| #[trigger] s.contains(r) ==> 0 <= r < nrows(m) && nonempty_row(m, r)
    &&& forall|c: int| 0 <= c < ncols(m) ==> #[trigger] covered_once(m, s, c)
}

/// The rows listed in `v`.
pub open spec fn rows_of(v: Seq<usize>) -> Set<int> {
    Set::new(|r: int| exists|i: int| 0 <= i < v.len() && v[i] as int == r)
}

/// `v` lists the rows of an exact cover of `m`, each once.
pub open spec fn is_solution(m: Seq<Seq<bool>>, v: Seq<usize>) -> bool {
    v.no_duplicates() && exact_cover(m, rows_of(v))
}

/// The row of `s` that covers column `c`.
pub open spec fn cover_row(m: Seq<Seq<bool>>, s: Set<int>, c: int) -> int {
    choose|r: int| covers_col(m, s, c, r)
}

/// A partial choice of rows: distinct, non-empty and pairwise disjoint.
pub open spec fn partial_ok(m: Seq<Seq<bool>>, p: Seq<usize>) -> bool {
    &&& p.no_duplicates()
    &&& forall|i: int| 0 <= i < p.len() ==> #[trigger] p[i] < nrows(m) && nonempty_row(m, p[i] as int)
    &&& forall|i: int, j: int, c: int|
        0 <= i < p.len() && 0 <= j < p.len() && i != j && 0 <= c < ncols(m) && #[trigger] m[p[i] as int][c]
            ==> !#[trigger] m[p[j] as int][c]
}

/// Some row of `p` has a 1 in column `c`.
pub open spec fn covered_by(m: Seq<Seq<bool>>, p: Seq<usize>, c: int) -> bool {
    exists|i: int| 0 <= i < p.len() && #[trigger] m[p[i] as int][c]
}

/// The columns covered in `md` are those of the rows chosen in `p`.
pub open spec fn state_of(md: Model, p: Seq<usize>) -> bool {
    forall|c: int|
        0 <= c < ncols(md.matrix) ==> (#[trigger] md.covered.contains(c) <==> covered_by(
            md.matrix,
            p,
            c,
        ))
}

/// `v` starts with `p`.
pub open spec fn extends(v: Seq<usize>, p: Seq<usize>) -> bool {
    p.len() <= v.len() && forall|i: int| 0 <= i < p.len() ==> #[trigger] v[i] == p[i]
}

/// `s` holds every row of `p`.
pub open spec fn contains_all(s: Set<int>, p: Seq<usize>) -> bool {
    forall|i: int| 0 <= i < p.len() ==> s.contains(#[trigger] p[i] as int)
}

/// `n` keeps the first `o.len()` entries of `o`.
pub open spec fn keeps(o: Seq<Vec<usize>>, n: Seq<Vec<usize>>) -> bool {
    o.len() <= n.len() && forall|i: int| 0 <= i < o.len() ==> #[trigger] n[i] == o[i]
}

/// The entries of `n` from `from` on are distinct exact covers that extend `p`.
pub open spec fn fresh_ok(m: Seq<Seq<bool>>, n: Seq<Vec<usize>>, from: int, p: Seq<usize>) -> bool {
    &&& forall|i: int| from <= i < n.len() ==> is_solution(m, #[trigger] n[i]@) && extends(n[i]@, p)
    &&& forall|i: int, j: int|
        from <= i < j < n.len() ==> rows_of(#[trigger] n[i]@) != rows_of(#[trigger] n[j]@)
}

/// Every exact cover holding the rows of `p` is among the entries of `n` from `from` on.
pub open spec fn complete(m: Seq<Seq<bool>>, n: Seq<Vec<usize>>, from: int, p: Seq<usize>) -> bool {
    forall|s: Set<int>|
        #[trigger] exact_cover(m, s) && contains_all(s, p) ==> exists|i: int|
            from <= i < n.len() && rows_of(#[trigger] n[i]@) == s
}

pub open spec fn active_count(md: Model) -> int {
    cnt(active_cols(md), ncols(md.matrix))
}

/// Column at offset `o` to the right of `col`.
pub open spec fn col_at(n: int, col: int, o: int) -> int {
    if col + o < n {
        col + o
    } else {
        col + o - n
    }
}

/// Columns of row `d` at offsets `1 .. o-1` to the right of `col`, in that order.
pub open spec fn cols_from(m: Seq<Seq<bool>>, d: int, col: int, o: int) -> Seq<int>
    decreases o,
{
    if o <= 1 {
        Seq::empty()
    } else {
        let k = col_at(ncols(m), col, o - 1);
        cols_from(m, d, col, o - 1) + if m[d][k] {
            seq![k]
        } else {
            Seq::empty()
        }
    }
}

pub proof fn lemma_cols_from(m: Seq<Seq<bool>>, d: int, col: int, o: int)
    requires
        0 <= col < ncols(m),
        o <= ncols(m),
    ensures
        cols_from(m, d, col, o).no_duplicates(),
        forall|k: int|
            #[trigger] cols_from(m, d, col, o).contains(k) <==> (0 <= k < ncols(m) && m[d][k] && k != col
                && crate::cover::off_right(ncols(m), col, k) < o),
    decreases o,
{
    let n = ncols(m);
    if o > 1 {
        lemma_cols_from(m, d, col, o - 1);
        let k = col_at(n, col, o - 1);
        let prev = cols_from(m, d, col, o - 1);
        let tail = if m[d][k] {
            seq![k]
        } else {
            Seq::<int>::empty()
        };
        assert forall|x: int| #[trigger] cols_from(m, d, col, o).contains(x) <==> (prev.contains(x)
            || tail.contains(x)) by {
            let s = cols_from(m, d, col, o);
            assert(s == prev + tail);
            if s.contains(x) {
                let i = choose|i: int| 0 <= i < s.len() && s[i] == x;
                if i >= prev.len() {
                    assert(tail[i - prev.len()] == x);
                }
            }
            if prev.contains(x) {
                let i = choose|i: int| 0 <= i < prev.len() && prev[i] == x;
                assert(s[i] == x);
            }
            if tail.contains(x) {
                assert(s[prev.len() as int] == x);
            }
        }
        assert(crate::cover::off_right(n, col, k) == o - 1);
        if m[d][k] {
            assert(!prev.contains(k));
            let s = cols_from(m, d, col, o);
            assert forall|i: int, j: int| 0 <= i < j < s.len() implies s[i] != s[j] by {
                if j == prev.len() {
                    assert(prev.contains(s[i]));
                }
            }
        } else {
            assert(cols_from(m, d, col, o) =~= prev);
        }
        assert forall|x: int| #[trigger] cols_from(m, d, col, o).contains(x) <==> (0 <= x < n && m[d][x]
            && x != col && crate::cover::off_right(n, col, x) < o) by {
            assert(cols_from(m, d, col, o - 1).contains(x) <==> (0 <= x < n && m[d][x] && x != col
                && crate::cover::off_right(n, col, x) < o - 1));
            if 0 <= x < n && x != col && crate::cover::off_right(n, col, x) == o - 1 {
                assert(x == k);
                if m[d][k] {
                    assert(tail[0] == k);
                    assert(tail.contains(k));
                }
            }
            if tail.contains(x) {
                assert(x == k);
            }
        }
    }
}

/// Offsets without an entry of the row add nothing.
pub proof fn lemma_cols_from_skip(m: Seq<Seq<bool>>, d: int, col: int, o1: int, o2: int)
    requires
        0 <= col < ncols(m),
        1 <= o1 <= o2 <= ncols(m),
        forall|k: int|
            0 <= k < ncols(m) && m[d][k] && k != col ==> !(o1 <= #[trigger] crate::cover::off_right(
                ncols(m),
                col,
                k,
            ) < o2),
    ensures
        cols_from(m, d, col, o2) == cols_from(m, d, col, o1),
    decreases o2 - o1,
{
    if o2 > o1 {
        let k = col_at(ncols(m), col, o2 - 1);
        assert(crate::cover::off_right(ncols(m), col, k) == o2 - 1);
        assert(!m[d][k]);
        assert(cols_from(m, d, col, o2) =~= cols_from(m, d, col, o2 - 1));
        lemma_cols_from_skip(m, d, col, o1, o2 - 1);
    }
}

pub proof fn lemma_cnt_mono(p: spec_fn(int) -> bool, q: spec_fn(int) -> bool, n: int)
    requires
        forall|j: int| 0 <= j < n && #[trigger] q(j) ==> p(j),
    ensures
        cnt(q, n) <= cnt(p, n),
    decreases n,
{
    if n > 0 {
        lemma_cnt_mono(p, q, n - 1);
    }
}

/// A set with an element has a positive count.
pub proof fn lemma_cnt_pos(p: spec_fn(int) -> bool, n: int, x: int)
    requires
        0 <= x < n,
        p(x),
    ensures
        cnt(p, n) >= 1,
{
    let q = |j: int| p(j) && j != x;
    lemma_cnt_remove(p, q, n, x);
    lemma_cnt_bounds(q, n);
}

/// Two structures for the same matrix and the same covered columns are identical.
pub proof fn lemma_wf_unique(x: Model, y: Model)
    requires
        x.wf(),
        y.wf(),
        x.matrix == y.matrix,
        x.covered == y.covered,
    ensures
        x == y,
{
    let m = x.matrix;
    assert(x.valid(root_addr()));
    assert(y.valid(root_addr()));
    assert forall|c: int| 0 <= c < x.headers.len() implies x.headers[c] == y.headers[c] by {
        assert(x.valid(addr(-1, c)));
        assert(y.valid(addr(-1, c)));
    }
    assert(x.headers =~= y.headers);
    assert forall|r: int| 0 <= r < x.nodes.len() implies x.nodes[r] == y.nodes[r] by {
        assert(x.nodes[r].len() == ncols(m));
        assert(y.nodes[r].len() == ncols(m));
        assert forall|c: int| 0 <= c < x.nodes[r].len() implies x.nodes[r][c] == y.nodes[r][c] by {
            assert(x.valid(addr(r, c)));
            assert(y.valid(addr(r, c)));
        }
        assert(x.nodes[r] =~= y.nodes[r]);
    }
    assert(x.nodes =~= y.nodes);
}

} // verus!

verus! {

/// With every column covered by pairwise disjoint rows, those rows are the
/// one exact cover that holds them.
pub proof fn lemma_terminal(md: Model, p: Seq<usize>)
    requires
        md.wf(),
        partial_ok(md.matrix, p),
        state_of(md, p),
        forall|k: int| 0 <= k < ncols(md.matrix) ==> !#[trigger] md.is_active(k),
    ensures
        is_solution(md.matrix, p),
        forall|s: Set<int>|
            #[trigger] exact_cover(md.matrix, s) && contains_all(s, p) ==> s == rows_of(p),
{
    let m = md.matrix;
    let rs = rows_of(p);
    assert forall|r: int| #[trigger] rs.contains(r) implies 0 <= r < nrows(m) && nonempty_row(m, r) by {
        let i = choose|i: int| 0 <= i < p.len() && p[i] as int == r;
        assert(p[i] < nrows(m) && nonempty_row(m, p[i] as int));
    }
    assert forall|c: int| 0 <= c < ncols(m) implies #[trigger] covered_once(m, rs, c) by {
        assert(!md.is_active(c));
        assert(md.covered.contains(c));
        assert(covered_by(m, p, c));
        let i = choose|i: int| 0 <= i < p.len() && #[trigger] m[p[i] as int][c];
        assert(rs.contains(p[i] as int));
        assert(covers_col(m, rs, c, p[i] as int));
        assert forall|r2: int| #[trigger] covers_col(m, rs, c, r2) implies r2 == p[i] as int by {
            let j = choose|j: int| 0 <= j < p.len() && p[j] as int == r2;
            if j != i {
                assert(m[p[i] as int][c]);
                assert(!m[p[j] as int][c]);
            }
        }
    }
    assert forall|s: Set<int>| #[trigger] exact_cover(m, s) && contains_all(s, p) implies s == rows_of(p) by {
        assert forall|r: int| s.contains(r) implies rs.contains(r) by {
            assert(nonempty_row(m, r));
            let c = choose|c: int| 0 <= c < ncols(m) && #[trigger] m[r][c];
            assert(!md.is_active(c));
            assert(md.covered.contains(c));
            assert(covered_by(m, p, c));
            let i = choose|i: int| 0 <= i < p.len() && #[trigger] m[p[i] as int][c];
            assert(s.contains(p[i] as int));
            assert(covered_once(m, s, c));
            let w = choose|w: int| #[trigger] covers_col(m, s, c, w) && forall|r2: int| #[trigger]
                covers_col(m, s, c, r2) ==> r2 == w;
            assert(covers_col(m, s, c, r));
            assert(covers_col(m, s, c, p[i] as int));
            assert(rs.contains(p[i] as int));
        }
        assert forall|r: int| rs.contains(r) implies s.contains(r) by {
            let i = choose|i: int| 0 <= i < p.len() && p[i] as int == r;
            assert(s.contains(p[i] as int));
        }
        assert(s =~= rs);
    }
}

/// The row that an exact cover holding the chosen rows uses for an active
/// column is still live in that column.
pub proof fn lemma_live_row(md: Model, p: Seq<usize>, s: Set<int>, col: int)
    requires
        md.wf(),
        partial_ok(md.matrix, p),
        state_of(md, p),
        md.is_active(col),
        exact_cover(md.matrix, s),
        contains_all(s, p),
    ensures
        covers_col(md.matrix, s, col, cover_row(md.matrix, s, col)),
        crate::cover::in_col(md.matrix, md.covered, col, cover_row(md.matrix, s, col)),
{
    let m = md.matrix;
    let cs = md.covered;
    assert(covered_once(m, s, col));
    let d = cover_row(m, s, col);
    assert(covers_col(m, s, col, d));
    crate::cover::lemma_first_hit(m, cs, d);
    let h = crate::dlx::first_hit(m, cs, d);
    if h < cs.len() {
        let c = cs[h];
        assert(0 <= c < ncols(m));
        assert(cs.contains(c));
        assert(covered_by(m, p, c));
        let i = choose|i: int| 0 <= i < p.len() && #[trigger] m[p[i] as int][c];
        assert(s.contains(p[i] as int));
        assert(covered_once(m, s, c));
        let w = choose|w: int| #[trigger] covers_col(m, s, c, w) && forall|r2: int| #[trigger]
            covers_col(m, s, c, r2) ==> r2 == w;
        assert(covers_col(m, s, c, d));
        assert(covers_col(m, s, c, p[i] as int));
        assert(m[p[i] as int][col]);
        assert(covered_by(m, p, col));
    }
}

/// Choosing a live row of an active column keeps the partial choice sound, and
/// covering its columns covers exactly the columns of the extended choice.
pub proof fn lemma_extend(md: Model, p: Seq<usize>, col: int, d: int)
    requires
        md.wf(),
        partial_ok(md.matrix, p),
        state_of(md, p),
        md.is_active(col),
        crate::cover::in_col(md.matrix, md.covered, col, d),
    ensures
        partial_ok(md.matrix, p.push(d as usize)),
        forall|c: int|
            0 <= c < ncols(md.matrix) ==> (#[trigger] (md.covered.push(col) + cols_from(
                md.matrix,
                d,
                col,
                ncols(md.matrix),
            )).contains(c) <==> covered_by(md.matrix, p.push(d as usize), c)),
{
    let m = md.matrix;
    let cs = md.covered;
    let nc = ncols(m);
    let q = p.push(d as usize);
    crate::cover::lemma_first_hit(m, cs, d);
    lemma_cols_from(m, d, col, nc);
    assert forall|c: int| 0 <= c < nc && covered_by(m, p, c) implies !m[d][c] by {
        assert(cs.contains(c));
        let h = choose|h: int| 0 <= h < cs.len() && cs[h] == c;
        assert(!m[d][cs[h]]);
    }
    assert forall|i: int| 0 <= i < q.len() implies #[trigger] q[i] < nrows(m) && nonempty_row(m, q[i] as int) by {
        if i == p.len() {
            assert(m[d][col]);
        } else {
            assert(q[i] == p[i]);
        }
    }
    assert forall|i: int, j: int, c: int|
        0 <= i < q.len() && 0 <= j < q.len() && i != j && 0 <= c < nc && #[trigger] m[q[i] as int][c]
            implies !#[trigger] m[q[j] as int][c] by {
        if i == p.len() {
            assert(q[j] == p[j]);
            if m[p[j] as int][c] {
                assert(covered_by(m, p, c));
            }
        } else if j == p.len() {
            assert(q[i] == p[i]);
            assert(covered_by(m, p, c));
        } else {
            assert(q[i] == p[i] && q[j] == p[j]);
        }
    }
    assert forall|i: int, j: int| 0 <= i < j < q.len() implies q[i] != q[j] by {
        if j == p.len() {
            assert(q[i] == p[i]);
            if p[i] as int == d {
                assert(m[p[i] as int][col]);
                assert(covered_by(m, p, col));
                assert(cs.contains(col));
            }
        } else {
            assert(q[i] == p[i] && q[j] == p[j]);
        }
    }
    assert forall|c: int|
        0 <= c < nc implies (#[trigger] (cs.push(col) + cols_from(m, d, col, nc)).contains(c) <==> covered_by(
        m,
        q,
        c,
    )) by {
        let all = cs.push(col) + cols_from(m, d, col, nc);
        let x = cols_from(m, d, col, nc);
        if all.contains(c) {
            let i = choose|i: int| 0 <= i < all.len() && all[i] == c;
            if i < cs.len() {
                assert(cs[i] == c);
                assert(cs.contains(c));
                assert(covered_by(m, p, c));
                let k = choose|k: int| 0 <= k < p.len() && #[trigger] m[p[k] as int][c];
                assert(q[k] == p[k]);
            } else if i == cs.len() {
                assert(q[p.len() as int] == d as usize);
            } else {
                assert(x[i - cs.len() - 1] == c);
                assert(x.contains(c));
                assert(q[p.len() as int] == d as usize);
            }
        }
        if covered_by(m, q, c) {
            let k = choose|k: int| 0 <= k < q.len() && #[trigger] m[q[k] as int][c];
            if k == p.len() {
                if c == col {
                    assert(all[cs.len() as int] == c);
                } else {
                    assert(x.contains(c));
                    let i = choose|i: int| 0 <= i < x.len() && x[i] == c;
                    assert(all[cs.len() + 1 + i] == c);
                }
            } else {
                assert(q[k] == p[k]);
                assert(covered_by(m, p, c));
                assert(cs.contains(c));
                let i = choose|i: int| 0 <= i < cs.len() && cs[i] == c;
                assert(all[i] == c);
            }
        }
    }
}

/// Two exact covers that cover a column with different rows differ.
pub proof fn lemma_distinct(m: Seq<Seq<bool>>, v1: Seq<usize>, v2: Seq<usize>, col: int, k: int)
    requires
        0 <= col < ncols(m),
        is_solution(m, v1),
        is_solution(m, v2),
        0 <= k < v1.len(),
        0 <= k < v2.len(),
        m[v1[k] as int][col],
        m[v2[k] as int][col],
        v1[k] != v2[k],
    ensures
        rows_of(v1) != rows_of(v2),
{
    let s = rows_of(v1);
    if rows_of(v1) == rows_of(v2) {
        assert(s.contains(v1[k] as int));
        assert(rows_of(v2).contains(v2[k] as int));
        assert(covered_once(m, s, col));
        let w = choose|w: int| #[trigger] covers_col(m, s, col, w) && forall|r2: int| #[trigger]
            covers_col(m, s, col, r2) ==> r2 == w;
        assert(covers_col(m, s, col, v1[k] as int));
        assert(covers_col(m, s, col, v2[k] as int));
    }
}

} // verus!

verus! {

/// Number of live nodes of column `c` once the columns `cs` are covered.
pub open spec fn live_size(m: Seq<Seq<bool>>, cs: Seq<int>, c: int) -> int {
    col_size(m, tf_of(m, cs), c)
}

/// Among the columns `0..k` not in `cs`, the one with the fewest live nodes,
/// the leftmost on a tie; `-1` if there is none.
pub open spec fn best_col(m: Seq<Seq<bool>>, cs: Seq<int>, k: int) -> int
    decreases k,
{
    if k <= 0 {
        -1
    } else {
        let b = best_col(m, cs, k - 1);
        if k - 1 < ncols(m) && !cs.contains(k - 1) && (b == -1 || live_size(m, cs, k - 1) < live_size(
            m,
            cs,
            b,
        )) {
            k - 1
        } else {
            b
        }
    }
}

/// Covered columns once row `d` is chosen for column `c`: `c`, then the other
/// columns of `d` from left to right starting after `c`.
pub open spec fn after_choice(m: Seq<Seq<bool>>, cs: Seq<int>, c: int, d: int) -> Seq<int> {
    cs.push(c) + cols_from(m, d, c, ncols(m))
}

/// The exact covers that Algorithm X finds from covered columns `cs` and
/// chosen rows `p`, in the order it finds them: when every column is covered,
/// `p` itself; otherwise the column with the fewest live nodes (the leftmost
/// on a tie) is chosen and its live rows are tried from top to bottom. `fuel`
/// bounds the depth and is never short when it is at least the number of
/// columns still to cover.
pub open spec fn dfs_solutions(m: Seq<Seq<bool>>, cs: Seq<int>, p: Seq<usize>, fuel: nat) -> Seq<Seq<usize>>
    decreases fuel, 0int,
{
    let c = best_col(m, cs, ncols(m));
    if c == -1 {
        seq![p]
    } else if fuel == 0 {
        Seq::empty()
    } else {
        dfs_branches(m, cs, p, c, 0, (fuel - 1) as nat)
    }
}

/// The solutions found under the live rows `r..` of column `c`, in order.
pub open spec fn dfs_branches(
    m: Seq<Seq<bool>>,
    cs: Seq<int>,
    p: Seq<usize>,
    c: int,
    r: int,
    fuel: nat,
) -> Seq<Seq<usize>>
    decreases fuel, nrows(m) - r + 1,
{
    if r < 0 || r >= nrows(m) {
        Seq::empty()
    } else if crate::cover::in_col(m, cs, c, r) {
        dfs_solutions(m, after_choice(m, cs, c, r), p.push(r as usize), fuel) + dfs_branches(
            m,
            cs,
            p,
            c,
            r + 1,
            fuel,
        )
    } else {
        dfs_branches(m, cs, p, c, r + 1, fuel)
    }
}

/// The row lists of `n` from position `from` on.
pub open spec fn found_from(n: Seq<Vec<usize>>, from: int) -> Seq<Seq<usize>> {
    Seq::new((n.len() - from) as nat, |i: int| n[from + i]@)
}

/// `a` is a prefix of `b`.
pub open spec fn prefix_of(a: Seq<Seq<usize>>, b: Seq<Seq<usize>>) -> bool {
    a.len() <= b.len() && a == b.take(a.len() as int)
}

pub proof fn lemma_best_col(m: Seq<Seq<bool>>, cs: Seq<int>, k: int)
    requires
        0 <= k <= ncols(m),
    ensures
        best_col(m, cs, k) == -1 <==> forall|j: int| 0 <= j < k ==> cs.contains(j),
        best_col(m, cs, k) != -1 ==> {
            let b = best_col(m, cs, k);
            &&& 0 <= b < k
            &&& !cs.contains(b)
            &&& forall|j: int| 0 <= j < k && !cs.contains(j) ==> live_size(m, cs, b) <= #[trigger] live_size(m, cs, j)
            &&& forall|j: int| 0 <= j < b && !cs.contains(j) ==> live_size(m, cs, b) < #[trigger] live_size(m, cs, j)
        },
    decreases k,
{
    if k > 0 {
        lemma_best_col(m, cs, k - 1);
    }
}

/// The active column that `choose_col` describes is the one `best_col` names.
pub proof fn lemma_best_col_is(m: Seq<Seq<bool>>, cs: Seq<int>, c: int)
    requires
        0 <= c < ncols(m),
        !cs.contains(c),
        forall|j: int| 0 <= j < ncols(m) && !cs.contains(j) ==> live_size(m, cs, c) <= #[trigger] live_size(m, cs, j),
        forall|j: int| 0 <= j < c && !cs.contains(j) ==> live_size(m, cs, c) < #[trigger] live_size(m, cs, j),
    ensures
        best_col(m, cs, ncols(m)) == c,
{
    lemma_best_col(m, cs, ncols(m));
    let b = best_col(m, cs, ncols(m));
    assert(live_size(m, cs, b) <= live_size(m, cs, c));
    assert(live_size(m, cs, c) <= live_size(m, cs, b));
}

/// Rows of `c` that are not live add nothing.
pub proof fn lemma_branches_skip(
    m: Seq<Seq<bool>>,
    cs: Seq<int>,
    p: Seq<usize>,
    c: int,
    a: int,
    b: int,
    fuel: nat,
)
    requires
        0 <= a <= b <= nrows(m),
        forall|r: int| a <= r < b ==> !#[trigger] crate::cover::in_col(m, cs, c, r),
    ensures
        dfs_branches(m, cs, p, c, a, fuel) == dfs_branches(m, cs, p, c, b, fuel),
    decreases b - a,
{
    if a < b {
        assert(!crate::cover::in_col(m, cs, c, a));
        lemma_branches_skip(m, cs, p, c, a + 1, b, fuel);
    }
}

/// Entries appended after position `mid` extend those from `from` on.
pub proof fn lemma_found_split(o: Seq<Vec<usize>>, n: Seq<Vec<usize>>, from: int)
    requires
        keeps(o, n),
        0 <= from <= o.len(),
    ensures
        found_from(n, from) == found_from(o, from) + found_from(n, o.len() as int),
{
    assert(found_from(n, from) =~= found_from(o, from) + found_from(n, o.len() as int));
}

} // verus!

verus! {

fn copy_rows(v: &Vec<usize>) -> (r: Vec<usize>)
    ensures
        r@ == v@,
{
    let mut r: Vec<usize> = Vec::new();
    let mut i: usize = 0;
    while i < v.len()
        invariant
            i <= v@.len(),
            r@ == v@.subrange(0, i as int),
        decreases v@.len() - i,
    {
        r.push(v[i]);
        i = i + 1;
    }
    assert(r@ =~= v@);
    r
}

/// Algorithm X from the current state: `partial` holds the rows chosen so far.
/// Every exact cover found is appended to `sols`, until `limit` of them are
/// there; then the search stops at once and the structure is left as it is.
fn search_rec(
    a: &mut A,
    partial: &mut Vec<usize>,
    limit: usize,
    sols: &mut Vec<Vec<usize>>,
    fuel: Ghost<nat>,
) -> (stop: bool)
    requires
        fuel@ >= active_count(old(a)@),
        old(a)@.wf(),
        partial_ok(old(a)@.matrix, old(partial)@),
        state_of(old(a)@, old(partial)@),
        old(sols)@.len() < limit,
    ensures
        final(a)@.wf(),
        final(a)@.matrix == old(a)@.matrix,
        final(partial)@ == old(partial)@,
        keeps(old(sols)@, final(sols)@),
        final(sols)@.len() <= limit,
        stop <==> final(sols)@.len() == limit,
        !stop ==> final(a)@ == old(a)@,
        fresh_ok(old(a)@.matrix, final(sols)@, old(sols)@.len() as int, old(partial)@),
        !stop ==> complete(old(a)@.matrix, final(sols)@, old(sols)@.len() as int, old(partial)@),
        prefix_of(
            found_from(final(sols)@, old(sols)@.len() as int),
            dfs_solutions(old(a)@.matrix, old(a)@.covered, old(partial)@, fuel@),
        ),
        !stop ==> found_from(final(sols)@, old(sols)@.len() as int) == dfs_solutions(
            old(a)@.matrix,
            old(a)@.covered,
            old(partial)@,
            fuel@,
        ),
    decreases active_count(old(a)@),
{
    let ghost md = a@;
    let ghost m = md.matrix;
    let ghost cs = md.covered;
    let ghost p = partial@;
    let ghost so = sols@;
    let ghost from = so.len() as int;
    let ghost nr = nrows(m);
    let ghost nc = ncols(m);
    let ghost act = active_cols(md);
    let ghost all = dfs_solutions(m, cs, p, fuel@);
    proof {
        lemma_best_col(m, cs, nc);
        assert(md.valid(root_addr()));
        assert forall|k: int| #[trigger] act(k) <==> md.is_active(k) by {
            lemma_active(md, k);
        }
    }
    let root = a.get_node(Addr::new());
    proof {
        assert(root == exp_at(m, tf_of(m, cs), tau_of(cs), root_addr()));
        assert(ring_next(nc, any_mem(), tau_of(cs), -1) == nxt(nc, act, 0));
        lemma_nxt(nc, act, 0);
    }
    if root.right.col == -1 {
        proof {
            assert forall|k: int| 0 <= k < nc implies !#[trigger] md.is_active(k) by {
                assert(!act(k));
            }
            lemma_terminal(md, p);
            assert forall|j: int| 0 <= j < nc implies cs.contains(j) by {
                assert(!md.is_active(j));
            }
            assert(best_col(m, cs, nc) == -1);
            assert(all == seq![p]);
        }
        let s = copy_rows(partial);
        sols.push(s);
        proof {
            let n = sols@;
            assert(n[from]@ == p);
            assert(found_from(n, from) =~= seq![p]);
            assert(all.take(1) =~= all);
            assert forall|t: Set<int>| #[trigger] exact_cover(m, t) && contains_all(t, p) implies exists|i: int|
                from <= i < n.len() && rows_of(#[trigger] n[i]@) == t by {
                assert(rows_of(n[from]@) == t);
            }
        }
        return sols.len() == limit;
    }
    proof {
        assert(act(root.right.col as int));
    }
    let col = a.choose_col();
    let ghost c = col.addr.col as int;
    let ghost tf0 = tf_of(m, cs);
    proof {
        assert(md.valid(addr(-1, c)));
        assert(col == exp_at(m, tf0, tau_of(cs), addr(-1, c)));
        crate::cover::lemma_mid_col(m, cs, c, -1, crate::cover::no_sel());
        assert forall|j: int| 0 <= j < nc && !cs.contains(j) implies #[trigger] live_size(m, cs, j)
            == md.headers[j].size as int by {
            assert(md.valid(addr(-1, j)));
            lemma_cnt_bounds(pres(nr, crate::dlx::col_mem(m, j), crate::dlx::col_times(tf0, j), -1), nr);
        }
        assert forall|j: int| 0 <= j < nc && !cs.contains(j) implies live_size(m, cs, c) <= #[trigger] live_size(
            m,
            cs,
            j,
        ) by {
            assert(md.is_active(j));
        }
        assert forall|j: int| 0 <= j < c && !cs.contains(j) implies live_size(m, cs, c) < #[trigger] live_size(
            m,
            cs,
            j,
        ) by {
            assert(md.is_active(j));
        }
        lemma_best_col_is(m, cs, c);
        lemma_active(md, c);
        lemma_cnt_pos(act, nc, c);
        assert(fuel@ >= 1);
        assert(all == dfs_branches(m, cs, p, c, 0, (fuel@ - 1) as nat));
    }
    if col.size == 0 {
        proof {
            let live = pres(nr, crate::dlx::col_mem(m, c), crate::dlx::col_times(tf0, c), -1);
            assert forall|r: int| 0 <= r < nr implies !#[trigger] crate::cover::in_col(m, cs, c, r) by {
                if crate::cover::in_col(m, cs, c, r) {
                    assert(node_time_live(m, cs, r, c));
                    assert(live(r));
                    lemma_cnt_pos(live, nr, r);
                }
            }
            lemma_branches_skip(m, cs, p, c, 0, nr, (fuel@ - 1) as nat);
            assert(found_from(sols@, from) =~= all);
            assert(all.take(0) =~= all);
            assert forall|t: Set<int>| #[trigger] exact_cover(m, t) && contains_all(t, p) implies exists|i: int|
                from <= i < sols@.len() && rows_of(#[trigger] sols@[i]@) == t by {
                lemma_live_row(md, p, t, c);
                let d = cover_row(m, t, c);
                let live = pres(nr, crate::dlx::col_mem(m, c), crate::dlx::col_times(tf0, c), -1);
                assert(node_time_live(m, cs, d, c));
                assert(live(d));
                lemma_cnt_pos(live, nr, d);
                lemma_cnt_bounds(live, nr);
            }
        }
        return false;
    }
    proof {
        let live = pres(nr, crate::dlx::col_mem(m, c), crate::dlx::col_times(tf0, c), -1);
        assert(col.down == addr(crate::dlx::vert_down(m, tf0, -1, c), c));
        assert(crate::dlx::vert_down(m, tf0, -1, c) == nxt(nr, live, 0));
        lemma_nxt(nr, live, 0);
    }
    crate::cover::cover(a, col);
    let ghost s1 = a@;
    proof {
        assert(s1.valid(col.down));
    }
    let mut down = a.get_node(col.down);
    let ghost mut dr: int = if down.addr.row == -1 { nr } else { down.addr.row as int };
    proof {
        let live = pres(nr, crate::dlx::col_mem(m, c), crate::dlx::col_times(tf0, c), -1);
        lemma_nxt(nr, live, 0);
        if down.addr.row != -1 {
            assert(live(dr));
            assert(node_time_live(m, cs, dr, c));
        }
        assert forall|t: Set<int>| #[trigger] exact_cover(m, t) && contains_all(t, p) && cover_row(m, t, c)
            < dr implies exists|i: int| from <= i < sols@.len() && rows_of(#[trigger] sols@[i]@) == t by {
            lemma_live_row(md, p, t, c);
            let r = cover_row(m, t, c);
            assert(node_time_live(m, cs, r, c));
            assert(live(r));
        }
        assert forall|r: int| 0 <= r < dr implies !#[trigger] crate::cover::in_col(m, cs, c, r) by {
            if crate::cover::in_col(m, cs, c, r) {
                assert(node_time_live(m, cs, r, c));
                assert(live(r));
            }
        }
        lemma_branches_skip(m, cs, p, c, 0, dr, (fuel@ - 1) as nat);
        assert(found_from(sols@, from) =~= Seq::<Seq<usize>>::empty());
        assert(found_from(sols@, from) + dfs_branches(m, cs, p, c, dr, (fuel@ - 1) as nat) =~= all);
    }
    while down.addr.row != -1
        invariant
            fuel@ >= 1,
            fuel@ >= active_count(md),
            all == dfs_solutions(m, cs, p, fuel@),
            all == dfs_branches(m, cs, p, c, 0, (fuel@ - 1) as nat),
            found_from(sols@, from) + dfs_branches(m, cs, p, c, dr, (fuel@ - 1) as nat) == all,
            0 <= dr <= nr,
            a@ == s1,
            old(a)@ == md,
            old(partial)@ == p,
            old(sols)@ == so,
            s1.wf(),
            s1.matrix == m,
            s1.covered == cs.push(c),
            md.wf(),
            md.matrix == m,
            md.covered == cs,
            partial_ok(m, p),
            state_of(md, p),
            md.is_active(c),
            act == active_cols(md),
            nr == nrows(m),
            nc == ncols(m),
            tf0 == tf_of(m, cs),
            col.addr.row == -1,
            col.addr.col as int == c,
            partial@ == p,
            keeps(so, sols@),
            sols@.len() < limit,
            from == so.len(),
            fresh_ok(m, sols@, from, p),
            forall|i: int|
                from <= i < sols@.len() ==> p.len() < (#[trigger] sols@[i])@.len() && sols@[i]@[p.len() as int]
                    < dr && m[sols@[i]@[p.len() as int] as int][c],
            forall|t: Set<int>|
                #[trigger] exact_cover(m, t) && contains_all(t, p) && cover_row(m, t, c) < dr ==> exists|i: int|
                    from <= i < sols@.len() && rows_of(#[trigger] sols@[i]@) == t,
            down.addr.col == col.addr.col,
            down.addr.row == -1 ==> dr == nr,
            down.addr.row != -1 ==> dr == down.addr.row && crate::cover::in_col(m, cs, c, dr) && down
                == s1.node_at(addr(dr, c)),
        decreases nr - dr,
    {
        let d = down.addr.row;
        let ghost di = d as int;
        let ghost len0 = sols@.len() as int;
        let ghost sb = sols@;
        proof {
            lemma_extend(md, p, c, di);
            assert(s1.valid(addr(di, c)));
            crate::cover::lemma_row_right(m, di, c, c);
            crate::cover::lemma_first_hit(m, cs, di);
            lemma_cols_from_skip(m, di, c, 1, crate::cover::off_right(nc, c, row_right(m, di, c)));
            assert(cols_from(m, di, c, 1) =~= Seq::<int>::empty());
            assert(cs.push(c) + cols_from(m, di, c, 1) =~= cs.push(c));
            assert(s1.valid(down.right));
        }
        partial.push(d as usize);
        let ghost pd = partial@;
        let mut right = a.get_node(down.right);
        while right.addr.col != col.addr.col
            invariant
                a@.wf(),
                a@.matrix == m,
                a@.covered == cs.push(c) + cols_from(m, di, c, crate::cover::off_right(nc, c, right.addr.col as int)),
                md.covered == cs,
                md.covered_ok(),
                rect(m),
                nr == nrows(m),
                nc == ncols(m),
                0 <= c < nc,
                col.addr.col as int == c,
                crate::cover::in_col(m, cs, c, di),
                forall|i: int| 0 <= i < cs.len() ==> !m[di][#[trigger] cs[i]],
                0 <= right.addr.col < nc,
                m[di][right.addr.col as int],
                right == a@.node_at(addr(di, right.addr.col as int)),
            decreases nc - crate::cover::off_right(nc, c, right.addr.col as int),
        {
            let ghost k = right.addr.col as int;
            let ghost ok = crate::cover::off_right(nc, c, k);
            let ghost rr = row_right(m, di, k);
            proof {
                assert(a@.valid(addr(di, k)));
                crate::cover::lemma_row_right(m, di, c, k);
                lemma_cols_from(m, di, c, ok);
                assert(right.header == addr(-1, k));
                assert(right.right == addr(di, rr));
                assert(!cs.contains(k)) by {
                    if cs.contains(k) {
                        let i = choose|i: int| 0 <= i < cs.len() && cs[i] == k;
                        assert(!m[di][cs[i]]);
                    }
                }
                let cov = a@.covered;
                assert(!cov.contains(k)) by {
                    if cov.contains(k) {
                        let i = choose|i: int| 0 <= i < cov.len() && cov[i] == k;
                        if i < cs.len() {
                            assert(cs[i] == k);
                            assert(cs.contains(k));
                        } else if i > cs.len() {
                            assert(cols_from(m, di, c, ok)[i - cs.len() - 1] == k);
                            assert(cols_from(m, di, c, ok).contains(k));
                        } else {
                            assert(cov[i] == c);
                        }
                    }
                }
                assert(a@.valid(right.header));
            }
            let h = a.get_node(right.header);
            crate::cover::cover(a, h);
            proof {
                assert(col_at(nc, c, ok) == k);
                assert(cols_from(m, di, c, ok + 1) == cols_from(m, di, c, ok) + seq![k]);
                lemma_cols_from_skip(m, di, c, ok + 1, crate::cover::off_right(nc, c, rr));
                assert(a@.covered =~= cs.push(c) + cols_from(m, di, c, crate::cover::off_right(nc, c, rr)));
                assert(a@.valid(addr(di, rr)));
            }
            right = a.get_node(right.right);
        }
        let ghost s2 = a@;
        proof {
            let q = |k: int| act(k) && k != c;
            assert forall|k: int| 0 <= k < nc && #[trigger] active_cols(s2)(k) implies q(k) by {
                lemma_active(s2, k);
                lemma_active(md, k);
                if cs.contains(k) {
                    let i = choose|i: int| 0 <= i < cs.len() && cs[i] == k;
                    assert(s2.covered[i] == k);
                    assert(s2.covered.contains(k));
                }
                assert(s2.covered[cs.len() as int] == c);
                assert(s2.covered.contains(c));
            }
            lemma_active(md, c);
            lemma_cnt_mono(q, active_cols(s2), nc);
            lemma_cnt_remove(act, q, nc, c);
            lemma_cnt_bounds(active_cols(s2), nc);
            lemma_cnt_bounds(act, nc);
            assert(active_count(s2) < active_count(md));
            assert(active_count(s2) >= 0);
            assert(state_of(s2, pd));
        }
        let ghost g = (fuel@ - 1) as nat;
        let ghost child = dfs_solutions(m, after_choice(m, cs, c, di), pd, g);
        proof {
            assert(s2.covered == after_choice(m, cs, c, di));
            assert(pd == p.push(di as usize));
            assert(dfs_branches(m, cs, p, c, di, g) == child + dfs_branches(m, cs, p, c, di + 1, g));
        }
        let stop = search_rec(a, partial, limit, sols, Ghost(g));
        proof {
            lemma_found_split(sb, sols@, from);
            let f0 = found_from(sb, from);
            let fc = found_from(sols@, len0);
            let rest = dfs_branches(m, cs, p, c, di + 1, g);
            assert(f0 + child + rest =~= all);
            assert(prefix_of(found_from(sols@, from), all)) by {
                assert forall|i: int| 0 <= i < found_from(sols@, from).len() implies found_from(sols@, from)[i]
                    == all[i] by {
                    if i >= f0.len() {
                        assert(fc[i - f0.len()] == child[i - f0.len()]);
                    }
                }
                assert(found_from(sols@, from) =~= all.take(found_from(sols@, from).len() as int));
            }
        }
        proof {
            let n = sols@;
            assert forall|i: int, j: int| from <= i < j < n.len() implies rows_of(#[trigger] n[i]@) != rows_of(
                #[trigger] n[j]@) by {
                if j >= len0 && i < len0 {
                    assert(n[j]@[p.len() as int] == pd[p.len() as int]);
                    lemma_distinct(m, n[i]@, n[j]@, c, p.len() as int);
                }
            }
            assert forall|i: int| from <= i < n.len() implies is_solution(m, #[trigger] n[i]@) && extends(n[i]@, p) by {
                if i >= len0 {
                    assert(extends(n[i]@, pd));
                    assert forall|j: int| 0 <= j < p.len() implies #[trigger] n[i]@[j] == p[j] by {
                        assert(pd[j] == p[j]);
                    }
                }
            }
        }
        if stop {
            partial.pop();
            proof {
                assert(a@.matrix == m);
            }
            return true;
        }
        proof {
            crate::cover::lemma_row_left(m, di, c, c);
            let rl = row_left(m, di, c);
            let lo = if rl == c { 0 } else { crate::cover::off_right(nc, c, rl) };
            assert forall|k2: int|
                0 <= k2 < nc && m[di][k2] && k2 != c implies !(lo + 1 <= #[trigger] crate::cover::off_right(
                nc,
                c,
                k2,
            ) < nc) by {
                assert(crate::cover::off_left(nc, c, k2) == nc - crate::cover::off_right(nc, c, k2));
            }
            lemma_cols_from_skip(m, di, c, lo + 1, nc);
            assert(a@.valid(down.left));
        }
        let mut left = a.get_node(down.left);
        while left.addr.col != col.addr.col
            invariant
                a@.wf(),
                a@.matrix == m,
                a@.covered == cs.push(c) + cols_from(m, di, c, (if left.addr.col as int == c { 0 } else {
                    crate::cover::off_right(nc, c, left.addr.col as int)
                }) + 1),
                rect(m),
                nr == nrows(m),
                nc == ncols(m),
                0 <= c < nc,
                col.addr.col as int == c,
                crate::cover::in_col(m, cs, c, di),
                0 <= left.addr.col < nc,
                m[di][left.addr.col as int],
                left == a@.node_at(addr(di, left.addr.col as int)),
            decreases nc - crate::cover::off_left(nc, c, left.addr.col as int),
        {
            let ghost k = left.addr.col as int;
            let ghost ok = crate::cover::off_right(nc, c, k);
            let ghost rl = row_left(m, di, k);
            proof {
                assert(a@.valid(addr(di, k)));
                crate::cover::lemma_row_left(m, di, c, k);
                assert(left.header == addr(-1, k));
                assert(left.left == addr(di, rl));
                assert(col_at(nc, c, ok) == k);
                assert(cols_from(m, di, c, ok + 1) == cols_from(m, di, c, ok) + seq![k]);
                assert(a@.covered.last() == k);
                assert(a@.valid(left.header));
            }
            let h = a.get_node(left.header);
            crate::cover::uncover(a, h);
            proof {
                let lo = if rl == c { 0 } else { crate::cover::off_right(nc, c, rl) };
                assert forall|k2: int|
                    0 <= k2 < nc && m[di][k2] && k2 != c implies !(lo + 1 <= #[trigger] crate::cover::off_right(
                    nc,
                    c,
                    k2,
                ) < ok) by {
                    assert(crate::cover::off_left(nc, c, k2) == nc - crate::cover::off_right(nc, c, k2));
                }
                lemma_cols_from_skip(m, di, c, lo + 1, ok);
                assert(a@.covered =~= cs.push(c) + cols_from(m, di, c, lo + 1));
                assert(a@.valid(addr(di, rl)));
            }
            left = a.get_node(left.left);
        }
        proof {
            assert(cols_from(m, di, c, 1) =~= Seq::<int>::empty());
            assert(a@.covered =~= cs.push(c));
            lemma_wf_unique(a@, s1);
        }
        partial.pop();
        let ghost dn = crate::dlx::vert_down(m, tf_of(m, cs.push(c)), di, c);
        proof {
            let live = pres(nr, crate::dlx::col_mem(m, c), crate::dlx::col_times(tf0, c), -1);
            assert(down.down == addr(dn, c));
            crate::cover::lemma_mid_col(m, cs, c, -1, crate::cover::no_sel());
            assert(node_time_live(m, cs, di, c));
            assert(crate::dlx::col_times(tf_of(m, cs.push(c)), c)(di) == -1);
            assert(dn == nxt(nr, live, di + 1));
            lemma_nxt(nr, live, di + 1);
            assert(s1.valid(addr(dn, c)));
        }
        down = a.get_node(down.down);
        proof {
            let live = pres(nr, crate::dlx::col_mem(m, c), crate::dlx::col_times(tf0, c), -1);
            let dr2 = if dn == -1 { nr } else { dn };
            if dn != -1 {
                assert(live(dn));
                assert(node_time_live(m, cs, dn, c));
            }
            let n = sols@;
            assert forall|i: int| from <= i < n.len() implies p.len() < (#[trigger] n[i])@.len() && n[i]@[p.len() as int]
                < dr2 && m[n[i]@[p.len() as int] as int][c] by {
                if i >= len0 {
                    assert(extends(n[i]@, pd));
                    assert(n[i]@[p.len() as int] == pd[p.len() as int]);
                }
            }
            assert forall|t: Set<int>| #[trigger] exact_cover(m, t) && contains_all(t, p) && cover_row(m, t, c)
                < dr2 implies exists|i: int| from <= i < n.len() && rows_of(#[trigger] n[i]@) == t by {
                lemma_live_row(md, p, t, c);
                let r = cover_row(m, t, c);
                assert(node_time_live(m, cs, r, c));
                assert(live(r));
                if r < di {
                    assert(exists|i: int| from <= i < sb.len() && rows_of(#[trigger] sb[i]@) == t);
                    let i = choose|i: int| from <= i < sb.len() && rows_of(#[trigger] sb[i]@) == t;
                    assert(n[i] == sb[i]);
                } else {
                    assert(r == di);
                    assert forall|j: int| 0 <= j < pd.len() implies t.contains(#[trigger] pd[j] as int) by {
                        if j < p.len() {
                            assert(pd[j] == p[j]);
                        }
                    }
                    assert(contains_all(t, pd));
                }
            }
            assert forall|r: int| di + 1 <= r < dr2 implies !#[trigger] crate::cover::in_col(m, cs, c, r) by {
                if crate::cover::in_col(m, cs, c, r) {
                    assert(node_time_live(m, cs, r, c));
                    assert(live(r));
                }
            }
            lemma_branches_skip(m, cs, p, c, di + 1, dr2, g);
            assert(found_from(n, from) =~= found_from(sb, from) + child);
            assert(found_from(n, from) + dfs_branches(m, cs, p, c, dr2, g) =~= all);
            dr = dr2;
        }
    }
    crate::cover::uncover(a, col);
    proof {
        assert(dfs_branches(m, cs, p, c, nr, (fuel@ - 1) as nat) =~= Seq::<Seq<usize>>::empty());
        assert(found_from(sols@, from) + Seq::<Seq<usize>>::empty() =~= found_from(sols@, from));
        assert(found_from(sols@, from) == all);
        assert(all.take(all.len() as int) =~= all);
        assert(a@.covered =~= cs);
        lemma_wf_unique(a@, md);
        assert forall|t: Set<int>| #[trigger] exact_cover(m, t) && contains_all(t, p) implies exists|i: int|
            from <= i < sols@.len() && rows_of(#[trigger] sols@[i]@) == t by {
            lemma_live_row(md, p, t, c);
        }
    }
    false
}

pub open spec fn node_time_live(m: Seq<Seq<bool>>, cs: Seq<int>, r: int, c: int) -> bool {
    crate::dlx::node_time(m, cs, r, c) == -1
}

} // verus!

verus! {

/// `sols` is a valid outcome of a search with at most `limit` results:
/// distinct exact covers, and all of them unless the limit was reached.
pub open spec fn search_result(m: Seq<Seq<bool>>, sols: Seq<Vec<usize>>, limit: int) -> bool {
    &&& sols.len() <= limit
    &&& forall|i: int| 0 <= i < sols.len() ==> is_solution(m, #[trigger] sols[i]@)
    &&& forall|i: int, j: int|
        0 <= i < j < sols.len() ==> rows_of(#[trigger] sols[i]@) != rows_of(#[trigger] sols[j]@)
    &&& sols.len() < limit ==> forall|s: Set<int>|
        #[trigger] exact_cover(m, s) ==> exists|i: int| 0 <= i < sols.len() && rows_of(#[trigger] sols[i]@) == s
}

/// All exact covers of `m`, in the order Algorithm X finds them from scratch.
pub open spec fn dfs_order(m: Seq<Seq<bool>>) -> Seq<Seq<usize>> {
    dfs_solutions(m, Seq::empty(), Seq::empty(), ncols(m) as nat)
}

/// `sols` holds the first solutions in the order Algorithm X finds them: all
/// of them when fewer than `limit` came back.
pub open spec fn in_search_order(m: Seq<Seq<bool>>, sols: Seq<Vec<usize>>, limit: int) -> bool {
    &&& prefix_of(found_from(sols, 0), dfs_order(m))
    &&& sols.len() < limit ==> found_from(sols, 0) == dfs_order(m)
}

/// Finds up to `limit` exact covers of the matrix `a` was built from, each as
/// the list of its rows in the order they were chosen. With `limit == 1` this
/// is the first solution found; the search stops as soon as `limit` solutions
/// are in hand, and leaves the structure as it stands then.
pub fn search(a: &mut A, limit: usize) -> (sols: Vec<Vec<usize>>)
    requires
        old(a)@.wf(),
        old(a)@.covered == Seq::<int>::empty(),
    ensures
        final(a)@.wf(),
        final(a)@.matrix == old(a)@.matrix,
        search_result(old(a)@.matrix, sols@, limit as int),
        in_search_order(old(a)@.matrix, sols@, limit as int),
        sols@.len() < limit ==> final(a)@ == old(a)@,
{
    let mut sols: Vec<Vec<usize>> = Vec::new();
    if limit == 0 {
        assert(found_from(sols@, 0) =~= dfs_order(a@.matrix).take(0));
        return sols;
    }
    let mut partial: Vec<usize> = Vec::new();
    let ghost md = a@;
    proof {
        assert forall|c: int| 0 <= c < ncols(md.matrix) implies (#[trigger] md.covered.contains(c)
            <==> covered_by(md.matrix, partial@, c)) by {}
        assert(state_of(md, partial@));
    }
    proof {
        lemma_cnt_bounds(active_cols(md), ncols(md.matrix));
    }
    search_rec(a, &mut partial, limit, &mut sols, Ghost(ncols(md.matrix) as nat));
    proof {
        assert(partial@ =~= Seq::<usize>::empty());
        let m = md.matrix;
        assert forall|s: Set<int>| #[trigger] exact_cover(m, s) implies contains_all(s, partial@) by {}
    }
    sols
}

/// Builds the structure for `matrix` and searches it for up to `limit` exact covers.
pub fn dlx(matrix: &Vec<Vec<u8>>, limit: usize) -> (res: Result<Vec<Vec<usize>>, MatrixFormatError>)
    requires
        matrix@.len() < i32::MAX,
        matrix@.len() > 0 ==> matrix@[0]@.len() < i32::MAX,
    ensures
        res is Ok <==> is_binary_matrix(matrix@),
        res matches Ok(sols) ==> search_result(bits(matrix@), sols@, limit as int),
        res matches Ok(sols) ==> in_search_order(bits(matrix@), sols@, limit as int),
        res matches Err(e) ==> format_error(matrix@, e),
{
    match from_matrix(matrix) {
        Ok(mut a) => Ok(search(&mut a, limit)),
        Err(e) => Err(e),
    }
}

} // verus!
