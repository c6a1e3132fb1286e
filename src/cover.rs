//! Covering and uncovering a column.
use vstd::prelude::*;
use crate::ring::{lemma_nxt, lemma_prv, nxt, pres, prv, ring_next, ring_prev};
use crate::dlx::{
    addr, col_pos, col_times, exp_at, first_hit, lemma_model_splice, lemma_model_unlink, ncols,
    never, node_time, nrows, rect, row_alive, row_left, row_mem, row_right, spliced, tau_of, tf_of,
    unlinked, Addr, Node, A, col_mem, vert_down, vert_up,
};

verus! {

pub proof fn lemma_first_hit(m: Seq<Seq<bool>>, cs: Seq<int>, r: int)
    ensures
        0 <= first_hit(m, cs, r) <= cs.len(),
        forall|i: int| 0 <= i < first_hit(m, cs, r) ==> !m[r][#[trigger] cs[i]],
        first_hit(m, cs, r) < cs.len() ==> m[r][cs[first_hit(m, cs, r)]],
    decreases cs.len(),
{
    if cs.len() > 0 {
        lemma_first_hit(m, cs.drop_last(), r);
        assert forall|i: int| 0 <= i < first_hit(m, cs, r) implies !m[r][#[trigger] cs[i]] by {
            if i < cs.len() - 1 {
                assert(cs.drop_last()[i] == cs[i]);
            }
        }
    }
}

pub proof fn lemma_first_hit_push(m: Seq<Seq<bool>>, cs: Seq<int>, c: int, r: int)
    ensures
        first_hit(m, cs.push(c), r) == if first_hit(m, cs, r) < cs.len() {
            first_hit(m, cs, r)
        } else if m[r][c] {
            cs.len() as int
        } else {
            cs.len() + 1int
        },
{
    assert(cs.push(c).drop_last() =~= cs);
    lemma_first_hit(m, cs, r);
}

pub proof fn lemma_col_pos(cs: Seq<int>, k: int)
    ensures
        -1 <= col_pos(cs, k) < cs.len(),
        col_pos(cs, k) == -1 <==> !cs.contains(k),
        col_pos(cs, k) != -1 ==> cs[col_pos(cs, k)] == k,
    decreases cs.len(),
{
    if cs.len() > 0 {
        lemma_col_pos(cs.drop_last(), k);
        assert(cs =~= cs.drop_last().push(cs.last()));
        if cs.drop_last().contains(k) {
            let i = choose|i: int| 0 <= i < cs.len() - 1 && cs.drop_last()[i] == k;
            assert(cs[i] == k);
        }
        if cs.contains(k) && cs.last() != k {
            let i = choose|i: int| 0 <= i < cs.len() && cs[i] == k;
            assert(cs.drop_last()[i] == k);
        }
    }
}

pub proof fn lemma_col_pos_push(cs: Seq<int>, c: int, k: int)
    requires
        !cs.contains(c),
    ensures
        col_pos(cs.push(c), k) == if k == c {
            cs.len() as int
        } else {
            col_pos(cs, k)
        },
{
    assert(cs.push(c).drop_last() =~= cs);
    lemma_col_pos(cs, k);
}

/// A stamp of an earlier cover is smaller than one of the current cover.
pub proof fn lemma_stamp_order(h: int, r: int, j: int, r0: int, n: int)
    requires
        0 <= h < j,
        0 <= r < n,
        0 <= r0,
    ensures
        0 <= h * n + r < j * n + r0,
{
    assert(0 <= h * n + r < j * n + r0) by (nonlinear_arith)
        requires
            0 <= h < j,
            0 <= r < n,
            0 <= r0,
    ;
}

/// Removal times in the middle of covering column `c`: the rows of `c` above
/// `r0`, and the entries of row `r0` that `sel` picks, have left their columns.
pub open spec fn mid_time(
    m: Seq<Seq<bool>>,
    cs: Seq<int>,
    c: int,
    r0: int,
    sel: spec_fn(int) -> bool,
) -> spec_fn(int, int) -> int {
    |r: int, k: int|
        if 0 <= r < nrows(m) && 0 <= k < ncols(m) && m[r][k] && row_alive(m, cs, r) && m[r][c] && k
            != c && (r < r0 || (r == r0 && sel(k))) {
            cs.len() * nrows(m) + r
        } else {
            node_time(m, cs, r, k)
        }
}

/// Row `r` is a live row of the active column `c`.
pub open spec fn in_col(m: Seq<Seq<bool>>, cs: Seq<int>, c: int, r: int) -> bool {
    0 <= r < nrows(m) && m[r][c] && row_alive(m, cs, r)
}

/// Two progress points of a cover that no row of `c` separates give the same times.
pub proof fn lemma_mid_eq(
    m: Seq<Seq<bool>>,
    cs: Seq<int>,
    c: int,
    r0: int,
    s0: spec_fn(int) -> bool,
    r1: int,
    s1: spec_fn(int) -> bool,
)
    requires
        r0 <= r1,
        forall|r: int| r0 < r < r1 ==> !#[trigger] in_col(m, cs, c, r),
        r0 == r1 ==> forall|k: int|
            0 <= k < ncols(m) && k != c && m[r0][k] ==> #[trigger] s0(k) == s1(k),
        r0 < r1 && in_col(m, cs, c, r0) ==> forall|k: int|
            0 <= k < ncols(m) && k != c && m[r0][k] ==> #[trigger] s0(k),
        r0 < r1 && in_col(m, cs, c, r1) ==> forall|k: int|
            0 <= k < ncols(m) && k != c && m[r1][k] ==> !#[trigger] s1(k),
    ensures
        mid_time(m, cs, c, r0, s0) =~= mid_time(m, cs, c, r1, s1),
{
    assert forall|r: int, k: int|
        #[trigger] mid_time(m, cs, c, r0, s0)(r, k) == mid_time(m, cs, c, r1, s1)(r, k) by {
        if r0 < r && r < r1 {
            assert(!in_col(m, cs, c, r));
        }
    }
}

/// Before the first row, nothing of the cover has happened.
pub proof fn lemma_mid_start(m: Seq<Seq<bool>>, cs: Seq<int>, c: int, s: spec_fn(int) -> bool)
    ensures
        mid_time(m, cs, c, -1, s) =~= tf_of(m, cs),
{
}

/// Past the last row, the cover of `c` is complete.
pub proof fn lemma_mid_end(m: Seq<Seq<bool>>, cs: Seq<int>, c: int, s: spec_fn(int) -> bool)
    requires
        !cs.contains(c),
        0 <= c < ncols(m),
    ensures
        mid_time(m, cs, c, nrows(m), s) =~= tf_of(m, cs.push(c)),
{
    assert forall|r: int, k: int|
        #[trigger] mid_time(m, cs, c, nrows(m), s)(r, k) == tf_of(m, cs.push(c))(r, k) by {
        lemma_first_hit_push(m, cs, c, r);
        lemma_first_hit(m, cs, r);
    }
}

/// The links of column `c` itself do not move while it is covered.
pub proof fn lemma_mid_col(
    m: Seq<Seq<bool>>,
    cs: Seq<int>,
    c: int,
    r0: int,
    s: spec_fn(int) -> bool,
)
    requires
        !cs.contains(c),
        0 <= c < ncols(m),
    ensures
        col_times(mid_time(m, cs, c, r0, s), c) =~= col_times(tf_of(m, cs), c),
        col_times(tf_of(m, cs.push(c)), c) =~= col_times(tf_of(m, cs), c),
        forall|r: int|
            0 <= r < nrows(m) && m[r][c] ==> (#[trigger] node_time(m, cs, r, c) == -1 <==> in_col(
                m,
                cs,
                c,
                r,
            )),
{
    assert forall|r: int|
        0 <= r < nrows(m) && m[r][c] implies (#[trigger] node_time(m, cs, r, c) == -1 <==> in_col(
        m,
        cs,
        c,
        r,
    )) by {
        lemma_first_hit(m, cs, r);
        let h = first_hit(m, cs, r);
        if h < cs.len() {
            assert(cs.contains(cs[h]));
        }
    }
    assert forall|r: int| #[trigger]
        col_times(tf_of(m, cs.push(c)), c)(r) == col_times(tf_of(m, cs), c)(r) by {
        lemma_first_hit_push(m, cs, c, r);
        lemma_first_hit(m, cs, r);
        let h = first_hit(m, cs, r);
        if h < cs.len() {
            assert(cs.contains(cs[h]));
        }
    }
}

/// Offset of column `k` to the right of `c` in a row, `ncols` for `c` itself.
pub open spec fn off_right(n: int, c: int, k: int) -> int {
    if k > c {
        k - c
    } else {
        k - c + n
    }
}

/// Offset of column `k` to the left of `c` in a row, `ncols` for `c` itself.
pub open spec fn off_left(n: int, c: int, k: int) -> int {
    if k < c {
        c - k
    } else {
        c - k + n
    }
}

/// Walking right along a row from `c` visits its entries in order of offset.
pub proof fn lemma_row_right(m: Seq<Seq<bool>>, r: int, c: int, cur: int)
    requires
        rect(m),
        0 <= r < nrows(m),
        0 <= c < ncols(m),
        m[r][c],
        0 <= cur < ncols(m),
        m[r][cur],
    ensures
        0 <= row_right(m, r, cur) < ncols(m),
        m[r][row_right(m, r, cur)],
        cur != c ==> off_right(ncols(m), c, row_right(m, r, cur)) > off_right(ncols(m), c, cur),
        forall|k: int|
            0 <= k < ncols(m) && m[r][k] && off_right(ncols(m), c, cur) < #[trigger] off_right(
                ncols(m),
                c,
                k,
            ) < off_right(ncols(m), c, row_right(m, r, cur)) ==> cur == c,
        cur == c ==> forall|k: int|
            0 <= k < ncols(m) && m[r][k] && k != c ==> #[trigger] off_right(ncols(m), c, k)
                >= off_right(ncols(m), c, row_right(m, r, c)),
{
    let n = ncols(m);
    let q = pres(n, row_mem(m, r), never(), -1);
    assert(ring_next(n, row_mem(m, r), never(), cur) == nxt(n, q, cur + 1));
    assert(ring_next(n, row_mem(m, r), never(), -1) == nxt(n, q, 0));
    lemma_nxt(n, q, cur + 1);
    lemma_nxt(n, q, 0);
    assert(q(c));
    assert(q(cur));
    assert forall|k: int|
        0 <= k < ncols(m) && m[r][k] && off_right(ncols(m), c, cur) < #[trigger] off_right(
            ncols(m),
            c,
            k,
        ) < off_right(ncols(m), c, row_right(m, r, cur)) implies cur == c by {
        assert(q(k));
    }
    if cur == c {
        assert forall|k: int|
            0 <= k < ncols(m) && m[r][k] && k != c implies #[trigger] off_right(ncols(m), c, k)
                >= off_right(ncols(m), c, row_right(m, r, c)) by {
            assert(q(k));
        }
    }
}

/// Walking left along a row from `c` visits its entries in order of offset.
pub proof fn lemma_row_left(m: Seq<Seq<bool>>, r: int, c: int, cur: int)
    requires
        rect(m),
        0 <= r < nrows(m),
        0 <= c < ncols(m),
        m[r][c],
        0 <= cur < ncols(m),
        m[r][cur],
    ensures
        0 <= row_left(m, r, cur) < ncols(m),
        m[r][row_left(m, r, cur)],
        cur != c ==> off_left(ncols(m), c, row_left(m, r, cur)) > off_left(ncols(m), c, cur),
        forall|k: int|
            0 <= k < ncols(m) && m[r][k] && off_left(ncols(m), c, cur) < #[trigger] off_left(
                ncols(m),
                c,
                k,
            ) < off_left(ncols(m), c, row_left(m, r, cur)) ==> cur == c,
        cur == c ==> forall|k: int|
            0 <= k < ncols(m) && m[r][k] && k != c ==> #[trigger] off_left(ncols(m), c, k)
                >= off_left(ncols(m), c, row_left(m, r, c)),
{
    let n = ncols(m);
    let q = pres(n, row_mem(m, r), never(), -1);
    assert(ring_prev(n, row_mem(m, r), never(), cur) == prv(q, cur - 1));
    assert(ring_prev(n, row_mem(m, r), never(), -1) == prv(q, n - 1));
    lemma_prv(q, cur - 1);
    lemma_prv(q, n - 1);
    assert(q(c));
    assert(q(cur));
    assert forall|k: int|
        0 <= k < ncols(m) && m[r][k] && off_left(ncols(m), c, cur) < #[trigger] off_left(
            ncols(m),
            c,
            k,
        ) < off_left(ncols(m), c, row_left(m, r, cur)) implies cur == c by {
        assert(q(k));
    }
    if cur == c {
        assert forall|k: int|
            0 <= k < ncols(m) && m[r][k] && k != c implies #[trigger] off_left(ncols(m), c, k)
                >= off_left(ncols(m), c, row_left(m, r, c)) by {
            assert(q(k));
        }
    }
}

} // verus!

verus! {

pub open spec fn no_sel() -> spec_fn(int) -> bool {
    |k: int| false
}

pub open spec fn all_sel() -> spec_fn(int) -> bool {
    |k: int| true
}

/// Entries of a row met before `cur` when walking right from `c`.
pub open spec fn sel_right(n: int, c: int, cur: int) -> spec_fn(int) -> bool {
    |k: int| off_right(n, c, k) < off_right(n, c, cur)
}

/// Entries of a row met at or after `cur` when walking left from `c`.
pub open spec fn sel_left(n: int, c: int, cur: int) -> spec_fn(int) -> bool {
    |k: int| off_left(n, c, k) >= off_left(n, c, cur)
}

/// Within one row of a cover, the entry `(r0, k0)` is the only one whose time
/// differs between selections `sa` and `sb`, and its new stamp is the latest.
pub proof fn lemma_cover_step(
    m: Seq<Seq<bool>>,
    cs: Seq<int>,
    c: int,
    r0: int,
    sa: spec_fn(int) -> bool,
    sb: spec_fn(int) -> bool,
    k0: int,
)
    requires
        rect(m),
        0 <= c < ncols(m),
        in_col(m, cs, c, r0),
        0 <= k0 < ncols(m),
        k0 != c,
        m[r0][k0],
        !sa(k0),
        sb(k0),
        forall|k: int| 0 <= k < ncols(m) && m[r0][k] && k != k0 && k != c ==> #[trigger] sa(k) == sb(k),
    ensures
        ({
            let tfa = mid_time(m, cs, c, r0, sa);
            let tfb = mid_time(m, cs, c, r0, sb);
            let tn = cs.len() * nrows(m) + r0;
            &&& tfa(r0, k0) == -1
            &&& tfb(r0, k0) == tn
            &&& tn >= 0
            &&& forall|r: int, k: int| !(r == r0 && k == k0) ==> #[trigger] tfb(r, k) == tfa(r, k)
            &&& forall|r: int|
                0 <= r < nrows(m) && m[r][k0] && r != r0 && #[trigger] tfa(r, k0) != -1 ==> 0
                    <= tfa(r, k0) < tn
        }),
{
    let tfa = mid_time(m, cs, c, r0, sa);
    let tfb = mid_time(m, cs, c, r0, sb);
    let nr = nrows(m);
    let tn = cs.len() * nr + r0;
    assert(0 <= cs.len() * nr) by (nonlinear_arith)
        requires
            0 <= nr,
    ;
    assert forall|r: int|
        0 <= r < nr && m[r][k0] && r != r0 && #[trigger] tfa(r, k0) != -1 implies 0 <= tfa(r, k0)
        < tn by {
        if !(row_alive(m, cs, r) && m[r][c] && r < r0) {
            lemma_first_hit(m, cs, r);
            let h = first_hit(m, cs, r);
            lemma_stamp_order(h, r, cs.len() as int, r0, nr);
        }
    }
}

/// Takes `header`'s column out of the header ring, and every row that has a 1
/// in that column out of all its other columns. Only the address of `header`
/// is used; the links are read from `a`.
pub fn cover(a: &mut A, header: Node)
    requires
        old(a)@.wf(),
        header.addr.row == -1,
        old(a)@.is_active(header.addr.col as int),
    ensures
        final(a)@.wf(),
        final(a)@.matrix == old(a)@.matrix,
        final(a)@.covered == old(a)@.covered.push(header.addr.col as int),
{
    let c = header.addr.col;
    let hd = Addr { row: -1, col: c };
    let ghost m = a@.matrix;
    let ghost cs = a@.covered;
    let ghost ci = c as int;
    let ghost nr = nrows(m);
    let ghost nc = ncols(m);
    let ghost tf0 = tf_of(m, cs);
    let ghost tau0 = tau_of(cs);
    let ghost tau1 = tau_of(cs.push(ci));
    proof {
        assert(hd == addr(-1, ci));
        assert(a@.valid(hd));
    }
    let h = a.get_node(hd);
    proof {
        assert(h == exp_at(m, tf0, tau0, hd));
        assert forall|k: int| k != ci implies #[trigger] tau1(k) == tau0(k) by {
            lemma_col_pos_push(cs, ci, k);
        }
        assert forall|k: int| 0 <= k < nc && k != ci && #[trigger] tau0(k) != -1 implies 0 <= tau0(k) < cs.len() by {
            lemma_col_pos(cs, k);
        }
        lemma_col_pos(cs, ci);
        lemma_col_pos_push(cs, ci, ci);
        lemma_model_splice(m, tf0, tau0, tau1, ci, cs.len() as int);
    }
    let ghost s0 = a@;
    a.set_right(h.left, h.right);
    let ghost s1 = a@;
    a.set_left(h.right, h.left);
    proof {
        assert forall|z: Addr| #[trigger] a@.valid(z) implies a@.node_at(z) == exp_at(m, tf0, tau1, z) by {
            assert(s0.valid(z) && s1.valid(z));
            assert(s0.node_at(z) == exp_at(m, tf0, tau0, z));
            assert(exp_at(m, tf0, tau1, z) == spliced(exp_at(m, tf0, tau0, z), z, h.left, h.right));
        }
        let p = pres(nr, col_mem(m, ci), col_times(tf0, ci), -1);
        assert(vert_down(m, tf0, -1, ci) == nxt(nr, p, 0));
        lemma_nxt(nr, p, 0);
        assert(a@.valid(h.down));
    }
    let mut cn = a.get_node(h.down);
    let ghost mut r0: int = if cn.addr.row == -1 { nr } else { cn.addr.row as int };
    proof {
        lemma_mid_col(m, cs, ci, -1, no_sel());
        let p = pres(nr, crate::dlx::col_mem(m, ci), col_times(tf0, ci), -1);
        lemma_nxt(nr, p, 0);
        assert forall|r: int| -1 < r < r0 implies !#[trigger] in_col(m, cs, ci, r) by {
            if in_col(m, cs, ci, r) {
                assert(node_time(m, cs, r, ci) == -1);
                assert(p(r));
            }
        }
        if cn.addr.row != -1 {
            assert(p(r0));
        }
        lemma_mid_start(m, cs, ci, no_sel());
        lemma_mid_eq(m, cs, ci, -1, no_sel(), r0, no_sel());
    }
    while cn.addr.row != -1
        invariant
            a@.dims(),
            a@.matrix == m,
            a@.covered == cs,
            rect(m),
            nr == nrows(m),
            nc == ncols(m),
            ci == c,
            0 <= ci < nc,
            !cs.contains(ci),
            tf0 == tf_of(m, cs),
            a@.shaped(mid_time(m, cs, ci, r0, no_sel()), tau1),
            cn.addr.col == c,
            cn.addr.row == -1 ==> r0 == nr,
            cn.addr.row != -1 ==> r0 == cn.addr.row && in_col(m, cs, ci, r0),
            cn.addr.row != -1 ==> cn.down == addr(crate::dlx::vert_down(m, tf0, r0, ci), ci),
            cn.addr.row != -1 ==> cn.right == addr(r0, row_right(m, r0, ci)),
        decreases nr - r0,
    {
        let ghost c0 = row_right(m, r0, ci);
        proof {
            lemma_row_right(m, r0, ci, ci);
            lemma_mid_eq(m, cs, ci, r0, no_sel(), r0, sel_right(nc, ci, c0));
        }
        proof {
            assert(a@.valid(cn.right));
        }
        let mut node = a.get_node(cn.right);
        proof {
            assert(node == exp_at(m, mid_time(m, cs, ci, r0, sel_right(nc, ci, c0)), tau1, cn.right));
            assert(node.addr.col as int == c0);
        }
        while node.addr.col != c
            invariant
                a@.dims(),
                a@.matrix == m,
                a@.covered == cs,
                rect(m),
                nr == nrows(m),
                nc == ncols(m),
                ci == c,
                0 <= ci < nc,
                !cs.contains(ci),
                in_col(m, cs, ci, r0),
                0 <= node.addr.col < nc,
                m[r0][node.addr.col as int],
                node.addr == addr(r0, node.addr.col as int),
                a@.shaped(mid_time(m, cs, ci, r0, sel_right(nc, ci, node.addr.col as int)), tau1),
                node == a@.node_at(node.addr),
            decreases nc - off_right(nc, ci, node.addr.col as int),
        {
            let ghost k0 = node.addr.col as int;
            let ghost tfa = mid_time(m, cs, ci, r0, sel_right(nc, ci, k0));
            let ghost rr = row_right(m, r0, k0);
            let ghost tfb = mid_time(m, cs, ci, r0, sel_right(nc, ci, rr));
            let ghost hk = addr(-1, k0);
            proof {
                lemma_row_right(m, r0, ci, k0);
                lemma_cover_step(m, cs, ci, r0, sel_right(nc, ci, k0), sel_right(nc, ci, rr), k0);
                lemma_model_unlink(m, tfa, tfb, tau1, r0, k0, cs.len() * nr + r0);
                assert(a@.valid(node.addr));
                assert(node == exp_at(m, tfa, tau1, node.addr));
            }
            let ghost e = node;
            let ghost a0 = a@;
            a.set_down(node.up, node.down);
            let ghost a1 = a@;
            a.set_up(node.down, node.up);
            proof {
                assert(node.header == hk);
                assert(a0.valid(hk));
                assert(a1.valid(hk));
                assert(a@.valid(hk));
                assert(a@.node_at(hk).size == a1.node_at(hk).size);
                assert(a1.node_at(hk).size == a0.node_at(hk).size);
            }
            let ghost a2 = a@;
            let mut hn = a.get_node(node.header);
            hn.decr_size();
            a.set_node(node.header, hn);
            proof {
                assert forall|z: Addr| #[trigger] a@.valid(z) implies a@.node_at(z) == exp_at(m, tfb, tau1, z) by {
                    assert(a0.valid(z) && a1.valid(z) && a2.valid(z));
                    assert(a0.node_at(z) == exp_at(m, tfa, tau1, z));
                    assert(exp_at(m, tfb, tau1, z) == unlinked(exp_at(m, tfa, tau1, z), z, e.up, e.down, hk));
                }
            }
            proof {
                assert(e.right == addr(r0, rr));
                assert(a@.valid(e.right));
            }
            node = a.get_node(node.right);
            proof {
                assert(node == exp_at(m, tfb, tau1, e.right));
                assert(node.addr.col as int == rr);
            }
        }
        let ghost r1 = crate::dlx::vert_down(m, tf0, r0, ci);
        let ghost r1n = if r1 == -1 { nr } else { r1 };
        proof {
            lemma_mid_col(m, cs, ci, r0, no_sel());
            let p = pres(nr, crate::dlx::col_mem(m, ci), col_times(tf0, ci), -1);
            assert(crate::dlx::vert_down(m, tf0, r0, ci) == nxt(nr, p, r0 + 1));
            lemma_nxt(nr, p, r0 + 1);
            assert forall|r: int| r0 < r < r1n implies !#[trigger] in_col(m, cs, ci, r) by {
                if in_col(m, cs, ci, r) {
                    assert(node_time(m, cs, r, ci) == -1);
                    assert(p(r));
                }
            }
            if r1 != -1 {
                assert(p(r1));
                assert(node_time(m, cs, r1, ci) == -1);
            }
            lemma_mid_eq(m, cs, ci, r0, sel_right(nc, ci, ci), r1n, no_sel());
            lemma_mid_col(m, cs, ci, r0, sel_right(nc, ci, ci));
            assert(a@.valid(addr(r1, ci)));
        }
        cn = a.get_node(cn.down);
        proof {
            r0 = r1n;
            if cn.addr.row != -1 {
                lemma_mid_col(m, cs, ci, r0, no_sel());
                assert(a@.valid(cn.addr));
            }
        }
    }
    proof {
        lemma_mid_end(m, cs, ci, no_sel());
        assert(r0 == nr);
        assert(mid_time(m, cs, ci, nr, no_sel()) == tf_of(m, cs.push(ci)));
        assert(a@.shaped(tf_of(m, cs.push(ci)), tau1));
    }
    let ghost pre = a@;
    a.set_covered(Ghost(cs.push(ci)));
    proof {
        let cs1 = cs.push(ci);
        assert forall|z: Addr| #[trigger] a@.valid(z) implies a@.node_at(z) == exp_at(m, tf_of(m, cs1), tau1, z) by {
            assert(pre.valid(z));
        }
        assert(a@.dims());
        assert forall|i: int, j: int| 0 <= i < j < cs1.len() implies cs1[i] != cs1[j] by {
            if j == cs.len() {
                assert(cs.contains(cs[i]));
            }
        }
        assert(cs1.no_duplicates());
        assert forall|i: int| 0 <= i < a@.covered.len() implies 0 <= #[trigger] a@.covered[i] < nc by {
            if i < cs.len() {
                assert(a@.covered[i] == cs[i]);
            }
        }
    }
}

} // verus!

verus! {

/// Undoes the `cover` of `header`'s column, the last one covered: restores the
/// rows of that column bottom to top, each right to left, then puts the column
/// back into the header ring. Only the address of `header` is used.
pub fn uncover(a: &mut A, header: Node)
    requires
        old(a)@.wf(),
        header.addr.row == -1,
        old(a)@.covered.len() > 0,
        old(a)@.covered.last() == header.addr.col as int,
    ensures
        final(a)@.wf(),
        final(a)@.matrix == old(a)@.matrix,
        final(a)@.covered == old(a)@.covered.drop_last(),
{
    let c = header.addr.col;
    let hd = Addr { row: -1, col: c };
    let ghost m = a@.matrix;
    let ghost cs1 = a@.covered;
    let ghost cs = cs1.drop_last();
    let ghost ci = c as int;
    let ghost nr = nrows(m);
    let ghost nc = ncols(m);
    let ghost tf0 = tf_of(m, cs);
    let ghost tau0 = tau_of(cs);
    let ghost tau1 = tau_of(cs1);
    proof {
        assert(cs.push(ci) =~= cs1);
        assert(cs1[cs1.len() - 1] == ci);
        assert(0 <= ci < nc);
        if cs.contains(ci) {
            let i = choose|i: int| 0 <= i < cs.len() && cs[i] == ci;
            assert(cs1[i] == cs1[cs1.len() - 1]);
        }
        assert(hd == addr(-1, ci));
        assert(a@.valid(hd));
        lemma_mid_col(m, cs, ci, -1, no_sel());
    }
    let h = a.get_node(hd);
    let ghost r0: int;
    proof {
        let p = pres(nr, col_mem(m, ci), col_times(tf0, ci), -1);
        assert(h == exp_at(m, tf_of(m, cs1), tau1, hd));
        assert(vert_up(m, tf_of(m, cs1), -1, ci) == prv(p, nr - 1));
        lemma_prv(p, nr - 1);
        assert(a@.valid(h.up));
        r0 = h.up.row as int;
        assert forall|r: int| r0 < r < nr implies !#[trigger] in_col(m, cs, ci, r) by {
            if in_col(m, cs, ci, r) {
                assert(node_time(m, cs, r, ci) == -1);
                assert(p(r));
            }
        }
        if r0 != -1 {
            assert(p(r0));
        }
        lemma_mid_end(m, cs, ci, no_sel());
        lemma_mid_eq(m, cs, ci, r0, all_sel(), nr, no_sel());
    }
    let mut cn = a.get_node(h.up);
    let ghost mut r0 = r0;
    while cn.addr.row != -1
        invariant
            a@.dims(),
            a@.matrix == m,
            a@.covered == cs1,
            cs1 == cs.push(ci),
            rect(m),
            nr == nrows(m),
            nc == ncols(m),
            ci == c,
            0 <= ci < nc,
            !cs.contains(ci),
            tf0 == tf_of(m, cs),
            tau1 == tau_of(cs1),
            a@.shaped(mid_time(m, cs, ci, r0, all_sel()), tau1),
            cn.addr.col == c,
            cn.addr.row == -1 ==> r0 == -1,
            cn.addr.row != -1 ==> r0 == cn.addr.row && in_col(m, cs, ci, r0),
            cn.addr.row != -1 ==> cn.up == addr(vert_up(m, tf0, r0, ci), ci),
            cn.addr.row != -1 ==> cn.left == addr(r0, row_left(m, r0, ci)),
        decreases r0 + 1,
    {
        let ghost c0 = row_left(m, r0, ci);
        proof {
            lemma_row_left(m, r0, ci, ci);
            lemma_mid_eq(m, cs, ci, r0, all_sel(), r0, sel_left(nc, ci, c0));
            assert(a@.valid(cn.left));
        }
        let mut node = a.get_node(cn.left);
        proof {
            assert(node == exp_at(m, mid_time(m, cs, ci, r0, sel_left(nc, ci, c0)), tau1, cn.left));
            assert(node.addr.col as int == c0);
        }
        while node.addr.col != c
            invariant
                a@.dims(),
                a@.matrix == m,
                a@.covered == cs1,
                rect(m),
                nr == nrows(m),
                nc == ncols(m),
                ci == c,
                0 <= ci < nc,
                !cs.contains(ci),
                in_col(m, cs, ci, r0),
                0 <= node.addr.col < nc,
                m[r0][node.addr.col as int],
                node.addr == addr(r0, node.addr.col as int),
                a@.shaped(mid_time(m, cs, ci, r0, sel_left(nc, ci, node.addr.col as int)), tau1),
                node == a@.node_at(node.addr),
            decreases nc - off_left(nc, ci, node.addr.col as int),
        {
            let ghost k0 = node.addr.col as int;
            let ghost rl = row_left(m, r0, k0);
            let ghost tfa = mid_time(m, cs, ci, r0, sel_left(nc, ci, rl));
            let ghost tfb = mid_time(m, cs, ci, r0, sel_left(nc, ci, k0));
            let ghost hk = addr(-1, k0);
            let ghost x = addr(r0, k0);
            proof {
                lemma_row_left(m, r0, ci, k0);
                lemma_cover_step(m, cs, ci, r0, sel_left(nc, ci, rl), sel_left(nc, ci, k0), k0);
                lemma_model_unlink(m, tfa, tfb, tau1, r0, k0, cs.len() * nr + r0);
                assert(a@.valid(node.addr));
                assert(node == exp_at(m, tfb, tau1, node.addr));
                assert(node.addr == x);
            }
            let ghost e = exp_at(m, tfa, tau1, x);
            let ghost a0 = a@;
            a.set_down(node.up, node.addr);
            let ghost a1 = a@;
            a.set_up(node.down, node.addr);
            proof {
                assert(node.header == hk);
                assert(a0.valid(hk));
                assert(a1.valid(hk));
                assert(a@.valid(hk));
                assert(a@.node_at(hk).size == a1.node_at(hk).size);
                assert(a1.node_at(hk).size == a0.node_at(hk).size);
                assert(a0.node_at(hk) == unlinked(exp_at(m, tfa, tau1, hk), hk, e.up, e.down, hk));
            }
            let ghost a2 = a@;
            let mut hn = a.get_node(node.header);
            hn.incr_size();
            a.set_node(node.header, hn);
            proof {
                assert forall|z: Addr| #[trigger] a@.valid(z) implies a@.node_at(z) == exp_at(m, tfa, tau1, z) by {
                    assert(a0.valid(z) && a1.valid(z) && a2.valid(z));
                    assert(a0.node_at(z) == unlinked(exp_at(m, tfa, tau1, z), z, e.up, e.down, hk));
                }
                assert(e.left == addr(r0, rl));
                assert(a@.valid(e.left));
            }
            node = a.get_node(node.left);
            proof {
                assert(node == exp_at(m, tfa, tau1, e.left));
                assert(node.addr.col as int == rl);
            }
        }
        let ghost r1 = vert_up(m, tf0, r0, ci);
        proof {
            lemma_mid_col(m, cs, ci, r0, no_sel());
            let p = pres(nr, col_mem(m, ci), col_times(tf0, ci), -1);
            assert(vert_up(m, tf0, r0, ci) == prv(p, r0 - 1));
            lemma_prv(p, r0 - 1);
            assert forall|r: int| r1 < r < r0 implies !#[trigger] in_col(m, cs, ci, r) by {
                if in_col(m, cs, ci, r) {
                    assert(node_time(m, cs, r, ci) == -1);
                    assert(p(r));
                }
            }
            if r1 != -1 {
                assert(p(r1));
                assert(node_time(m, cs, r1, ci) == -1);
            }
            lemma_mid_eq(m, cs, ci, r1, all_sel(), r0, sel_left(nc, ci, ci));
            assert(a@.valid(addr(r1, ci)));
        }
        cn = a.get_node(cn.up);
        proof {
            r0 = r1;
            if cn.addr.row != -1 {
                lemma_mid_col(m, cs, ci, r0, all_sel());
                assert(a@.valid(cn.addr));
                assert(cn == exp_at(m, mid_time(m, cs, ci, r0, all_sel()), tau1, cn.addr));
            }
        }
    }
    proof {
        lemma_mid_start(m, cs, ci, all_sel());
        assert(mid_time(m, cs, ci, -1, all_sel()) == tf0);
        assert forall|k: int| k != ci implies #[trigger] tau1(k) == tau0(k) by {
            lemma_col_pos_push(cs, ci, k);
        }
        assert forall|k: int| 0 <= k < nc && k != ci && #[trigger] tau0(k) != -1 implies 0 <= tau0(k) < cs.len() by {
            lemma_col_pos(cs, k);
        }
        lemma_col_pos(cs, ci);
        lemma_col_pos_push(cs, ci, ci);
        lemma_model_splice(m, tf0, tau0, tau1, ci, cs.len() as int);
        assert(h == exp_at(m, tf0, tau1, hd));
        assert(a@.valid(h.right));
        assert(a@.valid(h.left));
    }
    let ghost s0 = a@;
    a.set_left(h.right, hd);
    let ghost s1 = a@;
    a.set_right(h.left, hd);
    let ghost pre = a@;
    a.set_covered(Ghost(cs));
    proof {
        assert forall|z: Addr| #[trigger] a@.valid(z) implies a@.node_at(z) == exp_at(m, tf0, tau0, z) by {
            assert(s0.valid(z) && s1.valid(z) && pre.valid(z));
            assert(s0.node_at(z) == spliced(exp_at(m, tf0, tau0, z), z, h.left, h.right));
        }
        assert(a@.dims());
        assert forall|i: int| 0 <= i < cs.len() implies 0 <= #[trigger] cs[i] < nc by {
            assert(cs1[i] == cs[i]);
        }
        assert forall|i: int, j: int| 0 <= i < j < cs.len() implies cs[i] != cs[j] by {
            assert(cs1[i] == cs[i] && cs1[j] == cs[j]);
        }
    }
}

} // verus!
