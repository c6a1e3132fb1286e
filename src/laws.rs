//! Properties that relate several operations of the library.
use vstd::prelude::*;
use crate::dlx::{
    addr, col_mem, col_times, exp_at, ncols, nrows, root_addr, tau_of, tf_of, Addr, Model,
};
use crate::ring::{cnt, iter_next, lemma_cnt_bounds, lemma_iter_closes, lemma_iter_next, pres};
use crate::search::{active_cols, active_count, lemma_active};
use crate::search::{covered_once, covers_col, exact_cover, is_solution, lemma_wf_unique, rows_of, search_result};

verus! {

/// Covering a column and uncovering it right after gives back the very
/// structure from before, link for link: `before` is the state `cover` starts
/// from, `mid` the one it leaves, `after` the one `uncover` leaves.
pub proof fn cover_uncover_restores(before: Model, mid: Model, after: Model, c: int)
    requires
        before.wf(),
        before.is_active(c),
        mid.wf(),
        mid.matrix == before.matrix,
        mid.covered == before.covered.push(c),
        after.wf(),
        after.matrix == mid.matrix,
        after.covered == mid.covered.drop_last(),
    ensures
        after == before,
{
    assert(before.covered.push(c).drop_last() =~= before.covered);
    lemma_wf_unique(after, before);
}

/// A matrix with a column of zeros has no exact cover, so a search of it
/// returns no solution.
pub proof fn zero_column_no_solution(m: Seq<Seq<bool>>, c: int, sols: Seq<Vec<usize>>, limit: int)
    requires
        0 <= c < ncols(m),
        forall|r: int| 0 <= r < nrows(m) ==> !#[trigger] m[r][c],
        search_result(m, sols, limit),
    ensures
        sols.len() == 0,
{
    if sols.len() > 0 {
        assert(is_solution(m, sols[0]@));
        let s = rows_of(sols[0]@);
        assert(covered_once(m, s, c));
        let r = choose|r: int| #[trigger] covers_col(m, s, c, r) && forall|r2: int| #[trigger]
            covers_col(m, s, c, r2) ==> r2 == r;
        assert(s.contains(r));
        assert(0 <= r < nrows(m));
    }
}

/// When the matrix has more exact covers than the limit, the search returns
/// exactly `limit` of them.
pub proof fn limit_reached(m: Seq<Seq<bool>>, sols: Seq<Vec<usize>>, limit: int, covers: Seq<Set<int>>)
    requires
        search_result(m, sols, limit),
        covers.len() > limit,
        covers.no_duplicates(),
        forall|i: int| 0 <= i < covers.len() ==> exact_cover(m, #[trigger] covers[i]),
    ensures
        sols.len() == limit,
{
    if sols.len() < limit {
        let found = sols.map_values(|v: Vec<usize>| rows_of(v@));
        assert forall|x: Set<int>| covers.to_set().contains(x) implies found.to_set().contains(x) by {
            let i = choose|i: int| 0 <= i < covers.len() && covers[i] == x;
            assert(exact_cover(m, covers[i]));
            let j = choose|j: int| 0 <= j < sols.len() && rows_of(#[trigger] sols[j]@) == x;
            assert(found[j] == x);
        }
        covers.unique_seq_to_set();
        found.lemma_cardinality_of_set();
        vstd::set_lib::lemma_len_subset(covers.to_set(), found.to_set());
    }
}

/// Where `k` steps along `right` lead from `z`.
pub open spec fn walk_right(md: Model, z: Addr, k: nat) -> Addr
    decreases k,
{
    if k == 0 {
        z
    } else {
        md.node_at(walk_right(md, z, (k - 1) as nat)).right
    }
}

/// Where `k` steps along `down` lead from `z`.
pub open spec fn walk_down(md: Model, z: Addr, k: nat) -> Addr
    decreases k,
{
    if k == 0 {
        z
    } else {
        md.node_at(walk_down(md, z, (k - 1) as nat)).down
    }
}

proof fn lemma_walk_right(md: Model, i: nat)
    requires
        md.wf(),
        i <= active_count(md) + 1,
    ensures
        walk_right(md, root_addr(), i) == addr(-1, iter_next(ncols(md.matrix), active_cols(md), i)),
    decreases i,
{
    let nc = ncols(md.matrix);
    let act = active_cols(md);
    if i == 0 {
    } else {
        lemma_walk_right(md, (i - 1) as nat);
        let x = iter_next(nc, act, (i - 1) as nat);
        lemma_iter_next(nc, act, (i - 1) as nat);
        let z = addr(-1, x);
        assert(md.valid(z));
        assert(md.node_at(z) == exp_at(md.matrix, tf_of(md.matrix, md.covered), tau_of(md.covered), z));
        if x != -1 {
            assert(z.col as int == x);
            lemma_active(md, x);
            crate::cover::lemma_col_pos(md.covered, x);
        }
    }
}

/// The header ring is circular: from the root, `right` passes each remaining
/// column once and is back at the root one step later.
pub proof fn header_ring_closes(md: Model)
    requires
        md.wf(),
    ensures
        walk_right(md, root_addr(), (active_count(md) + 1) as nat) == root_addr(),
        forall|k: nat|
            1 <= k <= active_count(md) ==> #[trigger] walk_right(md, root_addr(), k) != root_addr(),
{
    let nc = ncols(md.matrix);
    let act = active_cols(md);
    lemma_cnt_bounds(act, nc);
    lemma_iter_closes(nc, act);
    lemma_walk_right(md, (active_count(md) + 1) as nat);
    assert forall|k: nat| 1 <= k <= active_count(md) implies #[trigger] walk_right(md, root_addr(), k)
        != root_addr() by {
        lemma_walk_right(md, k);
        lemma_iter_next(nc, act, k);
    }
}

proof fn lemma_walk_down(md: Model, c: int, i: nat)
    requires
        md.wf(),
        0 <= c < ncols(md.matrix),
        i <= md.headers[c].size + 1,
    ensures
        walk_down(md, addr(-1, c), i) == addr(
            iter_next(
                nrows(md.matrix),
                pres(nrows(md.matrix), col_mem(md.matrix, c), col_times(tf_of(md.matrix, md.covered), c), -1),
                i,
            ),
            c,
        ),
    decreases i,
{
    let m = md.matrix;
    let nr = nrows(m);
    let tf = tf_of(m, md.covered);
    let live = pres(nr, col_mem(m, c), col_times(tf, c), -1);
    assert(md.valid(addr(-1, c)));
    lemma_cnt_bounds(live, nr);
    assert(md.headers[c].size == cnt(live, nr));
    if i > 0 {
        lemma_walk_down(md, c, (i - 1) as nat);
        let x = iter_next(nr, live, (i - 1) as nat);
        lemma_iter_next(nr, live, (i - 1) as nat);
        let z = addr(x, c);
        assert(md.valid(z));
        assert(md.node_at(z) == exp_at(m, tf, tau_of(md.covered), z));
        assert(z.col as int == c);
        if x != -1 {
            assert(z.row as int == x);
            assert(live(x));
        }
    }
}

/// Every column's ring is circular: from its header, `down` passes the
/// column's `size` live nodes and is back at the header one step later.
pub proof fn column_ring_closes(md: Model, c: int)
    requires
        md.wf(),
        0 <= c < ncols(md.matrix),
    ensures
        walk_down(md, addr(-1, c), (md.headers[c].size + 1) as nat) == addr(-1, c),
        forall|k: nat|
            1 <= k <= md.headers[c].size ==> #[trigger] walk_down(md, addr(-1, c), k) != addr(-1, c),
{
    let m = md.matrix;
    let nr = nrows(m);
    let live = pres(nr, col_mem(m, c), col_times(tf_of(m, md.covered), c), -1);
    assert(md.valid(addr(-1, c)));
    lemma_cnt_bounds(live, nr);
    lemma_iter_closes(nr, live);
    lemma_walk_down(md, c, (md.headers[c].size + 1) as nat);
    assert forall|k: nat| 1 <= k <= md.headers[c].size implies #[trigger] walk_down(md, addr(-1, c), k)
        != addr(-1, c) by {
        lemma_walk_down(md, c, k);
        lemma_iter_next(nr, live, k);
    }
}

/// Where `k` steps along `left` lead from `z`.
pub open spec fn walk_left(md: Model, z: Addr, k: nat) -> Addr
    decreases k,
{
    if k == 0 {
        z
    } else {
        md.node_at(walk_left(md, z, (k - 1) as nat)).left
    }
}

/// In a freshly built structure, header `c` (or the root, `c == -1`) links to
/// its neighbours in column order.
proof fn lemma_fresh_links(md: Model, c: int)
    requires
        md.wf(),
        md.covered == Seq::<int>::empty(),
        -1 <= c < ncols(md.matrix),
    ensures
        md.node_at(addr(-1, c)).right == addr(-1, if c + 1 < ncols(md.matrix) { c + 1 } else { -1 }),
        md.node_at(addr(-1, c)).left == addr(-1, if c == -1 { ncols(md.matrix) - 1 } else { c - 1 }),
{
    let m = md.matrix;
    let nc = ncols(m);
    crate::builder::lemma_fresh(m);
    let all = |k: int| 0 <= k < nc;
    assert(pres(nc, crate::dlx::any_mem(), tau_of(md.covered), -1) == all);
    assert(md.valid(addr(-1, c)));
    assert(md.node_at(addr(-1, c)) == exp_at(m, tf_of(m, md.covered), tau_of(md.covered), addr(-1, c)));
    let nx = if c + 1 < nc { c + 1 } else { -1 };
    let pv = if c == -1 { nc - 1 } else { c - 1 };
    crate::ring::lemma_nxt_is(nc, all, c + 1, nx);
    crate::ring::lemma_prv_is(all, if c == -1 { nc - 1 } else { c - 1 }, pv);
    if c != -1 {
        assert(tau_of(md.covered)(c) == -1);
    }
}

/// In a freshly built structure the header ring runs through the columns in
/// order: `right` from the root visits columns `0, 1, ...` and is back at the
/// root after one step more than there are columns; `left` visits them in
/// reverse order; and every header's and the root's neighbours point back to it.
pub proof fn fresh_header_ring(md: Model)
    requires
        md.wf(),
        md.covered == Seq::<int>::empty(),
    ensures
        forall|k: nat| k <= ncols(md.matrix) ==> #[trigger] walk_right(md, root_addr(), k) == addr(-1, k - 1),
        walk_right(md, root_addr(), (ncols(md.matrix) + 1) as nat) == root_addr(),
        forall|k: nat|
            1 <= k <= ncols(md.matrix) ==> #[trigger] walk_left(md, root_addr(), k) == addr(-1, ncols(md.matrix) - k),
        walk_left(md, root_addr(), (ncols(md.matrix) + 1) as nat) == root_addr(),
        forall|c: int|
            -1 <= c < ncols(md.matrix) ==> md.node_at(md.node_at(#[trigger] addr(-1, c)).right).left == addr(-1, c)
                && md.node_at(md.node_at(addr(-1, c)).left).right == addr(-1, c),
{
    let nc = ncols(md.matrix);
    assert forall|k: nat| k <= nc + 1 implies #[trigger] walk_right(md, root_addr(), k) == addr(
        -1,
        if k == nc + 1 { -1 } else { k - 1 },
    ) by {
        lemma_walk_right_fresh(md, k);
    }
    assert(walk_right(md, root_addr(), (nc + 1) as nat) == addr(-1, -1));
    assert forall|k: nat| k <= nc + 1 implies #[trigger] walk_left(md, root_addr(), k) == addr(
        -1,
        if k == 0 || k == nc + 1 { -1 } else { nc - k },
    ) by {
        lemma_walk_left_fresh(md, k);
    }
    assert(walk_left(md, root_addr(), (nc + 1) as nat) == addr(-1, -1));
    assert forall|c: int| -1 <= c < nc implies md.node_at(md.node_at(#[trigger] addr(-1, c)).right).left
        == addr(-1, c) && md.node_at(md.node_at(addr(-1, c)).left).right == addr(-1, c) by {
        lemma_fresh_links(md, c);
        let r = if c + 1 < nc { c + 1 } else { -1 };
        let l = if c == -1 { nc - 1 } else { c - 1 };
        lemma_fresh_links(md, r);
        lemma_fresh_links(md, l);
    }
}

proof fn lemma_walk_right_fresh(md: Model, k: nat)
    requires
        md.wf(),
        md.covered == Seq::<int>::empty(),
        k <= ncols(md.matrix) + 1,
    ensures
        walk_right(md, root_addr(), k) == addr(-1, if k == ncols(md.matrix) + 1 { -1 } else { k - 1 }),
    decreases k,
{
    if k > 0 {
        lemma_walk_right_fresh(md, (k - 1) as nat);
        lemma_fresh_links(md, k - 2);
    }
}

proof fn lemma_walk_left_fresh(md: Model, k: nat)
    requires
        md.wf(),
        md.covered == Seq::<int>::empty(),
        k <= ncols(md.matrix) + 1,
    ensures
        walk_left(md, root_addr(), k) == addr(
            -1,
            if k == 0 || k == ncols(md.matrix) + 1 { -1 } else { ncols(md.matrix) - k },
        ),
    decreases k,
{
    if k > 0 {
        lemma_walk_left_fresh(md, (k - 1) as nat);
        let prev = if k - 1 == 0 { -1 } else { ncols(md.matrix) - (k - 1) };
        lemma_fresh_links(md, prev);
    }
}

} // verus!
