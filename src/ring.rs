//! Circular lists over the indices `0..n` plus a sentinel `-1`.
//!
//! A member `k` carries a removal time `t(k)`: `-1` while it is linked, and a
//! non-negative stamp once it has been unlinked. A linked member points to the
//! nearest linked members around it; an unlinked one keeps pointing to the
//! members that were still linked right after its removal, that is to the
//! nearest members removed later than itself (or never). This is exactly what
//! makes relinking in reverse order restore the list.
use vstd::prelude::*;

verus! {

/// Smallest `k` with `i <= k < n` and `p(k)`, or `-1` when there is none.
pub open spec fn nxt(n: int, p: spec_fn(int) -> bool, i: int) -> int
    decreases n - i,
{
    if i >= n {
        -1
    } else if p(i) {
        i
    } else {
        nxt(n, p, i + 1)
    }
}

/// Largest `k` with `0 <= k <= i` and `p(k)`, or `-1` when there is none.
pub open spec fn prv(p: spec_fn(int) -> bool, i: int) -> int
    decreases i + 1,
{
    if i < 0 {
        -1
    } else if p(i) {
        i
    } else {
        prv(p, i - 1)
    }
}

/// Number of `k` with `0 <= k < n` and `p(k)`.
pub open spec fn cnt(p: spec_fn(int) -> bool, n: int) -> int
    decreases n,
{
    if n <= 0 {
        0
    } else {
        cnt(p, n - 1) + if p(n - 1) {
            1int
        } else {
            0int
        }
    }
}

/// `a` is a removal time later than `b`; `-1` (never removed) is the latest.
pub open spec fn later(a: int, b: int) -> bool {
    a == -1 || (b != -1 && a > b)
}

/// Time of a ring element; the sentinel is never removed.
pub open spec fn time_of(t: spec_fn(int) -> int, k: int) -> int {
    if k == -1 {
        -1
    } else {
        t(k)
    }
}

/// Members of the ring that are removed later than time `s`.
pub open spec fn pres(n: int, mem: spec_fn(int) -> bool, t: spec_fn(int) -> int, s: int) -> spec_fn(
    int,
) -> bool {
    |k: int| 0 <= k < n && mem(k) && later(t(k), s)
}

/// Where the forward link of element `k` (a member, or the sentinel `-1`) points.
pub open spec fn ring_next(n: int, mem: spec_fn(int) -> bool, t: spec_fn(int) -> int, k: int) -> int {
    nxt(n, pres(n, mem, t, time_of(t, k)), k + 1)
}

/// Where the backward link of element `k` (a member, or the sentinel `-1`) points.
pub open spec fn ring_prev(n: int, mem: spec_fn(int) -> bool, t: spec_fn(int) -> int, k: int) -> int {
    prv(
        pres(n, mem, t, time_of(t, k)),
        if k == -1 {
            n - 1
        } else {
            k - 1
        },
    )
}

/// Number of members still linked.
pub open spec fn ring_count(n: int, mem: spec_fn(int) -> bool, t: spec_fn(int) -> int) -> int {
    cnt(pres(n, mem, t, -1), n)
}

pub proof fn lemma_nxt(n: int, p: spec_fn(int) -> bool, i: int)
    requires
        0 <= i,
    ensures
        nxt(n, p, i) == -1 ==> forall|j: int| i <= j < n ==> !#[trigger] p(j),
        nxt(n, p, i) != -1 ==> i <= nxt(n, p, i) < n && p(nxt(n, p, i)) && forall|j: int|
            i <= j < nxt(n, p, i) ==> !#[trigger] p(j),
    decreases n - i,
{
    if i < n && !p(i) {
        lemma_nxt(n, p, i + 1);
    }
}

pub proof fn lemma_prv(p: spec_fn(int) -> bool, i: int)
    ensures
        prv(p, i) == -1 ==> forall|j: int| 0 <= j <= i ==> !#[trigger] p(j),
        prv(p, i) != -1 ==> 0 <= prv(p, i) <= i && p(prv(p, i)) && forall|j: int|
            prv(p, i) < j <= i ==> !#[trigger] p(j),
    decreases i + 1,
{
    if i >= 0 && !p(i) {
        lemma_prv(p, i - 1);
    }
}

/// `nxt` only looks at the range it scans.
pub proof fn lemma_nxt_agree(n: int, p: spec_fn(int) -> bool, q: spec_fn(int) -> bool, i: int)
    requires
        forall|j: int| i <= j < n ==> #[trigger] p(j) == q(j),
    ensures
        nxt(n, p, i) == nxt(n, q, i),
    decreases n - i,
{
    if i < n {
        lemma_nxt_agree(n, p, q, i + 1);
    }
}

/// `prv` only looks at the range it scans.
pub proof fn lemma_prv_agree(p: spec_fn(int) -> bool, q: spec_fn(int) -> bool, i: int)
    requires
        forall|j: int| 0 <= j <= i ==> #[trigger] p(j) == q(j),
    ensures
        prv(p, i) == prv(q, i),
    decreases i + 1,
{
    if i >= 0 {
        lemma_prv_agree(p, q, i - 1);
    }
}

pub proof fn lemma_cnt_agree(p: spec_fn(int) -> bool, q: spec_fn(int) -> bool, n: int)
    requires
        forall|j: int| 0 <= j < n ==> #[trigger] p(j) == q(j),
    ensures
        cnt(p, n) == cnt(q, n),
    decreases n,
{
    if n > 0 {
        lemma_cnt_agree(p, q, n - 1);
    }
}

pub proof fn lemma_cnt_bounds(p: spec_fn(int) -> bool, n: int)
    ensures
        0 <= cnt(p, n),
        n >= 0 ==> cnt(p, n) <= n,
    decreases n,
{
    if n > 0 {
        lemma_cnt_bounds(p, n - 1);
    }
}

/// Taking one element out of the set lowers the count by one.
pub proof fn lemma_cnt_remove(p: spec_fn(int) -> bool, q: spec_fn(int) -> bool, n: int, x: int)
    requires
        0 <= x < n,
        p(x),
        !q(x),
        forall|j: int| 0 <= j < n && j != x ==> #[trigger] p(j) == q(j),
    ensures
        cnt(q, n) == cnt(p, n) - 1,
    decreases n,
{
    if n - 1 == x {
        lemma_cnt_agree(p, q, n - 1);
    } else {
        lemma_cnt_remove(p, q, n - 1, x);
    }
}

/// `nxt` is the first element of the scanned range in the set.
pub proof fn lemma_nxt_is(n: int, p: spec_fn(int) -> bool, i: int, k: int)
    requires
        0 <= i,
        (k == -1 && forall|j: int| i <= j < n ==> !#[trigger] p(j)) || (i <= k < n && p(k)
            && forall|j: int| i <= j < k ==> !#[trigger] p(j)),
    ensures
        nxt(n, p, i) == k,
    decreases n - i,
{
    if i < n && i != k {
        lemma_nxt_is(n, p, i + 1, k);
    }
}

/// `prv` is the last element of the scanned range in the set.
pub proof fn lemma_prv_is(p: spec_fn(int) -> bool, i: int, k: int)
    requires
        (k == -1 && forall|j: int| 0 <= j <= i ==> !#[trigger] p(j)) || (0 <= k <= i && p(k)
            && forall|j: int| k < j <= i ==> !#[trigger] p(j)),
    ensures
        prv(p, i) == k,
    decreases i + 1,
{
    if i >= 0 && i != k {
        lemma_prv_is(p, i - 1, k);
    }
}

/// Scanning forward in a set with `x` taken out skips over `x`.
pub proof fn lemma_nxt_remove(n: int, pa: spec_fn(int) -> bool, pb: spec_fn(int) -> bool, x: int, i: int)
    requires
        0 <= i,
        0 <= x < n,
        pa(x),
        !pb(x),
        forall|j: int| 0 <= j < n && j != x ==> #[trigger] pa(j) == pb(j),
    ensures
        nxt(n, pb, i) == if nxt(n, pa, i) == x {
            nxt(n, pa, x + 1)
        } else {
            nxt(n, pa, i)
        },
    decreases n - i,
{
    if i < n {
        if i == x {
            lemma_nxt_agree(n, pa, pb, x + 1);
        } else if !pa(i) {
            lemma_nxt_remove(n, pa, pb, x, i + 1);
        }
    }
}

/// Scanning backward in a set with `x` taken out skips over `x`.
pub proof fn lemma_prv_remove(n: int, pa: spec_fn(int) -> bool, pb: spec_fn(int) -> bool, x: int, i: int)
    requires
        i < n,
        0 <= x < n,
        pa(x),
        !pb(x),
        forall|j: int| 0 <= j < n && j != x ==> #[trigger] pa(j) == pb(j),
    ensures
        prv(pb, i) == if prv(pa, i) == x {
            prv(pa, x - 1)
        } else {
            prv(pa, i)
        },
    decreases i + 1,
{
    if i >= 0 {
        if i == x {
            lemma_prv_agree(pa, pb, x - 1);
        } else if !pa(i) {
            lemma_prv_remove(n, pa, pb, x, i - 1);
        }
    }
}

/// Unlinking member `x`, stamped with a time `tn` later than every earlier
/// removal in the ring, changes exactly two links and the count: the element
/// before `x` now points past it, the element after it points back past it, and
/// `x` keeps its own links.
pub proof fn lemma_ring_unlink(
    n: int,
    mem: spec_fn(int) -> bool,
    ta: spec_fn(int) -> int,
    tb: spec_fn(int) -> int,
    x: int,
    tn: int,
)
    requires
        0 <= x < n,
        mem(x),
        ta(x) == -1,
        tb(x) == tn,
        tn >= 0,
        forall|k: int| k != x ==> #[trigger] tb(k) == ta(k),
        forall|k: int|
            0 <= k < n && mem(k) && k != x && #[trigger] ta(k) != -1 ==> 0 <= ta(k) < tn,
    ensures
        -1 <= ring_prev(n, mem, ta, x) < n,
        -1 <= ring_next(n, mem, ta, x) < n,
        ring_prev(n, mem, ta, x) != x,
        ring_next(n, mem, ta, x) != x,
        ring_prev(n, mem, ta, x) == -1 || (mem(ring_prev(n, mem, ta, x)) && ta(
            ring_prev(n, mem, ta, x),
        ) == -1),
        ring_next(n, mem, ta, x) == -1 || (mem(ring_next(n, mem, ta, x)) && ta(
            ring_next(n, mem, ta, x),
        ) == -1),
        ring_next(n, mem, ta, ring_prev(n, mem, ta, x)) == x,
        ring_prev(n, mem, ta, ring_next(n, mem, ta, x)) == x,
        ring_next(n, mem, tb, x) == ring_next(n, mem, ta, x),
        ring_prev(n, mem, tb, x) == ring_prev(n, mem, ta, x),
        forall|k: int|
            -1 <= k < n && (k == -1 || mem(k)) && k != x ==> #[trigger] ring_next(n, mem, tb, k)
                == if k == ring_prev(n, mem, ta, x) {
                ring_next(n, mem, ta, x)
            } else {
                ring_next(n, mem, ta, k)
            },
        forall|k: int|
            -1 <= k < n && (k == -1 || mem(k)) && k != x ==> #[trigger] ring_prev(n, mem, tb, k)
                == if k == ring_next(n, mem, ta, x) {
                ring_prev(n, mem, ta, x)
            } else {
                ring_prev(n, mem, ta, k)
            },
        ring_count(n, mem, ta) >= 1,
        ring_count(n, mem, tb) == ring_count(n, mem, ta) - 1,
{
    let live_a = pres(n, mem, ta, -1);
    let live_b = pres(n, mem, tb, -1);
    let u = ring_prev(n, mem, ta, x);
    let d = ring_next(n, mem, ta, x);
    assert(u == prv(live_a, x - 1));
    assert(d == nxt(n, live_a, x + 1));
    // the links of x itself, seen after its removal: the members later than tn
    let px = pres(n, mem, tb, tn);
    assert forall|j: int| 0 <= j < n && j != x implies #[trigger] px(j) == live_a(j) by {
        if mem(j) && ta(j) != -1 {
            assert(ta(j) < tn);
        }
    }
    lemma_prv_agree(px, live_a, x - 1);
    lemma_nxt_agree(n, px, live_a, x + 1);
    assert(ring_prev(n, mem, tb, x) == prv(px, x - 1));
    assert(ring_next(n, mem, tb, x) == nxt(n, px, x + 1));
    lemma_prv(live_a, x - 1);
    lemma_nxt(n, live_a, x + 1);
    assert forall|j: int| 0 <= j < n && j != x implies #[trigger] live_b(j) == live_a(j) by {}
    assert(!live_b(x));
    assert(live_a(x));
    lemma_cnt_remove(live_a, live_b, n, x);
    lemma_cnt_bounds(live_b, n);
    // u points forward to x, d points back to x
    if u == -1 {
        assert(ring_next(n, mem, ta, u) == nxt(n, live_a, 0));
        lemma_nxt_is(n, live_a, 0, x);
    } else {
        assert(live_a(u));
        assert(ring_next(n, mem, ta, u) == nxt(n, live_a, u + 1));
        lemma_nxt_is(n, live_a, u + 1, x);
    }
    if d == -1 {
        assert(ring_prev(n, mem, ta, d) == prv(live_a, n - 1));
        lemma_prv_is(live_a, n - 1, x);
    } else {
        assert(live_a(d));
        assert(ring_prev(n, mem, ta, d) == prv(live_a, d - 1));
        lemma_prv_is(live_a, d - 1, x);
    }
    assert forall|k: int|
        #![trigger ring_next(n, mem, tb, k)]
        #![trigger ring_prev(n, mem, tb, k)]
        -1 <= k < n && (k == -1 || mem(k)) && k != x implies {
            &&& ring_next(n, mem, tb, k) == if k == u {
                d
            } else {
                ring_next(n, mem, ta, k)
            }
            &&& ring_prev(n, mem, tb, k) == if k == d {
                u
            } else {
                ring_prev(n, mem, ta, k)
            }
        } by {
        let s = time_of(ta, k);
        assert(time_of(tb, k) == s);
        let pa = pres(n, mem, ta, s);
        let pb = pres(n, mem, tb, s);
        let i_n = k + 1;
        let i_p = if k == -1 {
            n - 1
        } else {
            k - 1
        };
        assert(ring_next(n, mem, tb, k) == nxt(n, pb, i_n));
        assert(ring_next(n, mem, ta, k) == nxt(n, pa, i_n));
        assert(ring_prev(n, mem, tb, k) == prv(pb, i_p));
        assert(ring_prev(n, mem, ta, k) == prv(pa, i_p));
        if s == -1 {
            // a linked element: its view loses x
            assert(pa == live_a);
            assert(pb == live_b);
            lemma_nxt_remove(n, live_a, live_b, x, i_n);
            lemma_prv_remove(n, live_a, live_b, x, i_p);
            if nxt(n, live_a, i_n) == x {
                lemma_nxt(n, live_a, i_n);
                lemma_prv_is(live_a, x - 1, k);
            }
            if prv(live_a, i_p) == x {
                lemma_prv(live_a, i_p);
                lemma_nxt_is(n, live_a, x + 1, k);
            }
        } else {
            // an element removed before x: x stays later than it
            assert(s < tn);
            assert forall|j: int| 0 <= j < n implies #[trigger] pa(j) == pb(j) by {
                if j == x {
                    assert(later(tn, s));
                }
            }
            lemma_nxt_agree(n, pa, pb, i_n);
            lemma_prv_agree(pa, pb, i_p);
            assert(k != u && k != d);
        }
    }
}

/// The element reached after `i` forward steps from the sentinel.
pub open spec fn iter_next(n: int, p: spec_fn(int) -> bool, i: nat) -> int
    decreases i,
{
    if i == 0 {
        -1
    } else {
        nxt(n, p, iter_next(n, p, (i - 1) as nat) + 1)
    }
}

/// No element of the set between `a` and `k` leaves the count unchanged.
pub proof fn lemma_cnt_gap(p: spec_fn(int) -> bool, a: int, k: int)
    requires
        0 <= a <= k,
        forall|j: int| a <= j < k ==> !#[trigger] p(j),
    ensures
        cnt(p, k) == cnt(p, a),
    decreases k - a,
{
    if k > a {
        lemma_cnt_gap(p, a, k - 1);
    }
}

pub proof fn lemma_cnt_prefix(p: spec_fn(int) -> bool, a: int, b: int)
    requires
        0 <= a <= b,
    ensures
        cnt(p, a) <= cnt(p, b),
    decreases b - a,
{
    if b > a {
        lemma_cnt_prefix(p, a, b - 1);
    }
}

/// The `i`-th step forward from the sentinel lands on the `i`-th element of the set.
pub proof fn lemma_iter_next(n: int, p: spec_fn(int) -> bool, i: nat)
    requires
        0 <= n,
        i <= cnt(p, n),
    ensures
        i == 0 ==> iter_next(n, p, i) == -1,
        i >= 1 ==> 0 <= iter_next(n, p, i) < n && p(iter_next(n, p, i)) && cnt(p, iter_next(n, p, i) + 1) == i,
    decreases i,
{
    if i >= 1 {
        lemma_iter_next(n, p, (i - 1) as nat);
        let a = iter_next(n, p, (i - 1) as nat) + 1;
        assert(cnt(p, a) == i - 1);
        lemma_nxt(n, p, a);
        let k = nxt(n, p, a);
        if k == -1 {
            lemma_cnt_gap(p, a, n);
        } else {
            lemma_cnt_gap(p, a, k);
        }
    }
}

/// After as many steps as the set has elements, one more step is back at the sentinel.
pub proof fn lemma_iter_closes(n: int, p: spec_fn(int) -> bool)
    requires
        0 <= n,
    ensures
        iter_next(n, p, (cnt(p, n) + 1) as nat) == -1,
        forall|i: nat| 1 <= i <= cnt(p, n) ==> #[trigger] iter_next(n, p, i) != -1,
{
    lemma_cnt_bounds(p, n);
    let t = cnt(p, n);
    lemma_iter_next(n, p, t as nat);
    let a = iter_next(n, p, t as nat) + 1;
    assert(cnt(p, a) == t);
    lemma_nxt(n, p, a);
    let k = nxt(n, p, a);
    if k != -1 {
        lemma_cnt_gap(p, a, k);
        lemma_cnt_prefix(p, k + 1, n);
    }
    assert forall|i: nat| 1 <= i <= cnt(p, n) implies #[trigger] iter_next(n, p, i) != -1 by {
        lemma_iter_next(n, p, i);
    }
}

} // verus!
