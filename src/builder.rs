//! Building the linked structure from a 0/1 matrix.
use vstd::prelude::*;
use crate::ring::{cnt, lemma_nxt_is, lemma_prv_is, nxt, pres, prv};
use crate::dlx::{
    addr, any_mem, col_mem, col_times, exp_at, first_hit, ncols, never, nrows, rect, root_addr,
    row_mem, tau_of, tf_of, Addr, Node, A,
};

verus! {

/// Why a matrix was refused.
#[derive(Clone, Copy, Debug, PartialEq, Eq, Structural)]
pub enum MatrixFormatError {
    /// Row `row` is not as long as the first row.
    Ragged { row: usize },
    /// Entry `(row, col)` is neither 0 nor 1.
    NotBinary { row: usize, col: usize },
}

/// The matrix read as booleans: `true` where the entry is 1.
pub open spec fn bits(v: Seq<Vec<u8>>) -> Seq<Seq<bool>> {
    Seq::new(v.len(), |r: int| Seq::new(v[r]@.len(), |c: int| v[r]@[c] == 1u8))
}

/// Row `r` is as long as the first row and holds only 0s and 1s.
pub open spec fn row_ok(v: Seq<Vec<u8>>, r: int) -> bool {
    &&& v[r]@.len() == v[0]@.len()
    &&& forall|c: int| 0 <= c < v[r]@.len() ==> #[trigger] v[r]@[c] <= 1
}

/// All rows have the same length and hold only 0s and 1s.
pub open spec fn is_binary_matrix(v: Seq<Vec<u8>>) -> bool {
    forall|r: int| 0 <= r < v.len() ==> #[trigger] row_ok(v, r)
}

/// `e` names the first defect of `v`, in row-major order: a row not as long as
/// the first, or else an entry other than 0 and 1.
pub open spec fn format_error(v: Seq<Vec<u8>>, e: MatrixFormatError) -> bool {
    match e {
        MatrixFormatError::Ragged { row } => {
            &&& row < v.len()
            &&& forall|i: int| 0 <= i < row ==> #[trigger] row_ok(v, i)
            &&& v[row as int]@.len() != v[0]@.len()
        },
        MatrixFormatError::NotBinary { row, col } => {
            &&& row < v.len()
            &&& forall|i: int| 0 <= i < row ==> #[trigger] row_ok(v, i)
            &&& v[row as int]@.len() == v[0]@.len()
            &&& col < v[row as int]@.len()
            &&& v[row as int]@[col as int] > 1
            &&& forall|j: int| 0 <= j < col ==> #[trigger] v[row as int]@[j] <= 1
        },
    }
}

/// Rows of `m` with a 1 in column `c`.
pub open spec fn col_ones(m: Seq<Seq<bool>>, c: int) -> spec_fn(int) -> bool {
    |k: int| 0 <= k < nrows(m) && m[k][c]
}

/// Columns of `m` with a 1 in row `r`.
pub open spec fn row_ones(m: Seq<Seq<bool>>, r: int) -> spec_fn(int) -> bool {
    |k: int| 0 <= k < ncols(m) && m[r][k]
}

/// Number of 1s in column `c` of `m`.
pub open spec fn ones_in_col(m: Seq<Seq<bool>>, c: int) -> int {
    cnt(col_ones(m, c), nrows(m))
}

/// Shape of the matrix under the scans below.
pub open spec fn scan_ok(v: Seq<Vec<u8>>, nc: int) -> bool {
    &&& v.len() < i32::MAX
    &&& nc < i32::MAX
    &&& forall|r: int| 0 <= r < v.len() ==> (#[trigger] v[r])@.len() == nc
}

/// First row at or below `from` with a 1 in column `c`, `-1` if none.
fn col_next(matrix: &Vec<Vec<u8>>, nc: usize, c: usize, from: usize) -> (k: i32)
    requires
        scan_ok(matrix@, nc as int),
        c < nc,
        from <= matrix@.len(),
    ensures
        k as int == nxt(matrix@.len() as int, col_ones(bits(matrix@), c as int), from as int),
{
    let ghost p = col_ones(bits(matrix@), c as int);
    let mut i: usize = from;
    while i < matrix.len()
        invariant
            scan_ok(matrix@, nc as int),
            c < nc,
            from <= i <= matrix@.len(),
            p == col_ones(bits(matrix@), c as int),
            forall|j: int| from <= j < i ==> !#[trigger] p(j),
        decreases matrix@.len() - i,
    {
        assert(matrix@[i as int]@.len() == nc);
        if matrix[i][c] == 1 {
            proof {
                assert(p(i as int));
                lemma_nxt_is(matrix@.len() as int, p, from as int, i as int);
            }
            return i as i32;
        }
        i = i + 1;
    }
    proof {
        lemma_nxt_is(matrix@.len() as int, p, from as int, -1);
    }
    -1
}

/// Last row above `upto` with a 1 in column `c`, `-1` if none.
fn col_prev(matrix: &Vec<Vec<u8>>, nc: usize, c: usize, upto: usize) -> (k: i32)
    requires
        scan_ok(matrix@, nc as int),
        c < nc,
        upto <= matrix@.len(),
    ensures
        k as int == prv(col_ones(bits(matrix@), c as int), upto - 1),
{
    let ghost p = col_ones(bits(matrix@), c as int);
    let mut i: usize = upto;
    while i > 0
        invariant
            scan_ok(matrix@, nc as int),
            c < nc,
            i <= upto <= matrix@.len(),
            p == col_ones(bits(matrix@), c as int),
            forall|j: int| i <= j < upto ==> !#[trigger] p(j),
        decreases i,
    {
        assert(matrix@[i - 1]@.len() == nc);
        if matrix[i - 1][c] == 1 {
            proof {
                assert(p(i - 1));
                lemma_prv_is(p, upto - 1, i - 1);
            }
            return (i - 1) as i32;
        }
        i = i - 1;
    }
    proof {
        lemma_prv_is(p, upto - 1, -1);
    }
    -1
}

/// First column at or right of `from` with a 1 in row `r`, `-1` if none.
fn row_next(matrix: &Vec<Vec<u8>>, nc: usize, r: usize, from: usize) -> (k: i32)
    requires
        scan_ok(matrix@, nc as int),
        r < matrix@.len(),
        from <= nc,
    ensures
        k as int == nxt(nc as int, row_ones(bits(matrix@), r as int), from as int),
{
    let ghost p = row_ones(bits(matrix@), r as int);
    assert(matrix@[r as int]@.len() == nc);
    assert(ncols(bits(matrix@)) == nc) by {
        assert(matrix@[0]@.len() == nc);
    }
    let mut i: usize = from;
    while i < nc
        invariant
            scan_ok(matrix@, nc as int),
            r < matrix@.len(),
            matrix@[r as int]@.len() == nc,
            ncols(bits(matrix@)) == nc,
            from <= i <= nc,
            p == row_ones(bits(matrix@), r as int),
            forall|j: int| from <= j < i ==> !#[trigger] p(j),
        decreases nc - i,
    {
        if matrix[r][i] == 1 {
            proof {
                assert(p(i as int));
                lemma_nxt_is(nc as int, p, from as int, i as int);
            }
            return i as i32;
        }
        i = i + 1;
    }
    proof {
        lemma_nxt_is(nc as int, p, from as int, -1);
    }
    -1
}

/// Last column left of `upto` with a 1 in row `r`, `-1` if none.
fn row_prev(matrix: &Vec<Vec<u8>>, nc: usize, r: usize, upto: usize) -> (k: i32)
    requires
        scan_ok(matrix@, nc as int),
        r < matrix@.len(),
        upto <= nc,
    ensures
        k as int == prv(row_ones(bits(matrix@), r as int), upto - 1),
{
    let ghost p = row_ones(bits(matrix@), r as int);
    assert(matrix@[r as int]@.len() == nc);
    assert(ncols(bits(matrix@)) == nc) by {
        assert(matrix@[0]@.len() == nc);
    }
    let mut i: usize = upto;
    while i > 0
        invariant
            scan_ok(matrix@, nc as int),
            r < matrix@.len(),
            matrix@[r as int]@.len() == nc,
            ncols(bits(matrix@)) == nc,
            i <= upto <= nc,
            p == row_ones(bits(matrix@), r as int),
            forall|j: int| i <= j < upto ==> !#[trigger] p(j),
        decreases i,
    {
        if matrix[r][i - 1] == 1 {
            proof {
                assert(p(i - 1));
                lemma_prv_is(p, upto - 1, i - 1);
            }
            return (i - 1) as i32;
        }
        i = i - 1;
    }
    proof {
        lemma_prv_is(p, upto - 1, -1);
    }
    -1
}

/// Number of 1s in column `c`.
fn col_count(matrix: &Vec<Vec<u8>>, nc: usize, c: usize) -> (n: usize)
    requires
        scan_ok(matrix@, nc as int),
        c < nc,
    ensures
        n as int == cnt(col_ones(bits(matrix@), c as int), matrix@.len() as int),
{
    let ghost p = col_ones(bits(matrix@), c as int);
    let mut n: usize = 0;
    let mut i: usize = 0;
    while i < matrix.len()
        invariant
            scan_ok(matrix@, nc as int),
            c < nc,
            i <= matrix@.len(),
            p == col_ones(bits(matrix@), c as int),
            n as int == cnt(p, i as int),
            n <= i,
        decreases matrix@.len() - i,
    {
        assert(matrix@[i as int]@.len() == nc);
        if matrix[i][c] == 1 {
            n = n + 1;
        }
        i = i + 1;
    }
    n
}

} // verus!

verus! {

/// Nothing covered: every node is linked.
pub proof fn lemma_fresh(m: Seq<Seq<bool>>)
    requires
        rect(m),
    ensures
        forall|c: int|
            0 <= c < ncols(m) ==> #[trigger] pres(
                nrows(m),
                col_mem(m, c),
                col_times(tf_of(m, Seq::empty()), c),
                -1,
            ) == col_ones(m, c),
        forall|r: int|
            0 <= r < nrows(m) ==> #[trigger] pres(ncols(m), row_mem(m, r), never(), -1) == row_ones(
                m,
                r,
            ),
        pres(ncols(m), any_mem(), tau_of(Seq::empty()), -1) == (|k: int| 0 <= k < ncols(m)),
        forall|r: int, c: int| #[trigger] tf_of(m, Seq::empty())(r, c) == -1,
        forall|c: int| #[trigger] tau_of(Seq::empty())(c) == -1,
{
    let e = Seq::<int>::empty();
    assert forall|r: int, c: int| #[trigger] tf_of(m, e)(r, c) == -1 by {
        assert(first_hit(m, e, r) == 0);
    }
    assert forall|c: int|
        0 <= c < ncols(m) implies #[trigger] pres(nrows(m), col_mem(m, c), col_times(tf_of(m, e), c), -1)
        == col_ones(m, c) by {
        assert(pres(nrows(m), col_mem(m, c), col_times(tf_of(m, e), c), -1) =~= col_ones(m, c));
    }
    assert forall|r: int| 0 <= r < nrows(m) implies #[trigger] pres(ncols(m), row_mem(m, r), never(), -1)
        == row_ones(m, r) by {
        assert(pres(ncols(m), row_mem(m, r), never(), -1) =~= row_ones(m, r));
    }
    assert(pres(ncols(m), any_mem(), tau_of(e), -1) =~= (|k: int| 0 <= k < ncols(m)));
}

/// Builds the linked structure of a 0/1 matrix: one header per column, one
/// node per 1, each column's nodes linked top to bottom through its header,
/// each row's nodes linked left to right and closed into a ring.
pub fn from_matrix(matrix: &Vec<Vec<u8>>) -> (res: Result<A, MatrixFormatError>)
    requires
        matrix@.len() < i32::MAX,
        matrix@.len() > 0 ==> matrix@[0]@.len() < i32::MAX,
    ensures
        res is Ok <==> is_binary_matrix(matrix@),
        res matches Ok(a) ==> {
            &&& a@.wf()
            &&& a@.matrix == bits(matrix@)
            &&& a@.covered == Seq::<int>::empty()
            &&& forall|c: int|
                0 <= c < ncols(a@.matrix) ==> (#[trigger] a@.headers[c]).size == ones_in_col(
                    a@.matrix,
                    c,
                )
        },
        res matches Err(e) ==> format_error(matrix@, e),
{
    let nr = matrix.len();
    let nc: usize = if nr == 0 {
        0
    } else {
        matrix[0].len()
    };
    let mut r: usize = 0;
    while r < nr
        invariant
            nr == matrix@.len(),
            r <= nr,
            nr > 0 ==> nc == matrix@[0]@.len(),
            forall|i: int| 0 <= i < r ==> #[trigger] row_ok(matrix@, i),
        decreases nr - r,
    {
        if matrix[r].len() != nc {
            assert(!row_ok(matrix@, r as int));
            return Err(MatrixFormatError::Ragged { row: r });
        }
        let mut c: usize = 0;
        while c < nc
            invariant
                nr == matrix@.len(),
                r < nr,
                nc == matrix@[0]@.len(),
                matrix@[r as int]@.len() == nc,
                c <= nc,
                forall|j: int| 0 <= j < c ==> #[trigger] matrix@[r as int]@[j] <= 1,
                forall|i: int| 0 <= i < r ==> #[trigger] row_ok(matrix@, i),
            decreases nc - c,
        {
            if matrix[r][c] > 1 {
                assert(!row_ok(matrix@, r as int));
                return Err(MatrixFormatError::NotBinary { row: r, col: c });
            }
            c = c + 1;
        }
        r = r + 1;
    }
    let ghost m = bits(matrix@);
    let ghost tf = tf_of(m, Seq::empty());
    let ghost tau = tau_of(Seq::empty());
    proof {
        assert(nrows(m) == nr);
        if nr > 0 {
            assert(m[0].len() == nc);
        }
        assert(ncols(m) == nc);
        assert forall|i: int| 0 <= i < matrix@.len() implies (#[trigger] matrix@[i])@.len() == nc by {
            assert(row_ok(matrix@, i));
        }
        assert forall|i: int| 0 <= i < m.len() implies (#[trigger] m[i]).len() == ncols(m) by {
            assert(row_ok(matrix@, i));
        }
        assert(rect(m));
        assert(scan_ok(matrix@, nc as int));
        lemma_fresh(m);
    }
    let ghost all = |k: int| 0 <= k < nc;
    let mut root = Node::new(-1, -1, true);
    root.root = true;
    let last: i32 = if nc == 0 {
        -1
    } else {
        (nc - 1) as i32
    };
    let first: i32 = if nc == 0 {
        -1
    } else {
        0
    };
    root.left = Addr { row: -1, col: last };
    root.right = Addr { row: -1, col: first };
    proof {
        lemma_prv_is(all, nc - 1, last as int);
        lemma_nxt_is(nc as int, all, 0, first as int);
        assert(root == exp_at(m, tf, tau, root_addr()));
    }
    let mut headers: Vec<Node> = Vec::new();
    let mut c: usize = 0;
    while c < nc
        invariant
            scan_ok(matrix@, nc as int),
            m == bits(matrix@),
            rect(m),
            nrows(m) == nr,
            ncols(m) == nc,
            nr == matrix@.len(),
            tf == tf_of(m, Seq::empty()),
            tau == tau_of(Seq::empty()),
            all == (|k: int| 0 <= k < nc),
            pres(ncols(m), any_mem(), tau, -1) == all,
            forall|k: int|
                0 <= k < nc ==> #[trigger] pres(nrows(m), col_mem(m, k), col_times(tf, k), -1)
                    == col_ones(m, k),
            forall|k: int| #[trigger] tau(k) == -1,
            c <= nc,
            headers@.len() == c,
            forall|k: int| 0 <= k < c ==> #[trigger] headers@[k] == exp_at(m, tf, tau, addr(-1, k)),
        decreases nc - c,
    {
        let mut h = Node::new(-1, c as i32, true);
        let right: i32 = if c + 1 < nc {
            (c + 1) as i32
        } else {
            -1
        };
        h.left = Addr { row: -1, col: c as i32 - 1 };
        h.right = Addr { row: -1, col: right };
        h.up = Addr { row: col_prev(matrix, nc, c, nr), col: c as i32 };
        h.down = Addr { row: col_next(matrix, nc, c, 0), col: c as i32 };
        h.size = col_count(matrix, nc, c);
        proof {
            lemma_prv_is(all, c - 1, c - 1);
            lemma_nxt_is(nc as int, all, c + 1, right as int);
            crate::ring::lemma_cnt_bounds(col_ones(m, c as int), nr as int);
            assert(h == exp_at(m, tf, tau, addr(-1, c as int)));
        }
        headers.push(h);
        c = c + 1;
    }
    let mut nodes: Vec<Vec<Node>> = Vec::new();
    let mut r: usize = 0;
    while r < nr
        invariant
            scan_ok(matrix@, nc as int),
            m == bits(matrix@),
            rect(m),
            nrows(m) == nr,
            ncols(m) == nc,
            nr == matrix@.len(),
            tf == tf_of(m, Seq::empty()),
            tau == tau_of(Seq::empty()),
            forall|k: int|
                0 <= k < nc ==> #[trigger] pres(nrows(m), col_mem(m, k), col_times(tf, k), -1)
                    == col_ones(m, k),
            forall|i: int|
                0 <= i < nr ==> #[trigger] pres(ncols(m), row_mem(m, i), never(), -1) == row_ones(
                    m,
                    i,
                ),
            forall|i: int, k: int| #[trigger] tf(i, k) == -1,
            r <= nr,
            nodes@.len() == r,
            forall|i: int| 0 <= i < r ==> (#[trigger] nodes@[i])@.len() == nc,
            forall|i: int, k: int|
                0 <= i < r && 0 <= k < nc ==> #[trigger] nodes@[i]@[k] == exp_at(m, tf, tau, addr(i, k)),
        decreases nr - r,
    {
        let mut row: Vec<Node> = Vec::new();
        let mut c: usize = 0;
        assert(matrix@[r as int]@.len() == nc);
        while c < nc
            invariant
                scan_ok(matrix@, nc as int),
                m == bits(matrix@),
                rect(m),
                nrows(m) == nr,
                ncols(m) == nc,
                nr == matrix@.len(),
                r < nr,
                matrix@[r as int]@.len() == nc,
                tf == tf_of(m, Seq::empty()),
                tau == tau_of(Seq::empty()),
                forall|k: int|
                    0 <= k < nc ==> #[trigger] pres(nrows(m), col_mem(m, k), col_times(tf, k), -1)
                        == col_ones(m, k),
                pres(ncols(m), row_mem(m, r as int), never(), -1) == row_ones(m, r as int),
                forall|i: int, k: int| #[trigger] tf(i, k) == -1,
                c <= nc,
                row@.len() == c,
                forall|k: int| 0 <= k < c ==> #[trigger] row@[k] == exp_at(m, tf, tau, addr(r as int, k)),
            decreases nc - c,
        {
            if matrix[r][c] == 1 {
                let l0 = row_prev(matrix, nc, r, c);
                let left = if l0 == -1 {
                    row_prev(matrix, nc, r, nc)
                } else {
                    l0
                };
                let r0 = row_next(matrix, nc, r, c + 1);
                let right = if r0 == -1 {
                    row_next(matrix, nc, r, 0)
                } else {
                    r0
                };
                let up = col_prev(matrix, nc, c, r);
                let down = col_next(matrix, nc, c, r + 1);
                let n = Node {
                    addr: Addr { row: r as i32, col: c as i32 },
                    root: false,
                    is_header: false,
                    is_legit: true,
                    size: 0,
                    header: Addr { row: -1, col: c as i32 },
                    left: Addr { row: r as i32, col: left },
                    right: Addr { row: r as i32, col: right },
                    up: Addr { row: up, col: c as i32 },
                    down: Addr { row: down, col: c as i32 },
                };
                proof {
                    assert(m[r as int][c as int]);
                    assert(tf(r as int, c as int) == -1);
                    assert(n == exp_at(m, tf, tau, addr(r as int, c as int)));
                }
                row.push(n);
            } else {
                let n = Node::new(r as i32, c as i32, false);
                proof {
                    assert(!m[r as int][c as int]);
                    assert(n == exp_at(m, tf, tau, addr(r as int, c as int)));
                }
                row.push(n);
            }
            c = c + 1;
        }
        nodes.push(row);
        r = r + 1;
    }
    let a = A::assemble(root, headers, nodes, Ghost(m));
    proof {
        assert(a@.dims());
        assert forall|z: Addr| #[trigger] a@.valid(z) implies a@.node_at(z) == exp_at(m, tf, tau, z) by {
            if z.row == -1 && z.col != -1 {
                assert(z == addr(-1, z.col as int));
            } else if z.row != -1 {
                assert(z == addr(z.row as int, z.col as int));
                assert(a@.nodes[z.row as int] == nodes@[z.row as int]@);
            }
        }
        assert(a@.wf());
        assert forall|c: int| 0 <= c < ncols(a@.matrix) implies (#[trigger] a@.headers[c]).size
            == ones_in_col(a@.matrix, c) by {
            assert(a@.valid(addr(-1, c)));
            crate::ring::lemma_cnt_bounds(col_ones(m, c), nr as int);
        }
    }
    Ok(a)
}

} // verus!
