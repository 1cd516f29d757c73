//! Triangular systems with a dense right-hand side.
use crate::elim::one_more;
use crate::lu::{is_lower, is_upper};
use crate::scalar::{exact, Scalar};
use crate::sparse::{at_place, below, distinct, holds, place, CsMat};
use crate::sums::{sum, sum_longer, times_zero};
use vstd::prelude::*;

verus! {

/// The value in row `i` and column `j` of a matrix by columns, or of its transpose.
pub open spec fn tri<T: Scalar>(m: CsMat<T>, transposed: bool, i: int, j: int) -> T {
    if transposed {
        m.line(i, j)
    } else {
        m.line(j, i)
    }
}

pub open spec fn tri_has<T: Scalar>(m: CsMat<T>, transposed: bool, i: int, j: int) -> bool {
    if transposed {
        m.line_has(i, j)
    } else {
        m.line_has(j, i)
    }
}

/// What is left of the right-hand side in row `i` of a lower triangular system when the first
/// `k` unknowns are known.
pub open spec fn forward<T: Scalar>(
    m: CsMat<T>,
    transposed: bool,
    b: Seq<T>,
    i: int,
    k: int,
) -> T
    decreases k,
{
    if k <= 0 {
        b[i]
    } else {
        let rest = forward(m, transposed, b, i, k - 1);
        if tri_has(m, transposed, i, k - 1) {
            let x = forward(m, transposed, b, k - 1, k - 1).over_spec(
                tri(m, transposed, k - 1, k - 1),
            );
            rest.minus_spec(tri(m, transposed, i, k - 1).times_spec(x))
        } else {
            rest
        }
    }
}

/// The solution of a lower triangular system.
pub open spec fn forward_solution<T: Scalar>(
    m: CsMat<T>,
    transposed: bool,
    b: Seq<T>,
    i: int,
) -> T {
    forward(m, transposed, b, i, i).over_spec(tri(m, transposed, i, i))
}

/// What is left of the right-hand side in row `i` of an upper triangular system when the
/// unknowns from the last one down to number `k` are known.
pub open spec fn backward<T: Scalar>(m: CsMat<T>, b: Seq<T>, i: int, k: int) -> T
    decreases b.len() - k,
{
    if k >= b.len() {
        b[i]
    } else {
        let rest = backward(m, b, i, k + 1);
        if m.line_has(k, i) {
            let x = backward(m, b, k, k + 1).over_spec(m.line(k, k));
            rest.minus_spec(m.line(k, i).times_spec(x))
        } else {
            rest
        }
    }
}

/// The solution of an upper triangular system.
pub open spec fn backward_solution<T: Scalar>(m: CsMat<T>, b: Seq<T>, i: int) -> T {
    backward(m, b, i, i + 1).over_spec(m.line(i, i))
}

/// The same for the transpose of a lower triangular matrix, whose rows take off the known
/// unknowns from the first one up, as far as number `k`.
pub open spec fn backward_transp<T: Scalar>(m: CsMat<T>, b: Seq<T>, i: int, k: int) -> T
    decreases b.len() - i, k,
{
    if i < 0 || k <= i + 1 || k > b.len() {
        b[i]
    } else {
        let rest = backward_transp(m, b, i, k - 1);
        if m.line_has(i, k - 1) {
            let x = backward_transp(m, b, k - 1, b.len() as int).over_spec(m.line(k - 1, k - 1));
            rest.minus_spec(m.line(i, k - 1).times_spec(x))
        } else {
            rest
        }
    }
}

pub open spec fn backward_transp_solution<T: Scalar>(m: CsMat<T>, b: Seq<T>, i: int) -> T {
    backward_transp(m, b, i, b.len() as int).over_spec(m.line(i, i))
}

/// The first entry of a column of a lower triangular matrix is that on the diagonal.
pub proof fn first_is_diag<T: Scalar>(m: CsMat<T>, n: int, c: int)
    requires
        is_lower(m, n),
        0 <= c < n,
    ensures
        0 <= m.lo(c) < m.hi(c) <= m.indices@.len(),
        m.indices@[m.lo(c)] == c,
        m.data@[m.lo(c)] == m.line(c, c),
{
    m.line_wf(c);
    assert(m.line_has(c, c));
    let p = place(m.indices@, m.lo(c), m.hi(c), c);
    assert(m.indices@[p] == c);
    let q = m.lo(c);
    assert(m.indices@[q] == m.indices@[q] as int);
    assert(m.line_has(c, m.indices@[q] as int));
    if q < p {
        assert(m.indices@[q] < m.indices@[p]);
    }
    at_place(m.indices@, m.data@, m.lo(c), m.hi(c), q);
}

/// The last entry of a column of an upper triangular matrix is that on the diagonal.
pub proof fn last_is_diag<T: Scalar>(m: CsMat<T>, n: int, c: int)
    requires
        is_upper(m, n),
        0 <= c < n,
    ensures
        0 <= m.lo(c) < m.hi(c) <= m.indices@.len(),
        m.indices@[m.hi(c) - 1] == c,
        m.data@[m.hi(c) - 1] == m.line(c, c),
{
    m.line_wf(c);
    assert(m.line_has(c, c));
    let p = place(m.indices@, m.lo(c), m.hi(c), c);
    assert(m.indices@[p] == c);
    let q = m.hi(c) - 1;
    assert(m.indices@[q] == m.indices@[q] as int);
    assert(m.line_has(c, m.indices@[q] as int));
    if p < q {
        assert(m.indices@[p] < m.indices@[q]);
    }
    at_place(m.indices@, m.data@, m.lo(c), m.hi(c), q);
}

/// `rhs[r] -= m[r, c] * x` in all rows but `c`.
fn subtract_column<T: Scalar>(m: &CsMat<T>, c: usize, x: T, rhs: &mut [T])
    requires
        m.wf(),
        c < m.outer(),
        old(rhs)@.len() == m.inner(),
    ensures
        final(rhs)@.len() == old(rhs)@.len(),
        forall|r: int|
            0 <= r < old(rhs)@.len() ==> #[trigger] final(rhs)@[r] == if r != c && m.line_has(
                c as int,
                r,
            ) {
                old(rhs)@[r].minus_spec(m.line(c as int, r).times_spec(x))
            } else {
                old(rhs)@[r]
            },
{
    proof {
        m.line_wf(c as int);
    }
    let ghost before = rhs@;
    let lo: usize = m.indptr[c];
    let hi: usize = m.indptr[c + 1];
    let mut p: usize = lo;
    while p < hi
        invariant
            lo == m.lo(c as int),
            hi == m.hi(c as int),
            lo <= p <= hi <= m.indices@.len(),
            m.indices@.len() == m.data@.len(),
            distinct(m.indices@, lo as int, hi as int),
            below(m.indices@, before.len() as int),
            rhs@.len() == before.len(),
            forall|r: int|
                0 <= r < before.len() ==> #[trigger] rhs@[r] == if r != c && holds(
                    m.indices@,
                    lo as int,
                    p as int,
                    r,
                ) {
                    before[r].minus_spec(m.line(c as int, r).times_spec(x))
                } else {
                    before[r]
                },
        decreases hi - p,
    {
        let r: usize = m.indices[p];
        proof {
            at_place(m.indices@, m.data@, lo as int, hi as int, p as int);
            one_more(m.indices@, lo as int, hi as int, p as int);
        }
        if r != c {
            let v = rhs[r].minus(m.data[p].times(x));
            rhs[r] = v;
        }
        p += 1;
    }
}

/// Solves `m x = rhs` for a lower triangular matrix.
pub fn lsolve_csc<T: Scalar>(m: &CsMat<T>, rhs: &mut [T])
    requires
        is_lower(*m, old(rhs)@.len() as int),
    ensures
        final(rhs)@.len() == old(rhs)@.len(),
        forall|i: int|
            0 <= i < old(rhs)@.len() ==> #[trigger] final(rhs)@[i] == forward_solution(
                *m,
                false,
                old(rhs)@,
                i,
            ),
{
    let ghost b = rhs@;
    let n: usize = rhs.len();
    let mut c: usize = 0;
    while c < n
        invariant
            n == b.len(),
            rhs@.len() == n,
            c <= n,
            is_lower(*m, n as int),
            forall|i: int|
                0 <= i < n ==> #[trigger] rhs@[i] == if i < c {
                    forward_solution(*m, false, b, i)
                } else {
                    forward(*m, false, b, i, c as int)
                },
        decreases n - c,
    {
        let ghost before = rhs@;
        proof {
            first_is_diag(*m, n as int, c as int);
        }
        let diag = m.data[m.indptr[c]];
        let x = rhs[c].over(diag);
        rhs[c] = x;
        subtract_column(m, c, x, rhs);
        proof {
            assert forall|i: int| 0 <= i < n implies #[trigger] rhs@[i] == if i < c + 1 {
                forward_solution(*m, false, b, i)
            } else {
                forward(*m, false, b, i, c + 1)
            } by {
                if i < c {
                    assert(!m.line_has(c as int, i));
                }
                assert(before[c as int] == forward(*m, false, b, c as int, c as int));
            }
        }
        c += 1;
    }
}

/// Solves `m x = rhs` for an upper triangular matrix.
pub fn usolve_csc<T: Scalar>(m: &CsMat<T>, rhs: &mut [T])
    requires
        is_upper(*m, old(rhs)@.len() as int),
    ensures
        final(rhs)@.len() == old(rhs)@.len(),
        forall|i: int|
            0 <= i < old(rhs)@.len() ==> #[trigger] final(rhs)@[i] == backward_solution(
                *m,
                old(rhs)@,
                i,
            ),
{
    let ghost b = rhs@;
    let n: usize = rhs.len();
    let mut k: usize = n;
    while k > 0
        invariant
            n == b.len(),
            rhs@.len() == n,
            k <= n,
            is_upper(*m, n as int),
            forall|i: int|
                0 <= i < n ==> #[trigger] rhs@[i] == if i >= k {
                    backward_solution(*m, b, i)
                } else {
                    backward(*m, b, i, k as int)
                },
        decreases k,
    {
        let c: usize = k - 1;
        let ghost before = rhs@;
        proof {
            last_is_diag(*m, n as int, c as int);
        }
        let diag = m.data[m.indptr[c + 1] - 1];
        let x = rhs[c].over(diag);
        rhs[c] = x;
        subtract_column(m, c, x, rhs);
        proof {
            assert forall|i: int| 0 <= i < n implies #[trigger] rhs@[i] == if i >= c {
                backward_solution(*m, b, i)
            } else {
                backward(*m, b, i, c as int)
            } by {
                if i > c {
                    assert(!m.line_has(c as int, i));
                }
                assert(before[c as int] == backward(*m, b, c as int, c + 1));
            }
        }
        k = c;
    }
}

/// Columns that the row does not have take nothing off.
proof fn forward_skip<T: Scalar>(
    m: CsMat<T>,
    transposed: bool,
    b: Seq<T>,
    i: int,
    from: int,
    to: int,
)
    requires
        0 <= from <= to,
        forall|j: int| from <= j < to ==> !#[trigger] tri_has(m, transposed, i, j),
    ensures
        forward(m, transposed, b, i, to) == forward(m, transposed, b, i, from),
    decreases to - from,
{
    if from < to {
        assert(!tri_has(m, transposed, i, to - 1));
        forward_skip(m, transposed, b, i, from, to - 1);
    }
}

proof fn backward_transp_skip<T: Scalar>(m: CsMat<T>, b: Seq<T>, i: int, from: int, to: int)
    requires
        i + 1 <= from <= to <= b.len(),
        forall|j: int| from <= j < to ==> !#[trigger] m.line_has(i, j),
    ensures
        backward_transp(m, b, i, to) == backward_transp(m, b, i, from),
    decreases to - from,
{
    if from < to {
        assert(!m.line_has(i, to - 1));
        backward_transp_skip(m, b, i, from, to - 1);
    }
}

/// No index lies between those at two neighbouring positions.
proof fn no_index_between<T: Scalar>(m: CsMat<T>, c: int, p: int, j: int)
    requires
        m.wf(),
        0 <= c < m.outer(),
        m.lo(c) <= p <= m.hi(c),
        p > m.lo(c) ==> m.indices@[p - 1] < j,
        p < m.hi(c) ==> j < m.indices@[p],
    ensures
        !m.line_has(c, j),
{
    m.line_wf(c);
    if m.line_has(c, j) {
        let q = place(m.indices@, m.lo(c), m.hi(c), j);
        assert(m.indices@[q] == j);
        if q < p - 1 {
            assert(m.indices@[q] < m.indices@[p - 1]);
        } else if q > p {
            assert(m.indices@[p] < m.indices@[q]);
        }
    }
}

/// Solves `m' x = rhs` for the transpose of an upper triangular matrix.
pub fn lsolve_transp<T: Scalar>(m: &CsMat<T>, rhs: &mut [T])
    requires
        is_upper(*m, old(rhs)@.len() as int),
    ensures
        final(rhs)@.len() == old(rhs)@.len(),
        forall|i: int|
            0 <= i < old(rhs)@.len() ==> #[trigger] final(rhs)@[i] == forward_solution(
                *m,
                true,
                old(rhs)@,
                i,
            ),
{
    let ghost b = rhs@;
    let n: usize = rhs.len();
    let mut i: usize = 0;
    while i < n
        invariant
            n == b.len(),
            rhs@.len() == n,
            i <= n,
            is_upper(*m, n as int),
            forall|j: int|
                0 <= j < n ==> #[trigger] rhs@[j] == if j < i {
                    forward_solution(*m, true, b, j)
                } else {
                    b[j]
                },
        decreases n - i,
    {
        proof {
            m.line_wf(i as int);
            last_is_diag(*m, n as int, i as int);
        }
        let lo: usize = m.indptr[i];
        let hi: usize = m.indptr[i + 1];
        let mut x = rhs[i];
        let mut p: usize = lo;
        let ghost mut k: int = 0;
        while p < hi - 1
            invariant
                n == b.len(),
                rhs@.len() == n,
                i < n,
                is_upper(*m, n as int),
                lo == m.lo(i as int),
                hi == m.hi(i as int),
                lo < hi <= m.indices@.len(),
                lo <= p < hi,
                m.indices@[hi - 1] == i,
                0 <= k <= i,
                k == if p == lo {
                    0int
                } else {
                    m.indices@[p - 1] + 1
                },
                forall|j: int| 0 <= j < i ==> #[trigger] rhs@[j] == forward_solution(*m, true, b, j),
                x == forward(*m, true, b, i as int, k),
            decreases hi - p,
        {
            proof {
                m.line_wf(i as int);
                assert(m.indices@[p as int] < m.indices@[hi - 1]);
                if p > lo {
                    assert(m.indices@[p - 1] < m.indices@[p as int]);
                }
            }
            let col: usize = m.indices[p];
            proof {
                assert forall|j: int| k <= j < col implies !#[trigger] tri_has(
                    *m,
                    true,
                    i as int,
                    j,
                ) by {
                    no_index_between(*m, i as int, p as int, j);
                }
                forward_skip(*m, true, b, i as int, k, col as int);
                at_place(m.indices@, m.data@, lo as int, hi as int, p as int);
                assert(tri_has(*m, true, i as int, col as int));
            }
            x = x.minus(m.data[p].times(rhs[col]));
            p += 1;
            proof {
                k = col + 1;
            }
        }
        proof {
            assert forall|j: int| k <= j < i implies !#[trigger] tri_has(*m, true, i as int, j) by {
                no_index_between(*m, i as int, p as int, j);
            }
            forward_skip(*m, true, b, i as int, k, i as int);
        }
        let diag = m.data[hi - 1];
        rhs[i] = x.over(diag);
        i += 1;
    }
}

/// Solves `m' x = rhs` for the transpose of a lower triangular matrix.
pub fn usolve_transp<T: Scalar>(m: &CsMat<T>, rhs: &mut [T])
    requires
        is_lower(*m, old(rhs)@.len() as int),
    ensures
        final(rhs)@.len() == old(rhs)@.len(),
        forall|i: int|
            0 <= i < old(rhs)@.len() ==> #[trigger] final(rhs)@[i] == backward_transp_solution(
                *m,
                old(rhs)@,
                i,
            ),
{
    let ghost b = rhs@;
    let n: usize = rhs.len();
    let mut left: usize = n;
    while left > 0
        invariant
            n == b.len(),
            rhs@.len() == n,
            left <= n,
            is_lower(*m, n as int),
            forall|j: int|
                0 <= j < n ==> #[trigger] rhs@[j] == if j >= left {
                    backward_transp_solution(*m, b, j)
                } else {
                    b[j]
                },
        decreases left,
    {
        let i: usize = left - 1;
        proof {
            m.line_wf(i as int);
            first_is_diag(*m, n as int, i as int);
        }
        let lo: usize = m.indptr[i];
        let hi: usize = m.indptr[i + 1];
        let mut x = rhs[i];
        let mut p: usize = lo + 1;
        let ghost mut k: int = i + 1;
        while p < hi
            invariant
                n == b.len(),
                rhs@.len() == n,
                i < n,
                is_lower(*m, n as int),
                lo == m.lo(i as int),
                hi == m.hi(i as int),
                lo < p <= hi <= m.indices@.len(),
                m.indices@[lo as int] == i,
                i + 1 <= k <= n,
                k == m.indices@[p - 1] + 1,
                forall|j: int|
                    i < j < n ==> #[trigger] rhs@[j] == backward_transp_solution(*m, b, j),
                x == backward_transp(*m, b, i as int, k),
            decreases hi - p,
        {
            proof {
                m.line_wf(i as int);
                assert(m.indices@[p - 1] < m.indices@[p as int]);
                assert(m.indices@[p as int] < n);
            }
            let col: usize = m.indices[p];
            proof {
                assert forall|j: int| k <= j < col implies !#[trigger] m.line_has(i as int, j) by {
                    no_index_between(*m, i as int, p as int, j);
                }
                backward_transp_skip(*m, b, i as int, k, col as int);
                at_place(m.indices@, m.data@, lo as int, hi as int, p as int);
                assert(m.line_has(i as int, col as int));
            }
            x = x.minus(m.data[p].times(rhs[col]));
            p += 1;
            proof {
                k = col + 1;
            }
        }
        proof {
            assert forall|j: int| k <= j < n implies !#[trigger] m.line_has(i as int, j) by {
                no_index_between(*m, i as int, p as int, j);
            }
            backward_transp_skip(*m, b, i as int, k, n as int);
        }
        let diag = m.data[lo];
        rhs[i] = x.over(diag);
        left = i;
    }
}

/// The terms of row `i` of the product of the matrix and `x`.
pub open spec fn tri_terms<T: Scalar>(
    m: CsMat<T>,
    transposed: bool,
    x: Seq<T>,
    i: int,
) -> spec_fn(int) -> real {
    |j: int| tri(m, transposed, i, j).val() * x[j].val()
}

/// Every row in which the solution is finite holds exactly.
pub open spec fn rows_hold<T: Scalar>(
    m: CsMat<T>,
    transposed: bool,
    x: Seq<T>,
    b: Seq<T>,
) -> bool {
    forall|i: int|
        0 <= i < b.len() && (#[trigger] x[i]).finite() ==> b[i].finite() && sum(
            tri_terms(m, transposed, x, i),
            b.len(),
        ) == b[i].val()
}

proof fn divided_back<T: Scalar>(a: T, d: T)
    requires
        exact::<T>(),
        a.over_spec(d).finite(),
    ensures
        a.finite(),
        d.val() * a.over_spec(d).val() == a.val(),
{
    let (x, y) = (a.val(), d.val());
    assert(y * (x / y) == x) by (nonlinear_arith)
        requires
            y != 0 as real,
    ;
}

proof fn forward_rest<T: Scalar>(
    m: CsMat<T>,
    transposed: bool,
    b: Seq<T>,
    x: Seq<T>,
    i: int,
    k: int,
)
    requires
        exact::<T>(),
        0 <= k <= i < b.len(),
        forall|j: int|
            0 <= j < b.len() ==> #[trigger] x[j] == forward_solution(m, transposed, b, j),
        forward(m, transposed, b, i, k).finite(),
    ensures
        b[i].finite(),
        b[i].val() == forward(m, transposed, b, i, k).val() + sum(
            tri_terms(m, transposed, x, i),
            k as nat,
        ),
    decreases k,
{
    if k > 0 {
        forward_rest(m, transposed, b, x, i, k - 1);
        let f = tri_terms(m, transposed, x, i);
        assert(x[k - 1] == forward_solution(m, transposed, b, k - 1));
        if !tri_has(m, transposed, i, k - 1) {
            times_zero(x[k - 1].val());
            assert(f(k - 1) == 0 as real);
        }
    }
}

/// Substitution solves a lower triangular system.
pub proof fn forward_solves<T: Scalar>(
    m: CsMat<T>,
    transposed: bool,
    b: Seq<T>,
    x: Seq<T>,
)
    requires
        exact::<T>(),
        transposed ==> is_upper(m, b.len() as int),
        !transposed ==> is_lower(m, b.len() as int),
        forall|j: int|
            0 <= j < b.len() ==> #[trigger] x[j] == forward_solution(m, transposed, b, j),
    ensures
        rows_hold(m, transposed, x, b),
{
    assert forall|i: int| 0 <= i < b.len() && (#[trigger] x[i]).finite() implies b[i].finite()
        && sum(tri_terms(m, transposed, x, i), b.len()) == b[i].val() by {
        let f = tri_terms(m, transposed, x, i);
        assert(x[i] == forward_solution(m, transposed, b, i));
        divided_back(forward(m, transposed, b, i, i), tri(m, transposed, i, i));
        forward_rest(m, transposed, b, x, i, i);
        assert(sum(f, (i + 1) as nat) == sum(f, i as nat) + f(i));
        assert forall|j: int| i + 1 <= j < b.len() implies #[trigger] f(j) == 0 as real by {
            assert(!tri_has(m, transposed, i, j));
            times_zero(x[j].val());
        }
        sum_longer(f, (i + 1) as nat, b.len());
    }
}

proof fn backward_rest<T: Scalar>(m: CsMat<T>, b: Seq<T>, x: Seq<T>, i: int, k: int)
    requires
        exact::<T>(),
        0 <= i < k <= b.len(),
        forall|j: int| 0 <= j < b.len() ==> #[trigger] x[j] == backward_solution(m, b, j),
        backward(m, b, i, k).finite(),
    ensures
        b[i].finite(),
        b[i].val() == backward(m, b, i, k).val() + sum(tri_terms(m, false, x, i), b.len()) - sum(
            tri_terms(m, false, x, i),
            k as nat,
        ),
    decreases b.len() - k,
{
    if k < b.len() {
        backward_rest(m, b, x, i, k + 1);
        let f = tri_terms(m, false, x, i);
        assert(x[k] == backward_solution(m, b, k));
        assert(sum(f, (k + 1) as nat) == sum(f, k as nat) + f(k));
        if !m.line_has(k, i) {
            times_zero(x[k].val());
            assert(f(k) == 0 as real);
        }
    }
}

/// Nothing stands before the diagonal.
proof fn upper_sum<T: Scalar>(m: CsMat<T>, transposed: bool, x: Seq<T>, i: int)
    requires
        exact::<T>(),
        0 <= i,
        forall|j: int| 0 <= j < i ==> !#[trigger] tri_has(m, transposed, i, j),
    ensures
        sum(tri_terms(m, transposed, x, i), (i + 1) as nat) == tri(m, transposed, i, i).val()
            * x[i].val(),
{
    let f = tri_terms(m, transposed, x, i);
    assert forall|j: int| 0 <= j < i implies #[trigger] f(j) == 0 as real by {
        assert(!tri_has(m, transposed, i, j));
        times_zero(x[j].val());
    }
    sum_longer(f, 0, i as nat);
    assert(f(i) == tri(m, transposed, i, i).val() * x[i].val());
}

/// Substitution solves an upper triangular system.
pub proof fn backward_solves<T: Scalar>(m: CsMat<T>, b: Seq<T>, x: Seq<T>)
    requires
        exact::<T>(),
        is_upper(m, b.len() as int),
        forall|j: int| 0 <= j < b.len() ==> #[trigger] x[j] == backward_solution(m, b, j),
    ensures
        rows_hold(m, false, x, b),
{
    assert forall|i: int| 0 <= i < b.len() && (#[trigger] x[i]).finite() implies b[i].finite()
        && sum(tri_terms(m, false, x, i), b.len()) == b[i].val() by {
        assert(x[i] == backward_solution(m, b, i));
        divided_back(backward(m, b, i, i + 1), m.line(i, i));
        backward_rest(m, b, x, i, i + 1);
        upper_sum(m, false, x, i);
    }
}

proof fn backward_transp_rest<T: Scalar>(m: CsMat<T>, b: Seq<T>, x: Seq<T>, i: int, k: int)
    requires
        exact::<T>(),
        0 <= i < k <= b.len(),
        forall|j: int| 0 <= j < b.len() ==> #[trigger] x[j] == backward_transp_solution(m, b, j),
        backward_transp(m, b, i, k).finite(),
    ensures
        b[i].finite(),
        b[i].val() == backward_transp(m, b, i, k).val() + sum(
            tri_terms(m, true, x, i),
            k as nat,
        ) - sum(tri_terms(m, true, x, i), (i + 1) as nat),
    decreases k,
{
    if k > i + 1 {
        backward_transp_rest(m, b, x, i, k - 1);
        let f = tri_terms(m, true, x, i);
        assert(x[k - 1] == backward_transp_solution(m, b, k - 1));
        assert(sum(f, k as nat) == sum(f, (k - 1) as nat) + f(k - 1));
        if !m.line_has(i, k - 1) {
            times_zero(x[k - 1].val());
            assert(f(k - 1) == 0 as real);
        }
    }
}

/// Substitution solves a system with the transpose of a lower triangular matrix.
pub proof fn backward_transp_solves<T: Scalar>(m: CsMat<T>, b: Seq<T>, x: Seq<T>)
    requires
        exact::<T>(),
        is_lower(m, b.len() as int),
        forall|j: int| 0 <= j < b.len() ==> #[trigger] x[j] == backward_transp_solution(m, b, j),
    ensures
        rows_hold(m, true, x, b),
{
    assert forall|i: int| 0 <= i < b.len() && (#[trigger] x[i]).finite() implies b[i].finite()
        && sum(tri_terms(m, true, x, i), b.len()) == b[i].val() by {
        assert(x[i] == backward_transp_solution(m, b, i));
        divided_back(backward_transp(m, b, i, b.len() as int), m.line(i, i));
        backward_transp_rest(m, b, x, i, b.len() as int);
        upper_sum(m, true, x, i);
    }
}

} // verus!
