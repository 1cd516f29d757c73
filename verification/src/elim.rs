//! The elimination of one column during an LU factorization.
use crate::perm::inverse;
use crate::reach::{
    children_of, closed_graph, connected, connected_refl, connected_step, edge, kept_of, postorder,
    rank_along, reachable, search_order, unflagged, Graph, MarkNonzero,
};
use crate::scalar::{exact, is_zero, Scalar};
use crate::scattered::ScatteredVec;
use crate::sparse::{at, at_place, below, distinct, holds, place, CsMat, Storage};
use crate::sums::{sum, sum_but_one, sum_same, sum_zero, times_zero};
use crate::triplets::TriMat;
use vstd::prelude::*;

verus! {

/// A column under construction. Its rows carry the numbers that they have in the original
/// matrix and stand in any order.
#[derive(Debug)]
pub struct Col<T> {
    pub rows: Vec<usize>,
    pub vals: Vec<T>,
}

impl<T: Scalar> Col<T> {
    pub open spec fn wf(self, n: int) -> bool {
        &&& self.rows@.len() == self.vals@.len()
        &&& distinct(self.rows@, 0, self.rows@.len() as int)
        &&& below(self.rows@, n)
    }

    pub open spec fn stores(self, r: int) -> bool {
        holds(self.rows@, 0, self.rows@.len() as int, r)
    }

    /// The value in row `r`.
    pub open spec fn cell(self, r: int) -> T {
        at(self.rows@, self.vals@, 0, self.rows@.len() as int, r)
    }

    pub fn new() -> (r: Col<T>)
        ensures
            r.rows@.len() == 0,
            r.vals@.len() == 0,
    {
        Col { rows: Vec::new(), vals: Vec::new() }
    }

    pub fn push(&mut self, r: usize, val: T)
        ensures
            final(self).rows@ == old(self).rows@.push(r),
            final(self).vals@ == old(self).vals@.push(val),
    {
        self.rows.push(r);
        self.vals.push(val);
    }
}

/// What a column holds.
pub struct Entries<T> {
    pub rows: Seq<usize>,
    pub vals: Seq<T>,
}

impl<T: Scalar> Entries<T> {
    pub open spec fn stores(self, r: int) -> bool {
        holds(self.rows, 0, self.rows.len() as int, r)
    }

    /// The value in row `r`.
    pub open spec fn cell(self, r: int) -> T {
        at(self.rows, self.vals, 0, self.rows.len() as int, r)
    }
}

impl<T: Scalar> View for Col<T> {
    type V = Entries<T>;

    open spec fn view(&self) -> Entries<T> {
        Entries { rows: self.rows@, vals: self.vals@ }
    }
}

pub open spec fn contents<T: Scalar>(cols: Seq<Col<T>>) -> Seq<Entries<T>> {
    Seq::new(cols.len(), |k: int| cols[k]@)
}

/// The settled rows when `c` columns are done.
pub open spec fn settled(c: int, orig2new: Seq<usize>) -> spec_fn(int) -> bool {
    |i: int| orig2new[i] < c
}

/// The rows that a settled row spreads to.
pub open spec fn spreads_to<T: Scalar>(
    lower: Seq<Entries<T>>,
    orig2new: Seq<usize>,
) -> spec_fn(int) -> Seq<usize> {
    |i: int|
        if orig2new[i] < lower.len() {
            lower[orig2new[i] as int].rows
        } else {
            Seq::empty()
        }
}

/// The column `v` when what stands in the settled row `u` is taken off the settled rows behind.
pub open spec fn taken_above<T: Scalar>(
    lower: Seq<Entries<T>>,
    orig2new: Seq<usize>,
    v: Seq<T>,
    u: int,
) -> Seq<T> {
    let l = lower[orig2new[u] as int];
    Seq::new(
        v.len(),
        |r: int|
            if l.stores(r) && orig2new[u] < orig2new[r] < lower.len() {
                v[r].minus_spec(v[u].times_spec(l.cell(r)))
            } else {
                v[r]
            },
    )
}

/// The column `v` when that is done for the rows at the places from the last one down to `p`.
pub open spec fn substituted<T: Scalar>(
    lower: Seq<Entries<T>>,
    orig2new: Seq<usize>,
    visited: Seq<usize>,
    p: int,
    v: Seq<T>,
) -> Seq<T>
    decreases visited.len() - p,
{
    if p >= visited.len() {
        v
    } else {
        taken_above(
            lower,
            orig2new,
            substituted(lower, orig2new, visited, p + 1, v),
            visited[p] as int,
        )
    }
}

/// The column `v` when what stands in the settled row `u` is taken off the rows that are not
/// settled.
pub open spec fn taken_below<T: Scalar>(
    lower: Seq<Entries<T>>,
    orig2new: Seq<usize>,
    v: Seq<T>,
    u: int,
) -> Seq<T> {
    let l = lower[orig2new[u] as int];
    Seq::new(
        v.len(),
        |r: int|
            if l.stores(r) && lower.len() <= orig2new[r] {
                v[r].minus_spec(l.cell(r).times_spec(v[u]))
            } else {
                v[r]
            },
    )
}

/// Those of the first `k` rows that are not settled and not listed, in order.
pub open spec fn fresh_rows(
    rows: Seq<usize>,
    orig2new: Seq<usize>,
    c: int,
    list: Seq<usize>,
    k: int,
) -> Seq<usize>
    decreases k,
{
    if k <= 0 {
        Seq::empty()
    } else {
        let rest = fresh_rows(rows, orig2new, c, list, k - 1);
        if c <= orig2new[rows[k - 1] as int] && !holds(
            list,
            0,
            list.len() as int,
            rows[k - 1] as int,
        ) {
            rest.push(rows[k - 1])
        } else {
            rest
        }
    }
}

/// The list and the column when the settled rows at the first `i` places of the list are
/// eliminated from the others.
pub open spec fn spread<T: Scalar>(
    lower: Seq<Entries<T>>,
    orig2new: Seq<usize>,
    list: Seq<usize>,
    i: int,
    v: Seq<T>,
) -> (Seq<usize>, Seq<T>)
    decreases i,
{
    if i <= 0 {
        (list, v)
    } else {
        let (l, w) = spread(lower, orig2new, list, i - 1, v);
        let u = list[i - 1] as int;
        if w[u].same_spec(T::zero_spec()) {
            (l, w)
        } else {
            let rows = lower[orig2new[u] as int].rows;
            (
                l + fresh_rows(rows, orig2new, lower.len() as int, l, rows.len() as int),
                taken_below(lower, orig2new, w, u),
            )
        }
    }
}

/// What elimination makes of a column: its values, the rows where it may have something, and the
/// number of those which are settled; these are listed first.
pub struct Reduced<T> {
    pub v: Seq<T>,
    pub list: Seq<usize>,
    pub lo: int,
}

/// The column `col` of the matrix in the settled rows, or in the others; zero elsewhere.
pub open spec fn column_side<T: Scalar>(
    mat: CsMat<T>,
    col: int,
    orig2new: Seq<usize>,
    c: int,
    above: bool,
    other: Seq<T>,
) -> Seq<T> {
    Seq::new(
        mat.nrows as nat,
        |r: int|
            if mat.line_has(col, r) && on_side(orig2new, c, above, r) {
                mat.line(col, r)
            } else {
                other[r]
            },
    )
}

/// The column `col` of the matrix when the columns of the lower factor are eliminated from it.
pub open spec fn reduced<T: Scalar>(
    mat: CsMat<T>,
    col: int,
    lower: Seq<Entries<T>>,
    orig2new: Seq<usize>,
) -> Reduced<T> {
    let n = mat.nrows as nat;
    let c = lower.len() as int;
    let (lo, hi) = (mat.lo(col), mat.hi(col));
    let roots = side_rows(mat.indices@, orig2new, c, true, lo, hi);
    let visited = search_order(n, settled(c, orig2new), spreads_to(lower, orig2new), roots);
    let listed = Seq::new(n, |i: int| holds(roots, 0, roots.len() as int, i));
    let zeros = Seq::new(n, |r: int| T::zero_spec());
    let first = column_side(mat, col, orig2new, c, true, zeros);
    let second = column_side(
        mat,
        col,
        orig2new,
        c,
        false,
        substituted(lower, orig2new, visited, 0, first),
    );
    let above = roots + unflagged(visited, listed);
    let (list, v) = spread(
        lower,
        orig2new,
        above + side_rows(mat.indices@, orig2new, c, false, lo, hi),
        above.len() as int,
        second,
    );
    Reduced { v, list, lo: above.len() as int }
}

/// Columns of a unit lower triangular matrix: column `k` has its one in the row that became row
/// `k`, and nothing in the rows before.
pub open spec fn unit_lower<T: Scalar>(
    lower: Seq<Col<T>>,
    orig2new: Seq<usize>,
    new2orig: Seq<usize>,
) -> bool {
    &&& inverse(orig2new, new2orig)
    &&& lower.len() <= new2orig.len()
    &&& forall|k: int|
        0 <= k < lower.len() ==> (#[trigger] lower[k]).wf(orig2new.len() as int)
    &&& forall|k: int|
        0 <= k < lower.len() ==> (#[trigger] lower[k]).stores(new2orig[k] as int) && lower[k].cell(
            new2orig[k] as int,
        ) == T::one_spec()
    &&& forall|k: int, r: int|
        0 <= k < lower.len() && #[trigger] lower[k].stores(r) ==> k <= orig2new[r]
}

/// The rows that a value in a row of the upper part spreads to.
pub struct LowerGraph<'a, T> {
    pub lower: &'a Vec<Col<T>>,
    pub orig2new: &'a Vec<usize>,
}

impl<'a, T: Scalar> Graph for LowerGraph<'a, T> {
    open spec fn wf(&self) -> bool {
        true
    }

    open spec fn size(&self) -> nat {
        self.orig2new@.len()
    }

    open spec fn kept(&self, i: int) -> bool {
        self.orig2new@[i] < self.lower@.len()
    }

    open spec fn children(&self, i: int) -> Seq<usize> {
        if self.orig2new@[i] < self.lower@.len() {
            self.lower@[self.orig2new@[i] as int].rows@
        } else {
            Seq::empty()
        }
    }

    fn keeps(&self, i: usize) -> (r: bool) {
        self.orig2new[i] < self.lower.len()
    }

    fn child_count(&self, i: usize) -> (r: usize) {
        self.lower[self.orig2new[i]].rows.len()
    }

    fn child(&self, i: usize, k: usize) -> (r: usize) {
        self.lower[self.orig2new[i]].rows[k]
    }
}

/// `values[r] -= x * col[r]` in the rows that became a row behind `from` and before `upto`.
pub fn subtract_above<T: Scalar>(
    values: &mut Vec<T>,
    x: T,
    col: &Col<T>,
    orig2new: &Vec<usize>,
    from: usize,
    upto: usize,
)
    requires
        col.wf(old(values)@.len() as int),
        orig2new@.len() == old(values)@.len(),
    ensures
        final(values)@.len() == old(values)@.len(),
        forall|r: int|
            0 <= r < old(values)@.len() ==> #[trigger] final(values)@[r] == if col.stores(r) && from
                < orig2new@[r] < upto {
                old(values)@[r].minus_spec(x.times_spec(col.cell(r)))
            } else {
                old(values)@[r]
            },
{
    let ghost before = values@;
    let n: usize = col.rows.len();
    let mut k: usize = 0;
    while k < n
        invariant
            n == col.rows@.len(),
            k <= n,
            col.wf(before.len() as int),
            orig2new@.len() == before.len(),
            values@.len() == before.len(),
            forall|r: int|
                0 <= r < before.len() ==> #[trigger] values@[r] == if holds(
                    col.rows@,
                    0,
                    k as int,
                    r,
                ) && from < orig2new@[r] < upto {
                    before[r].minus_spec(x.times_spec(col.cell(r)))
                } else {
                    before[r]
                },
        decreases n - k,
    {
        let orig_r: usize = col.rows[k];
        let new_r: usize = orig2new[orig_r];
        proof {
            at_place(col.rows@, col.vals@, 0, n as int, k as int);
            one_more(col.rows@, 0, n as int, k as int);
        }
        if new_r < upto && new_r > from {
            let v = values[orig_r].minus(x.times(col.vals[k]));
            values[orig_r] = v;
        }
        k += 1;
    }
}

/// Subtracts the multiple `x` of the column in the rows that are not settled, and lists the
/// rows where it has something.
pub fn subtract_below<T: Scalar>(
    rhs: &mut ScatteredVec<T>,
    x: T,
    col: &Col<T>,
    orig2new: &Vec<usize>,
    from: usize,
)
    requires
        old(rhs).wf(),
        col.wf(old(rhs).values@.len() as int),
        orig2new@.len() == old(rhs).values@.len(),
    ensures
        final(rhs).wf(),
        final(rhs).values@.len() == old(rhs).values@.len(),
        old(rhs).nonzero@.len() <= final(rhs).nonzero@.len(),
        final(rhs).nonzero@.subrange(0, old(rhs).nonzero@.len() as int) == old(rhs).nonzero@,
        final(rhs).nonzero@ == old(rhs).nonzero@ + fresh_rows(
            col.rows@,
            orig2new@,
            from as int,
            old(rhs).nonzero@,
            col.rows@.len() as int,
        ),
        forall|p: int|
            old(rhs).nonzero@.len() <= p < final(rhs).nonzero@.len() ==> from
                <= orig2new@[#[trigger] final(rhs).nonzero@[p] as int],
        forall|r: int|
            0 <= r < old(rhs).values@.len() ==> #[trigger] final(rhs).values@[r] == if col.stores(r)
                && from <= orig2new@[r] {
                old(rhs).values@[r].minus_spec(col.cell(r).times_spec(x))
            } else {
                old(rhs).values@[r]
            },
{
    let ghost before = rhs.values@;
    let ghost list = rhs.nonzero@;
    let n: usize = col.rows.len();
    let mut k: usize = 0;
    assert(rhs.nonzero@ =~= list + fresh_rows(col.rows@, orig2new@, from as int, list, 0));
    while k < n
        invariant
            n == col.rows@.len(),
            k <= n,
            col.wf(before.len() as int),
            orig2new@.len() == before.len(),
            rhs.nonzero@ == list + fresh_rows(
                col.rows@,
                orig2new@,
                from as int,
                list,
                k as int,
            ),
            rhs.wf(),
            rhs.values@.len() == before.len(),
            list.len() <= rhs.nonzero@.len(),
            rhs.nonzero@.subrange(0, list.len() as int) == list,
            forall|p: int|
                list.len() <= p < rhs.nonzero@.len() ==> from
                    <= orig2new@[#[trigger] rhs.nonzero@[p] as int],
            forall|r: int|
                0 <= r < before.len() ==> #[trigger] rhs.values@[r] == if holds(
                    col.rows@,
                    0,
                    k as int,
                    r,
                ) && from <= orig2new@[r] {
                    before[r].minus_spec(col.cell(r).times_spec(x))
                } else {
                    before[r]
                },
        decreases n - k,
    {
        let orig_r: usize = col.rows[k];
        proof {
            at_place(col.rows@, col.vals@, 0, n as int, k as int);
            one_more(col.rows@, 0, n as int, k as int);
            fresh_listed(col.rows@, orig2new@, from as int, list, k as int, orig_r as int);
            assert(rhs.is_nonzero@[orig_r as int] <==> rhs.marked(orig_r as int));
        }
        let ghost fresh = fresh_rows(col.rows@, orig2new@, from as int, list, k as int);
        if orig2new[orig_r] >= from {
            if !rhs.is_nonzero[orig_r] {
                let ghost nz = rhs.nonzero@;
                rhs.mark(orig_r);
                proof {
                    assert(rhs.nonzero@.subrange(0, list.len() as int) =~= nz.subrange(
                        0,
                        list.len() as int,
                    ));
                    assert((list + fresh).push(orig_r) =~= list + fresh.push(orig_r));
                }
            }
            let v = rhs.values[orig_r].minus(col.vals[k].times(x));
            rhs.values[orig_r] = v;
        }
        k += 1;
    }
}

/// A row that is none of the first `k` is listed with the fresh ones just where it was before.
proof fn fresh_listed(
    rows: Seq<usize>,
    orig2new: Seq<usize>,
    c: int,
    list: Seq<usize>,
    k: int,
    r: int,
)
    requires
        0 <= k <= rows.len(),
        !holds(rows, 0, k, r),
    ensures
        ({
            let all = list + fresh_rows(rows, orig2new, c, list, k);
            holds(all, 0, all.len() as int, r) == holds(list, 0, list.len() as int, r)
        }),
    decreases k,
{
    let fresh = fresh_rows(rows, orig2new, c, list, k);
    let all = list + fresh;
    fresh_inside(rows, orig2new, c, list, k);
    if holds(all, 0, all.len() as int, r) {
        let p = place(all, 0, all.len() as int, r);
        if p < list.len() {
            assert(list[p] == r);
        } else {
            assert(fresh[p - list.len()] == r);
            assert(holds(rows, 0, k, r));
        }
    }
    if holds(list, 0, list.len() as int, r) {
        let p = place(list, 0, list.len() as int, r);
        assert(all[p] == r);
    }
}

proof fn fresh_inside(
    rows: Seq<usize>,
    orig2new: Seq<usize>,
    c: int,
    list: Seq<usize>,
    k: int,
)
    requires
        0 <= k <= rows.len(),
    ensures
        forall|q: int|
            0 <= q < fresh_rows(rows, orig2new, c, list, k).len() ==> holds(
                rows,
                0,
                k,
                #[trigger] fresh_rows(rows, orig2new, c, list, k)[q] as int,
            ),
    decreases k,
{
    if k > 0 {
        fresh_inside(rows, orig2new, c, list, k - 1);
        let rest = fresh_rows(rows, orig2new, c, list, k - 1);
        let all = fresh_rows(rows, orig2new, c, list, k);
        assert forall|q: int| 0 <= q < all.len() implies holds(
            rows,
            0,
            k,
            #[trigger] all[q] as int,
        ) by {
            if q < rest.len() {
                assert(all[q] == rest[q]);
                let p = place(rows, 0, k - 1, rest[q] as int);
                assert(rows[p] == rest[q]);
            } else {
                assert(rows[k - 1] == all[q]);
            }
        }
    }
}

/// Whether the row is settled (`above`) or not (`!above`) when `c` columns are done.
pub open spec fn on_side(orig2new: Seq<usize>, c: int, above: bool, r: int) -> bool {
    (orig2new[r] < c) == above
}

/// The rows at the positions `lo..hi` that are on the given side, in order.
pub open spec fn side_rows(
    idx: Seq<usize>,
    orig2new: Seq<usize>,
    c: int,
    above: bool,
    lo: int,
    hi: int,
) -> Seq<usize>
    decreases hi - lo,
{
    if hi <= lo {
        Seq::empty()
    } else if on_side(orig2new, c, above, idx[hi - 1] as int) {
        side_rows(idx, orig2new, c, above, lo, hi - 1).push(idx[hi - 1])
    } else {
        side_rows(idx, orig2new, c, above, lo, hi - 1)
    }
}

pub proof fn side_rows_are(
    idx: Seq<usize>,
    orig2new: Seq<usize>,
    c: int,
    above: bool,
    lo: int,
    hi: int,
)
    requires
        lo <= hi,
    ensures
        forall|p: int|
            0 <= p < side_rows(idx, orig2new, c, above, lo, hi).len() ==> on_side(
                orig2new,
                c,
                above,
                #[trigger] side_rows(idx, orig2new, c, above, lo, hi)[p] as int,
            ),
    decreases hi - lo,
{
    if lo < hi {
        side_rows_are(idx, orig2new, c, above, lo, hi - 1);
        let less = side_rows(idx, orig2new, c, above, lo, hi - 1);
        let all = side_rows(idx, orig2new, c, above, lo, hi);
        assert forall|p: int| 0 <= p < all.len() implies on_side(
            orig2new,
            c,
            above,
            #[trigger] all[p] as int,
        ) by {
            if p < less.len() {
                assert(all[p] == less[p]);
            }
        }
    }
}

/// Adds the entries of a column that lie on the given side to a vector that has none of them.
pub fn scatter_side<T: Scalar>(
    rhs: &mut ScatteredVec<T>,
    mat: &CsMat<T>,
    col: usize,
    orig2new: &Vec<usize>,
    c: usize,
    above: bool,
)
    requires
        old(rhs).wf(),
        mat.wf(),
        mat.storage == Storage::Csc,
        col < mat.ncols,
        mat.nrows == old(rhs).values@.len(),
        orig2new@.len() == mat.nrows,
        forall|r: int|
            0 <= r < mat.nrows && on_side(orig2new@, c as int, above, r)
                ==> !#[trigger] old(rhs).is_nonzero@[r],
    ensures
        final(rhs).wf(),
        final(rhs).values@.len() == old(rhs).values@.len(),
        final(rhs).nonzero@ == old(rhs).nonzero@ + side_rows(
            mat.indices@,
            orig2new@,
            c as int,
            above,
            mat.lo(col as int),
            mat.hi(col as int),
        ),
        forall|r: int|
            0 <= r < mat.nrows ==> #[trigger] final(rhs).values@[r] == if mat.line_has(
                col as int,
                r,
            ) && on_side(orig2new@, c as int, above, r) {
                mat.line(col as int, r)
            } else {
                old(rhs).values@[r]
            },
{
    proof {
        mat.line_wf(col as int);
    }
    let ghost before = *rhs;
    let lo: usize = mat.indptr[col];
    let hi: usize = mat.indptr[col + 1];
    let mut k: usize = lo;
    assert(rhs.nonzero@ =~= before.nonzero@ + side_rows(
        mat.indices@,
        orig2new@,
        c as int,
        above,
        lo as int,
        lo as int,
    ));
    while k < hi
        invariant
            lo == mat.lo(col as int),
            hi == mat.hi(col as int),
            lo <= k <= hi <= mat.indices@.len(),
            mat.indices@.len() == mat.data@.len(),
            distinct(mat.indices@, lo as int, hi as int),
            below(mat.indices@, mat.nrows as int),
            rhs.wf(),
            rhs.values@.len() == mat.nrows,
            orig2new@.len() == mat.nrows,
            rhs.nonzero@ == before.nonzero@ + side_rows(
                mat.indices@,
                orig2new@,
                c as int,
                above,
                lo as int,
                k as int,
            ),
            forall|r: int|
                0 <= r < mat.nrows && on_side(orig2new@, c as int, above, r) && !holds(
                    mat.indices@,
                    lo as int,
                    k as int,
                    r,
                ) ==> !#[trigger] rhs.is_nonzero@[r],
            forall|r: int|
                0 <= r < mat.nrows ==> #[trigger] rhs.values@[r] == if holds(
                    mat.indices@,
                    lo as int,
                    k as int,
                    r,
                ) && on_side(orig2new@, c as int, above, r) {
                    mat.line(col as int, r)
                } else {
                    before.values@[r]
                },
        decreases hi - k,
    {
        let orig_r: usize = mat.indices[k];
        let ghost was = *rhs;
        proof {
            at_place(mat.indices@, mat.data@, lo as int, hi as int, k as int);
            one_more(mat.indices@, lo as int, hi as int, k as int);
        }
        if (orig2new[orig_r] < c) == above {
            assert(!rhs.is_nonzero@[orig_r as int]);
            rhs.mark(orig_r);
            rhs.values[orig_r] = mat.data[k];
        }
        assert(rhs.nonzero@ =~= before.nonzero@ + side_rows(
            mat.indices@,
            orig2new@,
            c as int,
            above,
            lo as int,
            k + 1,
        ));
        k += 1;
    }
}

/// The places that the positions `lo..=k` hold.
pub proof fn one_more(idx: Seq<usize>, lo: int, hi: int, k: int)
    requires
        lo <= k < hi,
        distinct(idx, lo, hi),
    ensures
        !holds(idx, lo, k, idx[k] as int),
        forall|r: int| #[trigger] holds(idx, lo, k + 1, r) == (holds(idx, lo, k, r) || r == idx[k]),
{
    if holds(idx, lo, k, idx[k] as int) {
        let p = place(idx, lo, k, idx[k] as int);
        assert(idx[p] != idx[k]);
    }
    assert forall|r: int| #[trigger]
        holds(idx, lo, k + 1, r) == (holds(idx, lo, k, r) || r == idx[k]) by {
        if holds(idx, lo, k + 1, r) {
            let p = place(idx, lo, k + 1, r);
            assert(idx[p] == r);
        }
        if holds(idx, lo, k, r) {
            let p = place(idx, lo, k, r);
            assert(idx[p] == r);
        }
    }
}

/// What the columns in `done` contribute to row `r` of the product of the lower factor and `v`.
pub open spec fn products<T: Scalar>(
    lower: Seq<Col<T>>,
    new2orig: Seq<usize>,
    v: Seq<T>,
    r: int,
    done: spec_fn(int) -> bool,
) -> spec_fn(int) -> real {
    |j: int|
        if done(j) {
            lower[j].cell(r).val() * v[new2orig[j] as int].val()
        } else {
            0 as real
        }
}

/// The columns before that of `r` whose rows stand at the positions from `p` on.
pub open spec fn used(
    visited: Seq<usize>,
    p: int,
    orig2new: Seq<usize>,
    new2orig: Seq<usize>,
    r: int,
) -> spec_fn(int) -> bool {
    |j: int|
        j < orig2new[r] && holds(visited, p, visited.len() as int, new2orig[j] as int)
}

/// The state of the substitution in the settled rows.
pub open spec fn substituting<T: Scalar>(
    mat: CsMat<T>,
    col: int,
    lower: Seq<Col<T>>,
    orig2new: Seq<usize>,
    new2orig: Seq<usize>,
    visited: Seq<usize>,
    p: int,
    v: Seq<T>,
) -> bool {
    forall|r: int|
        0 <= r < v.len() && orig2new[r] < lower.len() && (#[trigger] v[r]).finite() ==> mat.line(
            col,
            r,
        ).val() == v[r].val() + sum(
            products(lower, new2orig, v, r, used(visited, p, orig2new, new2orig, r)),
            lower.len(),
        )
}

proof fn substitute_step<T: Scalar>(
    mat: CsMat<T>,
    col: int,
    lower: Seq<Col<T>>,
    orig2new: Seq<usize>,
    new2orig: Seq<usize>,
    visited: Seq<usize>,
    p: int,
    v0: Seq<T>,
    v1: Seq<T>,
)
    requires
        exact::<T>(),
        unit_lower(lower, orig2new, new2orig),
        v0.len() == orig2new.len(),
        v1.len() == v0.len(),
        0 <= p < visited.len(),
        distinct(visited, 0, visited.len() as int),
        below(visited, v0.len() as int),
        orig2new[visited[p] as int] < lower.len(),
        substituting(mat, col, lower, orig2new, new2orig, visited, p + 1, v0),
        forall|r: int|
            0 <= r < v0.len() ==> #[trigger] v1[r] == if lower[orig2new[visited[p] as int] as int].stores(r)
                && orig2new[visited[p] as int] < orig2new[r] < lower.len() {
                v0[r].minus_spec(
                    v0[visited[p] as int].times_spec(lower[orig2new[visited[p] as int] as int].cell(r)),
                )
            } else {
                v0[r]
            },
        forall|q: int| p < q < visited.len() ==> v1[#[trigger] visited[q] as int] == v0[visited[q] as int],
    ensures
        substituting(mat, col, lower, orig2new, new2orig, visited, p, v1),
{
    let u = visited[p] as int;
    let m = orig2new[u] as int;
    let len = visited.len() as int;
    assert(new2orig[m] == u);
    assert forall|r: int|
        0 <= r < v1.len() && orig2new[r] < lower.len() && (#[trigger] v1[r]).finite() implies mat.line(
        col,
        r,
    ).val() == v1[r].val() + sum(
        products(lower, new2orig, v1, r, used(visited, p, orig2new, new2orig, r)),
        lower.len(),
    ) by {
        let d0 = used(visited, p + 1, orig2new, new2orig, r);
        let d1 = used(visited, p, orig2new, new2orig, r);
        let f0 = products(lower, new2orig, v0, r, d0);
        let f1 = products(lower, new2orig, v1, r, d1);
        let l = lower[m].cell(r);
        assert(v0[r].finite());
        assert forall|j: int| 0 <= j < lower.len() && j != m implies #[trigger] f0(j) == f1(j) by {
            let w = new2orig[j] as int;
            assert(orig2new[w] == j);
            if holds(visited, p, len, w) {
                let q = place(visited, p, len, w);
                assert(visited[q] == w);
                assert(q != p);
                assert(holds(visited, p + 1, len, w));
            }
            if holds(visited, p + 1, len, w) {
                let q = place(visited, p + 1, len, w);
                assert(visited[q] == w);
                assert(v1[w] == v0[w]);
            }
        }
        assert(!holds(visited, p + 1, len, u)) by {
            if holds(visited, p + 1, len, u) {
                let q = place(visited, p + 1, len, u);
                assert(visited[p] != visited[q]);
            }
        }
        assert(holds(visited, p, len, u)) by {
            assert(visited[p] == u);
        }
        assert(f0(m) == 0 as real);
        assert(v1[u] == v0[u]);
        sum_but_one(f0, f1, lower.len(), m);
        if m < orig2new[r] {
            assert(f1(m) == l.val() * v0[u].val());
            if lower[m].stores(r) {
                let (a, b) = (l.val(), v0[u].val());
                assert(a * b == b * a) by (nonlinear_arith);
            } else {
                times_zero(v0[u].val());
            }
        }
    }
}

/// Row `r` of a column is the product of the lower factor and `v`, up to what is left in a row
/// that is not settled.
pub open spec fn reduced_row<T: Scalar>(
    mat: CsMat<T>,
    col: int,
    lower: Seq<Col<T>>,
    orig2new: Seq<usize>,
    new2orig: Seq<usize>,
    v: Seq<T>,
    r: int,
) -> bool {
    mat.line(col, r).val() == (if orig2new[r] < lower.len() {
        0 as real
    } else {
        v[r].val()
    }) + sum(products(lower, new2orig, v, r, |j: int| true), lower.len())
}

proof fn substitute_start<T: Scalar>(
    mat: CsMat<T>,
    col: int,
    lower: Seq<Col<T>>,
    orig2new: Seq<usize>,
    new2orig: Seq<usize>,
    visited: Seq<usize>,
    v: Seq<T>,
)
    requires
        exact::<T>(),
        forall|r: int|
            0 <= r < v.len() && orig2new[r] < lower.len() ==> #[trigger] v[r] == mat.line(col, r)
                || !mat.line_has(col, r) && is_zero(v[r]),
    ensures
        substituting(
            mat,
            col,
            lower,
            orig2new,
            new2orig,
            visited,
            visited.len() as int,
            v,
        ),
{
    let len = visited.len() as int;
    assert forall|r: int|
        0 <= r < v.len() && orig2new[r] < lower.len() && (#[trigger] v[r]).finite() implies mat.line(
        col,
        r,
    ).val() == v[r].val() + sum(
        products(lower, new2orig, v, r, used(visited, len, orig2new, new2orig, r)),
        lower.len(),
    ) by {
        let f = products(lower, new2orig, v, r, used(visited, len, orig2new, new2orig, r));
        assert forall|j: int| 0 <= j < lower.len() implies #[trigger] f(j) == 0 as real by {
            assert(!holds(visited, len, len, new2orig[j] as int));
        }
        sum_zero(f, lower.len());
    }
}

proof fn substitute_end<T: Scalar>(
    mat: CsMat<T>,
    col: int,
    lower: Seq<Col<T>>,
    orig2new: Seq<usize>,
    new2orig: Seq<usize>,
    visited: Seq<usize>,
    v: Seq<T>,
)
    requires
        exact::<T>(),
        unit_lower(lower, orig2new, new2orig),
        v.len() == orig2new.len(),
        substituting(mat, col, lower, orig2new, new2orig, visited, 0, v),
        forall|r: int|
            0 <= r < v.len() && orig2new[r] < lower.len() && !holds(
                visited,
                0,
                visited.len() as int,
                r,
            ) ==> is_zero(#[trigger] v[r]),
    ensures
        forall|r: int|
            0 <= r < v.len() && orig2new[r] < lower.len() && (#[trigger] v[r]).finite()
                ==> reduced_row(mat, col, lower, orig2new, new2orig, v, r),
{
    assert forall|r: int|
        0 <= r < v.len() && orig2new[r] < lower.len() && (#[trigger] v[r]).finite() implies reduced_row(
        mat,
        col,
        lower,
        orig2new,
        new2orig,
        v,
        r,
    ) by {
        let m = orig2new[r] as int;
        let f0 = products(lower, new2orig, v, r, used(visited, 0, orig2new, new2orig, r));
        let f1 = products(lower, new2orig, v, r, |j: int| true);
        assert(new2orig[m] == r);
        assert forall|j: int| 0 <= j < lower.len() && j != m implies #[trigger] f0(j) == f1(j) by {
            let w = new2orig[j] as int;
            assert(orig2new[w] == j);
            if j > m {
                assert(!lower[j].stores(r));
                times_zero(v[w].val());
            } else if !holds(visited, 0, visited.len() as int, w) {
                assert(is_zero(v[w]));
                times_zero(lower[j].cell(r).val());
            }
        }
        sum_but_one(f0, f1, lower.len(), m);
        assert(lower[m].cell(r) == T::one_spec());
        times_zero(v[r].val());
    }
}

proof fn lower_graph_closed<'a, T: Scalar>(g: &LowerGraph<'a, T>, new2orig: Seq<usize>)
    requires
        unit_lower(g.lower@, g.orig2new@, new2orig),
    ensures
        closed_graph(g),
        forall|u: int, v: int|
            0 <= u < g.size() && g.kept(u) && #[trigger] edge(g, u, v) ==> 0 <= v < g.size()
                && g.lower@[g.orig2new@[u] as int].stores(v) && g.orig2new@[u] <= g.orig2new@[v],
{
    assert forall|i: int| 0 <= i < g.size() && g.kept(i) implies below(
        #[trigger] g.children(i),
        g.size() as int,
    ) by {
        assert(g.lower@[g.orig2new@[i] as int].wf(g.size() as int));
    }
    assert forall|u: int, v: int|
        0 <= u < g.size() && g.kept(u) && #[trigger] edge(g, u, v) implies 0 <= v < g.size()
        && g.lower@[g.orig2new@[u] as int].stores(v) && g.orig2new@[u] <= g.orig2new@[v] by {
        let k = place(g.children(u), 0, g.children(u).len() as int, v);
        assert(below(g.children(u), g.size() as int));
        assert(g.children(u)[k] == v);
        assert(g.lower@[g.orig2new@[u] as int].stores(v));
    }
}

/// A row spreads to no row that stands behind it.
proof fn spreads_forward<'a, T: Scalar>(
    g: &LowerGraph<'a, T>,
    new2orig: Seq<usize>,
    visited: Seq<usize>,
    p: int,
    q: int,
)
    requires
        unit_lower(g.lower@, g.orig2new@, new2orig),
        postorder(g, visited),
        distinct(visited, 0, visited.len() as int),
        below(visited, g.size() as int),
        0 <= p < q < visited.len(),
        g.kept(visited[p] as int),
    ensures
        !edge(g, visited[p] as int, visited[q] as int),
{
    let u = visited[p] as int;
    let v = visited[q] as int;
    if edge(g, u, v) {
        lower_graph_closed(g, new2orig);
        assert(g.orig2new@[u] <= g.orig2new@[v]);
        if holds(visited, 0, p + 1, v) {
            let k = place(visited, 0, p + 1, v);
            assert(visited[k] != visited[q]);
        } else {
            assert(connected(g, v, u));
            let rank = |i: int| g.orig2new@[i] as int;
            rank_along(g, rank, v, u);
            assert(rank(v) <= rank(u));
            assert(new2orig[g.orig2new@[u] as int] == u);
            assert(new2orig[g.orig2new@[v] as int] == v);
            assert(visited[p] != visited[q]);
        }
    }
}

/// What a search from settled rows finds.
proof fn substitute_marks<G: Graph>(
    g: &G,
    roots: Seq<usize>,
    list: Seq<usize>,
    visited: Seq<usize>,
    flags: Seq<bool>,
    found: Seq<bool>,
)
    requires
        closed_graph(g),
        found.len() == g.size(),
        flags.len() == g.size(),
        below(roots, g.size() as int),
        below(visited, g.size() as int),
        forall|p: int| 0 <= p < roots.len() ==> g.kept(#[trigger] roots[p] as int),
        forall|p: int| 0 <= p < visited.len() ==> g.kept(#[trigger] visited[p] as int),
        forall|i: int|
            0 <= i < g.size() ==> (#[trigger] flags[i] <==> holds(roots, 0, roots.len() as int, i)),
        forall|i: int|
            0 <= i < g.size() ==> (#[trigger] found[i] <==> reachable(g, roots, i)),
        forall|i: int|
            0 <= i < g.size() ==> (#[trigger] found[i] <==> holds(
                visited,
                0,
                visited.len() as int,
                i,
            )),
        list == roots + unflagged(visited, flags),
    ensures
        forall|p: int| 0 <= p < list.len() ==> g.kept(#[trigger] list[p] as int),
        forall|q: int, r: int|
            0 <= q < visited.len() && #[trigger] edge(g, visited[q] as int, r) ==> found[r],
        forall|r: int| 0 <= r < g.size() && #[trigger] flags[r] ==> found[r],
        roots.len() == 0 ==> list.len() == 0 && visited.len() == 0,
{
    unflagged_inside(visited, flags);
    assert forall|p: int| 0 <= p < list.len() implies g.kept(#[trigger] list[p] as int) by {
        if p >= roots.len() {
            let u = unflagged(visited, flags)[p - roots.len()];
            let q = place(visited, 0, visited.len() as int, u as int);
            assert(g.kept(visited[q] as int));
        } else {
            assert(g.kept(roots[p] as int));
        }
    }
    assert forall|q: int, r: int|
        0 <= q < visited.len() && #[trigger] edge(g, visited[q] as int, r) implies found[r] by {
        let u = visited[q] as int;
        assert(holds(visited, 0, visited.len() as int, u));
        assert(found[u]);
        let a = choose|a: int|
            0 <= a < roots.len() && g.kept(#[trigger] roots[a] as int) && connected(
                g,
                roots[a] as int,
                u,
            );
        connected_step(g, roots[a] as int, u, r);
        assert(g.children(u).len() >= 0);
        let k = place(g.children(u), 0, g.children(u).len() as int, r);
        assert(below(g.children(u), g.size() as int));
        assert(g.children(u)[k] == r);
        assert(reachable(g, roots, r));
    }
    assert forall|r: int| 0 <= r < g.size() && #[trigger] flags[r] implies found[r] by {
        let a = place(roots, 0, roots.len() as int, r);
        assert(roots[a] == r && g.kept(roots[a] as int));
        connected_refl(g, r);
        assert(reachable(g, roots, r));
    }
    if roots.len() == 0 && visited.len() > 0 {
        assert(holds(visited, 0, visited.len() as int, visited[0] as int));
        assert(found[visited[0] as int]);
    }
}

proof fn unflagged_inside(s: Seq<usize>, flags: Seq<bool>)
    ensures
        unflagged(s, flags).len() <= s.len(),
        forall|p: int|
            0 <= p < unflagged(s, flags).len() ==> holds(
                s,
                0,
                s.len() as int,
                #[trigger] unflagged(s, flags)[p] as int,
            ),
    decreases s.len(),
{
    if s.len() > 0 {
        let t = s.drop_last();
        unflagged_inside(t, flags);
        assert forall|p: int| 0 <= p < unflagged(s, flags).len() implies holds(
            s,
            0,
            s.len() as int,
            #[trigger] unflagged(s, flags)[p] as int,
        ) by {
            let x = unflagged(s, flags)[p] as int;
            if p < unflagged(t, flags).len() {
                assert(unflagged(t, flags)[p] == x);
                let q = place(t, 0, t.len() as int, x);
                assert(s[q] == x);
            } else {
                assert(s[s.len() - 1] == x);
            }
        }
    }
}

/// Solves for the part of a column in the settled rows, with the entries of the column in these
/// rows already in place.
pub(crate) fn substitute<T: Scalar>(
    rhs: &mut ScatteredVec<T>,
    mark: &mut MarkNonzero,
    lower: &Vec<Col<T>>,
    orig2new: &Vec<usize>,
    Ghost(new2orig): Ghost<Seq<usize>>,
    Ghost(mat): Ghost<CsMat<T>>,
    Ghost(col): Ghost<int>,
)
    requires
        old(rhs).wf(),
        old(mark).wf(),
        unit_lower(lower@, orig2new@, new2orig),
        old(rhs).values@.len() == orig2new@.len(),
        old(mark).is_visited@.len() == orig2new@.len(),
        forall|p: int|
            0 <= p < old(rhs).nonzero@.len() ==> orig2new@[#[trigger] old(rhs).nonzero@[p] as int]
                < lower@.len(),
        forall|r: int|
            0 <= r < orig2new@.len() && orig2new@[r] < lower@.len() ==> #[trigger] old(
                rhs).values@[r] == mat.line(col, r) || !mat.line_has(col, r) && is_zero(
                old(rhs).values@[r],
            ),
    ensures
        final(rhs).wf(),
        final(mark).wf(),
        final(rhs).values@.len() == orig2new@.len(),
        final(mark).is_visited@.len() == orig2new@.len(),
        forall|p: int|
            0 <= p < final(rhs).nonzero@.len() ==> orig2new@[#[trigger] final(
                rhs).nonzero@[p] as int] < lower@.len(),
        ({
            let low = contents(lower@);
            let visited = search_order(
                orig2new@.len(),
                settled(lower@.len() as int, orig2new@),
                spreads_to(low, orig2new@),
                old(rhs).nonzero@,
            );
            &&& final(rhs).values@ == substituted(low, orig2new@, visited, 0, old(rhs).values@)
            &&& final(rhs).nonzero@ == old(rhs).nonzero@ + unflagged(
                visited,
                old(rhs).is_nonzero@,
            )
        }),
        old(rhs).nonzero@.len() == 0 ==> final(rhs).nonzero@.len() == 0,
        forall|r: int|
            0 <= r < orig2new@.len() && orig2new@[r] >= lower@.len() ==> #[trigger] final(
                rhs).values@[r] == old(rhs).values@[r],
        exact::<T>() ==> forall|r: int|
            0 <= r < orig2new@.len() && orig2new@[r] < lower@.len() && (#[trigger] final(
                rhs).values@[r]).finite() ==> reduced_row(
                mat,
                col,
                lower@,
                orig2new@,
                new2orig,
                final(rhs).values@,
                r,
            ),
{
    let g = LowerGraph { lower, orig2new };
    let ghost n = orig2new@.len() as int;
    proof {
        lower_graph_closed(&g, new2orig);
    }
    let ghost roots = rhs.nonzero@;
    let ghost v0 = rhs.values@;
    mark.run(rhs, &g);
    let ghost visited = mark.visited@;
    let ghost low = contents(lower@);
    proof {
        assert(kept_of(&g) =~= settled(lower@.len() as int, orig2new@));
        assert(children_of(&g) =~= spreads_to(low, orig2new@));
        substitute_marks(&g, roots, rhs.nonzero@, visited, old(rhs).is_nonzero@, mark.is_visited@);
        if exact::<T>() {
            substitute_start(mat, col, lower@, orig2new@, new2orig, visited, v0);
        }
    }
    let mut p: usize = mark.visited.len();
    while p > 0
        invariant
            p <= visited.len(),
            low == contents(lower@),
            rhs.values@ == substituted(low, orig2new@, visited, p as int, v0),
            rhs.nonzero@ == roots + unflagged(visited, old(rhs).is_nonzero@),
            mark.visited@ == visited,
            mark.wf(),
            mark.is_visited@.len() == n,
            n == orig2new@.len(),
            rhs.wf(),
            rhs.values@.len() == n,
            g.lower@ == lower@,
            g.orig2new@ == orig2new@,
            unit_lower(lower@, orig2new@, new2orig),
            postorder(&g, visited),
            distinct(visited, 0, visited.len() as int),
            below(visited, n),
            forall|q: int| 0 <= q < visited.len() ==> g.kept(#[trigger] visited[q] as int),
            forall|q: int|
                0 <= q < rhs.nonzero@.len() ==> g.kept(#[trigger] rhs.nonzero@[q] as int),
            forall|q: int, r: int|
                0 <= q < visited.len() && #[trigger] edge(&g, visited[q] as int, r)
                    ==> mark.is_visited@[r],
            forall|r: int|
                0 <= r < n && #[trigger] mark.is_visited@[r] ==> rhs.is_nonzero@[r],
            forall|r: int|
                0 <= r < n && g.kept(r) && #[trigger] rhs.is_nonzero@[r] ==> mark.is_visited@[r],
            roots.len() == 0 ==> rhs.nonzero@.len() == 0,
            forall|r: int|
                0 <= r < n && orig2new@[r] >= lower@.len() ==> #[trigger] rhs.values@[r] == v0[r],
            exact::<T>() ==> substituting(
                mat,
                col,
                lower@,
                orig2new@,
                new2orig,
                visited,
                p as int,
                rhs.values@,
            ),
        decreases p,
    {
        p -= 1;
        let ghost before = rhs.values@;
        let orig_i: usize = mark.visited[p];
        assert(g.kept(visited[p as int] as int));
        let x_val = rhs.values[orig_i];
        let new_i: usize = orig2new[orig_i];
        assert(lower@[new_i as int].wf(n));
        subtract_above(&mut rhs.values, x_val, &lower[new_i], orig2new, new_i, lower.len());
        proof {
            assert(rhs.values@ =~= taken_above(low, orig2new@, before, orig_i as int));
            assert forall|r: int|
                0 <= r < n && lower@[new_i as int].stores(r) && orig2new@[r] < lower@.len() implies
                #[trigger] rhs.is_nonzero@[r] by {
                assert(edge(&g, visited[p as int] as int, r));
                assert(mark.is_visited@[r]);
            }
            assert forall|r: int| 0 <= r < n && !rhs.is_nonzero@[r] implies is_zero(
                #[trigger] rhs.values@[r],
            ) by {
                assert(rhs.values@[r] == before[r]);
            }
            assert forall|q: int| p < q < visited.len() implies rhs.values@[
                #[trigger] visited[q] as int] == before[visited[q] as int] by {
                spreads_forward(&g, new2orig, visited, p as int, q);
                assert(g.kept(visited[q] as int));
                if lower@[new_i as int].stores(visited[q] as int) {
                    assert(edge(&g, visited[p as int] as int, visited[q] as int));
                }
            }
            if exact::<T>() {
                substitute_step(
                    mat,
                    col,
                    lower@,
                    orig2new@,
                    new2orig,
                    visited,
                    p as int,
                    before,
                    rhs.values@,
                );
            }
        }
    }
    proof {
        if exact::<T>() {
            assert forall|r: int|
                0 <= r < n && orig2new@[r] < lower@.len() && !holds(
                    visited,
                    0,
                    visited.len() as int,
                    r,
                ) implies is_zero(#[trigger] rhs.values@[r]) by {
                assert(g.kept(r));
                assert(!mark.is_visited@[r]);
            }
            substitute_end(mat, col, lower@, orig2new@, new2orig, visited, rhs.values@);
        }
    }
}

/// The columns whose rows stand at the first `i` places of the list.
pub open spec fn taken(list: Seq<usize>, i: int, new2orig: Seq<usize>) -> spec_fn(int) -> bool {
    |j: int| holds(list, 0, i, new2orig[j] as int)
}

/// The state of the elimination in the rows that are not settled.
pub open spec fn eliminating<T: Scalar>(
    mat: CsMat<T>,
    col: int,
    lower: Seq<Col<T>>,
    orig2new: Seq<usize>,
    new2orig: Seq<usize>,
    list: Seq<usize>,
    i: int,
    v: Seq<T>,
) -> bool {
    forall|r: int|
        0 <= r < v.len() && orig2new[r] >= lower.len() && (#[trigger] v[r]).finite() ==> mat.line(
            col,
            r,
        ).val() == v[r].val() + sum(
            products(lower, new2orig, v, r, taken(list, i, new2orig)),
            lower.len(),
        )
}

proof fn eliminate_step<T: Scalar>(
    mat: CsMat<T>,
    col: int,
    lower: Seq<Col<T>>,
    orig2new: Seq<usize>,
    new2orig: Seq<usize>,
    list: Seq<usize>,
    i: int,
    v0: Seq<T>,
    v1: Seq<T>,
)
    requires
        exact::<T>(),
        unit_lower(lower, orig2new, new2orig),
        v0.len() == orig2new.len(),
        v1.len() == v0.len(),
        0 <= i < list.len(),
        distinct(list, 0, list.len() as int),
        below(list, v0.len() as int),
        orig2new[list[i] as int] < lower.len(),
        eliminating(mat, col, lower, orig2new, new2orig, list, i, v0),
        v0[list[i] as int].same_spec(T::zero_spec()) ==> v1 == v0,
        !v0[list[i] as int].same_spec(T::zero_spec()) ==> forall|r: int|
            0 <= r < v0.len() ==> #[trigger] v1[r] == if lower[orig2new[list[i] as int] as int].stores(r)
                && lower.len() <= orig2new[r] {
                v0[r].minus_spec(
                    lower[orig2new[list[i] as int] as int].cell(r).times_spec(v0[list[i] as int]),
                )
            } else {
                v0[r]
            },
    ensures
        eliminating(mat, col, lower, orig2new, new2orig, list, i + 1, v1),
{
    let u = list[i] as int;
    let m = orig2new[u] as int;
    assert(new2orig[m] == u);
    one_more(list, 0, list.len() as int, i);
    assert forall|r: int|
        0 <= r < v1.len() && orig2new[r] >= lower.len() && (#[trigger] v1[r]).finite() implies mat.line(
        col,
        r,
    ).val() == v1[r].val() + sum(
        products(lower, new2orig, v1, r, taken(list, i + 1, new2orig)),
        lower.len(),
    ) by {
        let f0 = products(lower, new2orig, v0, r, taken(list, i, new2orig));
        let f1 = products(lower, new2orig, v1, r, taken(list, i + 1, new2orig));
        assert(v0[r].finite());
        assert forall|j: int| 0 <= j < lower.len() && j != m implies #[trigger] f0(j) == f1(j) by {
            let w = new2orig[j] as int;
            assert(orig2new[w] == j);
            assert(v1[w] == v0[w]);
        }
        sum_but_one(f0, f1, lower.len(), m);
        assert(v1[u] == v0[u]);
        times_zero(lower[m].cell(r).val());
        times_zero(v0[u].val());
    }
}

proof fn eliminate_start<T: Scalar>(
    mat: CsMat<T>,
    col: int,
    lower: Seq<Col<T>>,
    orig2new: Seq<usize>,
    new2orig: Seq<usize>,
    list: Seq<usize>,
    v: Seq<T>,
)
    requires
        exact::<T>(),
        forall|r: int|
            0 <= r < v.len() && orig2new[r] >= lower.len() ==> #[trigger] v[r] == mat.line(col, r)
                || !mat.line_has(col, r) && is_zero(v[r]),
    ensures
        eliminating(mat, col, lower, orig2new, new2orig, list, 0, v),
{
    assert forall|r: int|
        0 <= r < v.len() && orig2new[r] >= lower.len() && (#[trigger] v[r]).finite() implies mat.line(
        col,
        r,
    ).val() == v[r].val() + sum(
        products(lower, new2orig, v, r, taken(list, 0, new2orig)),
        lower.len(),
    ) by {
        let f = products(lower, new2orig, v, r, taken(list, 0, new2orig));
        assert forall|j: int| 0 <= j < lower.len() implies #[trigger] f(j) == 0 as real by {
            assert(!holds(list, 0, 0, new2orig[j] as int));
        }
        sum_zero(f, lower.len());
    }
}

proof fn eliminate_end<T: Scalar>(
    mat: CsMat<T>,
    col: int,
    lower: Seq<Col<T>>,
    orig2new: Seq<usize>,
    new2orig: Seq<usize>,
    list: Seq<usize>,
    count: int,
    v: Seq<T>,
)
    requires
        exact::<T>(),
        unit_lower(lower, orig2new, new2orig),
        v.len() == orig2new.len(),
        eliminating(mat, col, lower, orig2new, new2orig, list, count, v),
        forall|r: int|
            0 <= r < v.len() && orig2new[r] < lower.len() && !holds(list, 0, count, r) ==> is_zero(
                #[trigger] v[r],
            ),
    ensures
        forall|r: int|
            0 <= r < v.len() && orig2new[r] >= lower.len() && (#[trigger] v[r]).finite()
                ==> reduced_row(mat, col, lower, orig2new, new2orig, v, r),
{
    assert forall|r: int|
        0 <= r < v.len() && orig2new[r] >= lower.len() && (#[trigger] v[r]).finite() implies reduced_row(
        mat,
        col,
        lower,
        orig2new,
        new2orig,
        v,
        r,
    ) by {
        let f0 = products(lower, new2orig, v, r, taken(list, count, new2orig));
        let f1 = products(lower, new2orig, v, r, |j: int| true);
        assert forall|j: int| 0 <= j < lower.len() implies #[trigger] f0(j) == f1(j) by {
            let w = new2orig[j] as int;
            assert(orig2new[w] == j);
            if !holds(list, 0, count, w) {
                assert(is_zero(v[w]));
                times_zero(lower[j].cell(r).val());
            }
        }
        sum_same(f0, f1, lower.len());
    }
}

/// The entries of column `c` of the upper factor that the first `i` places of the list give.
pub open spec fn upper_column<T: Scalar>(
    upper: TriMat<T>,
    c: int,
    list: Seq<usize>,
    i: int,
    orig2new: Seq<usize>,
    v: Seq<T>,
) -> bool {
    &&& forall|r: int|
        0 <= r < v.len() ==> #[trigger] upper.stores(orig2new[r] as int, c) == (holds(list, 0, i, r)
            && !v[r].same_spec(T::zero_spec()))
    &&& forall|r: int|
        0 <= r < v.len() && holds(list, 0, i, r) && !v[r].same_spec(T::zero_spec())
            ==> #[trigger] upper.value(orig2new[r] as int, c) == v[r]
}

/// Moves the settled part of a column to the upper factor and eliminates it from the rest.
pub(crate) fn eliminate<T: Scalar>(
    rhs: &mut ScatteredVec<T>,
    count: usize,
    lower: &Vec<Col<T>>,
    orig2new: &Vec<usize>,
    upper: &mut TriMat<T>,
    Ghost(new2orig): Ghost<Seq<usize>>,
    Ghost(mat): Ghost<CsMat<T>>,
    Ghost(col): Ghost<int>,
)
    requires
        old(rhs).wf(),
        old(upper).wf(),
        old(upper).nrows == orig2new@.len(),
        lower@.len() < old(upper).ncols,
        unit_lower(lower@, orig2new@, new2orig),
        old(rhs).values@.len() == orig2new@.len(),
        count <= old(rhs).nonzero@.len(),
        forall|p: int|
            0 <= p < old(rhs).nonzero@.len() ==> (p < count <==> orig2new@[#[trigger] old(
                rhs).nonzero@[p] as int] < lower@.len()),
        forall|r: int| !#[trigger] old(upper).stores(r, lower@.len() as int),
        forall|r: int|
            0 <= r < orig2new@.len() && orig2new@[r] >= lower@.len() ==> #[trigger] old(
                rhs).values@[r] == mat.line(col, r) || !mat.line_has(col, r) && is_zero(
                old(rhs).values@[r],
            ),
    ensures
        final(rhs).wf(),
        final(rhs).values@.len() == orig2new@.len(),
        old(rhs).nonzero@.len() <= final(rhs).nonzero@.len(),
        final(rhs).nonzero@.subrange(0, old(rhs).nonzero@.len() as int) == old(rhs).nonzero@,
        forall|p: int|
            0 <= p < final(rhs).nonzero@.len() ==> (p < count <==> orig2new@[#[trigger] final(
                rhs).nonzero@[p] as int] < lower@.len()),
        forall|r: int|
            0 <= r < orig2new@.len() && orig2new@[r] < lower@.len() ==> #[trigger] final(
                rhs).values@[r] == old(rhs).values@[r],
        (final(rhs).nonzero@, final(rhs).values@) == spread(
            contents(lower@),
            orig2new@,
            old(rhs).nonzero@,
            count as int,
            old(rhs).values@,
        ),
        count == 0 ==> final(rhs).values@ == old(rhs).values@ && final(rhs).nonzero@ == old(
            rhs).nonzero@ && final(upper).data@ == old(upper).data@,
        final(upper).wf(),
        final(upper).nrows == old(upper).nrows,
        final(upper).ncols == old(upper).ncols,
        upper_column(
            *final(upper),
            lower@.len() as int,
            old(rhs).nonzero@,
            count as int,
            orig2new@,
            final(rhs).values@,
        ),
        forall|i: int, j: int|
            j != lower@.len() ==> #[trigger] final(upper).stores(i, j) == old(upper).stores(i, j),
        forall|i: int, j: int|
            j != lower@.len() ==> #[trigger] final(upper).value(i, j) == old(upper).value(i, j),
        exact::<T>() ==> forall|r: int|
            0 <= r < orig2new@.len() && orig2new@[r] >= lower@.len() && (#[trigger] final(
                rhs).values@[r]).finite() ==> reduced_row(
                mat,
                col,
                lower@,
                orig2new@,
                new2orig,
                final(rhs).values@,
                r,
            ),
{
    let c: usize = lower.len();
    let ghost n = orig2new@.len() as int;
    let ghost list = rhs.nonzero@;
    let ghost len = list.len() as int;
    let ghost first = rhs.values@;
    proof {
        if exact::<T>() {
            eliminate_start(mat, col, lower@, orig2new@, new2orig, list, first);
        }
        assert(rhs.nonzero@.subrange(0, len) =~= list);
        assert forall|r: int| 0 <= r < n implies !#[trigger] upper.stores(
            orig2new@[r] as int,
            c as int,
        ) by {}
    }
    let mut i: usize = 0;
    while i < count
        invariant
            (rhs.nonzero@, rhs.values@) == spread(
                contents(lower@),
                orig2new@,
                list,
                i as int,
                first,
            ),
            c == lower@.len(),
            n == orig2new@.len(),
            count <= len,
            i <= count,
            len == list.len(),
            len <= rhs.nonzero@.len(),
            rhs.nonzero@.subrange(0, len) == list,
            rhs.wf(),
            rhs.values@.len() == n,
            first.len() == n,
            upper.wf(),
            upper.nrows == n,
            upper.nrows == old(upper).nrows,
            upper.ncols == old(upper).ncols,
            c < upper.ncols,
            distinct(list, 0, len),
            below(list, n),
            unit_lower(lower@, orig2new@, new2orig),
            forall|p: int|
                0 <= p < rhs.nonzero@.len() ==> (p < count
                    <==> orig2new@[#[trigger] rhs.nonzero@[p] as int] < c),
            forall|r: int|
                0 <= r < n && orig2new@[r] < c ==> #[trigger] rhs.values@[r] == first[r],
            upper_column(*upper, c as int, list, i as int, orig2new@, rhs.values@),
            forall|i: int, j: int|
                j != c ==> #[trigger] upper.stores(i, j) == old(upper).stores(i, j),
            forall|i: int, j: int|
                j != c ==> #[trigger] upper.value(i, j) == old(upper).value(i, j),
            count == 0 ==> rhs.values@ == first && rhs.nonzero@ == list && upper.data@ == old(
                upper).data@,
            exact::<T>() ==> eliminating(
                mat,
                col,
                lower@,
                orig2new@,
                new2orig,
                list,
                i as int,
                rhs.values@,
            ),
        decreases count - i,
    {
        let ghost before = *rhs;
        let ghost upper0 = *upper;
        let orig_u_r: usize = rhs.nonzero[i];
        assert(rhs.nonzero@.subrange(0, len)[i as int] == list[i as int]);
        assert(orig2new@[rhs.nonzero@[i as int] as int] < c);
        let u_coeff = rhs.values[orig_u_r];
        proof {
            one_more(list, 0, len, i as int);
        }
        if !u_coeff.same(T::zero()) {
            let new_u_r: usize = orig2new[orig_u_r];
            assert(!upper.stores(orig2new@[orig_u_r as int] as int, c as int));
            upper.add_triplet(new_u_r, c, u_coeff);
            assert(lower@[new_u_r as int].wf(n));
            subtract_below(rhs, u_coeff, &lower[new_u_r], orig2new, c);
            proof {
                assert(rhs.values@ =~= taken_below(
                    contents(lower@),
                    orig2new@,
                    before.values@,
                    orig_u_r as int,
                ));
                longer_prefix(list, before.nonzero@, rhs.nonzero@);
                assert forall|p: int| 0 <= p < rhs.nonzero@.len() implies (p < count
                    <==> orig2new@[#[trigger] rhs.nonzero@[p] as int] < c) by {
                    if p < before.nonzero@.len() {
                        assert(rhs.nonzero@.subrange(0, before.nonzero@.len() as int)[p]
                            == before.nonzero@[p]);
                    }
                }
            }
        }
        proof {
            upper_column_step(
                upper0,
                *upper,
                c as int,
                list,
                i as int,
                orig2new@,
                new2orig,
                before.values@,
                rhs.values@,
            );
            if exact::<T>() {
                eliminate_step(
                    mat,
                    col,
                    lower@,
                    orig2new@,
                    new2orig,
                    list,
                    i as int,
                    before.values@,
                    rhs.values@,
                );
            }
        }
        i += 1;
    }
    proof {
        if exact::<T>() {
            assert forall|r: int|
                0 <= r < n && orig2new@[r] < lower@.len() && !holds(
                    list,
                    0,
                    count as int,
                    r,
                ) implies is_zero(#[trigger] rhs.values@[r]) by {
                if rhs.is_nonzero@[r] {
                    assert(rhs.marked(r));
                    let p = place(rhs.nonzero@, 0, rhs.nonzero@.len() as int, r);
                    assert(rhs.nonzero@[p] == r);
                    assert(rhs.nonzero@.subrange(0, len)[p] == list[p]);
                    assert(holds(list, 0, count as int, r));
                }
            }
            eliminate_end(
                mat,
                col,
                lower@,
                orig2new@,
                new2orig,
                list,
                count as int,
                rhs.values@,
            );
        }
    }
}

proof fn longer_prefix(a: Seq<usize>, b: Seq<usize>, c: Seq<usize>)
    requires
        a.len() <= b.len() <= c.len(),
        b.subrange(0, a.len() as int) == a,
        c.subrange(0, b.len() as int) == b,
    ensures
        c.subrange(0, a.len() as int) == a,
{
    assert forall|p: int| 0 <= p < a.len() implies c[p] == a[p] by {
        assert(c.subrange(0, b.len() as int)[p] == b[p]);
        assert(b.subrange(0, a.len() as int)[p] == a[p]);
    }
    assert(c.subrange(0, a.len() as int) =~= a);
}

proof fn upper_column_step<T: Scalar>(
    upper0: TriMat<T>,
    upper1: TriMat<T>,
    c: int,
    list: Seq<usize>,
    i: int,
    orig2new: Seq<usize>,
    new2orig: Seq<usize>,
    v0: Seq<T>,
    v1: Seq<T>,
)
    requires
        inverse(orig2new, new2orig),
        v0.len() == orig2new.len(),
        v1.len() == v0.len(),
        0 <= i < list.len(),
        distinct(list, 0, list.len() as int),
        below(list, v0.len() as int),
        upper_column(upper0, c, list, i, orig2new, v0),
        forall|r: int| 0 <= r < v0.len() && holds(list, 0, i + 1, r) ==> #[trigger] v1[r] == v0[r],
        v0[list[i] as int].same_spec(T::zero_spec()) ==> upper1 == upper0,
        !v0[list[i] as int].same_spec(T::zero_spec()) ==> {
            let m = orig2new[list[i] as int] as int;
            &&& forall|a: int, b: int| #[trigger]
                upper1.stores(a, b) == (upper0.stores(a, b) || (a == m && b == c))
            &&& forall|a: int, b: int| #[trigger]
                upper1.value(a, b) == if a == m && b == c {
                    v0[list[i] as int]
                } else {
                    upper0.value(a, b)
                }
        },
    ensures
        upper_column(upper1, c, list, i + 1, orig2new, v1),
{
    one_more(list, 0, list.len() as int, i);
    let u = list[i] as int;
    assert(holds(list, 0, i + 1, u));
    assert forall|r: int| 0 <= r < v1.len() implies #[trigger] upper1.stores(
        orig2new[r] as int,
        c,
    ) == (holds(list, 0, i + 1, r) && !v1[r].same_spec(T::zero_spec())) by {
        assert(upper0.stores(orig2new[r] as int, c) == (holds(list, 0, i, r) && !v0[r].same_spec(
            T::zero_spec(),
        )));
        assert(new2orig[orig2new[r] as int] == r);
        assert(new2orig[orig2new[u] as int] == u);
    }
    assert forall|r: int|
        0 <= r < v1.len() && holds(list, 0, i + 1, r) && !v1[r].same_spec(T::zero_spec()) implies
        #[trigger] upper1.value(orig2new[r] as int, c) == v1[r] by {
        assert(new2orig[orig2new[r] as int] == r);
        assert(new2orig[orig2new[u] as int] == u);
        if r != u {
            assert(upper0.value(orig2new[r] as int, c) == v0[r]);
        }
    }
}

} // verus!
