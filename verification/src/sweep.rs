//! Triangular systems with a sparse right-hand side.
use crate::elim::one_more;
use crate::lu::{is_lower, is_upper, square, ScratchSpace};
use crate::reach::{
    children_of, closed_graph, connected, connected_refl, connected_step, edge, kept_of, postorder,
    rank_along, reachable, search_order, unflagged, Graph,
};
use crate::scalar::{exact, is_zero, Scalar};
use crate::scattered::ScatteredVec;
use crate::sparse::{at_place, below, distinct, holds, place, CsMat, Storage};
use crate::sums::{sum, sum_but_one, sum_same, sum_zero, times_zero};
use crate::tri::{first_is_diag, last_is_diag, rows_hold, tri_terms};
use vstd::prelude::*;

verus! {

/// Which half of a matrix holds its entries.
#[derive(Clone, Copy, Debug, PartialEq, Eq, Structural)]
pub enum Triangle {
    Lower,
    Upper,
}

/// Whether the matrix is triangular in that way.
pub open spec fn is_triangle<T: Scalar>(m: CsMat<T>, triangle: Triangle, n: int) -> bool {
    match triangle {
        Triangle::Lower => is_lower(m, n),
        Triangle::Upper => is_upper(m, n),
    }
}

/// Every column points to the rows in which it has an entry.
pub struct ColumnGraph<'a, T> {
    pub mat: &'a CsMat<T>,
}

impl<'a, T: Scalar> Graph for ColumnGraph<'a, T> {
    open spec fn wf(&self) -> bool {
        square(*self.mat, self.mat.ncols as int)
    }

    open spec fn size(&self) -> nat {
        self.mat.ncols as nat
    }

    open spec fn kept(&self, i: int) -> bool {
        true
    }

    open spec fn children(&self, i: int) -> Seq<usize> {
        self.mat.indices@.subrange(self.mat.lo(i), self.mat.hi(i))
    }

    fn keeps(&self, i: usize) -> (r: bool) {
        true
    }

    fn child_count(&self, i: usize) -> (r: usize) {
        proof {
            self.mat.line_wf(i as int);
        }
        self.mat.indptr[i + 1] - self.mat.indptr[i]
    }

    fn child(&self, i: usize, k: usize) -> (r: usize) {
        proof {
            self.mat.line_wf(i as int);
        }
        self.mat.indices[self.mat.indptr[i] + k]
    }
}

/// The right-hand side once the unknown `c` is computed and taken off the other rows.
pub open spec fn swept_column<T: Scalar>(m: CsMat<T>, v: Seq<T>, c: int) -> Seq<T> {
    let x = v[c].over_spec(m.line(c, c));
    Seq::new(
        v.len(),
        |r: int|
            if r == c {
                x
            } else if m.line_has(c, r) {
                v[r].minus_spec(x.times_spec(m.line(c, r)))
            } else {
                v[r]
            },
    )
}

/// The right-hand side once the unknowns at the places from the last one down to `p` are done.
pub open spec fn swept<T: Scalar>(m: CsMat<T>, v: Seq<T>, visited: Seq<usize>, p: int) -> Seq<T>
    decreases visited.len() - p,
{
    if p >= visited.len() {
        v
    } else {
        swept_column(m, swept(m, v, visited, p + 1), visited[p] as int)
    }
}

/// `x` is what substitution makes of `b` when the unknowns are taken in the order in which a
/// depth-first search finds them, and only those which can differ from zero.
pub open spec fn sparsely_solved<T: Scalar>(
    m: CsMat<T>,
    b: ScatteredVec<T>,
    x: ScatteredVec<T>,
    visited: Seq<usize>,
) -> bool {
    let g = ColumnGraph { mat: &m };
    &&& x.values@ == swept(m, b.values@, visited, 0)
    &&& x.nonzero@ == b.nonzero@ + unflagged(visited, b.is_nonzero@)
    &&& visited == search_order(g.size(), kept_of(&g), children_of(&g), b.nonzero@)
    &&& distinct(visited, 0, visited.len() as int)
    &&& below(visited, b.values@.len() as int)
    &&& postorder(&g, visited)
    &&& forall|i: int|
        0 <= i < b.values@.len() ==> (#[trigger] holds(visited, 0, visited.len() as int, i)
            <==> reachable(&g, b.nonzero@, i))
}

proof fn column_graph_closed<T: Scalar>(m: &CsMat<T>)
    requires
        square(*m, m.ncols as int),
    ensures
        closed_graph(&ColumnGraph { mat: m }),
        forall|u: int, v: int|
            0 <= u < m.ncols ==> (#[trigger] edge(&ColumnGraph { mat: m }, u, v) <==> m.line_has(
                u,
                v,
            )),
        forall|u: int, v: int| 0 <= u < m.ncols && #[trigger] m.line_has(u, v) ==> 0 <= v < m.ncols,
{
    let g = ColumnGraph { mat: m };
    assert forall|i: int| 0 <= i < g.size() && g.kept(i) implies below(
        #[trigger] g.children(i),
        g.size() as int,
    ) by {
        m.line_wf(i);
    }
    assert forall|u: int, v: int| 0 <= u < m.ncols implies (#[trigger] edge(&g, u, v)
        <==> m.line_has(u, v)) by {
        m.line_wf(u);
        let s = g.children(u);
        if m.line_has(u, v) {
            let p = place(m.indices@, m.lo(u), m.hi(u), v);
            assert(s[p - m.lo(u)] == v);
        }
        if edge(&g, u, v) {
            let p = place(s, 0, s.len() as int, v);
            assert(m.indices@[p + m.lo(u)] == v);
        }
    }
    assert forall|u: int, v: int| 0 <= u < m.ncols && #[trigger] m.line_has(u, v) implies 0 <= v
        < m.ncols by {
        m.line_wf(u);
        let p = place(m.indices@, m.lo(u), m.hi(u), v);
        assert(m.indices@[p] == v);
    }
}

/// An unknown is taken off no row whose unknown was computed before.
proof fn sweeps_forward<T: Scalar>(
    m: &CsMat<T>,
    triangle: Triangle,
    visited: Seq<usize>,
    p: int,
    q: int,
)
    requires
        is_triangle(*m, triangle, m.ncols as int),
        postorder(&ColumnGraph { mat: m }, visited),
        distinct(visited, 0, visited.len() as int),
        below(visited, m.ncols as int),
        0 <= p < q < visited.len(),
    ensures
        !m.line_has(visited[p] as int, visited[q] as int),
{
    let g = ColumnGraph { mat: m };
    let u = visited[p] as int;
    let v = visited[q] as int;
    column_graph_closed(m);
    if m.line_has(u, v) {
        assert(edge(&g, u, v));
        if holds(visited, 0, p + 1, v) {
            let k = place(visited, 0, p + 1, v);
            assert(visited[k] != visited[q]);
        } else {
            assert(connected(&g, v, u));
            let rank = |i: int|
                match triangle {
                    Triangle::Lower => i,
                    Triangle::Upper => -i,
                };
            assert forall|a: int, b: int|
                0 <= a < g.size() && g.kept(a) && #[trigger] edge(&g, a, b) implies rank(a)
                <= rank(b) by {
                assert(m.line_has(a, b));
            }
            rank_along(&g, rank, v, u);
            assert(visited[p] != visited[q]);
        }
    }
}

/// The unknowns at the places from `p` on.
pub open spec fn done(visited: Seq<usize>, p: int) -> spec_fn(int) -> bool {
    |j: int| holds(visited, p, visited.len() as int, j)
}

/// What the unknowns in `d` contribute to row `i`.
pub open spec fn done_terms<T: Scalar>(
    m: CsMat<T>,
    x: Seq<T>,
    i: int,
    d: spec_fn(int) -> bool,
) -> spec_fn(int) -> real {
    |j: int|
        if d(j) {
            m.line(j, i).val() * x[j].val()
        } else {
            0 as real
        }
}

/// The state of the substitution.
pub open spec fn sweeping<T: Scalar>(
    m: CsMat<T>,
    b: Seq<T>,
    visited: Seq<usize>,
    p: int,
    v: Seq<T>,
) -> bool {
    forall|i: int|
        0 <= i < b.len() && (#[trigger] v[i]).finite() ==> b[i].finite() && b[i].val() == (if done(
            visited,
            p,
        )(i) {
            0 as real
        } else {
            v[i].val()
        }) + sum(done_terms(m, v, i, done(visited, p)), b.len())
}

proof fn sweep_step<T: Scalar>(
    m: &CsMat<T>,
    triangle: Triangle,
    b: Seq<T>,
    visited: Seq<usize>,
    p: int,
    v0: Seq<T>,
)
    requires
        exact::<T>(),
        is_triangle(*m, triangle, b.len() as int),
        postorder(&ColumnGraph { mat: m }, visited),
        distinct(visited, 0, visited.len() as int),
        below(visited, b.len() as int),
        0 <= p < visited.len(),
        v0.len() == b.len(),
        sweeping(*m, b, visited, p + 1, v0),
    ensures
        sweeping(*m, b, visited, p, swept_column(*m, v0, visited[p] as int)),
{
    let c = visited[p] as int;
    let n = b.len();
    let len = visited.len() as int;
    let x = v0[c].over_spec(m.line(c, c));
    let v1 = swept_column(*m, v0, c);
    let d0 = done(visited, p + 1);
    let d1 = done(visited, p);
    assert(!d0(c)) by {
        if holds(visited, p + 1, len, c) {
            let q = place(visited, p + 1, len, c);
            assert(visited[p] != visited[q]);
        }
    }
    assert(d1(c)) by {
        assert(visited[p] == c);
    }
    assert forall|j: int| j != c implies #[trigger] d0(j) == d1(j) by {
        if d1(j) {
            let q = place(visited, p, len, j);
            assert(visited[q] == j);
        }
        if d0(j) {
            let q = place(visited, p + 1, len, j);
            assert(visited[q] == j);
        }
    }
    assert forall|j: int| 0 <= j < n && d0(j) implies #[trigger] v1[j] == v0[j] by {
        let q = place(visited, p + 1, len, j);
        assert(visited[q] == j);
        sweeps_forward(m, triangle, visited, p, q);
    }
    assert forall|i: int| 0 <= i < n && (#[trigger] v1[i]).finite() implies b[i].finite()
        && b[i].val() == (if d1(i) {
        0 as real
    } else {
        v1[i].val()
    }) + sum(done_terms(*m, v1, i, d1), n) by {
        let f0 = done_terms(*m, v0, i, d0);
        let f1 = done_terms(*m, v1, i, d1);
        assert forall|j: int| 0 <= j < n && j != c implies #[trigger] f0(j) == f1(j) by {
            assert(d0(j) == d1(j));
            if d0(j) {
                assert(v1[j] == v0[j]);
            }
        }
        sum_but_one(f0, f1, n, c);
        assert(f0(c) == 0 as real);
        assert(f1(c) == m.line(c, i).val() * x.val());
        if i == c {
            let (y, z) = (v0[c].val(), m.line(c, c).val());
            assert(z * (y / z) == y) by (nonlinear_arith)
                requires
                    z != 0 as real,
            ;
            assert(v0[i].finite());
        } else if m.line_has(c, i) {
            let (y, z) = (x.val(), m.line(c, i).val());
            assert(y * z == z * y) by (nonlinear_arith);
            assert(v0[i].finite());
            assert(!d0(i)) by {
                if d0(i) {
                    let q = place(visited, p + 1, len, i);
                    assert(visited[q] == i);
                    sweeps_forward(m, triangle, visited, p, q);
                }
            }
        } else {
            times_zero(x.val());
            assert(v0[i].finite());
        }
    }
}

proof fn sweep_all<T: Scalar>(
    m: &CsMat<T>,
    triangle: Triangle,
    b: Seq<T>,
    visited: Seq<usize>,
    p: int,
)
    requires
        exact::<T>(),
        is_triangle(*m, triangle, b.len() as int),
        postorder(&ColumnGraph { mat: m }, visited),
        distinct(visited, 0, visited.len() as int),
        below(visited, b.len() as int),
        0 <= p <= visited.len(),
    ensures
        swept(*m, b, visited, p).len() == b.len(),
        sweeping(*m, b, visited, p, swept(*m, b, visited, p)),
    decreases visited.len() - p,
{
    if p < visited.len() {
        sweep_all(m, triangle, b, visited, p + 1);
        sweep_step(m, triangle, b, visited, p, swept(*m, b, visited, p + 1));
    } else {
        assert forall|i: int| 0 <= i < b.len() && (#[trigger] b[i]).finite() implies b[i].val()
            == (if done(visited, p)(i) {
            0 as real
        } else {
            b[i].val()
        }) + sum(done_terms(*m, b, i, done(visited, p)), b.len()) by {
            let f = done_terms(*m, b, i, done(visited, p));
            assert forall|j: int| 0 <= j < b.len() implies #[trigger] f(j) == 0 as real by {}
            sum_zero(f, b.len());
        }
    }
}

/// Sparse substitution solves the system.
pub proof fn sparse_solves<T: Scalar>(
    m: CsMat<T>,
    triangle: Triangle,
    b: ScatteredVec<T>,
    x: ScatteredVec<T>,
    visited: Seq<usize>,
)
    requires
        exact::<T>(),
        is_triangle(m, triangle, b.values@.len() as int),
        b.wf(),
        x.wf(),
        sparsely_solved(m, b, x, visited),
        forall|i: int|
            0 <= i < b.values@.len() && #[trigger] x.is_nonzero@[i] ==> holds(
                visited,
                0,
                visited.len() as int,
                i,
            ),
    ensures
        rows_hold(m, false, x.values@, b.values@),
{
    let n = b.values@.len();
    sweep_all(&m, triangle, b.values@, visited, 0);
    let v = x.values@;
    let d = done(visited, 0);
    assert forall|i: int| 0 <= i < n && (#[trigger] v[i]).finite() implies b.values@[i].finite()
        && sum(tri_terms(m, false, v, i), n) == b.values@[i].val() by {
        let f = done_terms(m, v, i, d);
        let g = tri_terms(m, false, v, i);
        assert forall|j: int| 0 <= j < n implies #[trigger] f(j) == g(j) by {
            if !d(j) {
                assert(!x.is_nonzero@[j]);
                assert(is_zero(v[j]));
                times_zero(m.line(j, i).val());
            }
        }
        sum_same(f, g, n);
        if !d(i) {
            assert(!x.is_nonzero@[i]);
            assert(is_zero(v[i]));
        }
    }
}

/// Computes the unknown `c` and takes it off the other rows.
fn sweep_column<T: Scalar>(m: &CsMat<T>, c: usize, diag: T, values: &mut Vec<T>)
    requires
        m.wf(),
        m.storage == Storage::Csc,
        c < m.ncols,
        m.line_has(c as int, c as int),
        diag == m.line(c as int, c as int),
        old(values)@.len() == m.nrows,
    ensures
        final(values)@ == swept_column(*m, old(values)@, c as int),
{
    proof {
        m.line_wf(c as int);
    }
    let ghost before = values@;
    let lo: usize = m.indptr[c];
    let hi: usize = m.indptr[c + 1];
    assert(c < values@.len()) by {
        let q = place(m.indices@, lo as int, hi as int, c as int);
        assert(m.indices@[q] < m.nrows);
    }
    let x_val = values[c].over(diag);
    let mut p: usize = lo;
    while p < hi
        invariant
            lo == m.lo(c as int),
            hi == m.hi(c as int),
            lo <= p <= hi <= m.indices@.len(),
            m.indices@.len() == m.data@.len(),
            distinct(m.indices@, lo as int, hi as int),
            below(m.indices@, before.len() as int),
            values@.len() == before.len(),
            x_val == before[c as int].over_spec(m.line(c as int, c as int)),
            forall|r: int|
                0 <= r < before.len() ==> #[trigger] values@[r] == if !holds(
                    m.indices@,
                    lo as int,
                    p as int,
                    r,
                ) {
                    before[r]
                } else if r == c {
                    x_val
                } else {
                    before[r].minus_spec(x_val.times_spec(m.line(c as int, r)))
                },
        decreases hi - p,
    {
        let r: usize = m.indices[p];
        proof {
            at_place(m.indices@, m.data@, lo as int, hi as int, p as int);
            one_more(m.indices@, lo as int, hi as int, p as int);
        }
        if r == c {
            values[r] = x_val;
        } else {
            let v = values[r].minus(x_val.times(m.data[p]));
            values[r] = v;
        }
        p += 1;
    }
    proof {
        assert(values@ =~= swept_column(*m, before, c as int));
    }
}

/// Solves a triangular system; the right-hand side is `scratch.rhs`, and so is the solution.
pub fn solve_sparse_csc<T: Scalar>(
    tri_mat: &CsMat<T>,
    triangle: Triangle,
    scratch: &mut ScratchSpace<T>,
)
    requires
        old(scratch).wf(),
        old(scratch).fits(tri_mat.nrows as int),
        is_triangle(*tri_mat, triangle, tri_mat.nrows as int),
    ensures
        final(scratch).wf(),
        final(scratch).fits(tri_mat.nrows as int),
        sparsely_solved(
            *tri_mat,
            old(scratch).rhs,
            final(scratch).rhs,
            final(scratch).mark_nonzero.visited@,
        ),
        exact::<T>() ==> rows_hold(
            *tri_mat,
            false,
            final(scratch).rhs.values@,
            old(scratch).rhs.values@,
        ),
{
    let g = ColumnGraph { mat: tri_mat };
    let ghost n = tri_mat.nrows as int;
    let ghost b = scratch.rhs;
    proof {
        column_graph_closed(tri_mat);
    }
    scratch.mark_nonzero.run(&mut scratch.rhs, &g);
    let ghost visited = scratch.mark_nonzero.visited@;
    let ghost listed = scratch.rhs;
    proof {
        marked_are_found(tri_mat, b, listed, visited, scratch.mark_nonzero.is_visited@);
    }
    let mut p: usize = scratch.mark_nonzero.visited.len();
    while p > 0
        invariant
            p <= visited.len(),
            visited == scratch.mark_nonzero.visited@,
            scratch.mark_nonzero.wf(),
            scratch.mark_nonzero.is_visited@.len() == n,
            n == tri_mat.nrows,
            is_triangle(*tri_mat, triangle, n),
            below(visited, n),
            scratch.rhs.wf(),
            scratch.rhs.nonzero@ == listed.nonzero@,
            scratch.rhs.is_nonzero@ == listed.is_nonzero@,
            scratch.rhs.values@.len() == n,
            scratch.rhs.values@ == swept(*tri_mat, b.values@, visited, p as int),
            forall|q: int, r: int|
                0 <= q < visited.len() && #[trigger] tri_mat.line_has(visited[q] as int, r) ==> 0
                    <= r < n && listed.is_nonzero@[r],
        decreases p,
    {
        p -= 1;
        let ind: usize = scratch.mark_nonzero.visited[p];
        let ghost before = scratch.rhs.values@;
        proof {
            match triangle {
                Triangle::Lower => first_is_diag(*tri_mat, n, ind as int),
                Triangle::Upper => last_is_diag(*tri_mat, n, ind as int),
            }
        }
        let diag_coeff = match triangle {
            Triangle::Lower => tri_mat.data[tri_mat.indptr[ind]],
            Triangle::Upper => tri_mat.data[tri_mat.indptr[ind + 1] - 1],
        };
        sweep_column(tri_mat, ind, diag_coeff, &mut scratch.rhs.values);
        proof {
            assert(tri_mat.line_has(visited[p as int] as int, ind as int));
            assert forall|r: int| 0 <= r < n && !scratch.rhs.is_nonzero@[r] implies is_zero(
                #[trigger] scratch.rhs.values@[r],
            ) by {
                if tri_mat.line_has(visited[p as int] as int, r) {
                    assert(listed.is_nonzero@[r]);
                }
                assert(is_zero(before[r]));
            }
        }
    }
    proof {
        if exact::<T>() {
            sparse_solves(*tri_mat, triangle, b, scratch.rhs, visited);
        }
    }
}

/// What a search over a matrix finds.
proof fn marked_are_found<T: Scalar>(
    m: &CsMat<T>,
    b: ScatteredVec<T>,
    listed: ScatteredVec<T>,
    visited: Seq<usize>,
    found: Seq<bool>,
)
    requires
        square(*m, m.ncols as int),
        b.wf(),
        b.values@.len() == m.ncols,
        found.len() == m.ncols,
        below(visited, m.ncols as int),
        forall|i: int|
            0 <= i < m.ncols ==> (#[trigger] found[i] <==> holds(
                visited,
                0,
                visited.len() as int,
                i,
            )),
        forall|i: int|
            0 <= i < m.ncols ==> (#[trigger] found[i] <==> reachable(
                &ColumnGraph { mat: m },
                b.nonzero@,
                i,
            )),
        forall|i: int|
            0 <= i < m.ncols ==> #[trigger] listed.is_nonzero@[i] == (b.is_nonzero@[i] || found[i]),
    ensures
        forall|i: int|
            0 <= i < m.ncols && #[trigger] listed.is_nonzero@[i] ==> holds(
                visited,
                0,
                visited.len() as int,
                i,
            ),
        forall|i: int|
            0 <= i < m.ncols ==> (#[trigger] holds(visited, 0, visited.len() as int, i)
                <==> reachable(&ColumnGraph { mat: m }, b.nonzero@, i)),
        forall|q: int, r: int|
            0 <= q < visited.len() && #[trigger] m.line_has(visited[q] as int, r) ==> 0 <= r
                < m.ncols && listed.is_nonzero@[r],
{
    let g = ColumnGraph { mat: m };
    column_graph_closed(m);
    assert forall|i: int| 0 <= i < m.ncols && #[trigger] listed.is_nonzero@[i] implies holds(
        visited,
        0,
        visited.len() as int,
        i,
    ) by {
        if b.is_nonzero@[i] {
            assert(b.marked(i));
            let a = place(b.nonzero@, 0, b.nonzero@.len() as int, i);
            assert(b.nonzero@[a] == i && g.kept(b.nonzero@[a] as int));
            connected_refl(&g, i);
            assert(reachable(&g, b.nonzero@, i));
            assert(found[i]);
        }
    }
    assert forall|i: int| 0 <= i < m.ncols implies (#[trigger] holds(
        visited,
        0,
        visited.len() as int,
        i,
    ) <==> reachable(&g, b.nonzero@, i)) by {
        assert(found[i] <==> reachable(&g, b.nonzero@, i));
    }
    assert forall|q: int, r: int|
        0 <= q < visited.len() && #[trigger] m.line_has(visited[q] as int, r) implies 0 <= r
        < m.ncols && listed.is_nonzero@[r] by {
        let u = visited[q] as int;
        assert(holds(visited, 0, visited.len() as int, u));
        assert(found[u]);
        assert(edge(&g, u, r));
        let a = choose|a: int|
            0 <= a < b.nonzero@.len() && g.kept(#[trigger] b.nonzero@[a] as int) && connected(
                &g,
                b.nonzero@[a] as int,
                u,
            );
        connected_step(&g, b.nonzero@[a] as int, u, r);
        assert(reachable(&g, b.nonzero@, r));
        assert(found[r]);
    }
}

} // verus!
