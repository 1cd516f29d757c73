//! Depth-first search for the places that a triangular solve can fill.
use crate::scalar::Scalar;
use crate::scattered::ScatteredVec;
use crate::sparse::{filled, fit};
use vstd::prelude::*;

verus! {

/// A directed graph on `0..size`, of which only some nodes are kept.
pub trait Graph {
    spec fn wf(&self) -> bool;

    spec fn size(&self) -> nat;

    spec fn kept(&self, i: int) -> bool;

    /// The nodes that the kept node `i` points to.
    spec fn children(&self, i: int) -> Seq<usize>;

    fn keeps(&self, i: usize) -> (r: bool)
        requires
            self.wf(),
            i < self.size(),
        ensures
            r == self.kept(i as int),
    ;

    fn child_count(&self, i: usize) -> (r: usize)
        requires
            self.wf(),
            i < self.size(),
            self.kept(i as int),
        ensures
            r == self.children(i as int).len(),
    ;

    fn child(&self, i: usize, k: usize) -> (r: usize)
        requires
            self.wf(),
            i < self.size(),
            self.kept(i as int),
            k < self.children(i as int).len(),
        ensures
            r == self.children(i as int)[k as int],
    ;
}

/// Every kept node points into the graph.
pub open spec fn closed_graph<G: Graph>(g: &G) -> bool {
    forall|i: int|
        0 <= i < g.size() && g.kept(i) ==> crate::sparse::below(
            #[trigger] g.children(i),
            g.size() as int,
        )
}

/// `a` points to the kept node `b`.
pub open spec fn edge<G: Graph>(g: &G, a: int, b: int) -> bool {
    g.kept(b) && crate::sparse::holds(g.children(a), 0, g.children(a).len() as int, b)
}

/// `b` can be reached from `a` in `n` steps over kept nodes.
pub open spec fn steps<G: Graph>(g: &G, a: int, b: int, n: nat) -> bool
    decreases n,
{
    if n == 0 {
        a == b
    } else {
        exists|c: int| steps(g, a, c, (n - 1) as nat) && #[trigger] edge(g, c, b)
    }
}

pub open spec fn connected<G: Graph>(g: &G, a: int, b: int) -> bool {
    exists|n: nat| steps(g, a, b, n)
}

/// `i` can be reached from one of the kept roots.
pub open spec fn reachable<G: Graph>(g: &G, roots: Seq<usize>, i: int) -> bool {
    exists|q: int|
        0 <= q < roots.len() && g.kept(#[trigger] roots[q] as int) && connected(
            g,
            roots[q] as int,
            i,
        )
}

/// A node stands behind the nodes that it points to, except where these lead back to it.
pub open spec fn postorder<G: Graph>(g: &G, visited: Seq<usize>) -> bool {
    forall|p: int, v: int|
        0 <= p < visited.len() && #[trigger] edge(g, visited[p] as int, v) ==> crate::sparse::holds(
            visited,
            0,
            p + 1,
            v,
        ) || connected(g, v, visited[p] as int)
}

pub proof fn connected_refl<G: Graph>(g: &G, a: int)
    ensures
        connected(g, a, a),
{
    assert(steps(g, a, a, 0));
}

pub proof fn connected_step<G: Graph>(g: &G, a: int, b: int, c: int)
    requires
        connected(g, a, b),
        edge(g, b, c),
    ensures
        connected(g, a, c),
{
    let n = choose|n: nat| steps(g, a, b, n);
    assert(steps(g, a, b, ((n + 1) - 1) as nat));
    assert(steps(g, a, c, n + 1));
}

/// A rank that no edge lowers is not lowered by a path.
pub proof fn rank_along<G: Graph>(g: &G, rank: spec_fn(int) -> int, a: int, b: int)
    requires
        connected(g, a, b),
        0 <= a < g.size(),
        g.kept(a),
        closed_graph(g),
        forall|u: int, v: int|
            0 <= u < g.size() && g.kept(u) && #[trigger] edge(g, u, v) ==> rank(u) <= rank(v),
    ensures
        rank(a) <= rank(b),
{
    let n = choose|n: nat| steps(g, a, b, n);
    rank_along_steps(g, rank, a, b, n);
}

proof fn rank_along_steps<G: Graph>(g: &G, rank: spec_fn(int) -> int, a: int, b: int, n: nat)
    requires
        steps(g, a, b, n),
        0 <= a < g.size(),
        g.kept(a),
        closed_graph(g),
        forall|u: int, v: int|
            0 <= u < g.size() && g.kept(u) && #[trigger] edge(g, u, v) ==> rank(u) <= rank(v),
    ensures
        rank(a) <= rank(b),
        0 <= b < g.size(),
        g.kept(b),
    decreases n,
{
    if n > 0 {
        let c = choose|c: int| steps(g, a, c, (n - 1) as nat) && #[trigger] edge(g, c, b);
        rank_along_steps(g, rank, a, c, (n - 1) as nat);
        let k = crate::sparse::place(g.children(c), 0, g.children(c).len() as int, b);
        assert(g.children(c)[k] < g.size());
    }
}

/// A set of kept nodes that holds the kept roots and is closed under edges holds all that can
/// be reached.
proof fn reach_inside<G: Graph>(g: &G, inside: spec_fn(int) -> bool, a: int, b: int, n: nat)
    requires
        inside(a),
        steps(g, a, b, n),
        forall|u: int, v: int| inside(u) && #[trigger] edge(g, u, v) ==> inside(v),
    ensures
        inside(b),
    decreases n,
{
    if n > 0 {
        let c = choose|c: int| steps(g, a, c, (n - 1) as nat) && #[trigger] edge(g, c, b);
        reach_inside(g, inside, a, c, (n - 1) as nat);
    }
}

/// The elements of `s` that carry no flag, in order.
pub open spec fn unflagged(s: Seq<usize>, flags: Seq<bool>) -> Seq<usize>
    decreases s.len(),
{
    if s.len() == 0 {
        Seq::empty()
    } else if flags[s.last() as int] {
        unflagged(s.drop_last(), flags)
    } else {
        unflagged(s.drop_last(), flags).push(s.last())
    }
}

/// A node on the way down and the child that is being looked at.
#[derive(Clone, Copy, Debug)]
pub struct DfsStep {
    pub orig_i: usize,
    pub cur_child: usize,
}

/// The state of a search: the way down, the nodes that were met, and those that are done.
pub struct Search {
    pub stack: Seq<DfsStep>,
    pub flags: Seq<bool>,
    pub done: Seq<usize>,
}

/// The first child, from place `k` on, that is kept and was not met; the number of the children
/// where there is none.
pub open spec fn next_child(
    kept: spec_fn(int) -> bool,
    kids: Seq<usize>,
    flags: Seq<bool>,
    k: int,
) -> int
    decreases kids.len() - k,
{
    if k >= kids.len() || (kept(kids[k] as int) && !flags[kids[k] as int]) {
        k
    } else {
        next_child(kept, kids, flags, k + 1)
    }
}

/// The topmost node of the way down goes to its next child, or else is done.
pub open spec fn search_step(
    kept: spec_fn(int) -> bool,
    children: spec_fn(int) -> Seq<usize>,
    s: Search,
) -> Search {
    if s.stack.len() == 0 {
        s
    } else {
        let node = s.stack.last().orig_i;
        let kids = children(node as int);
        let cur = s.stack.last().cur_child;
        let flags = s.flags.update(node as int, true);
        let k = next_child(kept, kids, flags, if s.flags[node as int] { cur + 1 } else { cur as int });
        if k < kids.len() {
            Search {
                stack: s.stack.update(
                    s.stack.len() - 1,
                    DfsStep { orig_i: node, cur_child: k as usize },
                ).push(DfsStep { orig_i: kids[k], cur_child: 0 }),
                flags,
                done: s.done,
            }
        } else {
            Search { stack: s.stack.drop_last(), flags, done: s.done.push(node) }
        }
    }
}

/// The state after `n` steps.
pub open spec fn search_steps(
    kept: spec_fn(int) -> bool,
    children: spec_fn(int) -> Seq<usize>,
    s: Search,
    n: nat,
) -> Search
    decreases n,
{
    if n == 0 {
        s
    } else {
        search_step(kept, children, search_steps(kept, children, s, (n - 1) as nat))
    }
}

/// The state once the way down is empty.
pub open spec fn search_end(
    kept: spec_fn(int) -> bool,
    children: spec_fn(int) -> Seq<usize>,
    s: Search,
) -> Search {
    search_steps(
        kept,
        children,
        s,
        choose|n: nat| (#[trigger] search_steps(kept, children, s, n)).stack.len() == 0,
    )
}

/// The state after the searches below the first `k` roots; a root that was met is passed over.
pub open spec fn searched(
    size: nat,
    kept: spec_fn(int) -> bool,
    children: spec_fn(int) -> Seq<usize>,
    roots: Seq<usize>,
    k: int,
) -> Search
    decreases k,
{
    if k <= 0 {
        Search { stack: Seq::empty(), flags: Seq::new(size, |i: int| false), done: Seq::empty() }
    } else {
        let s = searched(size, kept, children, roots, k - 1);
        let root = roots[k - 1];
        if kept(root as int) && !s.flags[root as int] {
            search_end(
                kept,
                children,
                Search {
                    stack: s.stack.push(DfsStep { orig_i: root, cur_child: 0 }),
                    ..s
                },
            )
        } else {
            s
        }
    }
}

/// The nodes that a depth-first search from the roots meets, each behind those below it.
pub open spec fn search_order(
    size: nat,
    kept: spec_fn(int) -> bool,
    children: spec_fn(int) -> Seq<usize>,
    roots: Seq<usize>,
) -> Seq<usize> {
    searched(size, kept, children, roots, roots.len() as int).done
}

/// The search ends in one way only.
proof fn end_is_unique(
    kept: spec_fn(int) -> bool,
    children: spec_fn(int) -> Seq<usize>,
    s: Search,
    n: nat,
)
    requires
        search_steps(kept, children, s, n).stack.len() == 0,
    ensures
        search_end(kept, children, s) == search_steps(kept, children, s, n),
{
    let m = choose|m: nat| (#[trigger] search_steps(kept, children, s, m)).stack.len() == 0;
    if m <= n {
        end_stays(kept, children, s, m, n);
    } else {
        end_stays(kept, children, s, n, m);
    }
}

proof fn end_stays(
    kept: spec_fn(int) -> bool,
    children: spec_fn(int) -> Seq<usize>,
    s: Search,
    m: nat,
    n: nat,
)
    requires
        m <= n,
        search_steps(kept, children, s, m).stack.len() == 0,
    ensures
        search_steps(kept, children, s, n) == search_steps(kept, children, s, m),
    decreases n,
{
    if m < n {
        end_stays(kept, children, s, m, (n - 1) as nat);
    }
}

pub open spec fn kept_of<G: Graph>(g: &G) -> spec_fn(int) -> bool {
    |i: int| g.kept(i)
}

pub open spec fn children_of<G: Graph>(g: &G) -> spec_fn(int) -> Seq<usize> {
    |i: int| g.children(i)
}

/// The search and its result.
#[derive(Clone, Debug)]
pub struct MarkNonzero {
    pub dfs_stack: Vec<DfsStep>,
    pub is_visited: Vec<bool>,
    /// in reverse topological order
    pub visited: Vec<usize>,
}

/// The node `i` lies on the first `h` places of the stack.
pub open spec fn stacked(stack: Seq<DfsStep>, h: int, i: int) -> bool {
    exists|a: int| 0 <= a < h && (#[trigger] stack[a]).orig_i == i
}

/// The state of a search whose topmost node is new iff `fresh`.
#[verifier::opaque]
pub open spec fn searching<G: Graph>(
    g: &G,
    roots: Seq<usize>,
    stack: Seq<DfsStep>,
    flags: Seq<bool>,
    visited: Seq<usize>,
    fresh: bool,
) -> bool {
    let n = g.size() as int;
    let h = if fresh {
        stack.len() - 1
    } else {
        stack.len() as int
    };
    &&& flags.len() == n
    &&& fresh ==> stack.len() > 0 && stack.last().cur_child == 0 && !flags[stack.last().orig_i as int]
    &&& crate::sparse::distinct(visited, 0, visited.len() as int)
    &&& crate::sparse::below(visited, n)
    &&& forall|a: int|
        0 <= a < stack.len() ==> (#[trigger] stack[a]).orig_i < n && g.kept(stack[a].orig_i as int)
            && reachable(g, roots, stack[a].orig_i as int)
    &&& forall|a: int, b: int|
        0 <= a < b < stack.len() ==> (#[trigger] stack[a]).orig_i != (#[trigger] stack[b]).orig_i
    &&& forall|p: int, a: int|
        0 <= p < visited.len() && 0 <= a < stack.len() ==> #[trigger] visited[p]
            != (#[trigger] stack[a]).orig_i
    &&& forall|i: int|
        0 <= i < n ==> (#[trigger] flags[i] <==> crate::sparse::holds(
            visited,
            0,
            visited.len() as int,
            i,
        ) || stacked(stack, h, i))
    &&& forall|a: int|
        0 <= a < h ==> (#[trigger] stack[a]).cur_child < g.children(stack[a].orig_i as int).len()
    &&& forall|a: int|
        0 <= a < stack.len() - 1 ==> g.children((#[trigger] stack[a]).orig_i as int)[stack[a].cur_child as int]
            == stack[a + 1].orig_i
    &&& forall|a: int, k: int|
        0 <= a < h && 0 <= k < stack[a].cur_child ==> {
            let c = #[trigger] g.children((#[trigger] stack[a]).orig_i as int)[k] as int;
            !g.kept(c) || flags[c]
        }
    &&& !fresh && stack.len() > 0 ==> flags[g.children(stack.last().orig_i as int)[stack.last().cur_child as int] as int]
    &&& forall|p: int| 0 <= p < visited.len() ==> finished(g, roots, flags, visited, p)
}

/// What holds of the node at place `p` of the result.
pub open spec fn finished<G: Graph>(
    g: &G,
    roots: Seq<usize>,
    flags: Seq<bool>,
    visited: Seq<usize>,
    p: int,
) -> bool {
    let u = visited[p] as int;
    &&& g.kept(u)
    &&& reachable(g, roots, u)
    &&& forall|v: int| #[trigger]
        edge(g, u, v) ==> flags[v] && (crate::sparse::holds(visited, 0, p + 1, v) || connected(g, v, u))
}

proof fn stack_path<G: Graph>(
    g: &G,
    roots: Seq<usize>,
    stack: Seq<DfsStep>,
    flags: Seq<bool>,
    visited: Seq<usize>,
    fresh: bool,
    a: int,
    b: int,
)
    requires
        searching(g, roots, stack, flags, visited, fresh),
        0 <= a <= b < stack.len(),
    ensures
        connected(g, stack[a].orig_i as int, stack[b].orig_i as int),
    decreases b - a,
{
    reveal(searching);
    if a == b {
        connected_refl(g, stack[a].orig_i as int);
    } else {
        stack_path(g, roots, stack, flags, visited, fresh, a, b - 1);
        let u = stack[b - 1];
        assert(g.children(u.orig_i as int)[u.cur_child as int] == stack[b - 1 + 1].orig_i);
        assert(edge(g, u.orig_i as int, stack[b].orig_i as int));
        connected_step(g, stack[a].orig_i as int, u.orig_i as int, stack[b].orig_i as int);
    }
}

/// The nodes on the stack and in the result are no more than the graph has.
proof fn search_bound<G: Graph>(
    g: &G,
    roots: Seq<usize>,
    stack: Seq<DfsStep>,
    flags: Seq<bool>,
    visited: Seq<usize>,
    fresh: bool,
)
    requires
        searching(g, roots, stack, flags, visited, fresh),
    ensures
        visited.len() + stack.len() <= g.size(),
{
    reveal(searching);
    let t = Seq::new(
        visited.len() + stack.len(),
        |i: int|
            if i < visited.len() {
                visited[i]
            } else {
                stack[i - visited.len()].orig_i
            },
    );
    assert forall|p: int, q: int| 0 <= p < q < t.len() implies #[trigger] t[p] != #[trigger] t[q] by {
        if q < visited.len() {
            assert(visited[p] != visited[q]);
        } else if p < visited.len() {
            assert(visited[p] != stack[q - visited.len()].orig_i);
        } else {
            assert(stack[p - visited.len()].orig_i != stack[q - visited.len()].orig_i);
        }
    }
    assert forall|p: int| 0 <= p < t.len() implies #[trigger] t[p] < g.size() by {
        if p < visited.len() {
            assert(visited[p] < g.size());
        } else {
            assert(stack[p - visited.len()].orig_i < g.size());
        }
    }
    crate::perm::distinct_is_short(t, g.size() as int);
}

impl MarkNonzero {
    pub open spec fn state(self) -> Search {
        Search { stack: self.dfs_stack@, flags: self.is_visited@, done: self.visited@ }
    }

    /// No search is under way and the flags name the nodes of the last result.
    pub open spec fn wf(self) -> bool {
        &&& self.dfs_stack@.len() == 0
        &&& crate::sparse::distinct(self.visited@, 0, self.visited@.len() as int)
        &&& crate::sparse::below(self.visited@, self.is_visited@.len() as int)
        &&& forall|i: int|
            0 <= i < self.is_visited@.len() ==> (#[trigger] self.is_visited@[i]
                <==> crate::sparse::holds(self.visited@, 0, self.visited@.len() as int, i))
    }

    pub fn with_capacity(n: usize) -> (r: MarkNonzero)
        ensures
            r.wf(),
            r.visited@.len() == 0,
            r.is_visited@.len() == n,
            forall|i: int| 0 <= i < n ==> !#[trigger] r.is_visited@[i],
    {
        MarkNonzero {
            dfs_stack: Vec::with_capacity(n),
            is_visited: filled(n, false),
            visited: Vec::new(),
        }
    }

    pub fn clear(&mut self)
        requires
            old(self).wf(),
        ensures
            final(self).wf(),
            final(self).visited@.len() == 0,
            final(self).is_visited@.len() == old(self).is_visited@.len(),
            forall|i: int|
                0 <= i < old(self).is_visited@.len() ==> !#[trigger] final(self).is_visited@[i],
    {
        let n: usize = self.visited.len();
        let mut k: usize = 0;
        while k < n
            invariant
                old(self).wf(),
                self.dfs_stack@ == old(self).dfs_stack@,
                self.visited@ == old(self).visited@,
                n == self.visited@.len(),
                k <= n,
                self.is_visited@.len() == old(self).is_visited@.len(),
                forall|i: int|
                    0 <= i < self.is_visited@.len() && #[trigger] self.is_visited@[i]
                        ==> crate::sparse::holds(self.visited@, k as int, n as int, i),
            decreases n - k,
        {
            let i: usize = self.visited[k];
            self.is_visited[i] = false;
            proof {
                let v = self.visited@;
                assert forall|j: int|
                    0 <= j < self.is_visited@.len() && #[trigger] self.is_visited@[j] implies
                    crate::sparse::holds(v, k + 1, n as int, j) by {
                    let p = crate::sparse::place(v, k as int, n as int, j);
                    assert(v[p] == j);
                    assert(v[k as int] == i);
                }
            }
            k += 1;
        }
        self.visited.clear();
    }

    pub fn clear_and_resize(&mut self, n: usize)
        requires
            old(self).wf(),
        ensures
            final(self).wf(),
            final(self).visited@.len() == 0,
            final(self).is_visited@.len() == n,
            forall|i: int| 0 <= i < n ==> !#[trigger] final(self).is_visited@[i],
    {
        self.clear();
        self.dfs_stack.reserve(n);
        fit(&mut self.is_visited, n, false);
    }

    /// Finds the nodes that can be reached from the kept nodes on the list of `rhs`, and puts
    /// them on that list.
    pub fn run<T: Scalar, G: Graph>(&mut self, rhs: &mut ScatteredVec<T>, g: &G)
        requires
            old(self).wf(),
            old(rhs).wf(),
            g.wf(),
            closed_graph(g),
            old(self).is_visited@.len() == g.size(),
            old(rhs).values@.len() == g.size(),
        ensures
            final(self).wf(),
            final(self).is_visited@.len() == g.size(),
            final(self).visited@ == search_order(
                g.size(),
                kept_of(g),
                children_of(g),
                old(rhs).nonzero@,
            ),
            forall|i: int|
                0 <= i < g.size() ==> (#[trigger] final(self).is_visited@[i] <==> reachable(
                    g,
                    old(rhs).nonzero@,
                    i,
                )),
            forall|p: int|
                0 <= p < final(self).visited@.len() ==> g.kept(
                    #[trigger] final(self).visited@[p] as int,
                ),
            postorder(g, final(self).visited@),
            final(rhs).wf(),
            final(rhs).values@ == old(rhs).values@,
            final(rhs).nonzero@ == old(rhs).nonzero@ + unflagged(
                final(self).visited@,
                old(rhs).is_nonzero@,
            ),
            forall|i: int|
                0 <= i < g.size() ==> #[trigger] final(rhs).is_nonzero@[i] == (old(rhs).is_nonzero@[i] || final(self).is_visited@[i]),
    {
        self.clear();
        let ghost roots = rhs.nonzero@;
        let count: usize = rhs.nonzero.len();
        let mut k: usize = 0;
        proof {
            reveal(searching);
            assert(self.is_visited@ =~= Seq::new(g.size(), |i: int| false));
            assert(self.dfs_stack@ =~= Seq::empty());
            assert(self.visited@ =~= Seq::empty());
        }
        while k < count
            invariant
                self.state() == searched(g.size(), kept_of(g), children_of(g), roots, k as int),
                g.wf(),
                closed_graph(g),
                rhs.wf(),
                *rhs == *old(rhs),
                roots == rhs.nonzero@,
                count == roots.len(),
                k <= count,
                rhs.values@.len() == g.size(),
                self.dfs_stack@.len() == 0,
                searching(g, roots, self.dfs_stack@, self.is_visited@, self.visited@, false),
                self.is_visited@.len() == g.size(),
                forall|q: int|
                    0 <= q < k && g.kept(#[trigger] roots[q] as int)
                        ==> self.is_visited@[roots[q] as int],
            decreases count - k,
        {
            let orig_r: usize = rhs.nonzero[k];
            assert(roots[k as int] < g.size());
            if g.keeps(orig_r) && !self.is_visited[orig_r] {
                self.descend(g, orig_r, Ghost(roots));
            }
            k += 1;
        }
        proof {
            self.search_done(g, roots);
        }
        let total: usize = self.visited.len();
        let mut p: usize = 0;
        while p < total
            invariant
                total == self.visited@.len(),
                p <= total,
                crate::sparse::below(self.visited@, rhs.values@.len() as int),
                crate::sparse::distinct(self.visited@, 0, total as int),
                rhs.wf(),
                rhs.values@ == old(rhs).values@,
                old(rhs).is_nonzero@.len() == rhs.values@.len(),
                rhs.nonzero@ == old(rhs).nonzero@ + unflagged(
                    self.visited@.subrange(0, p as int),
                    old(rhs).is_nonzero@,
                ),
                forall|i: int|
                    0 <= i < rhs.values@.len() ==> #[trigger] rhs.is_nonzero@[i] == (old(rhs).is_nonzero@[i] || crate::sparse::holds(self.visited@, 0, p as int, i)),
            decreases total - p,
        {
            let i: usize = self.visited[p];
            let ghost v = self.visited@;
            proof {
                let s = v.subrange(0, p + 1);
                assert(s.drop_last() =~= v.subrange(0, p as int));
                assert(s.last() == i);
                assert forall|j: int| 0 <= j < rhs.values@.len() implies crate::sparse::holds(
                    v,
                    0,
                    p + 1,
                    j,
                ) == (crate::sparse::holds(v, 0, p as int, j) || j == i) by {
                    if crate::sparse::holds(v, 0, p + 1, j) {
                        let q = crate::sparse::place(v, 0, p + 1, j);
                        assert(v[q] == j);
                    }
                    if crate::sparse::holds(v, 0, p as int, j) {
                        let q = crate::sparse::place(v, 0, p as int, j);
                        assert(v[q] == j);
                    }
                    assert(v[p as int] == i);
                }
                if crate::sparse::holds(v, 0, p as int, i as int) {
                    let q = crate::sparse::place(v, 0, p as int, i as int);
                    assert(v[q] != v[p as int]);
                }
            }
            let ghost nz = rhs.nonzero@;
            if !rhs.is_nonzero[i] {
                rhs.mark(i);
                proof {
                    let u = unflagged(v.subrange(0, p as int), old(rhs).is_nonzero@);
                    assert((old(rhs).nonzero@ + u).push(i) =~= old(rhs).nonzero@ + u.push(i));
                }
            }
            p += 1;
        }
        proof {
            assert(self.visited@.subrange(0, total as int) =~= self.visited@);
        }
    }

    /// Searches below one new root.
    fn descend<G: Graph>(&mut self, g: &G, root: usize, Ghost(roots): Ghost<Seq<usize>>)
        requires
            g.wf(),
            closed_graph(g),
            old(self).dfs_stack@.len() == 0,
            searching(
                g,
                roots,
                old(self).dfs_stack@,
                old(self).is_visited@,
                old(self).visited@,
                false,
            ),
            root < g.size(),
            g.kept(root as int),
            old(self).is_visited@.len() == g.size(),
            !old(self).is_visited@[root as int],
            crate::sparse::holds(roots, 0, roots.len() as int, root as int),
        ensures
            final(self).dfs_stack@.len() == 0,
            searching(
                g,
                roots,
                final(self).dfs_stack@,
                final(self).is_visited@,
                final(self).visited@,
                false,
            ),
            final(self).is_visited@.len() == g.size(),
            final(self).is_visited@[root as int],
            forall|i: int|
                0 <= i < g.size() && old(self).is_visited@[i] ==> #[trigger] final(self).is_visited@[i],
            final(self).state() == search_end(
                kept_of(g),
                children_of(g),
                (Search {
                    stack: old(self).dfs_stack@.push(DfsStep { orig_i: root, cur_child: 0 }),
                    ..old(self).state()
                }),
            ),
    {
        self.dfs_stack.push(DfsStep { orig_i: root, cur_child: 0 });
        let ghost mut fresh = true;
        let ghost first = self.state();
        let ghost mut taken: nat = 0;
        proof {
            let q = crate::sparse::place(roots, 0, roots.len() as int, root as int);
            assert(roots[q] == root);
            connected_refl(g, root as int);
            assert(reachable(g, roots, root as int));
            reveal(searching);
        }
        while self.dfs_stack.len() > 0
            invariant
                g.wf(),
                closed_graph(g),
                searching(g, roots, self.dfs_stack@, self.is_visited@, self.visited@, fresh),
                self.is_visited@[root as int] || (fresh && self.dfs_stack@.len() == 1
                    && self.dfs_stack@[0].orig_i == root),
                root < g.size(),
                self.is_visited@.len() == g.size(),
                fresh ==> self.dfs_stack@.len() > 0,
                forall|i: int|
                    0 <= i < g.size() && old(self).is_visited@[i] ==> #[trigger] self.is_visited@[i],
                self.state() == search_steps(kept_of(g), children_of(g), first, taken),
            decreases
                    g.size() - self.visited@.len() - self.dfs_stack@.len() + if fresh {
                        1int
                    } else {
                        0int
                    },
                    if fresh {
                        0int
                    } else {
                        1int
                    },
                    self.dfs_stack@.len(),
        {
            proof {
                search_top(g, roots, self.dfs_stack@, self.is_visited@, self.visited@, fresh);
            }
            let top: usize = self.dfs_stack.len() - 1;
            let node: usize = self.dfs_stack[top].orig_i;
            let mut cur: usize = self.dfs_stack[top].cur_child;
            let count: usize = g.child_count(node);
            let ghost stack0 = self.dfs_stack@;
            let ghost flags0 = self.is_visited@;
            let ghost visited0 = self.visited@;
            let ghost fresh0 = fresh;
            proof {
                search_bound(g, roots, stack0, flags0, visited0, fresh0);
            }
            if !self.is_visited[node] {
                self.is_visited[node] = true;
            } else {
                cur += 1;
            }
            proof {
                assert(self.is_visited@ =~= flags0.update(node as int, true));
            }
            let ghost from = cur;
            while cur < count
                invariant
                    next_child(kept_of(g), g.children(node as int), self.is_visited@, from as int)
                        == next_child(
                        kept_of(g),
                        g.children(node as int),
                        self.is_visited@,
                        cur as int,
                    ),
                    g.wf(),
                    closed_graph(g),
                    node < g.size(),
                    g.kept(node as int),
                    self.is_visited@.len() == g.size(),
                    count == g.children(node as int).len(),
                    cur <= count,
                    forall|j: int|
                        0 <= j < cur ==> {
                            let c = #[trigger] g.children(node as int)[j] as int;
                            !g.kept(c) || self.is_visited@[c]
                        },
                ensures
                    cur <= count,
                    forall|j: int|
                        0 <= j < cur ==> {
                            let c = #[trigger] g.children(node as int)[j] as int;
                            !g.kept(c) || self.is_visited@[c]
                        },
                    cur < count ==> {
                        let c = g.children(node as int)[cur as int] as int;
                        g.kept(c) && !self.is_visited@[c]
                    },
                    next_child(kept_of(g), g.children(node as int), self.is_visited@, from as int)
                        == cur,
                decreases count - cur,
            {
                let c: usize = g.child(node, cur);
                assert(crate::sparse::below(g.children(node as int), g.size() as int));
                assert(c < g.size());
                if !self.is_visited[c] && g.keeps(c) {
                    break;
                }
                cur += 1;
            }
            if cur < count {
                let c: usize = g.child(node, cur);
                self.dfs_stack[top] = DfsStep { orig_i: node, cur_child: cur };
                self.dfs_stack.push(DfsStep { orig_i: c, cur_child: 0 });
                proof {
                    fresh = true;
                    search_push(g, roots, stack0, flags0, visited0, fresh0, cur, c);
                    assert(self.dfs_stack@ =~= stack0.update(
                        stack0.len() - 1,
                        (DfsStep { orig_i: stack0.last().orig_i, cur_child: cur }),
                    ).push((DfsStep { orig_i: c, cur_child: 0 })));
                    taken = taken + 1;
                }
            } else {
                self.visited.push(node);
                self.dfs_stack.pop();
                proof {
                    fresh = false;
                    search_pop(g, roots, stack0, flags0, visited0, fresh0);
                    assert(self.dfs_stack@ =~= stack0.drop_last());
                    taken = taken + 1;
                }
            }
        }
        proof {
            end_is_unique(kept_of(g), children_of(g), first, taken);
        }
    }

    proof fn search_done<G: Graph>(&self, g: &G, roots: Seq<usize>)
        requires
            closed_graph(g),
            self.dfs_stack@.len() == 0,
            searching(g, roots, self.dfs_stack@, self.is_visited@, self.visited@, false),
            forall|q: int|
                0 <= q < roots.len() && g.kept(#[trigger] roots[q] as int)
                    ==> self.is_visited@[roots[q] as int],
            crate::sparse::below(roots, g.size() as int),
        ensures
            self.wf(),
            forall|i: int|
                0 <= i < g.size() ==> (#[trigger] self.is_visited@[i] <==> reachable(g, roots, i)),
            forall|p: int|
                0 <= p < self.visited@.len() ==> g.kept(#[trigger] self.visited@[p] as int),
            postorder(g, self.visited@),
    {
        reveal(searching);
        let flags = self.is_visited@;
        let visited = self.visited@;
        assert forall|p: int| 0 <= p < visited.len() implies g.kept(#[trigger] visited[p] as int) by {
            assert(finished(g, roots, flags, visited, p));
        }
        assert forall|p: int, v: int|
            0 <= p < visited.len() && #[trigger] edge(
                g,
                visited[p] as int,
                v,
            ) implies crate::sparse::holds(visited, 0, p + 1, v) || connected(
            g,
            v,
            visited[p] as int,
        ) by {
            assert(finished(g, roots, flags, visited, p));
        }
        assert forall|i: int| 0 <= i < g.size() implies (#[trigger] flags[i] <==> reachable(
            g,
            roots,
            i,
        )) by {
            if flags[i] {
                let p = crate::sparse::place(visited, 0, visited.len() as int, i);
                assert(visited[p] == i);
                assert(finished(g, roots, flags, visited, p));
            }
            if reachable(g, roots, i) {
                let q = choose|q: int|
                    0 <= q < roots.len() && g.kept(#[trigger] roots[q] as int) && connected(
                        g,
                        roots[q] as int,
                        i,
                    );
                let n = choose|n: nat| steps(g, roots[q] as int, i, n);
                let inside = |j: int| 0 <= j < g.size() && flags[j];
                assert forall|u: int, v: int| inside(u) && #[trigger] edge(g, u, v) implies inside(
                    v,
                ) by {
                    let p = crate::sparse::place(visited, 0, visited.len() as int, u);
                    assert(visited[p] == u);
                    assert(finished(g, roots, flags, visited, p));
                    let c = g.children(u);
                    let w = crate::sparse::place(c, 0, c.len() as int, v);
                    assert(c[w] < g.size());
                }
                reach_inside(g, inside, roots[q] as int, i, n);
            }
        }
    }
}

/// What the search looks at: the topmost node.
proof fn search_top<G: Graph>(
    g: &G,
    roots: Seq<usize>,
    stack: Seq<DfsStep>,
    flags: Seq<bool>,
    visited: Seq<usize>,
    fresh: bool,
)
    requires
        closed_graph(g),
        stack.len() > 0,
        searching(g, roots, stack, flags, visited, fresh),
    ensures
        stack.last().orig_i < g.size(),
        g.kept(stack.last().orig_i as int),
        flags[stack.last().orig_i as int] <==> !fresh,
        fresh ==> stack.last().cur_child == 0,
        !fresh ==> stack.last().cur_child < g.children(stack.last().orig_i as int).len(),
        !fresh ==> forall|j: int|
            0 <= j <= stack.last().cur_child ==> {
                let c = #[trigger] g.children(stack.last().orig_i as int)[j] as int;
                !g.kept(c) || flags[c]
            },
        forall|j: int|
            0 <= j < g.children(stack.last().orig_i as int).len() ==> #[trigger] g.children(
                stack.last().orig_i as int,
            )[j] < g.size(),
{
    reveal(searching);
    let top = stack.len() - 1;
    assert(stack[top] == stack.last());
    assert(crate::sparse::below(g.children(stack[top].orig_i as int), g.size() as int));
    if !fresh {
        assert(stacked(stack, stack.len() as int, stack[top].orig_i as int));
    }
}

/// A new child goes on the stack.
proof fn search_push<G: Graph>(
    g: &G,
    roots: Seq<usize>,
    stack: Seq<DfsStep>,
    flags: Seq<bool>,
    visited: Seq<usize>,
    fresh: bool,
    cur: usize,
    c: usize,
)
    requires
        closed_graph(g),
        stack.len() > 0,
        searching(g, roots, stack, flags, visited, fresh),
        cur < g.children(stack.last().orig_i as int).len(),
        c == g.children(stack.last().orig_i as int)[cur as int],
        g.kept(c as int),
        !flags.update(stack.last().orig_i as int, true)[c as int],
        forall|j: int|
            0 <= j < cur ==> {
                let v = #[trigger] g.children(stack.last().orig_i as int)[j] as int;
                !g.kept(v) || flags.update(stack.last().orig_i as int, true)[v]
            },
    ensures
        searching(
            g,
            roots,
            stack.update(
                stack.len() - 1,
                (DfsStep { orig_i: stack.last().orig_i, cur_child: cur }),
            ).push((DfsStep { orig_i: c, cur_child: 0 })),
            flags.update(stack.last().orig_i as int, true),
            visited,
            true,
        ),
{
    reveal(searching);
    let top = stack.len() - 1;
    let node = stack[top].orig_i as int;
    let flags2 = flags.update(node, true);
    let stack2 = stack.update(
        top,
        (DfsStep { orig_i: stack.last().orig_i, cur_child: cur }),
    ).push((DfsStep { orig_i: c, cur_child: 0 }));
    let h = if fresh { top } else { top + 1 };
    assert(g.children(node)[cur as int] < g.size());
    assert(crate::sparse::below(g.children(node), g.size() as int));
    assert(edge(g, node, c as int));
    // the child is reached
    let q = choose|q: int|
        0 <= q < roots.len() && g.kept(#[trigger] roots[q] as int) && connected(
            g,
            roots[q] as int,
            stack[top].orig_i as int,
        );
    assert(reachable(g, roots, stack[top].orig_i as int));
    connected_step(g, roots[q] as int, node, c as int);
    assert(reachable(g, roots, c as int));
    assert forall|i: int| 0 <= i < g.size() implies (#[trigger] flags2[i] <==> crate::sparse::holds(
        visited,
        0,
        visited.len() as int,
        i,
    ) || stacked(stack2, top + 1, i)) by {
        assert(flags[i] <==> crate::sparse::holds(visited, 0, visited.len() as int, i) || stacked(
            stack,
            h,
            i,
        ));
        assert(stack2[top].orig_i == node);
        if stacked(stack, h, i) {
            let a = choose|a: int| 0 <= a < h && (#[trigger] stack[a]).orig_i == i;
            assert(stack2[a].orig_i == i);
        }
        if stacked(stack2, top + 1, i) {
            let a = choose|a: int| 0 <= a < top + 1 && (#[trigger] stack2[a]).orig_i == i;
            if a < top {
                assert(stack[a].orig_i == i);
            }
        }
    }
    assert forall|a: int, b: int| 0 <= a < b < stack2.len() implies (#[trigger] stack2[a]).orig_i
        != (#[trigger] stack2[b]).orig_i by {
        if b == top + 1 {
            assert(stack2[a].orig_i == stack[a].orig_i);
            assert(stacked(stack2, top + 1, stack2[a].orig_i as int));
            assert(flags2[stack[a].orig_i as int]);
        } else {
            assert(stack[a].orig_i != stack[b].orig_i);
        }
    }
    assert forall|p: int, a: int| 0 <= p < visited.len() && 0 <= a < stack2.len() implies
        #[trigger] visited[p] != (#[trigger] stack2[a]).orig_i by {
        if a == top + 1 {
            assert(crate::sparse::holds(visited, 0, visited.len() as int, visited[p] as int));
            assert(flags2[visited[p] as int]);
        } else {
            assert(visited[p] != stack[a].orig_i);
        }
    }
    assert forall|a: int|
        0 <= a < stack2.len() - 1 implies g.children((#[trigger] stack2[a]).orig_i as int)[stack2[a].cur_child as int]
        == stack2[a + 1].orig_i by {
        if a < top {
            assert(g.children(stack[a].orig_i as int)[stack[a].cur_child as int]
                == stack[a + 1].orig_i);
        }
    }
    assert forall|a: int, k: int| 0 <= a < top + 1 && 0 <= k < stack2[a].cur_child implies {
        let v = #[trigger] g.children((#[trigger] stack2[a]).orig_i as int)[k] as int;
        !g.kept(v) || flags2[v]
    } by {
        if a < top {
            let v = g.children(stack[a].orig_i as int)[k] as int;
            assert(!g.kept(v) || flags[v]);
            if g.kept(v) {
                assert(crate::sparse::below(g.children(stack[a].orig_i as int), g.size() as int));
            }
        }
    }
    assert forall|p: int| 0 <= p < visited.len() implies finished(g, roots, flags2, visited, p) by {
        assert(finished(g, roots, flags, visited, p));
        assert forall|v: int| #[trigger] edge(g, visited[p] as int, v) implies flags2[v] && (
        crate::sparse::holds(visited, 0, p + 1, v) || connected(g, v, visited[p] as int)) by {
            assert(flags[v]);
            child_inside(g, visited[p] as int, v);
        }
    }
}

proof fn child_inside<G: Graph>(g: &G, u: int, v: int)
    requires
        closed_graph(g),
        0 <= u < g.size(),
        g.kept(u),
        edge(g, u, v),
    ensures
        0 <= v < g.size(),
{
    let c = g.children(u);
    let w = crate::sparse::place(c, 0, c.len() as int, v);
    assert(c[w] < g.size());
}

/// The topmost node, all of whose children are done, moves to the result.
proof fn search_pop<G: Graph>(
    g: &G,
    roots: Seq<usize>,
    stack: Seq<DfsStep>,
    flags: Seq<bool>,
    visited: Seq<usize>,
    fresh: bool,
)
    requires
        closed_graph(g),
        stack.len() > 0,
        searching(g, roots, stack, flags, visited, fresh),
        forall|j: int|
            0 <= j < g.children(stack.last().orig_i as int).len() ==> {
                let v = #[trigger] g.children(stack.last().orig_i as int)[j] as int;
                !g.kept(v) || flags.update(stack.last().orig_i as int, true)[v]
            },
    ensures
        searching(
            g,
            roots,
            stack.drop_last(),
            flags.update(stack.last().orig_i as int, true),
            visited.push(stack.last().orig_i),
            false,
        ),
{
    reveal(searching);
    let top = stack.len() - 1;
    let node = stack[top].orig_i as int;
    let flags2 = flags.update(node, true);
    let stack2 = stack.drop_last();
    let visited2 = visited.push(stack.last().orig_i);
    let m = visited.len() as int;
    let h = if fresh { top } else { top + 1 };
    assert(visited2[m] == node);
    assert forall|i: int| 0 <= i < g.size() implies (#[trigger] flags2[i] <==> crate::sparse::holds(
        visited2,
        0,
        m + 1,
        i,
    ) || stacked(stack2, top, i)) by {
        assert(flags[i] <==> crate::sparse::holds(visited, 0, m, i) || stacked(stack, h, i));
        if crate::sparse::holds(visited, 0, m, i) {
            let p = crate::sparse::place(visited, 0, m, i);
            assert(visited2[p] == i);
        }
        if crate::sparse::holds(visited2, 0, m + 1, i) {
            let p = crate::sparse::place(visited2, 0, m + 1, i);
            if p < m {
                assert(visited[p] == i);
            }
        }
        if stacked(stack, h, i) {
            let a = choose|a: int| 0 <= a < h && (#[trigger] stack[a]).orig_i == i;
            if a < top {
                assert(stack2[a].orig_i == i);
            }
        }
        if stacked(stack2, top, i) {
            let a = choose|a: int| 0 <= a < top && (#[trigger] stack2[a]).orig_i == i;
            assert(stack[a].orig_i == i);
        }
    }
    assert forall|p: int, q: int| 0 <= p < q < visited2.len() implies #[trigger] visited2[p]
        != #[trigger] visited2[q] by {
        if q == m {
            assert(visited[p] != stack[top].orig_i);
        } else {
            assert(visited[p] != visited[q]);
        }
    }
    assert forall|p: int| 0 <= p < visited2.len() implies #[trigger] visited2[p] < g.size() by {
        if p < m {
            assert(visited[p] < g.size());
        }
    }
    assert forall|p: int, a: int| 0 <= p < visited2.len() && 0 <= a < stack2.len() implies
        #[trigger] visited2[p] != (#[trigger] stack2[a]).orig_i by {
        if p < m {
            assert(visited[p] != stack[a].orig_i);
        } else {
            assert(stack[a].orig_i != stack[top].orig_i);
        }
    }
    assert forall|a: int, k: int| 0 <= a < top && 0 <= k < stack2[a].cur_child implies {
        let v = #[trigger] g.children((#[trigger] stack2[a]).orig_i as int)[k] as int;
        !g.kept(v) || flags2[v]
    } by {
        let v = g.children(stack[a].orig_i as int)[k] as int;
        assert(!g.kept(v) || flags[v]);
        assert(crate::sparse::below(g.children(stack[a].orig_i as int), g.size() as int));
    }
    if top > 0 {
        assert(g.children(stack[top - 1].orig_i as int)[stack[top - 1].cur_child as int] == stack[
        top - 1 + 1].orig_i);
        assert(stack2.last() == stack[top - 1]);
    }
    assert forall|p: int| 0 <= p < visited2.len() implies finished(
        g,
        roots,
        flags2,
        visited2,
        p,
    ) by {
        let u = visited2[p] as int;
        if p < m {
            assert(finished(g, roots, flags, visited, p));
            assert forall|v: int| #[trigger] edge(g, u, v) implies flags2[v] && (
            crate::sparse::holds(visited2, 0, p + 1, v) || connected(g, v, u)) by {
                assert(flags[v]);
                child_inside(g, u, v);
                if crate::sparse::holds(visited, 0, p + 1, v) {
                    let w = crate::sparse::place(visited, 0, p + 1, v);
                    assert(visited2[w] == v);
                }
            }
        } else {
            assert(stack[top].orig_i == node);
            assert forall|v: int| #[trigger] edge(g, u, v) implies flags2[v] && (
            crate::sparse::holds(visited2, 0, p + 1, v) || connected(g, v, u)) by {
                child_inside(g, u, v);
                let c = g.children(u);
                let w = crate::sparse::place(c, 0, c.len() as int, v);
                assert(c[w] == v);
                assert(flags2[v]);
                if v == node {
                    assert(visited2[m] == v);
                } else {
                    assert(flags[v] <==> crate::sparse::holds(visited, 0, m, v) || stacked(
                        stack,
                        h,
                        v,
                    ));
                    if crate::sparse::holds(visited, 0, m, v) {
                        let s = crate::sparse::place(visited, 0, m, v);
                        assert(visited2[s] == v);
                    } else {
                        let a = choose|a: int| 0 <= a < h && (#[trigger] stack[a]).orig_i == v;
                        stack_path(g, roots, stack, flags, visited, fresh, a, top);
                    }
                }
            }
        }
    }
}

} // verus!
