//! Permutations of `0..n` as index lists.
use crate::sparse::{below, distinct, holds};
use vstd::prelude::*;

verus! {

/// Distinct numbers below `n` are at most `n` in number.
pub proof fn distinct_is_short(s: Seq<usize>, n: int)
    requires
        n >= 0,
        distinct(s, 0, s.len() as int),
        below(s, n),
    ensures
        s.len() <= n,
    decreases n,
{
    if n == 0 {
        if s.len() > 0 {
            assert(s[0] < 0);
        }
    } else if holds(s, 0, s.len() as int, n - 1) {
        let p = crate::sparse::place(s, 0, s.len() as int, n - 1);
        let t = s.remove(p);
        assert forall|q: int| 0 <= q < t.len() implies #[trigger] t[q] < n - 1 by {
            let k = if q < p { q } else { q + 1 };
            assert(t[q] == s[k]);
            assert(s[k] < n);
            if k < p {
                assert(s[k] != s[p]);
            } else {
                assert(s[p] != s[k]);
            }
        }
        assert forall|a: int, b: int| 0 <= a < b < t.len() implies #[trigger] t[a]
            != #[trigger] t[b] by {
            let ka = if a < p { a } else { a + 1 };
            let kb = if b < p { b } else { b + 1 };
            assert(s[ka] != s[kb]);
        }
        distinct_is_short(t, n - 1);
    } else {
        assert forall|q: int| 0 <= q < s.len() implies #[trigger] s[q] < n - 1 by {
            assert(s[q] < n);
            if s[q] == n - 1 {
                assert(holds(s, 0, s.len() as int, n - 1));
            }
        }
        distinct_is_short(s, n - 1);
    }
}

/// `n` distinct numbers below `n` are all of them.
pub proof fn distinct_is_onto(s: Seq<usize>, n: int)
    requires
        s.len() == n,
        n <= usize::MAX,
        distinct(s, 0, n),
        below(s, n),
    ensures
        forall|i: int| 0 <= i < n ==> #[trigger] holds(s, 0, n, i),
{
    assert forall|i: int| 0 <= i < n implies #[trigger] holds(s, 0, n, i) by {
        if !holds(s, 0, n, i) {
            let t = s.push(i as usize);
            assert forall|a: int, b: int| 0 <= a < b < t.len() implies #[trigger] t[a]
                != #[trigger] t[b] by {
                assert(t[a] == s[a]);
                if b < n {
                    assert(s[a] != s[b]);
                } else if s[a] == i {
                    assert(holds(s, 0, n, i));
                }
            }
            assert forall|q: int| 0 <= q < t.len() implies #[trigger] t[q] < n by {
                if q < n {
                    assert(s[q] < n);
                }
            }
            distinct_is_short(t, n);
        }
    }
}

/// Two lists that undo each other.
pub open spec fn inverse(a: Seq<usize>, b: Seq<usize>) -> bool {
    &&& a.len() == b.len()
    &&& below(a, a.len() as int)
    &&& below(b, b.len() as int)
    &&& forall|i: int| 0 <= i < a.len() ==> b[#[trigger] a[i] as int] == i
    &&& forall|i: int| 0 <= i < b.len() ==> a[#[trigger] b[i] as int] == i
}

/// The list with the items at `i` and `j` exchanged.
pub open spec fn swap_at<A>(s: Seq<A>, i: int, j: int) -> Seq<A> {
    s.update(i, s[j]).update(j, s[i])
}

/// The list after the item at every place `i` was exchanged with that at `swaps[i]`, in order.
pub open spec fn swapped<A>(swaps: Seq<usize>, s: Seq<A>) -> Seq<A>
    decreases swaps.len(),
{
    if swaps.len() == 0 {
        s
    } else {
        swap_at(swapped(swaps.drop_last(), s), swaps.len() - 1, swaps.last() as int)
    }
}

/// The numbers below `n`, in order.
pub open spec fn counting(n: nat) -> Seq<usize> {
    Seq::new(n, |i: int| i as usize)
}

/// The numbers below `n`.
pub fn numbers(n: usize) -> (r: Vec<usize>)
    ensures
        r@ == counting(n as nat),
{
    let mut r: Vec<usize> = Vec::with_capacity(n);
    let mut i: usize = 0;
    while i < n
        invariant
            i <= n,
            r@ == counting(i as nat),
        decreases n - i,
    {
        r.push(i);
        i += 1;
        proof {
            assert(r@ =~= counting(i as nat));
        }
    }
    r
}

pub fn swap_items<A: Copy>(v: &mut [A], i: usize, j: usize)
    requires
        i < old(v)@.len(),
        j < old(v)@.len(),
    ensures
        final(v)@ == swap_at(old(v)@, i as int, j as int),
{
    let a = v[i];
    let b = v[j];
    v[i] = b;
    v[j] = a;
}

/// Exchanges move the items of every list alike.
pub proof fn swapped_index<A>(swaps: Seq<usize>, s: Seq<A>)
    requires
        swaps.len() <= s.len(),
        s.len() <= usize::MAX,
        below(swaps, s.len() as int),
    ensures
        swapped(swaps, s).len() == s.len(),
        swapped(swaps, counting(s.len())).len() == s.len(),
        below(swapped(swaps, counting(s.len())), s.len() as int),
        forall|i: int|
            0 <= i < s.len() ==> #[trigger] swapped(swaps, s)[i] == s[swapped(
                swaps,
                counting(s.len()),
            )[i] as int],
    decreases swaps.len(),
{
    let n = s.len() as int;
    let id = counting(s.len());
    if swaps.len() > 0 {
        let t = swaps.drop_last();
        assert(below(t, n)) by {
            assert forall|p: int| 0 <= p < t.len() implies #[trigger] t[p] < n by {
                assert(swaps[p] < n);
            }
        }
        swapped_index(t, s);
        let j = swaps.last() as int;
        assert(swaps[swaps.len() - 1] < n);
        let i = swaps.len() - 1;
        let a = swapped(t, s);
        let b = swapped(t, id);
        assert(swapped(swaps, s) == swap_at(a, i, j));
        assert(swapped(swaps, id) == swap_at(b, i, j));
        assert(a[i] == s[b[i] as int] && a[j] == s[b[j] as int]);
        assert forall|p: int| 0 <= p < n implies #[trigger] swapped(swaps, id)[p] < n by {
            assert(b[p] < n && b[i] < n && b[j] < n);
        }
        assert forall|p: int| 0 <= p < n implies #[trigger] swapped(swaps, s)[p] == s[swapped(
            swaps,
            id,
        )[p] as int] by {
            assert(a[p] == s[b[p] as int]);
        }
    }
}

/// Exchanging two items of one list and the two items that they name in the other keeps the
/// lists inverse to each other.
pub proof fn inverse_swap(a: Seq<usize>, b: Seq<usize>, i: int, j: int)
    requires
        inverse(a, b),
        0 <= i < b.len(),
        0 <= j < b.len(),
    ensures
        inverse(swap_at(a, b[i] as int, b[j] as int), swap_at(b, i, j)),
{
    let n = a.len() as int;
    let (p, q) = (b[i] as int, b[j] as int);
    let a2 = swap_at(a, p, q);
    let b2 = swap_at(b, i, j);
    assert(p < n && q < n);
    assert(a[p] == i && a[q] == j);
    assert forall|k: int| 0 <= k < n implies #[trigger] a2[k] < n && b2[a2[k] as int] == k by {
        assert(a[k] < n);
        assert(b[a[k] as int] == k);
    }
    assert forall|k: int| 0 <= k < n implies #[trigger] b2[k] < n && a2[b2[k] as int] == k by {
        assert(b[k] < n);
        assert(a[b[k] as int] == k);
    }
}

} // verus!
