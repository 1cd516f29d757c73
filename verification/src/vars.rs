//! Lists of variables and the places of the variables in them.
use crate::perm::distinct_is_short;
use crate::simplex::{located, partitioned, SENTINEL};
use crate::sparse::{ascending, below, distinct, filled, holds, place};
use vstd::prelude::*;

verus! {

/// Lists that hold every variable once have as many places as there are variables.
pub proof fn lengths_add_up(
    basic: Seq<usize>,
    basic_inv: Seq<usize>,
    rest: Seq<usize>,
    rest_inv: Seq<usize>,
    total: int,
)
    requires
        0 <= total <= usize::MAX,
        located(basic, basic_inv, total),
        located(rest, rest_inv, total),
        forall|v: int|
            0 <= v < total ==> (#[trigger] basic_inv[v] == SENTINEL) != (rest_inv[v] == SENTINEL),
    ensures
        partitioned(basic, basic_inv, rest, rest_inv, total),
{
    let m = basic.len() as int;
    let n = m + rest.len();
    let all = basic + rest;
    assert forall|p: int, q: int| 0 <= p < q < n implies #[trigger] all[p] != #[trigger] all[q] by {
        if q < m {
            assert(basic_inv[basic[p] as int] == p && basic_inv[basic[q] as int] == q);
        } else if p >= m {
            assert(rest_inv[rest[p - m] as int] == p - m && rest_inv[rest[q - m] as int] == q - m);
        } else {
            assert(basic_inv[basic[p] as int] == p);
            assert(rest_inv[rest[q - m] as int] == q - m);
        }
    }
    assert forall|p: int| 0 <= p < n implies #[trigger] all[p] < total by {
        if p < m {
            assert(basic[p] < total);
        } else {
            assert(rest[p - m] < total);
        }
    }
    distinct_is_short(all, total);
    let places = Seq::new(
        total as nat,
        |v: int|
            if basic_inv[v] != SENTINEL {
                basic_inv[v]
            } else {
                (m + rest_inv[v]) as usize
            },
    );
    assert forall|v: int| 0 <= v < total implies #[trigger] places[v] < n && all[places[v] as int]
        == v by {
        if basic_inv[v] != SENTINEL {
            assert(basic[basic_inv[v] as int] == v);
        } else {
            assert(rest_inv[v] != SENTINEL);
            assert(rest[rest_inv[v] as int] == v);
        }
    }
    assert forall|p: int, q: int| 0 <= p < q < total implies #[trigger] places[p]
        != #[trigger] places[q] by {
        assert(all[places[p] as int] == p);
        assert(all[places[q] as int] == q);
    }
    distinct_is_short(places, n);
}

/// For every number below `total` its place in the list.
pub fn places_of(list: &Vec<usize>, total: usize) -> (r: Vec<usize>)
    requires
        below(list@, total as int),
        distinct(list@, 0, list@.len() as int),
        list@.len() < SENTINEL,
    ensures
        located(list@, r@, total as int),
        forall|v: int|
            0 <= v < total ==> (#[trigger] r@[v] == SENTINEL) == !holds(
                list@,
                0,
                list@.len() as int,
                v,
            ),
{
    let mut inv: Vec<usize> = filled(total, SENTINEL);
    let n: usize = list.len();
    let mut i: usize = 0;
    while i < n
        invariant
            n == list@.len(),
            n < SENTINEL,
            i <= n,
            below(list@, total as int),
            distinct(list@, 0, n as int),
            inv@.len() == total,
            forall|k: int| 0 <= k < i ==> #[trigger] list@[k] < total && inv@[list@[k] as int] == k,
            forall|v: int|
                0 <= v < total ==> (#[trigger] inv@[v] == SENTINEL || inv@[v] < i
                    && list@[inv@[v] as int] == v),
        decreases n - i,
    {
        let v: usize = list[i];
        inv[v] = i;
        proof {
            assert forall|k: int| 0 <= k < i + 1 implies #[trigger] list@[k] < total
                && inv@[list@[k] as int] == k by {
                if k < i {
                    assert(list@[k] != list@[i as int]);
                }
            }
        }
        i += 1;
    }
    proof {
        assert forall|v: int| 0 <= v < total implies (#[trigger] inv@[v] == SENTINEL) == !holds(
            list@,
            0,
            n as int,
            v,
        ) by {
            if holds(list@, 0, n as int, v) {
                let k = place(list@, 0, n as int, v);
                assert(list@[k] == v);
            } else if inv@[v] != SENTINEL {
                assert(list@[inv@[v] as int] == v);
            }
        }
    }
    inv
}

/// The numbers that have no place, in order, and their places.
pub fn rest_of(inv: &Vec<usize>) -> (r: (Vec<usize>, Vec<usize>))
    requires
        inv@.len() < SENTINEL,
    ensures
        located(r.0@, r.1@, inv@.len() as int),
        ascending(r.0@, 0, r.0@.len() as int),
        forall|v: int|
            0 <= v < inv@.len() ==> (#[trigger] r.1@[v] == SENTINEL) == (inv@[v] != SENTINEL),
{
    let total: usize = inv.len();
    let mut rest_inv: Vec<usize> = filled(total, SENTINEL);
    let mut rest: Vec<usize> = Vec::new();
    let mut v: usize = 0;
    while v < total
        invariant
            total == inv@.len(),
            total < SENTINEL,
            v <= total,
            rest_inv@.len() == total,
            rest@.len() <= v,
            ascending(rest@, 0, rest@.len() as int),
            forall|k: int|
                0 <= k < rest@.len() ==> #[trigger] rest@[k] < v && rest_inv@[rest@[k] as int] == k,
            forall|w: int|
                0 <= w < total ==> (#[trigger] rest_inv@[w] == SENTINEL || rest_inv@[w]
                    < rest@.len() && rest@[rest_inv@[w] as int] == w),
            forall|w: int|
                0 <= w < total ==> (#[trigger] rest_inv@[w] == SENTINEL) == (w >= v || inv@[w]
                    != SENTINEL),
        decreases total - v,
    {
        if inv[v] == SENTINEL {
            let ghost before = rest@;
            rest_inv[v] = rest.len();
            rest.push(v);
            proof {
                assert forall|k: int| 0 <= k < rest@.len() implies #[trigger] rest@[k] < v + 1
                    && rest_inv@[rest@[k] as int] == k by {
                    if k < before.len() {
                        assert(before[k] < v);
                    }
                }
                assert forall|p: int, q: int| 0 <= p < q < rest@.len() implies
                    #[trigger] rest@[p] < #[trigger] rest@[q] by {
                    if q < before.len() {
                        assert(before[p] < before[q]);
                    } else {
                        assert(before[p] < v);
                    }
                }
            }
        }
        v += 1;
    }
    (rest, rest_inv)
}

} // verus!
