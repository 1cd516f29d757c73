//! Finite sums of real numbers.
use vstd::prelude::*;

verus! {

/// `f(0) + ... + f(n - 1)`.
pub open spec fn sum(f: spec_fn(int) -> real, n: nat) -> real
    decreases n,
{
    if n == 0 {
        0 as real
    } else {
        sum(f, (n - 1) as nat) + f(n - 1)
    }
}

pub proof fn sum_same(f: spec_fn(int) -> real, g: spec_fn(int) -> real, n: nat)
    requires
        forall|i: int| 0 <= i < n ==> #[trigger] f(i) == g(i),
    ensures
        sum(f, n) == sum(g, n),
    decreases n,
{
    if n > 0 {
        sum_same(f, g, (n - 1) as nat);
        assert(f(n - 1) == g(n - 1));
    }
}

pub proof fn sum_zero(f: spec_fn(int) -> real, n: nat)
    requires
        forall|i: int| 0 <= i < n ==> #[trigger] f(i) == 0 as real,
    ensures
        sum(f, n) == 0 as real,
    decreases n,
{
    if n > 0 {
        sum_zero(f, (n - 1) as nat);
        assert(f(n - 1) == 0 as real);
    }
}

/// Sums that differ in one term.
pub proof fn sum_but_one(f: spec_fn(int) -> real, g: spec_fn(int) -> real, n: nat, k: int)
    requires
        0 <= k < n,
        forall|i: int| 0 <= i < n && i != k ==> #[trigger] f(i) == g(i),
    ensures
        sum(g, n) == sum(f, n) + g(k) - f(k),
    decreases n,
{
    if k == n - 1 {
        sum_same(f, g, (n - 1) as nat);
    } else {
        sum_but_one(f, g, (n - 1) as nat, k);
        assert(f(n - 1) == g(n - 1));
    }
}

/// A sum with one term.
pub proof fn sum_single(f: spec_fn(int) -> real, n: nat, k: int)
    requires
        0 <= k < n,
        forall|i: int| 0 <= i < n && i != k ==> #[trigger] f(i) == 0 as real,
    ensures
        sum(f, n) == f(k),
{
    let z = |i: int| 0 as real;
    sum_zero(z, n);
    sum_but_one(z, f, n, k);
}

/// Terms that are zero do not count.
pub proof fn sum_longer(f: spec_fn(int) -> real, m: nat, n: nat)
    requires
        m <= n,
        forall|i: int| m <= i < n ==> #[trigger] f(i) == 0 as real,
    ensures
        sum(f, n) == sum(f, m),
    decreases n,
{
    if m < n {
        sum_longer(f, m, (n - 1) as nat);
        assert(f(n - 1) == 0 as real);
    }
}

pub proof fn sum_plus(
    f: spec_fn(int) -> real,
    g: spec_fn(int) -> real,
    h: spec_fn(int) -> real,
    n: nat,
)
    requires
        forall|i: int| 0 <= i < n ==> #[trigger] h(i) == f(i) + g(i),
    ensures
        sum(h, n) == sum(f, n) + sum(g, n),
    decreases n,
{
    if n > 0 {
        sum_plus(f, g, h, (n - 1) as nat);
        assert(h(n - 1) == f(n - 1) + g(n - 1));
    }
}

pub proof fn sum_times(c: real, f: spec_fn(int) -> real, h: spec_fn(int) -> real, n: nat)
    requires
        forall|i: int| 0 <= i < n ==> #[trigger] h(i) == c * f(i),
    ensures
        sum(h, n) == c * sum(f, n),
    decreases n,
{
    if n > 0 {
        sum_times(c, f, h, (n - 1) as nat);
        assert(h(n - 1) == c * f(n - 1));
        let s = sum(f, (n - 1) as nat);
        let x = f(n - 1);
        assert(c * s + c * x == c * (s + x)) by (nonlinear_arith);
    } else {
        assert(c * (0 as real) == 0 as real) by (nonlinear_arith);
    }
}

/// The order of summation does not matter.
pub proof fn sum_swap(f: spec_fn(int, int) -> real, n: nat, m: nat)
    ensures
        sum(|i: int| sum(|j: int| f(i, j), m), n) == sum(|j: int| sum(|i: int| f(i, j), n), m),
    decreases n,
{
    let rows = |i: int| sum(|j: int| f(i, j), m);
    let cols = |j: int| sum(|i: int| f(i, j), n);
    if n == 0 {
        assert forall|j: int| 0 <= j < m implies #[trigger] cols(j) == 0 as real by {}
        sum_zero(cols, m);
    } else {
        let k = (n - 1) as nat;
        sum_swap(f, k, m);
        let cols_k = |j: int| sum(|i: int| f(i, j), k);
        let last = |j: int| f(n - 1, j);
        assert forall|j: int| 0 <= j < m implies #[trigger] cols(j) == cols_k(j) + last(j) by {}
        sum_plus(cols_k, last, cols, m);
        assert(rows(n - 1) == sum(|j: int| f(n - 1, j), m));
        sum_same(|j: int| f(n - 1, j), last, m);
    }
}

pub proof fn times_zero(x: real)
    ensures
        (0 as real) * x == 0 as real,
        x * (0 as real) == 0 as real,
        (1 as real) * x == x,
        x * (1 as real) == x,
{
    assert((0 as real) * x == 0 as real) by (nonlinear_arith);
    assert(x * (0 as real) == 0 as real) by (nonlinear_arith);
    assert((1 as real) * x == x) by (nonlinear_arith);
    assert(x * (1 as real) == x) by (nonlinear_arith);
}

} // verus!
