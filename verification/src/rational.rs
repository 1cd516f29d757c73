//! Exact fractions with bounded parts: the scalar type whose arithmetic does not round.
use crate::scalar::{abs_real, exact, is_int, whole, Scalar};
use vstd::prelude::*;

verus! {

/// A fraction, an infinity or an undefined value. A result whose lowest terms do not fit is
/// undefined.
#[derive(Clone, Copy, Debug)]
pub struct Rational {
    pub num: i64,
    pub den: u32,
}

/// The greatest common divisor, by Euclid.
pub open spec fn gcd(a: nat, b: nat) -> nat
    decreases b,
{
    if b == 0 {
        a
    } else {
        gcd(b, a % b)
    }
}

/// The greatest common divisor divides both numbers; the quotients are returned.
pub proof fn gcd_divides(a: nat, b: nat) -> (q: (nat, nat))
    requires
        a > 0 || b > 0,
    ensures
        gcd(a, b) > 0,
        a == gcd(a, b) * q.0,
        b == gcd(a, b) * q.1,
    decreases b,
{
    if b == 0 {
        assert(a == a * 1 && 0 == a * 0) by (nonlinear_arith);
        (1, 0)
    } else {
        let (x, y) = gcd_divides(b, a % b);
        let g = gcd(a, b);
        let k = a / b;
        assert(a == b * k + a % b) by (nonlinear_arith)
            requires
                b > 0,
                k == a / b,
        ;
        assert((g * x) * k + g * y == g * (k * x + y)) by (nonlinear_arith);
        (k * x + y, x)
    }
}

fn gcd_u128(a: u128, b: u128) -> (g: u128)
    requires
        a > 0 || b > 0,
    ensures
        g == gcd(a as nat, b as nat),
        g > 0,
{
    let mut x: u128 = a;
    let mut y: u128 = b;
    while y != 0
        invariant
            gcd(x as nat, y as nat) == gcd(a as nat, b as nat),
            x > 0 || y > 0,
        decreases y,
    {
        let t: u128 = x % y;
        x = y;
        y = t;
    }
    x
}

pub open spec fn magnitude(n: int) -> nat {
    if n < 0 {
        (-n) as nat
    } else {
        n as nat
    }
}

impl Rational {
    pub open spec fn num_spec(self) -> int {
        self.num as int
    }

    pub open spec fn den_spec(self) -> int {
        self.den as int
    }

    pub open spec fn undefined() -> Rational {
        Rational { num: 0, den: 0 }
    }

    /// The infinity of the sign of `n`; undefined for zero.
    pub open spec fn endless(n: int) -> Rational {
        Rational {
            num: if n > 0 {
                1
            } else if n < 0 {
                (-1) as i64
            } else {
                0
            },
            den: 0,
        }
    }

    /// `n / d` in lowest terms, or undefined where those do not fit.
    pub open spec fn lowest(n: int, d: int) -> Rational {
        let g = gcd(magnitude(n), d as nat);
        let m = magnitude(n) / g;
        let k = d as nat / g;
        if m <= i64::MAX && k <= u32::MAX {
            Rational {
                num: if n < 0 {
                    (-m) as i64
                } else {
                    m as i64
                },
                den: k as u32,
            }
        } else {
            Rational::undefined()
        }
    }

    fn build(n: i128, d: i128) -> (r: Rational)
        requires
            d > 0,
            n > i128::MIN,
        ensures
            r == Rational::lowest(n as int, d as int),
    {
        let m: u128 = if n < 0 {
            (-n) as u128
        } else {
            n as u128
        };
        let g: u128 = gcd_u128(m, d as u128);
        let mr: u128 = m / g;
        let dr: u128 = d as u128 / g;
        if mr <= i64::MAX as u128 && dr <= u32::MAX as u128 {
            let h: i64 = mr as i64;
            Rational {
                num: if n < 0 {
                    -h
                } else {
                    h
                },
                den: dr as u32,
            }
        } else {
            Rational { num: 0, den: 0 }
        }
    }

    /// The infinity of the sign opposite to that of `n`.
    fn opposite(n: i64) -> (r: Rational)
        ensures
            r == Rational::endless(-n),
    {
        if n > 0 {
            Rational { num: -1, den: 0 }
        } else if n < 0 {
            Rational { num: 1, den: 0 }
        } else {
            Rational { num: 0, den: 0 }
        }
    }

    /// Lowest terms keep the value.
    proof fn lowest_val(n: int, d: int)
        requires
            d > 0,
        ensures
            Rational::lowest(n, d).finite() ==> Rational::lowest(n, d).val() == (n as real) / (
            d as real),
    {
        let (x, y) = gcd_divides(magnitude(n), d as nat);
        let g = gcd(magnitude(n), d as nat);
        assert(magnitude(n) / g == x) by (nonlinear_arith)
            requires
                magnitude(n) == g * x,
                g > 0,
        ;
        assert(d as nat / g == y) by (nonlinear_arith)
            requires
                d as nat == g * y,
                g > 0,
        ;
        let sx: int = if n < 0 {
            -(x as int)
        } else {
            x as int
        };
        assert(n == g * sx) by (nonlinear_arith)
            requires
                magnitude(n) == g * x,
                n < 0 ==> sx == -(x as int),
                n >= 0 ==> sx == x as int,
                n < 0 ==> magnitude(n) == -n,
                n >= 0 ==> magnitude(n) == n,
        ;
        assert(y > 0) by (nonlinear_arith)
            requires
                d == g * y,
                d > 0,
        ;
        cancel(g as int, sx, y as int);
    }

    /// A result is finite just where its lowest terms fit, and then it is the quotient.
    pub proof fn lowest_fits(n: int, d: int)
        requires
            d > 0,
        ensures
            ({
                let g = gcd(magnitude(n), d as nat);
                Rational::lowest(n, d).finite() <==> magnitude(n) / g <= i64::MAX && d as nat / g
                    <= u32::MAX
            }),
            Rational::lowest(n, d).finite() ==> Rational::lowest(n, d).val() == (n as real) / (
            d as real),
    {
        Rational::lowest_val(n, d);
        let (x, y) = gcd_divides(magnitude(n), d as nat);
        let g = gcd(magnitude(n), d as nat);
        assert(d as nat / g > 0) by (nonlinear_arith)
            requires
                d as nat == g * y,
                g > 0,
                d > 0,
        ;
    }

    /// A result with small terms is finite.
    pub proof fn small_fits(n: int, d: int)
        requires
            0 < d <= u32::MAX,
            -i64::MAX <= n <= i64::MAX,
        ensures
            Rational::lowest(n, d).finite(),
            Rational::lowest(n, d).val() == (n as real) / (d as real),
    {
        Rational::lowest_fits(n, d);
        let (x, y) = gcd_divides(magnitude(n), d as nat);
        let (g, m, k) = (gcd(magnitude(n), d as nat), magnitude(n), d as nat);
        assert(m / g <= m && k / g <= k) by (nonlinear_arith)
            requires
                g > 0,
        ;
    }

    /// A whole number is itself.
    pub proof fn whole_fits(n: int)
        requires
            -i64::MAX <= n <= i64::MAX,
        ensures
            Rational::lowest(n, 1) == (Rational { num: n as i64, den: 1 }),
            Rational::lowest(n, 1).finite(),
            Rational::lowest(n, 1).val() == n as real,
    {
        reveal_with_fuel(gcd, 3);
        assert(gcd(magnitude(n), 1) == 1);
        assert((n as real) / (1 as real) == n as real) by (nonlinear_arith);
    }

    /// The fraction `num / den`; undefined where its lowest terms do not fit, an infinity or
    /// undefined where `den` is zero.
    pub fn new(num: i64, den: u32) -> (r: Rational)
        ensures
            den > 0 ==> r == Rational::lowest(num as int, den as int),
            den > 0 && r.finite() ==> r.val() == (num as real) / (den as real),
            den == 0 ==> r == Rational::endless(num as int),
    {
        if den > 0 {
            proof {
                Rational::lowest_val(num as int, den as int);
            }
            Rational::build(num as i128, den as i128)
        } else if num > 0 {
            Rational { num: 1, den: 0 }
        } else if num < 0 {
            Rational { num: -1, den: 0 }
        } else {
            Rational { num: 0, den: 0 }
        }
    }

    pub fn num(self) -> (r: i64)
        ensures
            r == self.num_spec(),
    {
        self.num
    }

    pub fn den(self) -> (r: u32)
        ensures
            r == self.den_spec(),
    {
        self.den
    }
}


impl Scalar for Rational {
    open spec fn val(self) -> real {
        if self.den == 0 {
            0 as real
        } else {
            (self.num as int as real) / (self.den as int as real)
        }
    }

    open spec fn finite(self) -> bool {
        self.den != 0
    }

    open spec fn infinite(self) -> bool {
        self.den == 0 && self.num != 0
    }

    open spec fn normal(self) -> bool {
        self.den != 0 && self.num != 0
    }

    open spec fn zero_spec() -> Self {
        Rational { num: 0, den: 1 }
    }

    open spec fn one_spec() -> Self {
        Rational { num: 1, den: 1 }
    }

    open spec fn infinity_spec() -> Self {
        Rational { num: 1, den: 0 }
    }

    open spec fn neg_infinity_spec() -> Self {
        Rational { num: (-1) as i64, den: 0 }
    }

    open spec fn tolerance_spec() -> Self {
        Rational { num: 1, den: 100_000_000 }
    }

    open spec fn stability_spec() -> Self {
        Rational { num: 1, den: 10 }
    }

    open spec fn plus_spec(self, other: Self) -> Self {
        if self.den != 0 && other.den != 0 {
            Rational::lowest(self.num * other.den + other.num * self.den, self.den * other.den)
        } else if self.den != 0 {
            Rational::endless(other.num as int)
        } else if other.den != 0 {
            Rational::endless(self.num as int)
        } else if (self.num > 0 && other.num > 0) || (self.num < 0 && other.num < 0) {
            Rational::endless(self.num as int)
        } else {
            Rational::undefined()
        }
    }

    open spec fn minus_spec(self, other: Self) -> Self {
        if self.den != 0 && other.den != 0 {
            Rational::lowest(self.num * other.den - other.num * self.den, self.den * other.den)
        } else if self.den != 0 {
            Rational::endless(-other.num)
        } else if other.den != 0 {
            Rational::endless(self.num as int)
        } else if (self.num > 0 && other.num < 0) || (self.num < 0 && other.num > 0) {
            Rational::endless(self.num as int)
        } else {
            Rational::undefined()
        }
    }

    open spec fn times_spec(self, other: Self) -> Self {
        if self.den != 0 && other.den != 0 {
            Rational::lowest(self.num * other.num, self.den * other.den)
        } else if (self.num > 0 && other.num > 0) || (self.num < 0 && other.num < 0) {
            Rational::endless(1)
        } else if (self.num > 0 && other.num < 0) || (self.num < 0 && other.num > 0) {
            Rational::endless(-1)
        } else {
            Rational::undefined()
        }
    }

    open spec fn over_spec(self, other: Self) -> Self {
        if other.den == 0 {
            Rational::undefined()
        } else if other.num == 0 {
            Rational::endless(self.num as int)
        } else if self.den == 0 {
            if other.num > 0 {
                Rational::endless(self.num as int)
            } else {
                Rational::endless(-self.num)
            }
        } else if other.num > 0 {
            Rational::lowest(self.num * other.den, self.den * other.num)
        } else {
            Rational::lowest(-(self.num * other.den), -(self.den * other.num))
        }
    }

    open spec fn negated_spec(self) -> Self {
        if self.den != 0 {
            Rational::lowest(-self.num, self.den as int)
        } else {
            Rational::endless(-self.num)
        }
    }

    open spec fn absolute_spec(self) -> Self {
        if self.den != 0 {
            Rational::lowest(magnitude(self.num as int) as int, self.den as int)
        } else {
            Rational::endless(magnitude(self.num as int) as int)
        }
    }

    open spec fn signum_spec(self) -> Self {
        if self.den == 0 && self.num == 0 {
            Rational::undefined()
        } else if self.num < 0 {
            Rational { num: (-1) as i64, den: 1 }
        } else {
            Rational { num: 1, den: 1 }
        }
    }

    open spec fn floor_spec(self) -> Self {
        if self.den != 0 {
            Rational { num: (self.num as int / self.den as int) as i64, den: 1 }
        } else {
            self
        }
    }

    open spec fn same_spec(self, other: Self) -> bool {
        if self.den != 0 && other.den != 0 {
            self.num * other.den == other.num * self.den
        } else {
            self.den == other.den && ((self.num > 0 && other.num > 0) || (self.num < 0 && other.num
                < 0))
        }
    }

    open spec fn less_spec(self, other: Self) -> bool {
        if self.den != 0 && other.den != 0 {
            self.num * other.den < other.num * self.den
        } else if self.den != 0 {
            other.num > 0
        } else if other.den != 0 {
            self.num < 0
        } else {
            self.num < 0 && other.num > 0
        }
    }

    open spec fn less_eq_spec(self, other: Self) -> bool {
        self.less_spec(other) || self.same_spec(other)
    }

    fn zero() -> (r: Self) {
        Rational { num: 0, den: 1 }
    }

    fn one() -> (r: Self) {
        Rational { num: 1, den: 1 }
    }

    fn infinity() -> (r: Self) {
        Rational { num: 1, den: 0 }
    }

    fn neg_infinity() -> (r: Self) {
        Rational { num: -1, den: 0 }
    }

    fn tolerance() -> (r: Self) {
        Rational { num: 1, den: 100_000_000 }
    }

    fn stability() -> (r: Self) {
        proof {
            assert(gcd(1, 1) == 1 && gcd(1, 10) == 1) by {
                reveal_with_fuel(gcd, 4);
            }
            assert(1nat / 1nat == 1 && 10nat / 1nat == 10);
            assert(Rational::lowest(1, 1) == (Rational { num: 1, den: 1 }));
            assert(Rational::lowest(-1, 1) == (Rational { num: (-1) as i64, den: 1 }));
            assert(Rational::lowest(1, 10) == (Rational { num: 1, den: 10 }));
        }
        Rational { num: 1, den: 10 }
    }

    fn plus(self, other: Self) -> (r: Self) {
        if self.den != 0 && other.den != 0 {
            let (a, b): (i128, i128) = (self.num as i128, self.den as i128);
            let (c, d): (i128, i128) = (other.num as i128, other.den as i128);
            proof {
                product_half(self.num as int, other.den as int);
                product_half(other.num as int, self.den as int);
                positive_product(self.den as int, other.den as int);
            }
            Rational::build(a * d + c * b, b * d)
        } else if self.den != 0 {
            Rational::new(other.num, 0)
        } else if other.den != 0 {
            Rational::new(self.num, 0)
        } else if (self.num > 0 && other.num > 0) || (self.num < 0 && other.num < 0) {
            Rational::new(self.num, 0)
        } else {
            Rational { num: 0, den: 0 }
        }
    }

    fn minus(self, other: Self) -> (r: Self) {
        if self.den != 0 && other.den != 0 {
            let (a, b): (i128, i128) = (self.num as i128, self.den as i128);
            let (c, d): (i128, i128) = (other.num as i128, other.den as i128);
            proof {
                product_half(self.num as int, other.den as int);
                product_half(other.num as int, self.den as int);
                positive_product(self.den as int, other.den as int);
            }
            Rational::build(a * d - c * b, b * d)
        } else if self.den != 0 {
            Rational::opposite(other.num)
        } else if other.den != 0 {
            Rational::new(self.num, 0)
        } else if (self.num > 0 && other.num < 0) || (self.num < 0 && other.num > 0) {
            Rational::new(self.num, 0)
        } else {
            Rational { num: 0, den: 0 }
        }
    }

    fn times(self, other: Self) -> (r: Self) {
        if self.den != 0 && other.den != 0 {
            let (a, b): (i128, i128) = (self.num as i128, self.den as i128);
            let (c, d): (i128, i128) = (other.num as i128, other.den as i128);
            proof {
                product_bound(self.num as int, other.num as int);
                positive_product(self.den as int, other.den as int);
            }
            Rational::build(a * c, b * d)
        } else if (self.num > 0 && other.num > 0) || (self.num < 0 && other.num < 0) {
            Rational { num: 1, den: 0 }
        } else if (self.num > 0 && other.num < 0) || (self.num < 0 && other.num > 0) {
            Rational { num: -1, den: 0 }
        } else {
            Rational { num: 0, den: 0 }
        }
    }

    fn over(self, other: Self) -> (r: Self) {
        if other.den == 0 {
            Rational { num: 0, den: 0 }
        } else if other.num == 0 {
            Rational::new(self.num, 0)
        } else if self.den == 0 {
            if other.num > 0 {
                Rational::new(self.num, 0)
            } else {
                Rational::opposite(self.num)
            }
        } else {
            let (a, b): (i128, i128) = (self.num as i128, self.den as i128);
            let (c, d): (i128, i128) = (other.num as i128, other.den as i128);
            proof {
                product_bound(self.num as int, other.den as int);
                product_bound(other.num as int, self.den as int);
                product_sign(self.den as int, other.num as int);
            }
            if other.num > 0 {
                Rational::build(a * d, b * c)
            } else {
                Rational::build(-(a * d), -(b * c))
            }
        }
    }

    fn negated(self) -> (r: Self) {
        if self.den != 0 {
            Rational::build(-(self.num as i128), self.den as i128)
        } else {
            Rational::opposite(self.num)
        }
    }

    fn absolute(self) -> (r: Self) {
        let n: i128 = self.num as i128;
        if self.den != 0 {
            let m: i128 = if n < 0 {
                -n
            } else {
                n
            };
            Rational::build(m, self.den as i128)
        } else if self.num == 0 {
            Rational { num: 0, den: 0 }
        } else {
            Rational { num: 1, den: 0 }
        }
    }

    fn signum(self) -> (r: Self) {
        if self.den == 0 && self.num == 0 {
            Rational { num: 0, den: 0 }
        } else if self.num < 0 {
            Rational { num: -1, den: 1 }
        } else {
            Rational { num: 1, den: 1 }
        }
    }

    fn floor(self) -> (r: Self) {
        if self.den != 0 {
            let d: i128 = self.den as i128;
            let n: i128 = self.num as i128;
            let q: i128 = if n >= 0 {
                n / d
            } else {
                -((d - 1 - n) / d)
            };
            proof {
                floor_is(self.num as int, self.den as int);
            }
            Rational { num: q as i64, den: 1 }
        } else {
            self
        }
    }

    fn same(self, other: Self) -> (r: bool) {
        if self.den != 0 && other.den != 0 {
            proof {
                product_bound(self.num as int, other.den as int);
                product_bound(other.num as int, self.den as int);
            }
            self.num as i128 * other.den as i128 == other.num as i128 * self.den as i128
        } else {
            self.den == other.den && ((self.num > 0 && other.num > 0) || (self.num < 0 && other.num
                < 0))
        }
    }

    fn less(self, other: Self) -> (r: bool) {
        if self.den != 0 && other.den != 0 {
            proof {
                product_bound(self.num as int, other.den as int);
                product_bound(other.num as int, self.den as int);
            }
            (self.num as i128 * other.den as i128) < other.num as i128 * self.den as i128
        } else if self.den != 0 {
            other.num > 0
        } else if other.den != 0 {
            self.num < 0
        } else {
            self.num < 0 && other.num > 0
        }
    }

    fn less_eq(self, other: Self) -> (r: bool) {
        self.less(other) || self.same(other)
    }

    fn is_finite(self) -> (r: bool) {
        self.den != 0
    }

    fn is_infinite(self) -> (r: bool) {
        self.den == 0 && self.num != 0
    }

    fn is_normal(self) -> (r: bool) {
        self.den != 0 && self.num != 0
    }
}

proof fn product_bound(a: int, b: int)
    requires
        -0x8000_0000_0000_0000 <= a <= 0x8000_0000_0000_0000,
        -0x8000_0000_0000_0000 <= b <= 0x8000_0000_0000_0000,
    ensures
        -0x4000_0000_0000_0000_0000_0000_0000_0000 <= a * b,
        a * b <= 0x4000_0000_0000_0000_0000_0000_0000_0000,
        a * b == b * a,
{
    let m: int = 0x8000_0000_0000_0000;
    assert(-(m * m) <= a * b <= m * m) by (nonlinear_arith)
        requires
            -m <= a <= m,
            -m <= b <= m,
    ;
    assert(a * b == b * a) by (nonlinear_arith);
}

proof fn product_half(a: int, b: int)
    requires
        -0x8000_0000_0000_0000 <= a <= 0x8000_0000_0000_0000,
        0 <= b <= 0xffff_ffff,
    ensures
        -0x8000_0000_0000_0000_0000_0000 <= a * b <= 0x8000_0000_0000_0000_0000_0000,
{
    let m: int = 0x8000_0000_0000_0000;
    assert(-(m * 0x1_0000_0000) <= a * b <= m * 0x1_0000_0000) by (nonlinear_arith)
        requires
            -m <= a <= m,
            0 <= b <= 0xffff_ffff,
            m >= 0,
    ;
}

proof fn positive_product(a: int, b: int)
    requires
        0 < a <= 0xffff_ffff,
        0 < b <= 0xffff_ffff,
    ensures
        0 < a * b,
        a * b <= 0xffff_ffff * 0xffff_ffff,
{
    assert(0 < a * b <= 0xffff_ffff * 0xffff_ffff) by (nonlinear_arith)
        requires
            0 < a <= 0xffff_ffff,
            0 < b <= 0xffff_ffff,
    ;
}

proof fn product_sign(a: int, b: int)
    requires
        0 < a,
    ensures
        b > 0 ==> a * b > 0,
        b < 0 ==> a * b < 0,
{
    assert(b > 0 ==> a * b > 0) by (nonlinear_arith)
        requires
            0 < a,
    ;
    assert(b < 0 ==> a * b < 0) by (nonlinear_arith)
        requires
            0 < a,
    ;
}

proof fn floor_is(n: int, d: int)
    requires
        0 < d,
        i64::MIN <= n <= i64::MAX,
    ensures
        i64::MIN <= n / d <= i64::MAX,
        n < 0 ==> n / d == -((d - 1 - n) / d),
{
    let q = n / d;
    assert(n == q * d + n % d && 0 <= n % d < d) by (nonlinear_arith)
        requires
            q == n / d,
            0 < d,
    ;
    assert(n >= 0 ==> 0 <= q <= n) by (nonlinear_arith)
        requires
            q == n / d,
            0 < d,
    ;
    assert(n < 0 ==> n <= q < 0) by (nonlinear_arith)
        requires
            n == q * d + n % d,
            0 <= n % d < d,
            0 < d,
    ;
    if n < 0 {
        let r = n % d;
        let p = -q;
        assert(p * d == -(q * d)) by (nonlinear_arith)
            requires
                p == -q,
        ;
        assert((d - 1 - n) / d == p) by (nonlinear_arith)
            requires
                0 < d,
                d - 1 - n == p * d + (d - 1 - r),
                0 <= d - 1 - r < d,
        ;
    }
}

/// Fractions do not round.
pub proof fn rational_is_exact()
    ensures
        exact::<Rational>(),
{
    assert forall|a: Rational, b: Rational| (#[trigger] a.plus_spec(b)).finite() implies a.finite()
        && b.finite() && a.plus_spec(b).val() == a.val() + b.val() by {
        let (n, d, m, e) = (a.num as int, a.den as int, b.num as int, b.den as int);
        positive_product(d, e);
        Rational::lowest_val(n * e + m * d, d * e);
        real_mul(n, e);
        real_mul(m, d);
        real_mul(d, e);
        sum_of_fractions(n as real, d as real, m as real, e as real);
    }
    assert forall|a: Rational, b: Rational| (#[trigger] a.minus_spec(b)).finite() implies a.finite()
        && b.finite() && a.minus_spec(b).val() == a.val() - b.val() by {
        let (n, d, m, e) = (a.num as int, a.den as int, b.num as int, b.den as int);
        positive_product(d, e);
        Rational::lowest_val(n * e - m * d, d * e);
        real_mul(n, e);
        real_mul(m, d);
        real_mul(d, e);
        sum_of_fractions(n as real, d as real, m as real, e as real);
    }
    assert forall|a: Rational, b: Rational| (#[trigger] a.times_spec(b)).finite() implies a.finite()
        && b.finite() && a.times_spec(b).val() == a.val() * b.val() by {
        let (n, d, m, e) = (a.num as int, a.den as int, b.num as int, b.den as int);
        positive_product(d, e);
        Rational::lowest_val(n * m, d * e);
        real_mul(n, m);
        real_mul(d, e);
        product_of_fractions(n as real, d as real, m as real, e as real);
    }
    assert forall|a: Rational, b: Rational| (#[trigger] a.over_spec(b)).finite() implies a.finite()
        && b.finite() && b.val() != 0 as real && a.over_spec(b).val() == a.val() / b.val() by {
        let (n, d, m, e) = (a.num as int, a.den as int, b.num as int, b.den as int);
        product_sign(d, m);
        if m > 0 {
            Rational::lowest_val(n * e, d * m);
        } else {
            Rational::lowest_val(-(n * e), -(d * m));
        }
        real_mul(n, e);
        real_mul(d, m);
        quotient_of_fractions(n as real, d as real, m as real, e as real);
    }
    assert forall|a: Rational| (#[trigger] a.negated_spec()).finite() implies a.finite()
        && a.negated_spec().val() == -a.val() by {
        Rational::lowest_val(-a.num, a.den as int);
        opposite_fraction(a.num as int as real, a.den as int as real);
    }
    assert forall|a: Rational| (#[trigger] a.absolute_spec()).finite() implies a.finite()
        && a.absolute_spec().val() == abs_real(a.val()) by {
        Rational::lowest_val(magnitude(a.num as int) as int, a.den as int);
        opposite_fraction(a.num as int as real, a.den as int as real);
    }
    assert forall|a: Rational, b: Rational| a.finite() && b.finite() implies (
    #[trigger] a.less_spec(b) <==> a.val() < b.val()) by {
        order_of_fractions(a, b);
    }
    assert forall|a: Rational, b: Rational| a.finite() && b.finite() implies (
    #[trigger] a.less_eq_spec(b) <==> a.val() <= b.val()) by {
        order_of_fractions(a, b);
    }
    assert forall|a: Rational, b: Rational| #[trigger] a.same_spec(b) implies a.finite()
        == b.finite() && (b.finite() ==> a.val() == b.val()) by {
        if b.finite() {
            order_of_fractions(a, b);
        }
    }
    assert forall|a: Rational| a.finite() implies (#[trigger] a.signum_spec()).finite()
        && a.signum_spec().val() == if a.val() < 0 as real {
        -1 as real
    } else {
        1 as real
    } by {
        opposite_fraction(a.num as int as real, a.den as int as real);
        opposite_fraction(1 as real, 1 as real);
    }
    assert forall|a: Rational| a.finite() implies (#[trigger] a.floor_spec()).finite() && whole(
        a.floor_spec().val(),
    ) && a.floor_spec().val() <= a.val() < a.floor_spec().val() + 1 as real by {
        let (n, d) = (a.num as int, a.den as int);
        floor_is(n, d);
        floor_of_fraction(n, d);
        let q = n / d;
        let qr = q as real;
        assert(qr / (1int as real) == qr) by (nonlinear_arith);
        assert(is_int(a.floor_spec().val(), q));
    }
    assert forall|a: Rational, b: Rational| (#[trigger] a.absolute_spec().less_spec(b)) implies
        a.absolute_spec().finite() by {
        let n = magnitude(a.num as int);
        if a.den != 0 {
            let g = gcd(magnitude(n as int), a.den as nat);
            gcd_divides(magnitude(n as int), a.den as nat);
            let m = magnitude(n as int);
            assert(m as int / g as int >= 0) by (nonlinear_arith)
                requires
                    g > 0,
            ;
        }
        assert(a.absolute_spec().num >= 0);
    }
    assert forall|u: Rational, a: Rational| u.infinite() && a.finite() implies {
        &&& a.less_spec(u) != u.less_spec(a)
        &&& (#[trigger] u.minus_spec(a)).signum_spec().finite()
        &&& u.minus_spec(a).signum_spec().val() == if a.less_spec(u) {
            1 as real
        } else {
            -1 as real
        }
    } by {
        opposite_fraction(1 as real, 1 as real);
        let x = u.minus_spec(a);
        assert(x.den == 0 && x.num != 0);
    }
    assert forall|u: Rational, a: Rational, b: Rational|
        u.infinite() && a.finite() && b.finite() implies #[trigger] b.less_spec(
        a.minus_spec(u).absolute_spec().minus_spec(Rational::tolerance_spec()),
    ) by {
        let x = a.minus_spec(u).absolute_spec();
        assert(x.den == 0 && x.num > 0);
    }
    opposite_fraction(1 as real, 100_000_000 as real);
    assert(Rational::one_spec().negated_spec().finite()) by {
        assert(gcd(1, 1) == 1) by {
            reveal_with_fuel(gcd, 4);
        }
        assert(1nat / 1nat == 1);
    }
    assert forall|a: Rational, b: Rational|
        a.finite() && b.finite() && a.val() == b.val() implies #[trigger] a.same_spec(b) by {
        order_of_fractions(a, b);
    }
    assert forall|a: Rational| #[trigger] a.normal() <==> a.finite() && a.val() != 0 as real by {
        if a.finite() {
            opposite_fraction(a.num as int as real, a.den as int as real);
        }
    }
    opposite_fraction(0 as real, 1 as real);
    assert((1 as real) / (1 as real) == 1 as real);
}

proof fn sum_of_fractions(n: real, d: real, m: real, e: real)
    requires
        d > 0 as real,
        e > 0 as real,
    ensures
        (n * e + m * d) / (d * e) == n / d + m / e,
        (n * e - m * d) / (d * e) == n / d - m / e,
{
    assert((n * e + m * d) / (d * e) == n / d + m / e) by (nonlinear_arith)
        requires
            d > 0 as real,
            e > 0 as real,
    ;
    assert((n * e - m * d) / (d * e) == n / d - m / e) by (nonlinear_arith)
        requires
            d > 0 as real,
            e > 0 as real,
    ;
}

proof fn product_of_fractions(n: real, d: real, m: real, e: real)
    requires
        d > 0 as real,
        e > 0 as real,
    ensures
        (n * m) / (d * e) == (n / d) * (m / e),
{
    assert((n * m) / (d * e) == (n / d) * (m / e)) by (nonlinear_arith)
        requires
            d > 0 as real,
            e > 0 as real,
    ;
}

proof fn quotient_of_fractions(n: real, d: real, m: real, e: real)
    requires
        d > 0 as real,
        e > 0 as real,
        m != 0 as real,
    ensures
        m / e != 0 as real,
        (n * e) / (d * m) == (n / d) / (m / e),
        (-(n * e)) / (-(d * m)) == (n / d) / (m / e),
{
    assert(m / e != 0 as real) by (nonlinear_arith)
        requires
            e > 0 as real,
            m != 0 as real,
    ;
    assert(d * m != 0 as real) by (nonlinear_arith)
        requires
            d > 0 as real,
            m != 0 as real,
    ;
    assert((n * e) / (d * m) == (n / d) / (m / e)) by (nonlinear_arith)
        requires
            d > 0 as real,
            e > 0 as real,
            m != 0 as real,
    ;
    let (p, q) = (n * e, d * m);
    assert((-p) / (-q) == p / q) by (nonlinear_arith)
        requires
            q != 0 as real,
    ;
}

proof fn opposite_fraction(n: real, d: real)
    requires
        d > 0 as real,
    ensures
        (-n) / d == -(n / d),
        n > 0 as real <==> n / d > 0 as real,
        n < 0 as real <==> n / d < 0 as real,
{
    assert((-n) / d == -(n / d)) by (nonlinear_arith)
        requires
            d > 0 as real,
    ;
    let q = n / d;
    assert(n == q * d) by (nonlinear_arith)
        requires
            d > 0 as real,
            q == n / d,
    ;
    assert(n > 0 as real <==> q > 0 as real) by (nonlinear_arith)
        requires
            d > 0 as real,
            n == q * d,
    ;
    assert(n < 0 as real <==> q < 0 as real) by (nonlinear_arith)
        requires
            d > 0 as real,
            n == q * d,
    ;
}

proof fn order_of_fractions(a: Rational, b: Rational)
    requires
        a.den != 0,
        b.den != 0,
    ensures
        a.num * b.den < b.num * a.den <==> a.val() < b.val(),
        a.num * b.den == b.num * a.den <==> a.val() == b.val(),
{
    let (n, d, m, e) = (a.num as int, a.den as int, b.num as int, b.den as int);
    real_mul(n, e);
    real_mul(m, d);
    let (p, q) = (a.val(), b.val());
    let (dr, er) = (d as real, e as real);
    let (nr, mr) = (n as real, m as real);
    assert(nr == p * dr) by (nonlinear_arith)
        requires
            dr > 0 as real,
            p == nr / dr,
    ;
    assert(mr == q * er) by (nonlinear_arith)
        requires
            er > 0 as real,
            q == mr / er,
    ;
    assert(nr * er == (p * (dr * er)) && mr * dr == (q * (dr * er)) && dr * er > 0 as real)
        by (nonlinear_arith)
        requires
            nr == p * dr,
            mr == q * er,
            dr > 0 as real,
            er > 0 as real,
    ;
    let k = dr * er;
    assert((p * k < q * k <==> p < q) && (p * k == q * k <==> p == q)) by (nonlinear_arith)
        requires
            k > 0 as real,
    ;
}

proof fn cancel(g: int, x: int, y: int)
    requires
        g > 0,
        y > 0,
    ensures
        ((g * x) as real) / ((g * y) as real) == (x as real) / (y as real),
{
    real_mul(g, x);
    real_mul(g, y);
    let (gr, xr, yr) = (g as real, x as real, y as real);
    assert((gr * xr) / (gr * yr) == xr / yr) by (nonlinear_arith)
        requires
            gr > 0 as real,
            yr > 0 as real,
    ;
}

proof fn floor_of_fraction(n: int, d: int)
    requires
        0 < d,
    ensures
        (n / d) as real <= (n as real) / (d as real),
        (n as real) / (d as real) < (n / d) as real + 1 as real,
{
    let q = n / d;
    assert(q * d <= n < q * d + d) by (nonlinear_arith)
        requires
            q == n / d,
            0 < d,
    ;
    real_mul(q, d);
    let (nr, dr, qr) = (n as real, d as real, q as real);
    let x = nr / dr;
    assert(qr <= x && x < qr + 1 as real) by (nonlinear_arith)
        requires
            dr > 0 as real,
            x == nr / dr,
            qr * dr <= nr,
            nr < qr * dr + dr,
    ;
}

proof fn real_mul(a: int, b: int)
    ensures
        (a * b) as real == (a as real) * (b as real),
{
    assert((a * b) as real == (a as real) * (b as real)) by (nonlinear_arith);
}

/// The number that a numerator and a denominator stand for.
pub open spec fn quotient(p: int, q: int) -> real {
    (p as real) / (q as real)
}

/// Some fraction with a numerator and a denominator that fit has the value `x`.
pub open spec fn writable(x: real) -> bool {
    exists|p: int, q: int|
        -i64::MAX <= p <= i64::MAX && 0 < q <= u32::MAX && #[trigger] quotient(p, q) == x
}

/// The greatest common divisor is a sum of multiples of the two numbers; the factors are
/// returned.
proof fn gcd_combines(a: nat, b: nat) -> (f: (int, int))
    ensures
        gcd(a, b) == a * f.0 + b * f.1,
    decreases b,
{
    if b == 0 {
        assert(a * 1int + 0int * 0int == a) by (nonlinear_arith);
        (1, 0)
    } else {
        let (s, t) = gcd_combines(b, a % b);
        let (k, m) = (a as int / b as int, a as int % b as int);
        assert(b * s + m * t == a * t + b * (s - k * t)) by (nonlinear_arith)
            requires
                b > 0,
                k == a as int / b as int,
                m == a as int % b as int,
        ;
        (t, s - k * t)
    }
}

/// No fraction of the same value has smaller terms than the lowest.
proof fn lowest_is_least(n: nat, d: nat, p: nat, q: nat)
    requires
        d > 0,
        q > 0,
        n * q == p * d,
    ensures
        n / gcd(n, d) <= p,
        d / gcd(n, d) <= q,
{
    let g = gcd(n, d);
    let (x, y) = gcd_divides(n, d);
    let (s, t) = gcd_combines(n, d);
    assert(n / g == x && d / g == y) by (nonlinear_arith)
        requires
            n == g * x,
            d == g * y,
            g > 0,
    ;
    assert(x * s + y * t == 1) by (nonlinear_arith)
        requires
            g == n * s + d * t,
            n == g * x,
            d == g * y,
            g > 0,
    ;
    assert(x * q == p * y) by (nonlinear_arith)
        requires
            n * q == p * d,
            n == g * x,
            d == g * y,
            g > 0,
    ;
    let k = p * s + q * t;
    assert(q == y * k) by (nonlinear_arith)
        requires
            x * s + y * t == 1,
            x * q == p * y,
            k == p * s + q * t,
    ;
    assert(y > 0) by (nonlinear_arith)
        requires
            d == g * y,
            d > 0,
    ;
    assert(y <= q) by (nonlinear_arith)
        requires
            q == y * k,
            q > 0,
            y > 0,
    ;
    assert(x <= p) by (nonlinear_arith)
        requires
            x * q == p * y,
            y <= q,
            q > 0,
    ;
}

/// Two fractions of one value have equal cross products.
proof fn equal_quotients(n: int, d: int, p: int, q: int)
    requires
        d > 0,
        q > 0,
        quotient(n, d) == quotient(p, q),
    ensures
        n * q == p * d,
{
    real_mul(n, q);
    real_mul(p, d);
    let (nr, dr, pr, qr) = (n as real, d as real, p as real, q as real);
    let x = nr / dr;
    assert(nr * qr == pr * dr) by (nonlinear_arith)
        requires
            dr > 0 as real,
            qr > 0 as real,
            x == nr / dr,
            x == pr / qr,
    ;
}

/// Lowest terms fit just where some terms of the same value do.
proof fn lowest_where_writable(n: int, d: int)
    requires
        d > 0,
    ensures
        Rational::lowest(n, d).finite() <==> writable(quotient(n, d)),
{
    let r = Rational::lowest(n, d);
    Rational::lowest_fits(n, d);
    if r.finite() {
        gcd_divides(magnitude(n), d as nat);
        assert(quotient(r.num as int, r.den as int) == quotient(n, d));
    }
    if writable(quotient(n, d)) {
        let (p, q) = choose|p: int, q: int|
            -i64::MAX <= p <= i64::MAX && 0 < q <= u32::MAX && #[trigger] quotient(p, q)
                == quotient(n, d);
        equal_quotients(n, d, p, q);
        let (nm, pm) = (magnitude(n) as int, magnitude(p) as int);
        assert(nm * q == pm * d) by (nonlinear_arith)
            requires
                n * q == p * d,
                d > 0,
                q > 0,
                nm == n && n >= 0 || nm == -n && n < 0,
                pm == p && p >= 0 || pm == -p && p < 0,
        ;
        lowest_is_least(magnitude(n), d as nat, magnitude(p), q as nat);
    }
}

/// The sum, the difference and the product of two finite numbers, and the quotient by one that
/// is not zero, are finite just where some fraction that fits has their value.
pub proof fn results_are_given_where_writable(a: Rational, b: Rational)
    requires
        a.finite(),
        b.finite(),
    ensures
        a.plus_spec(b).finite() <==> writable(a.val() + b.val()),
        a.minus_spec(b).finite() <==> writable(a.val() - b.val()),
        a.times_spec(b).finite() <==> writable(a.val() * b.val()),
        b.val() != 0 as real ==> (a.over_spec(b).finite() <==> writable(a.val() / b.val())),
{
    let (n, d, m, e) = (a.num as int, a.den as int, b.num as int, b.den as int);
    positive_product(d, e);
    product_sign(d, m);
    real_mul(n, e);
    real_mul(m, d);
    real_mul(n, m);
    real_mul(d, e);
    real_mul(d, m);
    sum_of_fractions(n as real, d as real, m as real, e as real);
    product_of_fractions(n as real, d as real, m as real, e as real);
    lowest_where_writable(n * e + m * d, d * e);
    lowest_where_writable(n * e - m * d, d * e);
    lowest_where_writable(n * m, d * e);
    if b.val() != 0 as real {
        opposite_fraction(m as real, e as real);
        quotient_of_fractions(n as real, d as real, m as real, e as real);
        if m > 0 {
            lowest_where_writable(n * e, d * m);
        } else {
            lowest_where_writable(-(n * e), -(d * m));
        }
    }
}

/// Numbers count as equal up to a hundred millionth, and a pivot as stable from a tenth of the
/// largest.
pub proof fn tolerances_are()
    ensures
        Rational::tolerance_spec().val() * 100_000_000 as real == 1 as real,
        Rational::stability_spec().val() * 10 as real == 1 as real,
{
    let (t, u) = (1 as real, 100_000_000 as real);
    assert((t / u) * u == t) by (nonlinear_arith)
        requires
            u == 100_000_000 as real,
    ;
    let w = 10 as real;
    assert((t / w) * w == t) by (nonlinear_arith)
        requires
            w == 10 as real,
    ;
}

} // verus!
