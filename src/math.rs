//! Small arithmetic capabilities of numeric types.
use vstd::prelude::*;

verus! {

/// A type with an additive identity.
pub trait Zero: Sized {
    spec fn spec_zero() -> Self;

    fn zero() -> (r: Self)
        ensures
            r == Self::spec_zero(),
    ;
}

/// A type with a multiplicative identity.
pub trait One: Sized {
    spec fn spec_one() -> Self;

    fn one() -> (r: Self)
        ensures
            r == Self::spec_one(),
    ;
}

impl Zero for i32 {
    open spec fn spec_zero() -> i32 {
        0
    }

    fn zero() -> (r: i32) {
        0
    }
}

impl Zero for i64 {
    open spec fn spec_zero() -> i64 {
        0
    }

    fn zero() -> (r: i64) {
        0
    }
}

impl Zero for usize {
    open spec fn spec_zero() -> usize {
        0
    }

    fn zero() -> (r: usize) {
        0
    }
}

impl One for i32 {
    open spec fn spec_one() -> i32 {
        1
    }

    fn one() -> (r: i32) {
        1
    }
}

impl One for i64 {
    open spec fn spec_one() -> i64 {
        1
    }

    fn one() -> (r: i64) {
        1
    }
}

impl One for usize {
    open spec fn spec_one() -> usize {
        1
    }

    fn one() -> (r: usize) {
        1
    }
}

/// `d` divides `a`.
pub open spec fn divides(d: int, a: int) -> bool {
    exists|k: int| #[trigger] (d * k) == a
}

/// `g` is a greatest common divisor of `a` and `b`: it divides both, and
/// every common divisor divides it.
pub open spec fn is_gcd(a: int, b: int, g: int) -> bool {
    &&& g >= 0
    &&& divides(g, a) && divides(g, b)
    &&& forall|d: int| #[trigger] divides(d, a) && divides(d, b) ==> divides(d, g)
}

/// Greatest common divisor and least common multiple.
pub trait Gcd: Sized {
    spec fn spec_int(v: Self) -> int;

    /// Inputs on which the operations are defined.
    spec fn spec_gcd_ok(a: Self, b: Self) -> bool;

    spec fn spec_lcm_ok(a: Self, b: Self) -> bool;

    fn gcd(a: Self, b: Self) -> (r: Self)
        requires
            Self::spec_gcd_ok(a, b),
        ensures
            is_gcd(Self::spec_int(a), Self::spec_int(b), Self::spec_int(r)),
    ;

    /// `a * (b / gcd(a, b))`.
    fn lcm(a: Self, b: Self) -> (r: Self)
        requires
            Self::spec_lcm_ok(a, b),
        ensures
            exists|g: int|
                #[trigger] is_gcd(Self::spec_int(a), Self::spec_int(b), g) && g > 0
                    && Self::spec_int(r) == Self::spec_int(a) * (Self::spec_int(b) / g),
    ;
}

/// Common divisors of `x` and `y` are those of `y` and `x % y`.
proof fn lemma_euclid_step(x: int, y: int)
    requires
        x >= 0,
        y > 0,
    ensures
        forall|d: int|
            (#[trigger] divides(d, x) && divides(d, y)) <==> (divides(d, y) && divides(d, x % y)),
{
    let q = x / y;
    let r = x % y;
    vstd::arithmetic::div_mod::lemma_fundamental_div_mod(x, y);
    assert forall|d: int| (#[trigger] divides(d, x) && divides(d, y)) <==> (divides(d, y)
        && divides(d, x % y)) by {
        if divides(d, x) && divides(d, y) {
            let kx = choose|k: int| #[trigger] (d * k) == x;
            let ky = choose|k: int| #[trigger] (d * k) == y;
            assert(d * (kx - ky * q) == r) by (nonlinear_arith)
                requires
                    d * kx == x,
                    d * ky == y,
                    x == y * q + r,
            ;
        }
        if divides(d, y) && divides(d, x % y) {
            let ky = choose|k: int| #[trigger] (d * k) == y;
            let kr = choose|k: int| #[trigger] (d * k) == r;
            assert(d * (ky * q + kr) == x) by (nonlinear_arith)
                requires
                    d * kr == r,
                    d * ky == y,
                    x == y * q + r,
            ;
        }
    }
}

/// Every integer divides zero and itself.
proof fn lemma_divides_trivial(g: int)
    ensures
        divides(g, 0),
        divides(g, g),
{
    assert(g * 0 == 0);
    assert(g * 1 == g);
}

/// Euclid's algorithm on non-negative integers that fit in `u64`.
fn gcd_u64(a: u64, b: u64) -> (r: u64)
    ensures
        is_gcd(a as int, b as int, r as int),
{
    let mut x = a;
    let mut y = b;
    while y != 0
        invariant
            forall|d: int|
                (#[trigger] divides(d, x as int) && divides(d, y as int)) <==> (divides(
                    d,
                    a as int,
                ) && divides(d, b as int)),
        decreases y,
    {
        proof {
            lemma_euclid_step(x as int, y as int);
        }
        let next = x % y;
        let ghost (x0, y0) = (x as int, y as int);
        x = y;
        y = next;
        proof {
            assert forall|d: int|
                (#[trigger] divides(d, x as int) && divides(d, y as int)) <==> (divides(
                    d,
                    a as int,
                ) && divides(d, b as int)) by {
                assert(divides(d, x0) && divides(d, y0) <==> divides(d, a as int) && divides(
                    d,
                    b as int,
                ));
            }
        }
    }
    proof {
        lemma_divides_trivial(x as int);
        assert forall|d: int| #[trigger] divides(d, a as int) && divides(d, b as int) implies divides(
            d,
            x as int,
        ) by {
            let k = 0int;
            assert(d * k == 0);
        }
    }
    x
}

impl Gcd for usize {
    open spec fn spec_int(v: usize) -> int {
        v as int
    }

    open spec fn spec_gcd_ok(a: usize, b: usize) -> bool {
        true
    }

    open spec fn spec_lcm_ok(a: usize, b: usize) -> bool {
        &&& a > 0 || b > 0
        &&& forall|g: int| #[trigger] is_gcd(a as int, b as int, g) && g > 0 ==> a as int * (b as int / g) <= usize::MAX
    }

    fn gcd(a: usize, b: usize) -> (r: usize) {
        let g = gcd_u64(a as u64, b as u64);
        proof {
            lemma_gcd_bounded(a as int, b as int, g as int);
        }
        g as usize
    }

    fn lcm(a: usize, b: usize) -> (r: usize) {
        let g = Self::gcd(a, b);
        proof {
            lemma_gcd_positive(a as int, b as int, g as int);
        }
        a * (b / g)
    }
}

impl Gcd for i32 {
    open spec fn spec_int(v: i32) -> int {
        v as int
    }

    open spec fn spec_gcd_ok(a: i32, b: i32) -> bool {
        a >= 0 && b >= 0
    }

    open spec fn spec_lcm_ok(a: i32, b: i32) -> bool {
        &&& a >= 0 && b >= 0
        &&& a > 0 || b > 0
        &&& forall|g: int| #[trigger] is_gcd(a as int, b as int, g) && g > 0 ==> a as int * (b as int / g) <= i32::MAX
    }

    fn gcd(a: i32, b: i32) -> (r: i32) {
        let g = gcd_u64(a as u64, b as u64);
        proof {
            lemma_gcd_bounded(a as int, b as int, g as int);
        }
        g as i32
    }

    fn lcm(a: i32, b: i32) -> (r: i32) {
        let g = Self::gcd(a, b);
        proof {
            lemma_gcd_positive(a as int, b as int, g as int);
            assert(b / g >= 0);
        }
        a * (b / g)
    }
}

impl Gcd for i64 {
    open spec fn spec_int(v: i64) -> int {
        v as int
    }

    open spec fn spec_gcd_ok(a: i64, b: i64) -> bool {
        a >= 0 && b >= 0
    }

    open spec fn spec_lcm_ok(a: i64, b: i64) -> bool {
        &&& a >= 0 && b >= 0
        &&& a > 0 || b > 0
        &&& forall|g: int| #[trigger] is_gcd(a as int, b as int, g) && g > 0 ==> a as int * (b as int / g) <= i64::MAX
    }

    fn gcd(a: i64, b: i64) -> (r: i64) {
        let g = gcd_u64(a as u64, b as u64);
        proof {
            lemma_gcd_bounded(a as int, b as int, g as int);
        }
        g as i64
    }

    fn lcm(a: i64, b: i64) -> (r: i64) {
        let g = Self::gcd(a, b);
        proof {
            lemma_gcd_positive(a as int, b as int, g as int);
            assert(b / g >= 0);
        }
        a * (b / g)
    }
}

/// The greatest common divisor of two numbers, not both zero, is positive.
proof fn lemma_gcd_positive(a: int, b: int, g: int)
    requires
        a >= 0 && b >= 0,
        a > 0 || b > 0,
        is_gcd(a, b, g),
    ensures
        g > 0,
{
    if g == 0 {
        if a > 0 {
            let k = choose|k: int| #[trigger] (g * k) == a;
            assert(g * k == 0);
        } else {
            let k = choose|k: int| #[trigger] (g * k) == b;
            assert(g * k == 0);
        }
    }
}

/// The greatest common divisor is at most the larger input.
proof fn lemma_gcd_bounded(a: int, b: int, g: int)
    requires
        a >= 0 && b >= 0,
        is_gcd(a, b, g),
    ensures
        g <= a || g <= b,
{
    if a > 0 {
        let k = choose|k: int| #[trigger] (g * k) == a;
        assert(g <= a) by (nonlinear_arith)
            requires
                g * k == a,
                a > 0,
                g >= 0,
        ;
    } else if b > 0 {
        let k = choose|k: int| #[trigger] (g * k) == b;
        assert(g <= b) by (nonlinear_arith)
            requires
                g * k == b,
                b > 0,
                g >= 0,
        ;
    } else {
        assert(divides(0, 0)) by {
            assert(0int * 0int == 0);
        }
        assert(divides(0, g));
        let m = choose|m: int| #[trigger] (0 * m) == g;
    }
}

/// An absolute value, where the type can hold it.
pub trait AbsoluteValue: Sized {
    spec fn spec_abs(&self) -> Option<Self>;

    fn abs(&self) -> (r: Option<Self>)
        ensures
            r == self.spec_abs(),
    ;
}

impl AbsoluteValue for i32 {
    /// `None` for `i32::MIN`, whose absolute value does not fit.
    open spec fn spec_abs(&self) -> Option<i32> {
        if *self == i32::MIN {
            None
        } else if *self < 0 {
            Some((-*self) as i32)
        } else {
            Some(*self)
        }
    }

    fn abs(&self) -> (r: Option<i32>) {
        if *self == i32::MIN {
            None
        } else if *self < 0 {
            Some(-*self)
        } else {
            Some(*self)
        }
    }
}

impl AbsoluteValue for usize {
    open spec fn spec_abs(&self) -> Option<usize> {
        Some(*self)
    }

    fn abs(&self) -> (r: Option<usize>) {
        Some(*self)
    }
}

/// The inclusive lower bound of a range.
pub trait InclusiveMin<T> {
    fn inclusive_min(&self) -> &T;
}

/// The inclusive upper bound of a range.
pub trait InclusiveMax<T> {
    fn inclusive_max(&self) -> &T;
}

/// The exclusive upper bound of a range.
pub trait ExclusiveMax<T> {
    fn exclusive_max(&self) -> &T;
}

/// `n * (n + 1) / 2`, for any integer `n`.
pub open spec fn triangle(n: int) -> int {
    n * (n + 1) / 2
}

/// The `n`-th triangle number, `n * (n + 1) / 2`. The result must fit in
/// `i32`.
pub fn triangle_numbers(n: i32) -> (r: i32)
    requires
        i32::MIN <= triangle(n as int) <= i32::MAX,
    ensures
        r == triangle(n as int),
{
    let w = n as i64;
    assert(w * (w + 1) >= 0) by (nonlinear_arith);
    assert(w * (w + 1) <= 0x4000_0000_8000_0000) by (nonlinear_arith)
        requires
            i32::MIN <= w <= i32::MAX,
    ;
    let product = (w * (w + 1)) as u64;
    (product / 2) as i32
}

} // verus!
