//! Ordered domains that can bound an interval.
//!
//! Every value of a domain has a position on the integer line, its `key`.
//! Comparisons are stated over keys, so the interval algebra is proved once,
//! for every domain, over mathematical integers.
use std::ops::Range;
use vstd::prelude::*;

verus! {

/// A copyable, totally ordered value that can bound a half-open interval.
pub trait Domain: Copy + Sized {
    /// Position of the value in the domain's order.
    spec fn key(self) -> int;

    /// Whether `self` comes no later than `other`.
    fn at_most(&self, other: &Self) -> (r: bool)
        ensures
            r == (self.key() <= other.key()),
    ;

    /// Whether `self` comes strictly before `other`.
    fn below(&self, other: &Self) -> (r: bool)
        ensures
            r == (self.key() < other.key()),
    ;
}

/// A domain with a least and a greatest value, so that the complement of an
/// empty set of intervals is the whole domain.
pub trait UniversalInterval: Domain {
    /// Key of the domain's least value.
    spec fn infimum_key() -> int;

    /// Key of the domain's greatest value.
    spec fn supremum_key() -> int;

    /// Every value lies between the two extremes.
    proof fn lemma_extremes(x: Self)
        ensures
            Self::infimum_key() <= x.key() <= Self::supremum_key(),
    ;

    /// The least value lies below the greatest.
    proof fn lemma_extremes_differ()
        ensures
            Self::infimum_key() < Self::supremum_key(),
    ;

    /// The least value of the domain.
    fn infimum() -> (r: Self)
        ensures
            r.key() == Self::infimum_key(),
    ;

    /// The greatest value of the domain.
    fn supremum() -> (r: Self)
        ensures
            r.key() == Self::supremum_key(),
    ;

    /// Whether the value is the domain's least value.
    fn is_infimum(&self) -> (r: bool)
        ensures
            r == (self.key() == Self::infimum_key()),
    ;

    /// Whether the value is the domain's greatest value.
    fn is_supremum(&self) -> (r: bool)
        ensures
            r == (self.key() == Self::supremum_key()),
    ;

    /// The interval spanning the whole domain.
    fn universal_interval() -> (r: Range<Self>)
        ensures
            r.start.key() == Self::infimum_key(),
            r.end.key() == Self::supremum_key(),
    {
        Range { start: Self::infimum(), end: Self::supremum() }
    }
}

/// A domain with the arithmetic needed to measure covered length.
pub trait Measurable: Domain {
    /// Whether an integer is the key of some value of the domain.
    spec fn fits(v: int) -> bool;

    /// The representable keys include every integer between zero and a
    /// representable non-negative key.
    proof fn lemma_fits(v: int, w: int)
        requires
            0 <= v <= w,
            Self::fits(w),
        ensures
            Self::fits(v),
    ;

    /// The value with key zero.
    fn zero() -> (r: Self)
        ensures
            r.key() == 0,
    ;

    /// Sum of two values whose sum is representable.
    fn plus(self, other: Self) -> (r: Self)
        requires
            Self::fits(self.key() + other.key()),
        ensures
            r.key() == self.key() + other.key(),
    ;

    /// Difference of two values whose difference is representable.
    fn minus(self, other: Self) -> (r: Self)
        requires
            Self::fits(self.key() - other.key()),
        ensures
            r.key() == self.key() - other.key(),
    ;
}

impl Domain for i32 {
    open spec fn key(self) -> int {
        self as int
    }

    fn at_most(&self, other: &Self) -> (r: bool) {
        *self <= *other
    }

    fn below(&self, other: &Self) -> (r: bool) {
        *self < *other
    }
}

impl UniversalInterval for i32 {
    open spec fn infimum_key() -> int {
        i32::MIN as int
    }

    open spec fn supremum_key() -> int {
        i32::MAX as int
    }

    proof fn lemma_extremes(x: Self) {
    }

    proof fn lemma_extremes_differ() {
    }

    fn infimum() -> (r: Self) {
        i32::MIN
    }

    fn supremum() -> (r: Self) {
        i32::MAX
    }

    fn is_infimum(&self) -> (r: bool) {
        *self == i32::MIN
    }

    fn is_supremum(&self) -> (r: bool) {
        *self == i32::MAX
    }
}

impl Measurable for i32 {
    open spec fn fits(v: int) -> bool {
        i32::MIN <= v <= i32::MAX
    }

    proof fn lemma_fits(v: int, w: int) {
    }

    fn zero() -> (r: Self) {
        0
    }

    fn plus(self, other: Self) -> (r: Self) {
        self + other
    }

    fn minus(self, other: Self) -> (r: Self) {
        self - other
    }
}

impl Domain for i64 {
    open spec fn key(self) -> int {
        self as int
    }

    fn at_most(&self, other: &Self) -> (r: bool) {
        *self <= *other
    }

    fn below(&self, other: &Self) -> (r: bool) {
        *self < *other
    }
}

impl UniversalInterval for i64 {
    open spec fn infimum_key() -> int {
        i64::MIN as int
    }

    open spec fn supremum_key() -> int {
        i64::MAX as int
    }

    proof fn lemma_extremes(x: Self) {
    }

    proof fn lemma_extremes_differ() {
    }

    fn infimum() -> (r: Self) {
        i64::MIN
    }

    fn supremum() -> (r: Self) {
        i64::MAX
    }

    fn is_infimum(&self) -> (r: bool) {
        *self == i64::MIN
    }

    fn is_supremum(&self) -> (r: bool) {
        *self == i64::MAX
    }
}

impl Measurable for i64 {
    open spec fn fits(v: int) -> bool {
        i64::MIN <= v <= i64::MAX
    }

    proof fn lemma_fits(v: int, w: int) {
    }

    fn zero() -> (r: Self) {
        0
    }

    fn plus(self, other: Self) -> (r: Self) {
        self + other
    }

    fn minus(self, other: Self) -> (r: Self) {
        self - other
    }
}

impl Domain for isize {
    open spec fn key(self) -> int {
        self as int
    }

    fn at_most(&self, other: &Self) -> (r: bool) {
        *self <= *other
    }

    fn below(&self, other: &Self) -> (r: bool) {
        *self < *other
    }
}

impl UniversalInterval for isize {
    open spec fn infimum_key() -> int {
        isize::MIN as int
    }

    open spec fn supremum_key() -> int {
        isize::MAX as int
    }

    proof fn lemma_extremes(x: Self) {
    }

    proof fn lemma_extremes_differ() {
    }

    fn infimum() -> (r: Self) {
        isize::MIN
    }

    fn supremum() -> (r: Self) {
        isize::MAX
    }

    fn is_infimum(&self) -> (r: bool) {
        *self == isize::MIN
    }

    fn is_supremum(&self) -> (r: bool) {
        *self == isize::MAX
    }
}

impl Measurable for isize {
    open spec fn fits(v: int) -> bool {
        isize::MIN <= v <= isize::MAX
    }

    proof fn lemma_fits(v: int, w: int) {
    }

    fn zero() -> (r: Self) {
        0
    }

    fn plus(self, other: Self) -> (r: Self) {
        self + other
    }

    fn minus(self, other: Self) -> (r: Self) {
        self - other
    }
}

impl Domain for u32 {
    open spec fn key(self) -> int {
        self as int
    }

    fn at_most(&self, other: &Self) -> (r: bool) {
        *self <= *other
    }

    fn below(&self, other: &Self) -> (r: bool) {
        *self < *other
    }
}

impl UniversalInterval for u32 {
    open spec fn infimum_key() -> int {
        u32::MIN as int
    }

    open spec fn supremum_key() -> int {
        u32::MAX as int
    }

    proof fn lemma_extremes(x: Self) {
    }

    proof fn lemma_extremes_differ() {
    }

    fn infimum() -> (r: Self) {
        u32::MIN
    }

    fn supremum() -> (r: Self) {
        u32::MAX
    }

    fn is_infimum(&self) -> (r: bool) {
        *self == u32::MIN
    }

    fn is_supremum(&self) -> (r: bool) {
        *self == u32::MAX
    }
}

impl Measurable for u32 {
    open spec fn fits(v: int) -> bool {
        u32::MIN <= v <= u32::MAX
    }

    proof fn lemma_fits(v: int, w: int) {
    }

    fn zero() -> (r: Self) {
        0
    }

    fn plus(self, other: Self) -> (r: Self) {
        self + other
    }

    fn minus(self, other: Self) -> (r: Self) {
        self - other
    }
}

impl Domain for u64 {
    open spec fn key(self) -> int {
        self as int
    }

    fn at_most(&self, other: &Self) -> (r: bool) {
        *self <= *other
    }

    fn below(&self, other: &Self) -> (r: bool) {
        *self < *other
    }
}

impl UniversalInterval for u64 {
    open spec fn infimum_key() -> int {
        u64::MIN as int
    }

    open spec fn supremum_key() -> int {
        u64::MAX as int
    }

    proof fn lemma_extremes(x: Self) {
    }

    proof fn lemma_extremes_differ() {
    }

    fn infimum() -> (r: Self) {
        u64::MIN
    }

    fn supremum() -> (r: Self) {
        u64::MAX
    }

    fn is_infimum(&self) -> (r: bool) {
        *self == u64::MIN
    }

    fn is_supremum(&self) -> (r: bool) {
        *self == u64::MAX
    }
}

impl Measurable for u64 {
    open spec fn fits(v: int) -> bool {
        u64::MIN <= v <= u64::MAX
    }

    proof fn lemma_fits(v: int, w: int) {
    }

    fn zero() -> (r: Self) {
        0
    }

    fn plus(self, other: Self) -> (r: Self) {
        self + other
    }

    fn minus(self, other: Self) -> (r: Self) {
        self - other
    }
}

impl Domain for usize {
    open spec fn key(self) -> int {
        self as int
    }

    fn at_most(&self, other: &Self) -> (r: bool) {
        *self <= *other
    }

    fn below(&self, other: &Self) -> (r: bool) {
        *self < *other
    }
}

impl UniversalInterval for usize {
    open spec fn infimum_key() -> int {
        usize::MIN as int
    }

    open spec fn supremum_key() -> int {
        usize::MAX as int
    }

    proof fn lemma_extremes(x: Self) {
    }

    proof fn lemma_extremes_differ() {
    }

    fn infimum() -> (r: Self) {
        usize::MIN
    }

    fn supremum() -> (r: Self) {
        usize::MAX
    }

    fn is_infimum(&self) -> (r: bool) {
        *self == usize::MIN
    }

    fn is_supremum(&self) -> (r: bool) {
        *self == usize::MAX
    }
}

impl Measurable for usize {
    open spec fn fits(v: int) -> bool {
        usize::MIN <= v <= usize::MAX
    }

    proof fn lemma_fits(v: int, w: int) {
    }

    fn zero() -> (r: Self) {
        0
    }

    fn plus(self, other: Self) -> (r: Self) {
        self + other
    }

    fn minus(self, other: Self) -> (r: Self) {
        self - other
    }
}

} // verus!
