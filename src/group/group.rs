//! The group axioms as a trait, with small instances.
use vstd::prelude::*;

verus! {

/// A group: an associative operation with an identity and inverses.
pub trait Group: Eq + Clone + Copy {
    spec fn spec_identity() -> Self;

    spec fn spec_op(self, rhs: Self) -> Self;

    spec fn spec_inverse(self) -> Self;

    /// The group axioms.
    proof fn lemma_group_laws(a: Self, b: Self, c: Self)
        ensures
            Self::spec_identity().spec_op(a) == a,
            a.spec_op(Self::spec_identity()) == a,
            a.spec_op(a.spec_inverse()) == Self::spec_identity(),
            a.spec_inverse().spec_op(a) == Self::spec_identity(),
            a.spec_op(b).spec_op(c) == a.spec_op(b.spec_op(c)),
    ;

    fn identity() -> (r: Self)
        ensures
            r == Self::spec_identity(),
    ;

    fn op(self, rhs: Self) -> (r: Self)
        ensures
            r == self.spec_op(rhs),
    ;

    fn inverse(self) -> (r: Self)
        ensures
            r == self.spec_inverse(),
    ;
}

/// The cyclic group of order two, under exclusive or.
impl Group for bool {
    open spec fn spec_identity() -> bool {
        false
    }

    open spec fn spec_op(self, rhs: bool) -> bool {
        self != rhs
    }

    open spec fn spec_inverse(self) -> bool {
        self
    }

    proof fn lemma_group_laws(a: bool, b: bool, c: bool) {
    }

    fn identity() -> (r: bool) {
        false
    }

    fn op(self, rhs: bool) -> (r: bool) {
        match (self, rhs) {
            (false, false) => false,
            (false, true) => true,
            (true, false) => true,
            (true, true) => false,
        }
    }

    fn inverse(self) -> (r: bool) {
        self
    }
}

/// The cyclic group of order three: `A` generates it and `B` is `A` twice.
#[derive(Debug, PartialEq, Eq, Structural, Hash, Clone, Copy)]
pub enum ThreeGroup {
    E,
    A,
    B,
}

impl Group for ThreeGroup {
    open spec fn spec_identity() -> ThreeGroup {
        ThreeGroup::E
    }

    open spec fn spec_op(self, rhs: ThreeGroup) -> ThreeGroup {
        match (self, rhs) {
            (ThreeGroup::E, x) => x,
            (x, ThreeGroup::E) => x,
            (ThreeGroup::A, ThreeGroup::A) => ThreeGroup::B,
            (ThreeGroup::B, ThreeGroup::B) => ThreeGroup::A,
            _ => ThreeGroup::E,
        }
    }

    open spec fn spec_inverse(self) -> ThreeGroup {
        match self {
            ThreeGroup::E => ThreeGroup::E,
            ThreeGroup::A => ThreeGroup::B,
            ThreeGroup::B => ThreeGroup::A,
        }
    }

    proof fn lemma_group_laws(a: ThreeGroup, b: ThreeGroup, c: ThreeGroup) {
    }

    fn identity() -> (r: ThreeGroup) {
        ThreeGroup::E
    }

    fn op(self, rhs: ThreeGroup) -> (r: ThreeGroup) {
        match (self, rhs) {
            (ThreeGroup::E, ThreeGroup::E) => ThreeGroup::E,
            (ThreeGroup::E, ThreeGroup::A) => ThreeGroup::A,
            (ThreeGroup::E, ThreeGroup::B) => ThreeGroup::B,
            (ThreeGroup::A, ThreeGroup::E) => ThreeGroup::A,
            (ThreeGroup::A, ThreeGroup::A) => ThreeGroup::B,
            (ThreeGroup::A, ThreeGroup::B) => ThreeGroup::E,
            (ThreeGroup::B, ThreeGroup::E) => ThreeGroup::B,
            (ThreeGroup::B, ThreeGroup::A) => ThreeGroup::E,
            (ThreeGroup::B, ThreeGroup::B) => ThreeGroup::A,
        }
    }

    fn inverse(self) -> (r: ThreeGroup) {
        match self {
            ThreeGroup::E => ThreeGroup::E,
            ThreeGroup::A => ThreeGroup::B,
            ThreeGroup::B => ThreeGroup::A,
        }
    }
}

/// The Klein four-group: every element is its own inverse, and the product
/// of two distinct non-identity elements is the third.
#[derive(Debug, PartialEq, Eq, Structural, Hash, Clone, Copy)]
pub enum Vierergruppe {
    E,
    A,
    B,
    C,
}

impl Group for Vierergruppe {
    open spec fn spec_identity() -> Vierergruppe {
        Vierergruppe::E
    }

    open spec fn spec_op(self, rhs: Vierergruppe) -> Vierergruppe {
        if self == Vierergruppe::E {
            rhs
        } else if rhs == Vierergruppe::E {
            self
        } else if self == rhs {
            Vierergruppe::E
        } else if self != Vierergruppe::A && rhs != Vierergruppe::A {
            Vierergruppe::A
        } else if self != Vierergruppe::B && rhs != Vierergruppe::B {
            Vierergruppe::B
        } else {
            Vierergruppe::C
        }
    }

    open spec fn spec_inverse(self) -> Vierergruppe {
        self
    }

    proof fn lemma_group_laws(a: Vierergruppe, b: Vierergruppe, c: Vierergruppe) {
    }

    fn identity() -> (r: Vierergruppe) {
        Vierergruppe::E
    }

    fn op(self, rhs: Vierergruppe) -> (r: Vierergruppe) {
        if matches!(self, Vierergruppe::E) {
            return rhs;
        }
        if matches!(rhs, Vierergruppe::E) {
            return self;
        }
        if self == rhs {
            return Vierergruppe::E;
        }
        match (self, rhs) {
            (Vierergruppe::A, Vierergruppe::B) => Vierergruppe::C,
            (Vierergruppe::B, Vierergruppe::A) => Vierergruppe::C,
            (Vierergruppe::A, Vierergruppe::C) => Vierergruppe::B,
            (Vierergruppe::C, Vierergruppe::A) => Vierergruppe::B,
            (Vierergruppe::B, Vierergruppe::C) => Vierergruppe::A,
            (Vierergruppe::C, Vierergruppe::B) => Vierergruppe::A,
            _ => {
                proof {
                    assert(false);
                }
                Vierergruppe::E
            },
        }
    }

    fn inverse(self) -> (r: Vierergruppe) {
        self
    }
}

/// `v` reduced into the range of `i8`, modulo 256.
pub open spec fn wrap_i8(v: int) -> int {
    if v > i8::MAX {
        v - 256
    } else if v < i8::MIN {
        v + 256
    } else {
        v
    }
}

/// The cyclic group of order 256: addition modulo 256.
impl Group for i8 {
    open spec fn spec_identity() -> i8 {
        0
    }

    open spec fn spec_op(self, rhs: i8) -> i8 {
        wrap_i8(self + rhs) as i8
    }

    open spec fn spec_inverse(self) -> i8 {
        wrap_i8(-self) as i8
    }

    proof fn lemma_group_laws(a: i8, b: i8, c: i8) {
    }

    fn identity() -> (r: i8) {
        0
    }

    fn op(self, rhs: i8) -> (r: i8) {
        self.wrapping_add(rhs)
    }

    fn inverse(self) -> (r: i8) {
        0i8.wrapping_sub(self)
    }
}

} // verus!
