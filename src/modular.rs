//! Splitting values into whole multiples of a modulus and a residue.
use vstd::arithmetic::div_mod::{
    lemma_fundamental_div_mod, lemma_fundamental_div_mod_converse, lemma_mod_pos_bound,
};
use vstd::prelude::*;

verus! {

/// Floor division by a modulus together with the non-negative residue.
pub trait ModularDecompose<T> {
    /// The modulus is one that the value can be split by.
    spec fn spec_modulus_ok(&self, n: T) -> bool;

    /// `count` whole moduli and the residue `residue` make up the value, with
    /// the residue in `[0, n)`.
    spec fn spec_is_decomposition(&self, n: T, count: T, residue: T) -> bool;

    fn modular_decompose(&self, n: T) -> (r: (T, T))
        requires
            self.spec_modulus_ok(n),
        ensures
            self.spec_is_decomposition(n, r.0, r.1),
    ;
}

impl ModularDecompose<i32> for i32 {
    open spec fn spec_modulus_ok(&self, n: i32) -> bool {
        n > 0
    }

    open spec fn spec_is_decomposition(&self, n: i32, count: i32, residue: i32) -> bool {
        count == *self as int / n as int && residue == *self as int % n as int
    }

    fn modular_decompose(&self, n: i32) -> (r: (i32, i32)) {
        let a = *self;
        let m = n as u64;
        if a >= 0 {
            let u = a as u64;
            let q = u / m;
            let rem = u % m;
            proof {
                lemma_fundamental_div_mod(u as int, m as int);
                lemma_mod_pos_bound(u as int, m as int);
                lemma_fundamental_div_mod_converse(a as int, n as int, q as int, rem as int);
            }
            (q as i32, rem as i32)
        } else {
            // a = -(u + 1) with u >= 0, so a = -(q + 1) * n + (n - 1 - rem)
            let u = (-(a as i64) - 1) as u64;
            let q = u / m;
            let rem = u % m;
            proof {
                lemma_fundamental_div_mod(u as int, m as int);
                lemma_mod_pos_bound(u as int, m as int);
                assert(q as int * m as int <= u as int) by (nonlinear_arith)
                    requires
                        u as int == m as int * q as int + rem as int,
                        rem as int >= 0,
                ;
                assert(q as int <= u as int) by (nonlinear_arith)
                    requires
                        q as int * m as int <= u as int,
                        m as int >= 1,
                        q as int >= 0,
                ;
            }
            let count = -(q as i64) - 1;
            let residue = n as i64 - 1 - rem as i64;
            proof {
                assert(u as int == q as int * n as int + rem as int);
                assert(a as int == count as int * n as int + residue as int) by (nonlinear_arith)
                    requires
                        a as int == -(u as int) - 1,
                        u as int == q as int * n as int + rem as int,
                        count as int == -(q as int) - 1,
                        residue as int == n as int - 1 - rem as int,
                ;
                lemma_fundamental_div_mod_converse(
                    a as int,
                    n as int,
                    count as int,
                    residue as int,
                );
            }
            (count as i32, residue as i32)
        }
    }
}

} // verus!
