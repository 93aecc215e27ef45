use vstd::prelude::*;

verus! {

use vstd::arithmetic::div_mod::{
    lemma_fundamental_div_mod, lemma_fundamental_div_mod_converse, lemma_mod_bound,
    lemma_mod_add_multiples_vanish, lemma_small_mod, lemma_div_pos_is_pos,
};

/// True (always non-negative) modulo for signed integers, as opposed to
/// Rust's truncating `%`. In specifications `%` on `int` is already the
/// Euclidean remainder, so the contract is stated directly with it.
pub trait ModuloSignedExt: Sized {
    spec fn modulo_req(self, rhs: Self) -> bool;

    spec fn modulo_spec(self, rhs: Self) -> Self;

    fn modulo(self, rhs: Self) -> (r: Self)
        requires
            self.modulo_req(rhs),
        ensures
            r == self.modulo_spec(rhs),
    ;
}

impl ModuloSignedExt for i64 {
    open spec fn modulo_req(self, rhs: i64) -> bool {
        0 < rhs <= i64::MAX / 2
    }

    open spec fn modulo_spec(self, rhs: i64) -> i64 {
        (self as int % rhs as int) as i64
    }

    fn modulo(self, rhs: i64) -> (r: i64) {
        let t = self % rhs;
        proof {
            let a = self as int;
            let b = rhs as int;
            lemma_mod_bound(a, b);
            if a >= 0 {
                lemma_mod_add_multiples_vanish(t as int, b);
                lemma_small_mod((a % b) as nat, b as nat);
            } else {
                let q = (-a) / b;
                let u = (-a) % b;
                lemma_fundamental_div_mod(-a, b);
                lemma_mod_bound(-a, b);
                assert((-q - 1) * b == -(b * q) - b) by (nonlinear_arith);
                if u == 0 {
                    assert(-q * b == -(b * q)) by (nonlinear_arith);
                    lemma_fundamental_div_mod_converse(a, b, -q, 0);
                    lemma_small_mod(0, b as nat);
                    lemma_mod_add_multiples_vanish(0, b);
                } else {
                    lemma_fundamental_div_mod_converse(a, b, -q - 1, b - u);
                    lemma_small_mod((b - u) as nat, b as nat);
                    lemma_mod_add_multiples_vanish((t + rhs) as int, b);
                }
            }
        }
        (t + rhs) % rhs
    }
}

/// Floor division for signed integers, as opposed to Rust's truncating `/`.
/// For a positive divisor the Euclidean quotient (spec `/` on `int`) is the
/// floor quotient, so the contract is stated directly with it.
pub trait DivFloorSignedExt: Sized {
    spec fn div_floor_req(self, rhs: Self) -> bool;

    spec fn div_floor_spec(self, rhs: Self) -> Self;

    fn div_floor(self, rhs: Self) -> (r: Self)
        requires
            self.div_floor_req(rhs),
        ensures
            r == self.div_floor_spec(rhs),
    ;
}

impl DivFloorSignedExt for i64 {
    open spec fn div_floor_req(self, rhs: i64) -> bool {
        0 < rhs
    }

    open spec fn div_floor_spec(self, rhs: i64) -> i64 {
        (self as int / rhs as int) as i64
    }

    fn div_floor(self, rhs: i64) -> (r: i64) {
        if self < 0 {
            proof {
                let a = self as int;
                let b = rhs as int;
                let m = -(a + 1);
                let q = m / b;
                let u = m % b;
                lemma_div_pos_is_pos(m, b);
                lemma_fundamental_div_mod(m, b);
                lemma_mod_bound(m, b);
                assert(q <= b * q) by (nonlinear_arith)
                    requires 0 <= q && 1 <= b;
                assert((-q - 1) * b == -(b * q) - b) by (nonlinear_arith);
                lemma_fundamental_div_mod_converse(a, b, -q - 1, b - 1 - u);
            }
            (self + 1) / rhs - 1
        } else {
            self / rhs
        }
    }
}

/// Wrap a collection in `Some` unless it is empty.
pub trait OptionalizeExt: Sized {
    spec fn optionalize_spec(self) -> Option<Self>;

    fn optionalize(self) -> (r: Option<Self>)
        ensures
            r == self.optionalize_spec(),
    ;
}

impl<T> OptionalizeExt for Vec<T> {
    open spec fn optionalize_spec(self) -> Option<Vec<T>> {
        if self@.len() == 0 {
            None
        } else {
            Some(self)
        }
    }

    fn optionalize(self) -> (r: Option<Vec<T>>) {
        if self.is_empty() {
            None
        } else {
            Some(self)
        }
    }
}

} // verus!
