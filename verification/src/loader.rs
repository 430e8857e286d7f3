//! The loader: the arithmetic surface the verifier runs on.
//!
//! All field and group arithmetic the core performs goes through loaded
//! values; this build ships the native variant, which evaluates eagerly
//! over the scalar field.  The loading operations below are the only way
//! the core turns protocol constants and statements into loaded values.

use vstd::prelude::*;
use crate::field::{Scalar, P};
use crate::group::EcPoint;

verus! {

/// The native loader: plain field and group arithmetic.
pub struct NativeLoader;

impl NativeLoader {
    /// Loads a protocol constant.
    pub fn load_const(&self, v: u64) -> (r: Scalar)
        ensures
            r@ == v % P,
    {
        Scalar::new(v)
    }

    /// Loads a statement variable.
    pub fn load_var(&self, v: u64) -> (r: Scalar)
        ensures
            r@ == v % P,
    {
        Scalar::new(v)
    }

    /// The loaded one.
    pub fn load_one(&self) -> (r: Scalar)
        ensures
            r@ == 1,
    {
        Scalar::one()
    }

    /// The loaded zero.
    pub fn load_zero(&self) -> (r: Scalar)
        ensures
            r@ == 0,
    {
        Scalar::zero()
    }

    /// Loads a constant group element.
    pub fn ec_point_load_const(&self, v: u64) -> (r: EcPoint)
        ensures
            r@ == v % P,
    {
        EcPoint::new(v)
    }
}

} // verus!
