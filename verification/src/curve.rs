//! The transcendental functions of a machine.
//!
//! Sines, exponentials and powers differ in their last bits from machine to
//! machine. Functions that need them take the machine's own as an argument,
//! and say what they compute from it.

use vstd::prelude::*;

use crate::single::Single;

verus! {

/// A function and where it is taken.
#[derive(Clone, Copy, Debug, PartialEq, Eq, Structural)]
pub enum Curve {
    Sin(Single),
    Cos(Single),
    Exp(Single),
    /// A base and an exponent.
    Pow(Single, Single),
}

/// Whether a machine takes every function everywhere.
pub open spec fn accepts<F: Fn(Curve) -> Single>(f: F) -> bool {
    forall|c: Curve| call_requires(f, (c,))
}

/// Whether a machine's functions are those of a model.
pub open spec fn follows<F: Fn(Curve) -> Single>(f: F, m: spec_fn(Curve) -> Single) -> bool {
    forall|c: Curve, y: Single| call_ensures(f, (c,), y) ==> y == m(c)
}

/// Takes a function.
pub fn take<F: Fn(Curve) -> Single>(f: &F, c: Curve) -> (y: Single)
    requires
        accepts(*f),
    ensures
        forall|m: spec_fn(Curve) -> Single| #[trigger] follows(*f, m) ==> y == m(c),
{
    f(c)
}

} // verus!
