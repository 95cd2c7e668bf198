//! The elementary functions that the recognizer is handed.
//!
//! The arctangent and the exponential have no exact definition in binary32: their last bits
//! differ from one mathematics library to the next. So the functions that need one take it as an
//! argument, and their contracts speak of whatever function that argument computes.
use crate::float::F32;
use vstd::prelude::*;

verus! {

/// A mathematical function of one number.
pub type Fn1 = spec_fn(F32) -> F32;

/// A mathematical function of two numbers.
pub type Fn2 = spec_fn(F32, F32) -> F32;

/// May `f` be called with any number?
pub open spec fn callable1<E: Fn(F32) -> F32>(f: E) -> bool {
    forall|x: F32| #[trigger] call_requires(f, (x,))
}

/// May `f` be called with any two numbers?
pub open spec fn callable2<A: Fn(F32, F32) -> F32>(f: A) -> bool {
    forall|y: F32, x: F32| #[trigger] call_requires(f, (y, x))
}

/// Does `f` compute the function `h`?
pub open spec fn computes1<E: Fn(F32) -> F32>(f: E, h: Fn1) -> bool {
    forall|x: F32, r: F32| #[trigger] call_ensures(f, (x,), r) ==> r == h(x)
}

/// Does `f` compute the function `h`?
pub open spec fn computes2<A: Fn(F32, F32) -> F32>(f: A, h: Fn2) -> bool {
    forall|y: F32, x: F32, r: F32| #[trigger] call_ensures(f, (y, x), r) ==> r == h(y, x)
}

} // verus!
