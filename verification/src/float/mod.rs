//! Arithmetic on the binary interchange formats, done on encodings in integer arithmetic, so
//! that every result is the same on every machine.
use vstd::prelude::*;

pub mod arith;
pub mod double;
pub mod encoding;
pub mod facts;
pub mod monotone;
pub mod near;
pub mod order;
pub mod reals;
pub mod roots;
pub mod rounding;
pub mod single;
pub mod specials;
pub mod wide;
pub mod wide_near;

verus! {

} // verus!
