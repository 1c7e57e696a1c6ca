//! Selector indices of SuperCollider's UnaryOpUGen operators.
use vstd::prelude::*;

verus! {

pub const ABS: i16 = 5;
pub const CEIL: i16 = 8;
pub const FLOOR: i16 = 9;
pub const SIGN: i16 = 11;
pub const SQUARED: i16 = 12;
pub const CUBED: i16 = 13;
pub const SQRT: i16 = 14;
pub const EXP: i16 = 15;
pub const LOG: i16 = 25;
pub const LOG2: i16 = 26;
pub const ARC_TAN: i16 = 33;
pub const TANH: i16 = 36;
pub const DISTORT: i16 = 42;
pub const SOFT_CLIP: i16 = 43;

} // verus!
