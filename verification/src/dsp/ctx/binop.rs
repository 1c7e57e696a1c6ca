//! Selector indices of SuperCollider's BinaryOpUGen operators.
use vstd::prelude::*;

verus! {

pub const ADD: i16 = 0;
pub const SUB: i16 = 1;
pub const MUL: i16 = 2;
pub const DIV: i16 = 4;
pub const MOD: i16 = 5;
pub const EQ: i16 = 6;
pub const NE: i16 = 7;
pub const LT: i16 = 8;
pub const GT: i16 = 9;
pub const LE: i16 = 10;
pub const GE: i16 = 11;
pub const MIN: i16 = 12;
pub const MAX: i16 = 13;
pub const BITAND: i16 = 14;
pub const BITOR: i16 = 15;
pub const BITXOR: i16 = 16;
pub const SHIFT_LEFT: i16 = 26;
pub const SHIFT_RIGHT: i16 = 27;
pub const POW: i16 = 25;
pub const CLIP2: i16 = 42;

} // verus!
