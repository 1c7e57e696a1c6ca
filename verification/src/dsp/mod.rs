//! UGen graphs and their SynthDef v2 binary encoding. Constants and parameter defaults
//! are held as the bit patterns of their single-precision values.

pub mod errors;
pub mod single;
pub mod graph;
pub mod encoder;
pub mod ctx;
