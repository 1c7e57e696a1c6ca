//! The Audion language runtime: its lexer and environments, the sequence and melody
//! generators and the string, byte, hashing, date and MIDI builtins of its standard
//! library, UGen graphs and their SynthDef encoding, the define cache, DMX packets and
//! MIDI file timing.

pub mod text;
pub mod error;
pub mod token;
pub mod lexer;
pub mod environment;
pub mod sequences;
pub mod strings;
pub mod melodies;
pub mod dsp;
pub mod handles;
pub mod sqlite;
pub mod builtins;
pub mod define_cache;
pub mod ast;
pub mod interpreter;
pub mod parser;
pub mod grammar_laws;
pub mod summary;
pub mod dmx;
pub mod midi_file;
