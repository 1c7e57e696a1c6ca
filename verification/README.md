# audion

The verified core of the Audion language runtime, written in Verus.

- `src/lexer.rs`, `src/token.rs`: the lexer, specified by `lex_from`.
- `src/ast.rs`, `src/parser.rs`: the syntax tree and the recursive-descent parser, specified
  by `parse_program` over the lexer's tokens (number literals keep their text).
- `src/environment.rs`, `src/handles.rs`: scopes of variables and handle tables.
- `src/sequences.rs`, `src/melodies.rs`: the `array_seq_*` and `array_mel_*` generators
  (compositions, partitions, necklaces, Euclidean rhythms, continued fractions, lattice
  walks, automata, de Bruijn sequences).
- `src/strings.rs`, `src/builtins.rs`: string builtins (with regular expressions through the
  regex crate), hashing through md-5 and sha2, number formatting, bytes, MIDI input
  decoding, Scala tuning files.
- `src/dsp/`: UGen graphs, their validation and their SynthDef v2 encoding.
- `src/define_cache.rs`: the on-disk cache of compiled definitions.
- `src/midi_file.rs`: standard MIDI files: event order and delta times when writing, and
  the events reported when reading (parsed with midly).
- `src/dmx.rs`: Art-Net DMX packets.
- `src/summary.rs`: the language summary printed by `audion spec`.

`app/` holds the command line and what needs I/O or floating point: file and socket
access, tuning arithmetic, the math and ML builtins.

Not in this crate: the interpreter. `src/interpreter.rs` holds only the control-flow outcome
of a statement; running a program depends on value, SynthDef and UI types that this crate
does not define, so `audion run` stops after parsing the script.
