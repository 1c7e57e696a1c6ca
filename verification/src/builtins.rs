use vstd::prelude::*;
use crate::text::chars_of;
use crate::text::decimal;
use crate::text::push_decimal;
use crate::text::push_signed;
use crate::text::signed_decimal;
use crate::text::string_of_range;
use vstd::string::StringSliceAdditionalSpecFns;
use sha2::Digest;
use chrono::Datelike;
use chrono::Timelike;
use crate::error::AudionError;
use crate::text::digit_char;
use crate::text::digit_of;
use crate::text::str_eq;
use crate::strings::compile_regex;
use crate::strings::invalid_regex;
use crate::strings::invalid_regex_message;
use crate::strings::pieces_view;
use crate::strings::regex_compiles;
use crate::strings::regex_pieces;
use crate::strings::regex_split;
use crate::strings::split_plain;
use crate::strings::split_text;
use crate::strings::trimmed;
use crate::strings::builtin_str_trim;
use crate::strings::pieces_from;
use crate::strings::occurs_at;

verus! {

/// The names of all builtin functions, the single list that registration and the generated
/// language summary draw on.
pub const BUILTIN_NAMES: [&'static str; 248] = [
    "print", "bpm", "wait", "wait_ms", "synth", "free", "set", "rand", "seed", "array_rand",
    "time", "count", "push", "pop", "keys", "has_key", "remove", "file_read", "file_write",
    "file_append", "file_exists", "file_delete", "file_size", "file_open", "file_line",
    "file_read_chunk", "file_write_handle", "file_seek", "file_tell", "file_close", "dir_scan",
    "dir_exists", "dir_create", "dir_delete", "json_encode", "json_decode", "buffer_load",
    "buffer_free", "buffer_alloc", "buffer_read", "buffer_query", "buffer_stream_open",
    "buffer_stream_close", "record_start", "record_stop", "record_path", "net_connect",
    "net_listen", "net_accept", "net_read", "net_write", "net_close", "net_http", "net_udp_bind",
    "net_udp_send", "net_udp_recv", "mtof", "ftom", "midi_config", "midi_note", "midi_cc",
    "midi_program", "midi_out", "midi_clock", "midi_start", "midi_stop", "midi_panic",
    "midi_listen", "midi_bpm_sync", "midi_read", "midi_write", "osc_config", "osc_send",
    "osc_listen", "osc_recv", "osc_close", "array_push", "array_pop", "array_cycle",
    "array_rotate", "array_chunk", "array_next", "array_prev", "array_current", "array_end",
    "array_beginning", "array_key", "str_explode", "str_join", "str_replace", "str_contains",
    "str_upper", "str_lower", "str_trim", "str_length", "str_substr", "str_starts_with",
    "str_ends_with", "date", "timestamp", "timestamp_ms", "int", "float", "bool", "str", "hex",
    "bin", "oct", "exec", "hash", "math_abs", "math_acos", "math_acosh", "math_asin", "math_asinh",
    "math_atan", "math_atan2", "math_atanh", "math_ceil", "math_cos", "math_cosh", "math_cbrt",
    "math_deg2rad", "math_exp", "math_expm1", "math_floor", "math_fmod", "math_fract",
    "math_hypot", "math_is_finite", "math_is_infinite", "math_is_nan", "math_intdiv", "math_log",
    "math_log10", "math_log2", "math_log1p", "math_lerp", "math_max", "math_min", "math_map",
    "math_pi", "math_e", "math_pow", "math_rad2deg", "math_round", "math_sin", "math_sinh",
    "math_sqrt", "math_sign", "math_tan", "math_tanh", "math_trunc", "math_clamp", "math_wrap",
    "math_fold", "console_read", "console_read_password", "console_read_key", "console_error",
    "os_env_get", "os_env_set", "os_env_list", "os_process_id", "os_pid", "os_process_parent_id",
    "os_ppid", "os_current_working_directory", "os_cwd", "os_current_working_directory_change",
    "os_chdir", "os_arguments", "os_args", "os_exit", "os_name", "os_hostname", "os_username",
    "os_home", "array_seq_binary_to_intervals", "array_seq_intervals_to_binary",
    "array_seq_random_correlated", "array_seq_euclidean", "array_seq_permutations",
    "array_seq_debruijn", "array_seq_compositions", "array_seq_partitions",
    "array_seq_partitions_allowed", "array_seq_partitions_m_parts",
    "array_seq_partitions_allowed_m_parts", "array_seq_necklaces", "array_seq_necklaces_allowed",
    "array_seq_necklaces_m_ones", "array_seq_necklaces_allowed_m_ones", "array_seq_markov",
    "array_seq_compositions_allowed", "array_seq_compositions_m_parts",
    "array_seq_compositions_allowed_m_parts", "array_seq_composition_random",
    "array_seq_composition_random_m_parts", "array_seq_cf_convergent", "array_seq_cf_sqrt",
    "array_seq_christoffel", "array_seq_paper_folding", "array_mel_debruijn_k",
    "array_mel_lattice_walk_square", "array_mel_lattice_walk_tri",
    "array_mel_lattice_walk_square_no_retrace", "array_mel_lattice_walk_square_with_stops",
    "array_mel_string_to_indices", "array_mel_random_walk", "array_mel_invert",
    "array_mel_reverse", "array_mel_subset_sample", "array_mel_lattice_to_melody",
    "array_mel_automaton", "array_mel_probabilistic_automaton", "eval", "link_enable",
    "link_disable", "link_is_enabled", "link_peers", "link_beat", "link_phase", "link_quantum",
    "link_play", "link_stop", "link_is_playing", "link_request_beat", "sqlite_open",
    "sqlite_close", "sqlite_exec", "sqlite_query", "sqlite_tables", "sqlite_table_exists",
    "file_read_bytes", "file_write_bytes", "bytes_len", "bytes_get", "bytes_slice",
    "bytes_to_array", "array_to_bytes", "dmx_connect", "dmx_universe", "dmx_set", "dmx_set_range",
    "dmx_send", "dmx_blackout", "assert",
];

// ---------------------------------------------------------------------------
// Assert counters
// ---------------------------------------------------------------------------

/// How many `assert()` calls passed and failed during a run.
pub struct AssertStats {
    pub pass: usize,
    pub fail: usize,
}

impl AssertStats {
    /// No assert has run yet.
    pub fn new() -> (s: Self)
        ensures s.pass == 0 && s.fail == 0,
    {
        AssertStats { pass: 0, fail: 0 }
    }

    /// Counts one assert, as passed or failed. The counters wrap around at their limit.
    pub fn record(&mut self, passed: bool)
        ensures
            passed ==> final(self).pass == vstd::wrapping::usize_specs::wrapping_add(old(self).pass, 1)
                && final(self).fail == old(self).fail,
            !passed ==> final(self).fail == vstd::wrapping::usize_specs::wrapping_add(old(self).fail, 1)
                && final(self).pass == old(self).pass,
    {
        if passed {
            self.pass = self.pass.wrapping_add(1);
        } else {
            self.fail = self.fail.wrapping_add(1);
        }
    }
}

/// Resets the assert counters (before each file run in watch mode).
pub fn reset_assert_stats(stats: &mut AssertStats)
    ensures final(stats).pass == 0 && final(stats).fail == 0,
{
    stats.pass = 0;
    stats.fail = 0;
}

/// The line printed for a failed assert, with its message when it has one.
pub open spec fn assert_failed_line(message: Option<Seq<char>>) -> Seq<char> {
    match message {
        Some(m) => "assert failed: "@ + m,
        None => "assert failed"@,
    }
}

/// `assert(condition, [message], [stop])`: counts the outcome; a failure gives the line to
/// print, and asks to end the run when `stop` is set.
pub fn builtin_assert(stats: &mut AssertStats, condition: bool, message: Option<&str>, stop: bool)
    -> (r: (Option<String>, bool))
    ensures
        condition ==> final(stats).pass == vstd::wrapping::usize_specs::wrapping_add(old(stats).pass, 1)
            && final(stats).fail == old(stats).fail && r.0 is None && !r.1,
        !condition ==> final(stats).fail == vstd::wrapping::usize_specs::wrapping_add(old(stats).fail, 1)
            && final(stats).pass == old(stats).pass
            && (r.0 matches Some(line) && line@ == assert_failed_line(match message { Some(m) => Some(m@), None => None }))
            && r.1 == stop,
{
    stats.record(condition);
    if condition {
        return (None, false);
    }
    let line = match message {
        Some(m) => {
            let mut l = String::from_str("assert failed: ");
            l.append(m);
            l
        },
        None => String::from_str("assert failed"),
    };
    (Some(line), stop)
}

/// The summary line printed after a run in which asserts ran, and whether any failed.
pub open spec fn assert_stats_line(pass: nat, fail: nat) -> Seq<char> {
    if fail == 0 {
        "assert: "@ + decimal(pass) + " / "@ + decimal(pass + fail) + " passed"@
    } else {
        "assert: "@ + decimal(pass) + " passed, "@ + decimal(fail) + " failed / "@ + decimal(pass + fail) + " total"@
    }
}

/// The line to print for the counters, if any assert ran, and whether some failed.
pub fn assert_stats_report(stats: &AssertStats) -> (r: (Option<String>, bool))
    requires stats.pass + stats.fail <= u64::MAX,
    ensures
        (stats.pass == 0 && stats.fail == 0) ==> r.0 is None && !r.1,
        !(stats.pass == 0 && stats.fail == 0) ==> (r.0 matches Some(line)
            && line@ == assert_stats_line(stats.pass as nat, stats.fail as nat)) && r.1 == (stats.fail > 0),
{
    if stats.pass == 0 && stats.fail == 0 {
        return (None, false);
    }
    let total: u64 = stats.pass as u64 + stats.fail as u64;
    let mut line = String::from_str("assert: ");
    push_decimal(&mut line, stats.pass as u64);
    if stats.fail == 0 {
        line.append(" / ");
        push_decimal(&mut line, total);
        line.append(" passed");
    } else {
        line.append(" passed, ");
        push_decimal(&mut line, stats.fail as u64);
        line.append(" failed / ");
        push_decimal(&mut line, total);
        line.append(" total");
    }
    (Some(line), stats.fail > 0)
}

// ---------------------------------------------------------------------------
// Arguments
// ---------------------------------------------------------------------------

/// The positional arguments (those without a name), in order.
pub open spec fn positional_args<V>(raw: Seq<(V, Option<String>)>) -> Seq<V>
    decreases raw.len(),
{
    if raw.len() == 0 {
        Seq::empty()
    } else {
        let rest = positional_args(raw.drop_last());
        match raw.last().1 {
            Some(_) => rest,
            None => rest.push(raw.last().0),
        }
    }
}

/// The named arguments with their names, in order.
pub open spec fn named_args<V>(raw: Seq<(V, Option<String>)>) -> Seq<(Seq<char>, V)>
    decreases raw.len(),
{
    if raw.len() == 0 {
        Seq::empty()
    } else {
        let rest = named_args(raw.drop_last());
        match raw.last().1 {
            Some(n) => rest.push((n@, raw.last().0)),
            None => rest,
        }
    }
}

pub open spec fn named_view<V>(named: Seq<(String, V)>) -> Seq<(Seq<char>, V)> {
    named.map_values(|p: (String, V)| (p.0@, p.1))
}

/// Separates positional and named arguments from a mixed argument list, keeping their order.
pub fn split_args<V>(raw_args: Vec<(V, Option<String>)>) -> (r: (Vec<V>, Vec<(String, V)>))
    ensures
        r.0@ == positional_args(raw_args@),
        named_view(r.1@) == named_args(raw_args@),
{
    let ghost raw = raw_args@;
    let mut rest = raw_args;
    let mut positional: Vec<V> = Vec::new();
    let mut named: Vec<(String, V)> = Vec::new();
    // Taking the arguments from the back, then reversing, keeps them in order.
    let mut rev_positional: Vec<V> = Vec::new();
    let mut rev_named: Vec<(String, V)> = Vec::new();
    while rest.len() > 0
        invariant
            rest@ =~= raw.take(rest@.len() as int),
            rest@.len() <= raw.len(),
            positional_args(raw) == positional_args(rest@) + rev_positional@.reverse(),
            named_args(raw) == named_args(rest@) + named_view(rev_named@).reverse(),
        decreases rest.len(),
    {
        let ghost before = rest@;
        let (v, name) = rest.pop().unwrap();
        assert(before.drop_last() =~= rest@);
        match name {
            Some(n) => {
                let ghost nv = n@;
                rev_named.push((n, v));
                assert(named_view(rev_named@) =~= named_view(rev_named@.drop_last()).push((nv, v)));
                assert(named_view(rev_named@).reverse() =~= seq![(nv, v)] + named_view(rev_named@.drop_last()).reverse());
                assert(named_args(before) == named_args(rest@).push((nv, v)));
                assert(named_args(raw) =~= named_args(rest@) + named_view(rev_named@).reverse());
            },
            None => {
                rev_positional.push(v);
                assert(rev_positional@.reverse() =~= seq![v] + rev_positional@.drop_last().reverse());
                assert(positional_args(raw) =~= positional_args(rest@) + rev_positional@.reverse());
            },
        }
    }
    assert(positional_args(rest@) =~= Seq::<V>::empty());
    assert(named_args(rest@) =~= Seq::<(Seq<char>, V)>::empty());
    let ghost target_p = rev_positional@.reverse();
    while rev_positional.len() > 0
        invariant
            positional@ + rev_positional@.reverse() == target_p,
        decreases rev_positional.len(),
    {
        let ghost before = rev_positional@;
        let v = rev_positional.pop().unwrap();
        positional.push(v);
        assert(before.reverse() =~= seq![v] + rev_positional@.reverse());
        assert(positional@ + rev_positional@.reverse() =~= target_p);
    }
    let ghost target_n = named_view(rev_named@).reverse();
    while rev_named.len() > 0
        invariant
            named_view(named@) + named_view(rev_named@).reverse() == target_n,
        decreases rev_named.len(),
    {
        let ghost before = rev_named@;
        let p = rev_named.pop().unwrap();
        let ghost pv = (p.0@, p.1);
        named.push(p);
        assert(named_view(before) =~= named_view(rev_named@).push(pv));
        assert(named_view(before).reverse() =~= seq![pv] + named_view(rev_named@).reverse());
        assert(named_view(named@) =~= named_view(named@.drop_last()).push(pv));
        assert(named_view(named@) + named_view(rev_named@).reverse() =~= target_n);
    }
    assert(positional@ =~= target_p);
    assert(named_view(named@) =~= target_n);
    (positional, named)
}

// ---------------------------------------------------------------------------
// Seeded random numbers
// ---------------------------------------------------------------------------

/// One step of the xorshift64 generator (shifts 13, 7, 17).
pub open spec fn xorshift(state: u64) -> u64 {
    let a = state ^ (state << 13u64);
    let b = a ^ (a >> 7u64);
    b ^ (b << 17u64)
}

/// The next state of the xorshift64 generator.
pub fn xorshift64(state: u64) -> (r: u64)
    ensures r == xorshift(state),
{
    let mut s = state;
    s ^= s << 13u64;
    s ^= s >> 7u64;
    s ^= s << 17u64;
    s
}

/// The generator never reaches the zero state from another one, so a seeded generator never
/// gets stuck.
pub proof fn law_xorshift_nonzero(state: u64)
    requires state != 0,
    ensures xorshift(state) != 0,
{
    assert(state != 0 ==> ({
        let a = state ^ (state << 13u64);
        let b = a ^ (a >> 7u64);
        b ^ (b << 17u64)
    }) != 0) by (bit_vector);
}

pub open spec fn fnv_step(h: u64, b: u8) -> u64 {
    vstd::wrapping::u64_specs::wrapping_mul(h ^ (b as u64), 1099511628211u64)
}

/// The 64-bit FNV-1a hash of the bytes.
pub open spec fn fnv1a(bytes: Seq<u8>) -> u64
    decreases bytes.len(),
{
    if bytes.len() == 0 {
        14695981039346656037u64
    } else {
        fnv_step(fnv1a(bytes.drop_last()), bytes.last())
    }
}

/// The seed that a string gives: the FNV-1a hash of its UTF-8 bytes, or 1 where that is 0
/// (the generator cannot start from 0).
pub open spec fn string_seed(s: Seq<u8>) -> u64 {
    if fnv1a(s) == 0 { 1 } else { fnv1a(s) }
}

/// The seed of a string.
pub fn hash_seed(input: &str) -> (r: u64)
    ensures
        r == string_seed(input.spec_bytes()),
        r != 0,
{
    let bytes = input.as_bytes();
    let mut h: u64 = 14695981039346656037u64;
    let mut i: usize = 0;
    while i < bytes.len()
        invariant
            i <= bytes@.len(),
            h == fnv1a(bytes@.take(i as int)),
        decreases bytes.len() - i,
    {
        let b = bytes[i];
        h ^= b as u64;
        h = h.wrapping_mul(1099511628211u64);
        assert(bytes@.take(i + 1).drop_last() =~= bytes@.take(i as int));
        i += 1;
    }
    assert(bytes@.take(bytes@.len() as int) =~= bytes@);
    if h == 0 { 1 } else { h }
}

// ---------------------------------------------------------------------------
// Regex delimiters
// ---------------------------------------------------------------------------

/// The pattern inside regex delimiters: `/pattern/`, `{pattern}` or `%%pattern%%`.
pub open spec fn regex_pattern(s: Seq<char>) -> Option<Seq<char>> {
    let n = s.len() as int;
    if n >= 2 && s[0] == '/' && s[n - 1] == '/' {
        Some(s.subrange(1, n - 1))
    } else if n >= 2 && s[0] == '{' && s[n - 1] == '}' {
        Some(s.subrange(1, n - 1))
    } else if n >= 4 && s[0] == '%' && s[1] == '%' && s[n - 2] == '%' && s[n - 1] == '%' {
        Some(s.subrange(2, n - 2))
    } else {
        None
    }
}

/// The regex pattern that a string delimits, if it is delimited as one.
pub fn extract_regex_pattern(s: &str) -> (r: Option<String>)
    ensures
        match r {
            Some(p) => regex_pattern(s@) == Some(p@),
            None => regex_pattern(s@) is None,
        },
{
    let cs = chars_of(s);
    let n = cs.len();
    if n >= 2 && cs[0] == '/' && cs[n - 1] == '/' {
        Some(string_of_range(&cs, 1, n - 1))
    } else if n >= 2 && cs[0] == '{' && cs[n - 1] == '}' {
        Some(string_of_range(&cs, 1, n - 1))
    } else if n >= 4 && cs[0] == '%' && cs[1] == '%' && cs[n - 2] == '%' && cs[n - 1] == '%' {
        Some(string_of_range(&cs, 2, n - 2))
    } else {
        None
    }
}

/// A MIDI message that the input listener reports, decoded from its bytes.
#[derive(Debug, Clone, Copy, PartialEq, Eq, Structural)]
pub enum MidiEvent {
    Clock,
    Start,
    Stop,
    Continue,
    NoteOn { note: u8, vel: u8, channel: u8 },
    NoteOff { note: u8, vel: u8, channel: u8 },
    ControlChange { num: u8, value: u8, channel: u8 },
    ProgramChange { num: u8, channel: u8 },
}

/// The event that a raw MIDI message stands for. The real-time bytes clock (0xF8),
/// start (0xFA), continue (0xFB) and stop (0xFC) stand alone; a channel message needs its
/// status byte and at least one data byte, and its channel is counted from 1. A missing
/// second data byte reads as 0. Anything else is no event.
pub open spec fn midi_event_of(msg: Seq<u8>) -> Option<MidiEvent> {
    if msg.len() == 0 {
        None
    } else {
        let status = msg[0];
        if status == 0xF8 {
            Some(MidiEvent::Clock)
        } else if status == 0xFA {
            Some(MidiEvent::Start)
        } else if status == 0xFC {
            Some(MidiEvent::Stop)
        } else if status == 0xFB {
            Some(MidiEvent::Continue)
        } else if msg.len() < 2 {
            None
        } else {
            let kind = status / 16;
            let channel = (status % 16 + 1) as u8;
            let second: u8 = if msg.len() > 2 { msg[2] } else { 0 };
            if kind == 0x9 {
                Some(MidiEvent::NoteOn { note: msg[1], vel: second, channel })
            } else if kind == 0x8 {
                Some(MidiEvent::NoteOff { note: msg[1], vel: second, channel })
            } else if kind == 0xB {
                Some(MidiEvent::ControlChange { num: msg[1], value: second, channel })
            } else if kind == 0xC {
                Some(MidiEvent::ProgramChange { num: msg[1], channel })
            } else {
                None
            }
        }
    }
}

/// Decodes a raw MIDI message into the event it stands for, if any.
pub fn midi_message_to_event(msg: &[u8]) -> (r: Option<MidiEvent>)
    ensures r == midi_event_of(msg@),
{
    if msg.len() == 0 {
        return None;
    }
    let status = msg[0];
    if status == 0xF8 {
        return Some(MidiEvent::Clock);
    } else if status == 0xFA {
        return Some(MidiEvent::Start);
    } else if status == 0xFC {
        return Some(MidiEvent::Stop);
    } else if status == 0xFB {
        return Some(MidiEvent::Continue);
    }
    if msg.len() < 2 {
        return None;
    }
    let kind = status / 16;
    let channel = status % 16 + 1;
    let second: u8 = if msg.len() > 2 { msg[2] } else { 0 };
    if kind == 0x9 {
        Some(MidiEvent::NoteOn { note: msg[1], vel: second, channel })
    } else if kind == 0x8 {
        Some(MidiEvent::NoteOff { note: msg[1], vel: second, channel })
    } else if kind == 0xB {
        Some(MidiEvent::ControlChange { num: msg[1], value: second, channel })
    } else if kind == 0xC {
        Some(MidiEvent::ProgramChange { num: msg[1], channel })
    } else {
        None
    }
}

/// A channel message reports its data bytes in order, whatever follows them: a note-off
/// `[0x8c, n, v]`, a note-on `[0x9c, n, v]` and a control change `[0xBc, n, v]` give the
/// note or controller number `n` and the velocity or value `v`, on channel `c + 1`; a program
/// change `[0xCc, n]` gives program `n`. Without a second data byte the velocity or value is 0.
/// The real-time bytes 0xF8, 0xFA, 0xFB and 0xFC are clock, start, continue and stop.
pub proof fn law_channel_message_fields(c: u8, n: u8, v: u8, rest: Seq<u8>)
    requires
        c < 16,
    ensures
        midi_event_of(seq![(0x80 + c) as u8, n, v] + rest)
            == Some(MidiEvent::NoteOff { note: n, vel: v, channel: (c + 1) as u8 }),
        midi_event_of(seq![(0x90 + c) as u8, n, v] + rest)
            == Some(MidiEvent::NoteOn { note: n, vel: v, channel: (c + 1) as u8 }),
        midi_event_of(seq![(0xB0 + c) as u8, n, v] + rest)
            == Some(MidiEvent::ControlChange { num: n, value: v, channel: (c + 1) as u8 }),
        midi_event_of(seq![(0xC0 + c) as u8, n] + rest)
            == Some(MidiEvent::ProgramChange { num: n, channel: (c + 1) as u8 }),
        midi_event_of(seq![(0x80 + c) as u8, n]) == Some(MidiEvent::NoteOff { note: n, vel: 0, channel: (c + 1) as u8 }),
        midi_event_of(seq![(0x90 + c) as u8, n]) == Some(MidiEvent::NoteOn { note: n, vel: 0, channel: (c + 1) as u8 }),
        midi_event_of(seq![0xF8u8] + rest) == Some(MidiEvent::Clock),
        midi_event_of(seq![0xFAu8] + rest) == Some(MidiEvent::Start),
        midi_event_of(seq![0xFBu8] + rest) == Some(MidiEvent::Continue),
        midi_event_of(seq![0xFCu8] + rest) == Some(MidiEvent::Stop),
{
    assert((seq![0xF8u8] + rest)[0] == 0xF8u8);
    assert((seq![0xFAu8] + rest)[0] == 0xFAu8);
    assert((seq![0xFBu8] + rest)[0] == 0xFBu8);
    assert((seq![0xFCu8] + rest)[0] == 0xFCu8);
    let a = seq![(0x80 + c) as u8, n, v] + rest;
    let b = seq![(0x90 + c) as u8, n, v] + rest;
    let d = seq![(0xB0 + c) as u8, n, v] + rest;
    let e = seq![(0xC0 + c) as u8, n] + rest;
    assert(a[0] == (0x80 + c) as u8 && a[1] == n && a[2] == v && a.len() >= 3);
    assert(b[0] == (0x90 + c) as u8 && b[1] == n && b[2] == v && b.len() >= 3);
    assert(d[0] == (0xB0 + c) as u8 && d[1] == n && d[2] == v && d.len() >= 3);
    assert(e[0] == (0xC0 + c) as u8 && e[1] == n && e.len() >= 2);
}

/// The name under which a script sees an event's kind.
pub open spec fn midi_event_name(e: MidiEvent) -> Seq<char> {
    match e {
        MidiEvent::Clock => "clock"@,
        MidiEvent::Start => "start"@,
        MidiEvent::Stop => "stop"@,
        MidiEvent::Continue => "continue"@,
        MidiEvent::NoteOn { .. } => "note_on"@,
        MidiEvent::NoteOff { .. } => "note_off"@,
        MidiEvent::ControlChange { .. } => "cc"@,
        MidiEvent::ProgramChange { .. } => "program"@,
    }
}

impl MidiEvent {
    /// The name of this event's kind: `clock`, `start`, `stop`, `continue`, `note_on`,
    /// `note_off`, `cc` or `program`.
    pub fn name(&self) -> (s: String)
        ensures s@ == midi_event_name(*self),
    {
        match self {
            MidiEvent::Clock => String::from_str("clock"),
            MidiEvent::Start => String::from_str("start"),
            MidiEvent::Stop => String::from_str("stop"),
            MidiEvent::Continue => String::from_str("continue"),
            MidiEvent::NoteOn { .. } => String::from_str("note_on"),
            MidiEvent::NoteOff { .. } => String::from_str("note_off"),
            MidiEvent::ControlChange { .. } => String::from_str("cc"),
            MidiEvent::ProgramChange { .. } => String::from_str("program"),
        }
    }
}

/// The MD5 digest of some bytes, as the md-5 crate's `Md5` computes it.
pub uninterp spec fn md5_digest(data: Seq<u8>) -> Seq<u8>;

/// The SHA-256 digest of some bytes, as the sha2 crate's `Sha256` computes it.
pub uninterp spec fn sha256_digest(data: Seq<u8>) -> Seq<u8>;

/// The SHA-512 digest of some bytes, as the sha2 crate's `Sha512` computes it.
pub uninterp spec fn sha512_digest(data: Seq<u8>) -> Seq<u8>;

/// Calls `Digest::digest` of the md-5 crate's `Md5`: the result is named `md5_digest` of
/// the bytes, and the crate fixes its length at 16 bytes.
#[verifier::external_body]
fn md5_of(data: &[u8]) -> (d: Vec<u8>)
    ensures
        d@ == md5_digest(data@),
        d@.len() == 16,
{
    md5::Md5::digest(data).to_vec()
}

/// Calls `Digest::digest` of the sha2 crate's `Sha256`: the result is named
/// `sha256_digest` of the bytes, and the crate fixes its length at 32 bytes.
#[verifier::external_body]
fn sha256_of(data: &[u8]) -> (d: Vec<u8>)
    ensures
        d@ == sha256_digest(data@),
        d@.len() == 32,
{
    sha2::Sha256::digest(data).to_vec()
}

/// Calls `Digest::digest` of the sha2 crate's `Sha512`: the result is named
/// `sha512_digest` of the bytes, and the crate fixes its length at 64 bytes.
#[verifier::external_body]
fn sha512_of(data: &[u8]) -> (d: Vec<u8>)
    ensures
        d@ == sha512_digest(data@),
        d@.len() == 64,
{
    sha2::Sha512::digest(data).to_vec()
}

/// The lower-case hexadecimal digit for `d < 16`.
pub open spec fn hex_char(d: nat) -> char {
    if d < 10 { digit_char(d) } else if d == 10 { 'a' } else if d == 11 { 'b' } else if d == 12 { 'c' }
    else if d == 13 { 'd' } else if d == 14 { 'e' } else { 'f' }
}

/// Bytes in lower-case hexadecimal, two digits each, high digit first.
pub open spec fn lower_hex(bytes: Seq<u8>) -> Seq<char>
    decreases bytes.len(),
{
    if bytes.len() == 0 {
        Seq::empty()
    } else {
        lower_hex(bytes.drop_last()) + seq![hex_char((bytes.last() / 16) as nat), hex_char((bytes.last() % 16) as nat)]
    }
}

fn hex_digit(d: u8) -> (c: char)
    requires
        d < 16,
    ensures
        c == hex_char(d as nat),
{
    if d < 10 { digit_of(d as u64) } else if d == 10 { 'a' } else if d == 11 { 'b' } else if d == 12 { 'c' }
    else if d == 13 { 'd' } else if d == 14 { 'e' } else { 'f' }
}

/// Bytes in lower-case hexadecimal.
fn hex_string(bytes: &[u8]) -> (s: String)
    ensures
        s@ == lower_hex(bytes@),
{
    let mut s = String::new();
    let mut i: usize = 0;
    while i < bytes.len()
        invariant
            i <= bytes@.len(),
            s@ == lower_hex(bytes@.take(i as int)),
        decreases bytes.len() - i,
    {
        let b = bytes[i];
        s.push(hex_digit(b / 16));
        s.push(hex_digit(b % 16));
        proof {
            assert(bytes@.take(i + 1).drop_last() =~= bytes@.take(i as int));
            assert(s@ =~= lower_hex(bytes@.take(i + 1)));
        }
        i += 1;
    }
    proof { assert(bytes@.take(i as int) =~= bytes@); }
    s
}

/// The message for an algorithm that `hash()` does not offer.
pub open spec fn unsupported_hash_message(algorithm: Seq<char>) -> Seq<char> {
    "hash() unsupported algorithm '"@ + algorithm + "'. Use: md5, sha256, sha512"@
}

/// `hash(algorithm, data)`: the digest of the text's UTF-8 bytes in lower-case
/// hexadecimal, for the algorithms md5, sha256 and sha512.
pub fn builtin_hash(algorithm: &str, data: &str) -> (r: Result<String, AudionError>)
    ensures
        algorithm@ == "md5"@ ==> (r matches Ok(h) && h@ == lower_hex(md5_digest(data.spec_bytes()))),
        algorithm@ == "sha256"@ ==> (r matches Ok(h) && h@ == lower_hex(sha256_digest(data.spec_bytes()))),
        algorithm@ == "sha512"@ ==> (r matches Ok(h) && h@ == lower_hex(sha512_digest(data.spec_bytes()))),
        !(algorithm@ == "md5"@ || algorithm@ == "sha256"@ || algorithm@ == "sha512"@)
            ==> (r matches Err(AudionError::RuntimeError { msg }) && msg@ == unsupported_hash_message(algorithm@)),
{
    proof {
        reveal_strlit("md5");
        reveal_strlit("sha256");
        reveal_strlit("sha512");
        assert("md5"@.len() != "sha256"@.len());
        assert("md5"@.len() != "sha512"@.len());
        assert("sha256"@[3] != "sha512"@[3]);
    }
    let bytes = data.as_bytes();
    if str_eq(algorithm, "md5") {
        let d = md5_of(bytes);
        Ok(hex_string(d.as_slice()))
    } else if str_eq(algorithm, "sha256") {
        let d = sha256_of(bytes);
        Ok(hex_string(d.as_slice()))
    } else if str_eq(algorithm, "sha512") {
        let d = sha512_of(bytes);
        Ok(hex_string(d.as_slice()))
    } else {
        let mut msg = String::from_str("hash() unsupported algorithm '");
        msg.append(algorithm);
        msg.append("'. Use: md5, sha256, sha512");
        Err(AudionError::RuntimeError { msg })
    }
}

/// `str_explode(delimiter, string)`: the pieces of `string` between the occurrences of
/// `delimiter`. A delimiter written `/pattern/`, `{pattern}` or `%%pattern%%` is a regular
/// expression.
pub fn builtin_str_explode(delimiter: &str, string: &str) -> (r: Result<Vec<String>, AudionError>)
    ensures
        match regex_pattern(delimiter@) {
            Some(p) => if regex_compiles(p) {
                r matches Ok(v) && pieces_view(v@) == regex_pieces(p, string@)
            } else {
                r matches Err(AudionError::RuntimeError { msg }) && msg@ == invalid_regex_message("str_explode"@, p)
            },
            None => r matches Ok(v) && pieces_view(v@) == split_text(string@, delimiter@),
        },
{
    match extract_regex_pattern(delimiter) {
        Some(pattern) => match compile_regex(pattern.as_str()) {
            Ok(re) => Ok(regex_split(&re, string)),
            Err(e) => Err(invalid_regex("str_explode", e)),
        },
        None => Ok(split_plain(string, delimiter)),
    }
}

/// The texts joined with `glue` between each two.
pub open spec fn joined(parts: Seq<Seq<char>>, glue: Seq<char>) -> Seq<char>
    decreases parts.len(),
{
    if parts.len() == 0 {
        Seq::empty()
    } else if parts.len() == 1 {
        parts[0]
    } else {
        joined(parts.drop_last(), glue) + glue + parts.last()
    }
}

/// `str_join(glue, array)`: the texts of the array's entries, in order, with `glue` between
/// each two.
pub fn builtin_str_join(glue: &str, parts: &Vec<String>) -> (r: String)
    ensures
        r@ == joined(pieces_view(parts@), glue@),
{
    let ghost pv = pieces_view(parts@);
    let mut out = String::new();
    let mut i: usize = 0;
    while i < parts.len()
        invariant
            i <= parts@.len(),
            pv == pieces_view(parts@),
            out@ == joined(pv.take(i as int), glue@),
        decreases parts.len() - i,
    {
        if i > 0 {
            out.append(glue);
        }
        out.append(parts[i].as_str());
        proof {
            assert(pv.take(i + 1).drop_last() =~= pv.take(i as int));
            if i == 0 {
                assert(pv.take(1)[0] == pv[0]);
            }
        }
        i += 1;
    }
    proof { assert(pv.take(i as int) =~= pv); }
    out
}

proof fn lemma_joined_front(a: Seq<char>, rest: Seq<Seq<char>>, g: Seq<char>)
    requires
        rest.len() >= 1,
    ensures
        joined(seq![a] + rest, g) == a + g + joined(rest, g),
    decreases rest.len(),
{
    assert((seq![a] + rest).last() == rest.last());
    if rest.len() == 1 {
        assert((seq![a] + rest).drop_last() =~= seq![a]);
        assert(joined(seq![a], g) == a);
        assert(rest[0] == rest.last());
    } else {
        lemma_joined_front(a, rest.drop_last(), g);
        assert((seq![a] + rest).drop_last() =~= seq![a] + rest.drop_last());
        assert(a + g + joined(rest.drop_last(), g) + g + rest.last() =~= a + g + (joined(rest.drop_last(), g) + g + rest.last()));
    }
}

proof fn lemma_join_pieces(s: Seq<char>, n: Seq<char>, start: nat, i: nat)
    requires
        n.len() > 0,
        start <= i <= s.len(),
    ensures
        joined(pieces_from(s, n, start, i), n) == s.subrange(start as int, s.len() as int),
    decreases s.len() - i,
{
    if i < s.len() {
        if occurs_at(s, n, i as int) {
            lemma_join_pieces(s, n, i + n.len(), i + n.len());
            let rest = pieces_from(s, n, i + n.len(), i + n.len());
            lemma_pieces_nonempty(s, n, i + n.len(), i + n.len());
            lemma_joined_front(s.subrange(start as int, i as int), rest, n);
            assert(s.subrange(start as int, s.len() as int) =~= s.subrange(start as int, i as int) + n
                + s.subrange((i + n.len()) as int, s.len() as int));
        } else {
            lemma_join_pieces(s, n, start, i + 1);
        }
    }
}

proof fn lemma_pieces_nonempty(s: Seq<char>, n: Seq<char>, start: nat, i: nat)
    requires
        n.len() > 0,
    ensures
        pieces_from(s, n, start, i).len() >= 1,
    decreases s.len() - i,
{
    if i < s.len() {
        if occurs_at(s, n, i as int) {
            lemma_pieces_nonempty(s, n, i + n.len(), i + n.len());
        } else {
            lemma_pieces_nonempty(s, n, start, i + 1);
        }
    }
}

proof fn lemma_join_chars(s: Seq<char>, k: nat)
    requires
        k <= s.len(),
    ensures
        joined(seq![Seq::<char>::empty()] + Seq::new(k, |i: int| seq![s[i]]), Seq::empty()) == s.take(k as int),
    decreases k,
{
    let ps = seq![Seq::<char>::empty()] + Seq::new(k, |i: int| seq![s[i]]);
    if k > 0 {
        lemma_join_chars(s, (k - 1) as nat);
        assert(ps.drop_last() =~= seq![Seq::<char>::empty()] + Seq::new((k - 1) as nat, |i: int| seq![s[i]]));
        assert(s.take(k as int) =~= s.take(k - 1) + Seq::<char>::empty() + seq![s[k - 1]]);
    } else {
        assert(ps =~= seq![Seq::<char>::empty()]);
        assert(s.take(0) =~= Seq::<char>::empty());
    }
}

/// Joining the pieces that `str_explode` cuts at a plain delimiter, with that delimiter as
/// glue, gives back the string.
pub proof fn law_join_explode(s: Seq<char>, d: Seq<char>)
    ensures
        joined(split_text(s, d), d) == s,
{
    if d.len() > 0 {
        lemma_join_pieces(s, d, 0, 0);
        assert(s.subrange(0, s.len() as int) =~= s);
    } else {
        let inner = seq![Seq::<char>::empty()] + Seq::new(s.len(), |i: int| seq![s[i]]);
        assert(d =~= Seq::<char>::empty());
        lemma_join_chars(s, s.len());
        assert(split_text(s, d) =~= inner + seq![Seq::<char>::empty()]);
        assert((inner + seq![Seq::<char>::empty()]).drop_last() =~= inner);
        assert(s.take(s.len() as int) =~= s);
        assert(joined(inner, d) + d + Seq::<char>::empty() =~= joined(inner, d));
    }
}

// ---------------------------------------------------------------------------
// Number formatting: hex, bin, oct
// ---------------------------------------------------------------------------

/// The digits of `n` in base `b` (2 to 16), lower case, without leading zeros.
pub open spec fn radix_digits(n: nat, b: nat) -> Seq<char>
    decreases n,
{
    if n < b || b < 2 {
        seq![hex_char(n % 16)]
    } else {
        proof {
            assert(n / b < n) by (nonlinear_arith)
                requires n >= b, b >= 2;
        }
        radix_digits(n / b, b).push(hex_char(n % b))
    }
}

/// `s` with zeros put in front up to `width` characters.
pub open spec fn zero_padded(s: Seq<char>, width: nat) -> Seq<char> {
    if s.len() < width { Seq::new((width - s.len()) as nat, |i: int| '0') + s } else { s }
}

fn push_radix(v: &mut Vec<char>, n: u64, b: u64)
    requires
        2 <= b <= 16,
    ensures
        final(v)@ == old(v)@ + radix_digits(n as nat, b as nat),
    decreases n,
{
    if n >= b {
        assert(n / b < n) by (nonlinear_arith)
            requires n >= b, b >= 2;
        push_radix(v, n / b, b);
    }
    v.push(hex_digit((n % b) as u8));
    proof {
        if n >= b {
            assert(radix_digits(n as nat, b as nat) == radix_digits((n / b) as nat, b as nat).push(hex_char((n % b) as nat)));
        } else {
            assert(n % b == n) by (nonlinear_arith) requires n < b;
            assert(n % 16 == n) by (nonlinear_arith) requires n < 16;
            assert(radix_digits(n as nat, b as nat) == seq![hex_char((n % 16) as nat)]);
        }
    }
    assert(v@ =~= old(v)@ + radix_digits(n as nat, b as nat));
}

/// `n` in base `b`, zero-padded to `width` characters.
fn format_radix(n: u64, b: u64, width: usize) -> (s: String)
    requires
        2 <= b <= 16,
    ensures
        s@ == zero_padded(radix_digits(n as nat, b as nat), width as nat),
{
    let mut digits: Vec<char> = Vec::new();
    push_radix(&mut digits, n, b);
    assert(digits@ =~= radix_digits(n as nat, b as nat));
    let mut s = String::new();
    if digits.len() < width {
        let pad = width - digits.len();
        let mut i: usize = 0;
        while i < pad
            invariant
                i <= pad,
                s@ == Seq::new(i as nat, |k: int| '0'),
            decreases pad - i,
        {
            s.push('0');
            proof { assert(s@ =~= Seq::new((i + 1) as nat, |k: int| '0')); }
            i += 1;
        }
    }
    let ghost head = s@;
    let mut i: usize = 0;
    while i < digits.len()
        invariant
            i <= digits@.len(),
            s@ == head + digits@.take(i as int),
        decreases digits.len() - i,
    {
        s.push(digits[i]);
        proof { assert(s@ =~= head + digits@.take(i + 1)); }
        i += 1;
    }
    proof {
        assert(digits@.take(i as int) =~= digits@);
        assert(s@ =~= zero_padded(radix_digits(n as nat, b as nat), width as nat));
    }
    s
}

/// `hex(n, [width])`: `n` in lower-case hexadecimal, without prefix, zero-padded to
/// `width` characters (0 for no padding).
pub fn builtin_hex(n: u64, width: usize) -> (s: String)
    ensures
        s@ == zero_padded(radix_digits(n as nat, 16), width as nat),
{
    format_radix(n, 16, width)
}

/// `bin(n, [width])`: `n` in binary, without prefix, zero-padded to `width` characters.
pub fn builtin_bin(n: u64, width: usize) -> (s: String)
    ensures
        s@ == zero_padded(radix_digits(n as nat, 2), width as nat),
{
    format_radix(n, 2, width)
}

/// `oct(n, [width])`: `n` in octal, without prefix, zero-padded to `width` characters.
pub fn builtin_oct(n: u64, width: usize) -> (s: String)
    ensures
        s@ == zero_padded(radix_digits(n as nat, 8), width as nat),
{
    format_radix(n, 8, width)
}

// ---------------------------------------------------------------------------
// Bytes
// ---------------------------------------------------------------------------

/// `bytes_get(bytes, index)`: the byte at `index`, counting from the end when negative;
/// none when the index falls outside.
pub fn builtin_bytes_get(bytes: &[u8], index: i64) -> (r: Option<u8>)
    ensures
        ({
            let j = if index < 0 { bytes@.len() + index } else { index as int };
            r == if 0 <= j < bytes@.len() { Some(bytes@[j]) } else { None::<u8> }
        }),
{
    let len = bytes.len();
    if index < 0 {
        let back = (0 - (index as i128)) as u128;
        if back > len as u128 {
            return None;
        }
        let j = len - back as usize;
        Some(bytes[j])
    } else {
        if index as u128 >= len as u128 {
            return None;
        }
        Some(bytes[index as usize])
    }
}

/// `bytes_slice(bytes, start, [length])`: the bytes from `start` on, at most `length` of
/// them when a length is given; both ends are cut to the bytes there are.
pub fn builtin_bytes_slice(bytes: &[u8], start: usize, length: Option<usize>) -> (r: Vec<u8>)
    requires
        length matches Some(l) ==> (if start < bytes@.len() { start } else { bytes@.len() as usize }) + l <= usize::MAX,
    ensures
        ({
            let s = if start < bytes@.len() { start as int } else { bytes@.len() as int };
            let e = match length {
                Some(l) => if s + l < bytes@.len() { s + l } else { bytes@.len() as int },
                None => bytes@.len() as int,
            };
            r@ == bytes@.subrange(s, e)
        }),
{
    let s = if start < bytes.len() { start } else { bytes.len() };
    let e = match length {
        Some(l) => if s + l < bytes.len() { s + l } else { bytes.len() },
        None => bytes.len(),
    };
    let mut r: Vec<u8> = Vec::new();
    let mut i = s;
    while i < e
        invariant
            s <= i <= e <= bytes@.len(),
            r@ == bytes@.subrange(s as int, i as int),
        decreases e - i,
    {
        r.push(bytes[i]);
        proof { assert(r@ =~= bytes@.subrange(s as int, i + 1)); }
        i += 1;
    }
    r
}

/// A number clamped to a byte.
pub open spec fn clamp_byte(n: int) -> u8 {
    if n < 0 { 0 } else if n > 255 { 255 } else { n as u8 }
}

/// `array_to_bytes(array)`: the numbers of the array, each clamped to 0..255.
pub fn builtin_array_to_bytes(values: &[i64]) -> (r: Vec<u8>)
    ensures
        r@.len() == values@.len(),
        forall|i: int| 0 <= i < values@.len() ==> r@[i] == clamp_byte(#[trigger] values@[i] as int),
{
    let mut r: Vec<u8> = Vec::new();
    let mut i: usize = 0;
    while i < values.len()
        invariant
            i <= values@.len(),
            r@.len() == i,
            forall|k: int| 0 <= k < i ==> r@[k] == clamp_byte(#[trigger] values@[k] as int),
        decreases values.len() - i,
    {
        let v = values[i];
        let b: u8 = if v < 0 { 0 } else if v > 255 { 255 } else { v as u8 };
        r.push(b);
        i += 1;
    }
    r
}

// ---------------------------------------------------------------------------
// Scala tuning files
// ---------------------------------------------------------------------------

/// The trimmed lines that carry content: not empty and not a `!` comment, in order.
pub open spec fn content_lines(lines: Seq<Seq<char>>) -> Seq<Seq<char>>
    decreases lines.len(),
{
    if lines.len() == 0 {
        Seq::empty()
    } else {
        let rest = content_lines(lines.drop_last());
        let t = trimmed(lines.last());
        if t.len() > 0 && t[0] != '!' { rest.push(t) } else { rest }
    }
}

/// The value of a run of decimal digits.
pub open spec fn digits_value(s: Seq<char>) -> nat
    decreases s.len(),
{
    if s.len() == 0 { 0 } else { digits_value(s.drop_last()) * 10 + (s.last() as nat - '0' as nat) as nat }
}

/// A count as `usize::from_str` reads it: an optional `+`, then one or more decimal
/// digits, with a value that fits in a `usize`.
pub open spec fn parse_count(s: Seq<char>) -> Option<nat> {
    let d = unsigned_digits(s);
    if d.len() > 0 && all_digits(d) && digits_value(d) <= usize::MAX {
        Some(digits_value(d))
    } else {
        None
    }
}

/// The text after an optional leading `+`.
pub open spec fn unsigned_digits(s: Seq<char>) -> Seq<char> {
    if s.len() > 0 && s[0] == '+' { s.skip(1) } else { s }
}

/// Whether every character is a decimal digit.
pub open spec fn all_digits(d: Seq<char>) -> bool {
    forall|i: int| 0 <= i < d.len() ==> '0' <= #[trigger] d[i] <= '9'
}

/// Reads a count the way `usize::from_str` does.
fn parse_count_exec(s: &str) -> (r: Option<usize>)
    ensures
        r matches Some(n) ==> parse_count(s@) == Some(n as nat),
        r is None ==> parse_count(s@) is None,
{
    let cs = chars_of(s);
    let start: usize = if cs.len() > 0 && cs[0] == '+' { 1 } else { 0 };
    let ghost d = unsigned_digits(s@);
    assert(d =~= cs@.skip(start as int));
    if start >= cs.len() {
        assert(d.len() == 0);
        return None;
    }
    let mut acc: u128 = 0;
    let mut i: usize = start;
    while i < cs.len()
        invariant
            cs@ == s@,
            start <= i <= cs@.len(),
            d == cs@.skip(start as int),
            d == unsigned_digits(s@),
            forall|k: int| 0 <= k < i - start ==> '0' <= #[trigger] d[k] <= '9',
            acc == if digits_value(d.take(i - start)) > usize::MAX { usize::MAX as nat + 1 } else { digits_value(d.take(i - start)) },
        decreases cs.len() - i,
    {
        let c = cs[i];
        if c < '0' || c > '9' {
            proof {
                assert(d[i - start] == c);
                assert(!all_digits(d));
            }
            return None;
        }
        proof {
            assert(d.take(i - start + 1).drop_last() =~= d.take(i - start));
            assert(d.take(i - start + 1).last() == c);
        }
        let digit = (c as u32 - '0' as u32) as u128;
        if acc > usize::MAX as u128 {
            acc = usize::MAX as u128 + 1;
        } else {
            acc = acc * 10 + digit;
            if acc > usize::MAX as u128 {
                acc = usize::MAX as u128 + 1;
            }
        }
        i += 1;
    }
    proof {
        assert(d.take(i - start) =~= d);
    }
    if acc > usize::MAX as u128 {
        return None;
    }
    Some(acc as usize)
}

/// The pitch lines of a Scala tuning file. Its lines are trimmed; empty lines and `!`
/// comments are skipped; of the rest, the first is the description and the second the
/// number of notes N, and the N lines after it (or as many as there are) are the pitches.
/// `path` only names the file in the errors.
pub fn scala_pitch_lines(contents: &str, path: &str) -> (r: Result<Vec<String>, AudionError>)
    ensures
        ({
            let lines = content_lines(split_text(contents@, seq!['\n']));
            if lines.len() < 2 {
                r matches Err(AudionError::RuntimeError { msg })
                    && msg@ == "mtof(): invalid scala file '"@ + path@ + "'"@
            } else {
                match parse_count(trimmed(lines[1])) {
                    None => r matches Err(AudionError::RuntimeError { msg })
                        && msg@ == "mtof(): invalid note count in scala file '"@ + path@ + "'"@,
                    Some(n) => r matches Ok(v) && pieces_view(v@)
                        == lines.subrange(2, if 2 + n < lines.len() { (2 + n) as int } else { lines.len() as int }),
                }
            }
        }),
{
    let pieces = split_plain(contents, "\n");
    proof { reveal_strlit("\n"); assert("\n"@ =~= seq!['\n']); }
    let ghost pv = pieces_view(pieces@);
    let mut lines: Vec<String> = Vec::new();
    let mut i: usize = 0;
    while i < pieces.len()
        invariant
            i <= pieces@.len(),
            pv == pieces_view(pieces@),
            pieces_view(lines@) == content_lines(pv.take(i as int)),
        decreases pieces.len() - i,
    {
        let t = builtin_str_trim(pieces[i].as_str());
        let tc = chars_of(t.as_str());
        proof { assert(pv.take(i + 1).drop_last() =~= pv.take(i as int)); }
        if tc.len() > 0 && tc[0] != '!' {
            let ghost before = pieces_view(lines@);
            lines.push(t);
            proof { assert(pieces_view(lines@) =~= before.push(tc@)); }
        }
        i += 1;
    }
    proof { assert(pv.take(i as int) =~= pv); }
    let ghost lv = pieces_view(lines@);
    if lines.len() < 2 {
        let mut msg = String::from_str("mtof(): invalid scala file '");
        msg.append(path);
        msg.append("'");
        return Err(AudionError::RuntimeError { msg });
    }
    let count_text = builtin_str_trim(lines[1].as_str());
    let n = match parse_count_exec(count_text.as_str()) {
        Some(n) => n,
        None => {
            let mut msg = String::from_str("mtof(): invalid note count in scala file '");
            msg.append(path);
            msg.append("'");
            return Err(AudionError::RuntimeError { msg });
        },
    };
    let end: usize = if n < lines.len() - 2 { 2 + n } else { lines.len() };
    let mut out: Vec<String> = Vec::new();
    let mut k: usize = 2;
    while k < end
        invariant
            2 <= k <= end <= lines@.len(),
            lv == pieces_view(lines@),
            pieces_view(out@) == lv.subrange(2, k as int),
        decreases end - k,
    {
        let line = lines[k].clone();
        let ghost before = pieces_view(out@);
        out.push(line);
        proof {
            assert(pieces_view(out@) =~= before.push(lv[k as int]));
            assert(pieces_view(out@) =~= lv.subrange(2, k + 1));
        }
        k += 1;
    }
    Ok(out)
}

// ---------------------------------------------------------------------------
// Dates
// ---------------------------------------------------------------------------

/// A moment in local time, field by field.
#[derive(Clone, Copy, Debug, PartialEq, Eq, Structural)]
pub struct DateTimeFields {
    pub year: i32,
    /// 1 to 12.
    pub month: u32,
    /// 1 to 31.
    pub day: u32,
    /// 0 to 23.
    pub hour: u32,
    /// 0 to 59.
    pub minute: u32,
    /// 0 to 59.
    pub second: u32,
    /// Nanoseconds within the second; 1,000,000,000 and more during a leap second.
    pub nanosecond: u32,
    /// 1 (Monday) to 7 (Sunday).
    pub weekday: u32,
    /// Seconds since 1970-01-01 00:00:00 UTC.
    pub timestamp: i64,
}

impl DateTimeFields {
    /// Every field lies in its range.
    pub open spec fn wf(&self) -> bool {
        &&& 1 <= self.month <= 12
        &&& 1 <= self.day <= 31
        &&& self.hour <= 23
        &&& self.minute <= 59
        &&& self.second <= 59
        &&& self.nanosecond < 2_000_000_000
        &&& 1 <= self.weekday <= 7
    }
}

/// Calls `std::time::SystemTime::now` and measures it from the Unix epoch
/// (`SystemTime::duration_since(UNIX_EPOCH)`): the whole seconds and the nanoseconds within
/// the second. None when the clock reads before 1970, or the seconds do not fit an `i64`.
/// What the clock reads is not stated.
#[verifier::external_body]
fn system_now() -> (r: Option<(i64, u32)>)
    ensures
        r matches Some((s, ns)) ==> s >= 0 && ns < 1_000_000_000,
{
    let d = std::time::SystemTime::now().duration_since(std::time::UNIX_EPOCH).ok()?;
    Some((i64::try_from(d.as_secs()).ok()?, d.subsec_nanos()))
}

/// Calls `chrono::DateTime::from_timestamp` with the seconds and nanoseconds and puts the
/// moment in the machine's time zone; none when the moment lies outside the dates chrono
/// represents (about 262,000 years either side of the common era). Which local fields come
/// back depends on the time zone; that they lie in their ranges and keep the timestamp and
/// the nanoseconds is stated, and that a moment within 8,000,000,000,000 seconds (about
/// 253,000 years) of 1970 is represented. The exact edge of chrono's range is not stated.
#[verifier::external_body]
fn local_time_at(ts: i64, nanos: u32) -> (r: Option<DateTimeFields>)
    ensures
        r matches Some(t) ==> t.wf() && t.timestamp == ts && t.nanosecond == nanos,
        -8_000_000_000_000 <= ts <= 8_000_000_000_000 && nanos < 1_000_000_000 ==> r is Some,
{
    let t = chrono::DateTime::from_timestamp(ts, nanos)?.with_timezone(&chrono::Local);
    Some(DateTimeFields {
        year: t.year(),
        month: t.month(),
        day: t.day(),
        hour: t.hour(),
        minute: t.minute(),
        second: t.second(),
        nanosecond: t.nanosecond(),
        weekday: t.weekday().number_from_monday(),
        timestamp: t.timestamp(),
    })
}

/// A number below 100 in two digits.
pub open spec fn two_digits(v: nat) -> Seq<char> {
    zero_padded(decimal(v), 2)
}

/// A year as `%Y` writes it: four digits, zero-padded, for 0 to 9999; otherwise with its
/// sign, zero-padded to five characters.
pub open spec fn year_text(y: int) -> Seq<char> {
    if 0 <= y <= 9999 {
        zero_padded(decimal(y as nat), 4)
    } else if y > 0 {
        seq!['+'] + zero_padded(decimal(y as nat), 4)
    } else {
        seq!['-'] + zero_padded(decimal((-y) as nat), 4)
    }
}

/// The text of one format letter of `date()`: `Y` year, `m` month, `d` day, `H` hour,
/// `i` minute, `s` second, 60 during a leap second (two digits each but the year), `N` weekday (1 is Monday), `j`,
/// `n`, `G` day, month and hour without padding, `A` AM or PM, `g` the hour on a 12-hour
/// clock, `U` the timestamp; any other character stands for itself.
pub open spec fn date_part(c: char, t: DateTimeFields) -> Seq<char> {
    if c == 'Y' { year_text(t.year as int) }
    else if c == 'm' { two_digits(t.month as nat) }
    else if c == 'd' { two_digits(t.day as nat) }
    else if c == 'H' { two_digits(t.hour as nat) }
    else if c == 'i' { two_digits(t.minute as nat) }
    else if c == 's' { two_digits((t.second + t.nanosecond / 1_000_000_000) as nat) }
    else if c == 'N' { decimal(t.weekday as nat) }
    else if c == 'j' { decimal(t.day as nat) }
    else if c == 'n' { decimal(t.month as nat) }
    else if c == 'G' { decimal(t.hour as nat) }
    else if c == 'A' { if t.hour >= 12 { "PM"@ } else { "AM"@ } }
    else if c == 'g' { decimal((if t.hour % 12 == 0 { 12 } else { t.hour % 12 }) as nat) }
    else if c == 'U' { signed_decimal(t.timestamp as int) }
    else { seq![c] }
}

/// A `date()` format with each letter replaced by its part.
pub open spec fn date_text(fmt: Seq<char>, t: DateTimeFields) -> Seq<char>
    decreases fmt.len(),
{
    if fmt.len() == 0 { Seq::empty() } else { date_text(fmt.drop_last(), t) + date_part(fmt.last(), t) }
}

/// Appends `v`, zero-padded to `width` digits.
fn push_padded(s: &mut String, v: u64, width: usize)
    ensures
        final(s)@ == old(s)@ + zero_padded(decimal(v as nat), width as nat),
{
    let mut digits = String::new();
    push_decimal(&mut digits, v);
    let ghost d = decimal(v as nat);
    assert(digits@ == d);
    let n = crate::strings::builtin_str_length(digits.as_str());
    if n < width {
        let mut i: usize = 0;
        let ghost start = s@;
        while i < width - n
            invariant
                n < width,
                i <= width - n,
                s@ == start + Seq::new(i as nat, |k: int| '0'),
            decreases width - n - i,
        {
            s.push('0');
            proof { assert(s@ =~= start + Seq::new((i + 1) as nat, |k: int| '0')); }
            i += 1;
        }
        s.append(digits.as_str());
        proof {
            assert(s@ =~= start + zero_padded(d, width as nat));
        }
    } else {
        s.append(digits.as_str());
    }
}

/// Appends the text of one format letter.
fn push_date_part(s: &mut String, c: char, t: &DateTimeFields)
    requires
        t.wf(),
    ensures
        final(s)@ == old(s)@ + date_part(c, *t),
{
    if c == 'Y' {
        let y = t.year;
        if 0 <= y && y <= 9999 {
            push_padded(s, y as u64, 4);
        } else if y > 0 {
            s.push('+');
            push_padded(s, y as u64, 4);
            assert(s@ =~= old(s)@ + date_part(c, *t));
        } else {
            s.push('-');
            push_padded(s, (0 - (y as i64)) as u64, 4);
            assert(s@ =~= old(s)@ + date_part(c, *t));
        }
    } else if c == 'm' {
        push_padded(s, t.month as u64, 2);
    } else if c == 'd' {
        push_padded(s, t.day as u64, 2);
    } else if c == 'H' {
        push_padded(s, t.hour as u64, 2);
    } else if c == 'i' {
        push_padded(s, t.minute as u64, 2);
    } else if c == 's' {
        push_padded(s, (t.second + t.nanosecond / 1_000_000_000) as u64, 2);
    } else if c == 'N' {
        push_decimal(s, t.weekday as u64);
    } else if c == 'j' {
        push_decimal(s, t.day as u64);
    } else if c == 'n' {
        push_decimal(s, t.month as u64);
    } else if c == 'G' {
        push_decimal(s, t.hour as u64);
    } else if c == 'A' {
        proof {
            reveal_strlit("PM");
            reveal_strlit("AM");
        }
        if t.hour >= 12 { s.append("PM"); } else { s.append("AM"); }
    } else if c == 'g' {
        let h = if t.hour % 12 == 0 { 12 } else { t.hour % 12 };
        push_decimal(s, h as u64);
    } else if c == 'U' {
        push_signed(s, t.timestamp);
    } else {
        s.push(c);
        assert(s@ =~= old(s)@ + date_part(c, *t));
    }
}

/// Writes a moment after a `date()` format (see `date_part`).
pub fn format_date(fmt: &str, t: &DateTimeFields) -> (r: String)
    requires
        t.wf(),
    ensures
        r@ == date_text(fmt@, *t),
{
    let cs = chars_of(fmt);
    let mut out = String::new();
    let mut i: usize = 0;
    while i < cs.len()
        invariant
            t.wf(),
            cs@ == fmt@,
            i <= cs@.len(),
            out@ == date_text(cs@.take(i as int), *t),
        decreases cs.len() - i,
    {
        push_date_part(&mut out, cs[i], t);
        proof {
            assert(cs@.take(i + 1).drop_last() =~= cs@.take(i as int));
            assert(cs@.take(i + 1).last() == cs@[i as int]);
        }
        i += 1;
    }
    proof { assert(cs@.take(i as int) =~= cs@); }
    out
}

/// `date(format, [timestamp])` for a clock reading `clock` (seconds and nanoseconds since
/// 1970, none when the clock reads before 1970): the moment given, or else the clock's, in local
/// time, written after the format. None when there is no moment or it lies outside the dates
/// that can be represented, which every moment within 8,000,000,000,000 seconds of 1970 is.
/// The local fields depend on the time zone.
pub fn date_with_clock(fmt: &str, timestamp: Option<i64>, clock: Option<(i64, u32)>) -> (r: Option<String>)
    ensures
        timestamp matches Some(ts) && -8_000_000_000_000 <= ts <= 8_000_000_000_000 ==> r is Some,
        timestamp is None && clock is None ==> r is None,
        timestamp is None ==> (clock matches Some((s, ns)) ==> (-8_000_000_000_000 <= s <= 8_000_000_000_000
            && ns < 1_000_000_000 ==> r is Some)),
        r matches Some(text) ==> exists|t: DateTimeFields| #![auto] t.wf()
            && (timestamp matches Some(ts) ==> t.timestamp == ts)
            && (timestamp is None ==> (clock matches Some((s, ns)) && t.timestamp == s && t.nanosecond == ns))
            && text@ == date_text(fmt@, t),
{
    let t = match timestamp {
        Some(ts) => match local_time_at(ts, 0) {
            Some(t) => t,
            None => return None,
        },
        None => match clock {
            Some((s, ns)) => match local_time_at(s, ns) {
                Some(t) => t,
                None => return None,
            },
            None => return None,
        },
    };
    let text = format_date(fmt, &t);
    Some(text)
}

/// `date(format, [timestamp])`: the moment given, or else now, in local time, written after
/// the format. None when the clock reads before 1970 or the moment lies outside the dates
/// that can be represented. Which moment "now" is depends on the clock.
pub fn builtin_date(fmt: &str, timestamp: Option<i64>) -> (r: Option<String>)
    ensures
        timestamp matches Some(ts) && -8_000_000_000_000 <= ts <= 8_000_000_000_000 ==> r is Some,
        r matches Some(text) ==> exists|t: DateTimeFields| #![auto] t.wf()
            && (timestamp matches Some(ts) ==> t.timestamp == ts) && text@ == date_text(fmt@, t),
{
    let clock = match timestamp {
        Some(_) => None,
        None => system_now(),
    };
    date_with_clock(fmt, timestamp, clock)
}

} // verus!
