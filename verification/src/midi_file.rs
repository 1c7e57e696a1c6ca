//! The timing of the events of a standard MIDI file: events written with absolute ticks go
//! into a track in tick order with delta times, and the delta times of a track read back
//! add up to absolute ticks.
use vstd::prelude::*;
use crate::text::str_eq;
use midly::MetaMessage::Tempo;
use midly::MetaMessage::EndOfTrack;
use midly::live::LiveEvent;
use midly::Arena;
use midly::Format;
use midly::Header;
use midly::TrackEvent as SmfTrackEvent;
use midly::Smf;
use midly::Timing::{Metrical, Timecode};
use midly::TrackEventKind::Meta;

verus! {

/// A channel message as a MIDI file holds it (data bytes of 7 bits, a pitch bend of 14).
#[derive(Clone, Copy, Debug, PartialEq, Eq, Structural)]
pub enum TrackMessage {
    NoteOn { key: u8, vel: u8 },
    NoteOff { key: u8, vel: u8 },
    Controller { controller: u8, value: u8 },
    ProgramChange { program: u8 },
    PitchBend { bend: u16 },
}

/// A message on a channel (0 to 15) at an absolute tick.
#[derive(Clone, Copy, Debug, PartialEq, Eq, Structural)]
pub struct TimedMessage {
    pub tick: u64,
    pub channel: u8,
    pub message: TrackMessage,
}

/// A message on a channel after a delta time, as a track holds it.
#[derive(Clone, Copy, Debug, PartialEq, Eq, Structural)]
pub struct TrackEvent {
    pub delta: u32,
    pub channel: u8,
    pub message: TrackMessage,
}

/// The first place from `i` on in `s` whose tick is above `t`.
pub open spec fn first_later(s: Seq<TimedMessage>, t: u64, i: nat) -> nat
    decreases s.len() - i,
{
    if i >= s.len() || s[i as int].tick > t { i } else { first_later(s, t, i + 1) }
}

/// `s` with `e` put after every message of `s` at or before its tick.
pub open spec fn insert_by_tick(s: Seq<TimedMessage>, e: TimedMessage) -> Seq<TimedMessage> {
    s.insert(first_later(s, e.tick, 0) as int, e)
}

/// The messages ordered by tick, those at the same tick in the order given: each message
/// in turn goes after every earlier one at or before its tick.
pub open spec fn by_tick(s: Seq<TimedMessage>) -> Seq<TimedMessage>
    decreases s.len(),
{
    if s.len() == 0 { Seq::empty() } else { insert_by_tick(by_tick(s.drop_last()), s.last()) }
}

/// Whether the ticks never go down.
pub open spec fn ticks_ordered(s: Seq<TimedMessage>) -> bool {
    forall|i: int, j: int| 0 <= i <= j < s.len() ==> s[i].tick <= s[j].tick
}

/// The delta time between two ticks as a track holds it: capped at `u32::MAX`, then cut to
/// the 28 bits of a variable-length quantity.
pub open spec fn delta_time(from: u64, to: u64) -> u32 {
    let d = to - from;
    (if d > u32::MAX { u32::MAX as int } else { d } % 0x1000_0000) as u32
}

/// The track events for messages in order, the first one timed from tick 0.
pub open spec fn track_of(s: Seq<TimedMessage>) -> Seq<TrackEvent>
    decreases s.len(),
{
    if s.len() == 0 {
        Seq::empty()
    } else {
        let prev = if s.len() > 1 { s[s.len() - 2].tick } else { 0 };
        track_of(s.drop_last()).push(TrackEvent {
            delta: delta_time(prev, s.last().tick),
            channel: s.last().channel,
            message: s.last().message,
        })
    }
}

proof fn lemma_first_later(s: Seq<TimedMessage>, t: u64, i: nat)
    requires
        i <= s.len(),
        ticks_ordered(s),
        forall|k: int| 0 <= k < i ==> s[k].tick <= t,
    ensures
        i <= first_later(s, t, i) <= s.len(),
        forall|k: int| 0 <= k < first_later(s, t, i) ==> s[k].tick <= t,
        forall|k: int| first_later(s, t, i) <= k < s.len() ==> s[k].tick > t,
    decreases s.len() - i,
{
    if i < s.len() && s[i as int].tick <= t {
        lemma_first_later(s, t, i + 1);
    }
}

proof fn lemma_by_tick(s: Seq<TimedMessage>)
    ensures
        ticks_ordered(by_tick(s)),
        by_tick(s).len() == s.len(),
    decreases s.len(),
{
    if s.len() > 0 {
        let r = by_tick(s.drop_last());
        lemma_by_tick(s.drop_last());
        let e = s.last();
        lemma_first_later(r, e.tick, 0);
        let p = first_later(r, e.tick, 0) as int;
        let out = r.insert(p, e);
        assert forall|i: int, j: int| 0 <= i <= j < out.len() implies out[i].tick <= out[j].tick by {
            if i < p && j < p {
                assert(out[i] == r[i] && out[j] == r[j]);
            } else if i < p && j == p {
                assert(out[i] == r[i]);
            } else if i < p {
                assert(out[i] == r[i] && out[j] == r[j - 1]);
            } else if i == p && j > p {
                assert(out[j] == r[j - 1]);
            } else if i > p {
                assert(out[i] == r[i - 1] && out[j] == r[j - 1]);
            }
        }
    }
}

/// Puts the messages in tick order, those at one tick in the order given, and gives each
/// its delta time from the one before; what a track of a MIDI file is written from.
pub fn track_events(events: Vec<TimedMessage>) -> (r: Vec<TrackEvent>)
    ensures
        r@ == track_of(by_tick(events@)),
{
    let mut sorted: Vec<TimedMessage> = Vec::new();
    let mut i: usize = 0;
    while i < events.len()
        invariant
            i <= events@.len(),
            sorted@ == by_tick(events@.take(i as int)),
        decreases events.len() - i,
    {
        let e = events[i];
        proof {
            lemma_by_tick(events@.take(i as int));
            lemma_first_later(sorted@, e.tick, 0);
        }
        let mut p: usize = 0;
        while p < sorted.len() && sorted[p].tick <= e.tick
            invariant
                p <= sorted@.len(),
                first_later(sorted@, e.tick, 0) == first_later(sorted@, e.tick, p as nat),
            decreases sorted.len() - p,
        {
            p += 1;
        }
        sorted.insert(p, e);
        proof {
            assert(events@.take(i + 1).drop_last() =~= events@.take(i as int));
            assert(events@.take(i + 1).last() == e);
        }
        i += 1;
    }
    proof {
        assert(events@.take(i as int) =~= events@);
        lemma_by_tick(events@);
    }
    let mut track: Vec<TrackEvent> = Vec::new();
    let mut prev: u64 = 0;
    let mut k: usize = 0;
    while k < sorted.len()
        invariant
            k <= sorted@.len(),
            ticks_ordered(sorted@),
            prev == if k == 0 { 0 } else { sorted@[k - 1].tick },
            track@ == track_of(sorted@.take(k as int)),
        decreases sorted.len() - k,
    {
        let e = sorted[k];
        assert(prev <= e.tick) by {
            if k > 0 { assert(sorted@[k - 1].tick <= sorted@[k as int].tick); }
        }
        let d = e.tick - prev;
        let capped: u64 = if d > 0xFFFF_FFFF { 0xFFFF_FFFF } else { d };
        let delta = (capped % 0x1000_0000) as u32;
        track.push(TrackEvent { delta, channel: e.channel, message: e.message });
        proof {
            let t = sorted@.take(k + 1);
            assert(t.drop_last() =~= sorted@.take(k as int));
            assert(t.last() == e);
            if k > 0 { assert(t[t.len() - 2] == sorted@[k - 1]); }
        }
        prev = e.tick;
        k += 1;
    }
    proof { assert(sorted@.take(k as int) =~= sorted@); }
    track
}

/// The absolute tick of each event of a track: the running sum of the delta times.
pub open spec fn running_ticks(deltas: Seq<u32>) -> Seq<u64>
    decreases deltas.len(),
{
    if deltas.len() == 0 {
        Seq::empty()
    } else {
        let before = running_ticks(deltas.drop_last());
        let last: int = if before.len() == 0 { 0 } else { before.last() as int };
        before.push((last + deltas.last()) as u64)
    }
}

/// The sum of some delta times.
pub open spec fn delta_sum(deltas: Seq<u32>) -> int
    decreases deltas.len(),
{
    if deltas.len() == 0 { 0 } else { delta_sum(deltas.drop_last()) + deltas.last() }
}

proof fn lemma_delta_sum_prefix(deltas: Seq<u32>, k: nat)
    requires
        k <= deltas.len(),
    ensures
        0 <= delta_sum(deltas.take(k as int)) <= delta_sum(deltas),
    decreases deltas.len() - k,
{
    if k < deltas.len() {
        lemma_delta_sum_prefix(deltas, k + 1);
        assert(deltas.take((k + 1) as int).drop_last() =~= deltas.take(k as int));
    } else {
        assert(deltas.take(k as int) =~= deltas);
    }
    lemma_delta_sum_nonneg(deltas.take(k as int));
}

proof fn lemma_delta_sum_nonneg(deltas: Seq<u32>)
    ensures
        delta_sum(deltas) >= 0,
    decreases deltas.len(),
{
    if deltas.len() > 0 {
        lemma_delta_sum_nonneg(deltas.drop_last());
    }
}

proof fn lemma_running_ticks(deltas: Seq<u32>)
    requires
        delta_sum(deltas) <= u64::MAX,
    ensures
        running_ticks(deltas).len() == deltas.len(),
        deltas.len() > 0 ==> running_ticks(deltas).last() == delta_sum(deltas),
    decreases deltas.len(),
{
    if deltas.len() > 0 {
        lemma_delta_sum_nonneg(deltas.drop_last());
        lemma_running_ticks(deltas.drop_last());
    }
}

/// The absolute ticks of the events of a track read from a file, from the delta times.
pub fn absolute_ticks(deltas: &[u32]) -> (r: Vec<u64>)
    requires
        delta_sum(deltas@) <= u64::MAX,
    ensures
        r@ == running_ticks(deltas@),
{
    let mut r: Vec<u64> = Vec::new();
    let mut tick: u64 = 0;
    let mut i: usize = 0;
    while i < deltas.len()
        invariant
            i <= deltas@.len(),
            delta_sum(deltas@) <= u64::MAX,
            r@ == running_ticks(deltas@.take(i as int)),
            tick == delta_sum(deltas@.take(i as int)),
        decreases deltas.len() - i,
    {
        proof {
            let t = deltas@.take(i + 1);
            assert(t.drop_last() =~= deltas@.take(i as int));
            lemma_delta_sum_prefix(deltas@, (i + 1) as nat);
            lemma_delta_sum_prefix(deltas@, i as nat);
            lemma_running_ticks(deltas@.take(i as int));
        }
        tick = tick + deltas[i] as u64;
        r.push(tick);
        i += 1;
    }
    proof { assert(deltas@.take(i as int) =~= deltas@); }
    r
}

/// The delta times of track events.
pub open spec fn deltas_of(t: Seq<TrackEvent>) -> Seq<u32>
    decreases t.len(),
{
    if t.len() == 0 { Seq::empty() } else { deltas_of(t.drop_last()).push(t.last().delta) }
}

/// The ticks of timed messages.
pub open spec fn ticks_of(s: Seq<TimedMessage>) -> Seq<u64>
    decreases s.len(),
{
    if s.len() == 0 { Seq::empty() } else { ticks_of(s.drop_last()).push(s.last().tick) }
}

/// Whether the gap from the tick before message `i` (or from 0) fits in a delta time.
pub open spec fn small_gap(s: Seq<TimedMessage>, i: int) -> bool {
    s[i].tick - (if i == 0 { 0 } else { s[i - 1].tick }) < 0x1000_0000
}

/// Writing events and reading their delta times back gives their ticks in order, when no
/// gap between ticks needs more than the 28 bits of a delta time.
pub proof fn law_track_ticks_round_trip(events: Seq<TimedMessage>)
    requires
        forall|i: int| 0 <= i < by_tick(events).len() ==> #[trigger] small_gap(by_tick(events), i),
    ensures
        running_ticks(deltas_of(track_of(by_tick(events)))) == ticks_of(by_tick(events)),
{
    lemma_by_tick(events);
    lemma_round_trip(by_tick(events));
}

proof fn lemma_round_trip(s: Seq<TimedMessage>)
    requires
        ticks_ordered(s),
        forall|i: int| 0 <= i < s.len() ==> #[trigger] small_gap(s, i),
    ensures
        deltas_of(track_of(s)).len() == s.len(),
        running_ticks(deltas_of(track_of(s))) == ticks_of(s),
    decreases s.len(),
{
    if s.len() > 0 {
        let t = s.drop_last();
        assert forall|i: int, j: int| 0 <= i <= j < t.len() implies t[i].tick <= t[j].tick by {
            assert(t[i] == s[i] && t[j] == s[j]);
        }
        assert forall|i: int| 0 <= i < t.len() implies #[trigger] small_gap(t, i) by {
            assert(small_gap(s, i));
            assert(t[i] == s[i]);
            if i > 0 { assert(t[i - 1] == s[i - 1]); }
        }
        lemma_round_trip(t);
        let prev: u64 = if s.len() > 1 { s[s.len() - 2].tick } else { 0 };
        let last = s[s.len() - 1];
        assert(last == s.last());
        if s.len() > 1 {
            assert(s[s.len() - 2].tick <= last.tick);
        }
        assert(small_gap(s, s.len() - 1));
        assert(last.tick - prev < 0x1000_0000);
        let ds = deltas_of(track_of(s));
        assert(track_of(s).drop_last() == track_of(t));
        assert(ds.drop_last() == deltas_of(track_of(t)));
        assert(ds.last() == last.tick - prev);
        if s.len() > 1 {
            assert(running_ticks(deltas_of(track_of(t))).last() == ticks_of(t).last());
            assert(ticks_of(t).last() == t.last().tick);
        }
    }
}

/// The message that `midi_write` makes of an event: a note-on needs its note (velocity 64
/// when none is given), a note-off its note (velocity 0), a controller change its number
/// and value, a program change its number, a pitch bend its value. Data bytes keep their
/// low 7 bits and a bend its low 14. An unknown kind, or a missing number, gives none.
pub open spec fn write_message_of(kind: Seq<char>, number: Option<u8>, value: Option<u8>, bend: Option<u16>) -> Option<TrackMessage> {
    if kind == "note_on"@ {
        match number {
            Some(n) => Some(TrackMessage::NoteOn { key: n % 128, vel: match value { Some(v) => v % 128, None => 64 } }),
            None => None,
        }
    } else if kind == "note_off"@ {
        match number {
            Some(n) => Some(TrackMessage::NoteOff { key: n % 128, vel: match value { Some(v) => v % 128, None => 0 } }),
            None => None,
        }
    } else if kind == "cc"@ {
        match (number, value) {
            (Some(n), Some(v)) => Some(TrackMessage::Controller { controller: n % 128, value: v % 128 }),
            _ => None,
        }
    } else if kind == "program"@ {
        match number {
            Some(n) => Some(TrackMessage::ProgramChange { program: n % 128 }),
            None => None,
        }
    } else if kind == "pitchbend"@ {
        match bend {
            Some(b) => Some(TrackMessage::PitchBend { bend: b % 0x4000 }),
            None => None,
        }
    } else {
        None
    }
}

/// Makes the message of an event to be written (see `write_message_of`).
pub fn write_message(kind: &str, number: Option<u8>, value: Option<u8>, bend: Option<u16>) -> (m: Option<TrackMessage>)
    ensures
        m == write_message_of(kind@, number, value, bend),
{
    proof {
        reveal_strlit("note_on");
        reveal_strlit("note_off");
        reveal_strlit("cc");
        reveal_strlit("program");
        reveal_strlit("pitchbend");
    }
    if str_eq(kind, "note_on") {
        match number {
            Some(n) => Some(TrackMessage::NoteOn { key: n % 128, vel: match value { Some(v) => v % 128, None => 64 } }),
            None => None,
        }
    } else if str_eq(kind, "note_off") {
        match number {
            Some(n) => Some(TrackMessage::NoteOff { key: n % 128, vel: match value { Some(v) => v % 128, None => 0 } }),
            None => None,
        }
    } else if str_eq(kind, "cc") {
        match (number, value) {
            (Some(n), Some(v)) => Some(TrackMessage::Controller { controller: n % 128, value: v % 128 }),
            _ => None,
        }
    } else if str_eq(kind, "program") {
        match number {
            Some(n) => Some(TrackMessage::ProgramChange { program: n % 128 }),
            None => None,
        }
    } else if str_eq(kind, "pitchbend") {
        match bend {
            Some(b) => Some(TrackMessage::PitchBend { bend: b % 0x4000 }),
            None => None,
        }
    } else {
        None
    }
}

/// The channel of an event to be written: channels count from 1 in scripts and from 0 in
/// files; no channel, or channel 0, is the first; only the low 4 bits are kept.
pub fn write_channel(channel: Option<u8>) -> (c: u8)
    ensures
        c == match channel {
            Some(n) => (if n == 0 { 0 } else { n - 1 }) % 16,
            None => 0,
        },
{
    match channel {
        Some(n) => (if n == 0 { 0 } else { n - 1 }) % 16,
        None => 0,
    }
}

/// The kind under which `midi_read` reports a message: a note-on at velocity 0 is a
/// note-off.
pub open spec fn read_kind_of(m: TrackMessage) -> Seq<char> {
    match m {
        TrackMessage::NoteOn { vel, .. } => if vel == 0 { "note_off"@ } else { "note_on"@ },
        TrackMessage::NoteOff { .. } => "note_off"@,
        TrackMessage::Controller { .. } => "cc"@,
        TrackMessage::ProgramChange { .. } => "program"@,
        TrackMessage::PitchBend { .. } => "pitchbend"@,
    }
}

/// The kind under which a message read from a file is reported.
pub fn read_kind(m: &TrackMessage) -> (s: String)
    ensures
        s@ == read_kind_of(*m),
{
    match m {
        TrackMessage::NoteOn { vel, .. } => if *vel == 0 { String::from_str("note_off") } else { String::from_str("note_on") },
        TrackMessage::NoteOff { .. } => String::from_str("note_off"),
        TrackMessage::Controller { .. } => String::from_str("cc"),
        TrackMessage::ProgramChange { .. } => String::from_str("program"),
        TrackMessage::PitchBend { .. } => String::from_str("pitchbend"),
    }
}


// ---------------------------------------------------------------------------
// Reading standard MIDI files
// ---------------------------------------------------------------------------

/// How a file counts time: ticks per quarter note, or SMPTE frames per second (24, 25, 29
/// for 29.97 drop-frame, or 30) and ticks per frame.
#[derive(Clone, Copy, Debug, PartialEq, Eq, Structural)]
pub enum SmfTiming {
    Metrical(u16),
    Timecode(u8, u8),
}

/// An event of a track as the file holds it: its delta time; the bytes of its channel
/// message (status byte, then data bytes), empty for meta and escape events; and its tempo in
/// microseconds per quarter note when it is a tempo meta event.
pub struct SmfEvent {
    pub delta: u32,
    pub live: Vec<u8>,
    pub tempo: Option<u32>,
}

/// An event of a track, as values.
pub open spec fn smf_event_view(e: SmfEvent) -> (u32, Seq<u8>, Option<u32>) {
    (e.delta, e.live@, e.tempo)
}

/// The tracks of a file, as values.
pub open spec fn smf_tracks_view(ts: Seq<Vec<SmfEvent>>) -> Seq<Seq<(u32, Seq<u8>, Option<u32>)>> {
    ts.map_values(|t: Vec<SmfEvent>| t@.map_values(|e: SmfEvent| smf_event_view(e)))
}

/// A parse result, as values.
pub open spec fn smf_result_view(r: Result<(SmfTiming, Vec<Vec<SmfEvent>>), String>)
    -> Result<(SmfTiming, Seq<Seq<(u32, Seq<u8>, Option<u32>)>>), Seq<char>> {
    match r {
        Ok((t, v)) => Ok((t, smf_tracks_view(v@))),
        Err(e) => Err(e@),
    }
}

/// What midly's `Smf::parse` makes of the bytes of a file: its timing and the events of
/// each track (see `SmfEvent`), or its error message.
pub uninterp spec fn smf_events(data: Seq<u8>) -> Result<(SmfTiming, Seq<Seq<(u32, Seq<u8>, Option<u32>)>>), Seq<char>>;

/// Calls `midly::Smf::parse` on the bytes of a file and takes each event apart: its delta
/// time, the bytes that `LiveEvent::write_std` writes for it when `as_live_event` gives one
/// (status byte, then data bytes; none for meta and escape events), and the microseconds of a
/// tempo meta event. The result is named `smf_events` of the bytes; the error is midly's
/// message.
#[verifier::external_body]
fn parse_smf(data: &[u8]) -> (r: Result<(SmfTiming, Vec<Vec<SmfEvent>>), String>)
    ensures
        smf_result_view(r) == smf_events(data@),
{
    let smf = Smf::parse(data).map_err(|e| e.to_string())?;
    Ok((match smf.header.timing {
        Metrical(t) => SmfTiming::Metrical(t.as_int()),
        Timecode(fps, sub) => SmfTiming::Timecode(fps.as_int(), sub),
    }, smf.tracks.iter().map(|t| t.iter().map(|e| SmfEvent {
        delta: e.delta.as_int(),
        live: e.kind.as_live_event().map_or(vec![], |l| { let mut b = vec![]; let _ = l.write_std(&mut b); b }),
        tempo: match e.kind { Meta(Tempo(us)) => Some(us.as_int()), _ => None },
    }).collect()).collect()))
}

/// An event that `midi_read` reports: a channel message on a channel counted from 1, or a
/// tempo change in microseconds per quarter note.
#[derive(Clone, Copy, Debug, PartialEq, Eq, Structural)]
pub enum ReadEvent {
    Message { channel: u8, message: TrackMessage },
    Tempo { micros: u32 },
}

/// An event that `midi_read` reports, with its absolute tick and its track.
#[derive(Clone, Copy, Debug, PartialEq, Eq, Structural)]
pub struct ReadItem {
    pub tick: u64,
    pub track: usize,
    pub event: ReadEvent,
}

/// The channel message written as `b` (status byte, then data bytes), with its channel from 0:
/// note-off, note-on, controller change, program change and pitch bend (its 14 bits from the
/// low and then the high data byte). Other bytes, aftertouch among them, give none.
pub open spec fn decode_message(b: Seq<u8>) -> Option<(u8, TrackMessage)> {
    if b.len() < 2 || b[0] < 0x80 || b[0] >= 0xF0 {
        None
    } else {
        let kind = b[0] / 16;
        let ch = b[0] % 16;
        if kind == 8 && b.len() >= 3 {
            Some((ch, TrackMessage::NoteOff { key: b[1], vel: b[2] }))
        } else if kind == 9 && b.len() >= 3 {
            Some((ch, TrackMessage::NoteOn { key: b[1], vel: b[2] }))
        } else if kind == 11 && b.len() >= 3 {
            Some((ch, TrackMessage::Controller { controller: b[1], value: b[2] }))
        } else if kind == 12 {
            Some((ch, TrackMessage::ProgramChange { program: b[1] }))
        } else if kind == 14 && b.len() >= 3 {
            Some((ch, TrackMessage::PitchBend { bend: (b[1] + 128 * b[2]) as u16 }))
        } else {
            None
        }
    }
}

/// What `midi_read` reports of an event: its channel message, with the channel counted from
/// 1, or else its tempo change; none for other events.
pub open spec fn event_read(e: (u32, Seq<u8>, Option<u32>)) -> Option<ReadEvent> {
    match decode_message(e.1) {
        Some((ch, m)) => Some(ReadEvent::Message { channel: (ch + 1) as u8, message: m }),
        None => match e.2 {
            Some(us) => Some(ReadEvent::Tempo { micros: us }),
            None => None,
        },
    }
}

/// The delta times of a track.
pub open spec fn event_deltas(evs: Seq<(u32, Seq<u8>, Option<u32>)>) -> Seq<u32> {
    evs.map_values(|e: (u32, Seq<u8>, Option<u32>)| e.0)
}

/// The reported events among the first `k` events of track `track`, at the ticks `ticks`.
pub open spec fn track_items(track: usize, evs: Seq<(u32, Seq<u8>, Option<u32>)>, ticks: Seq<u64>, k: nat) -> Seq<ReadItem>
    decreases k,
{
    if k == 0 {
        Seq::empty()
    } else {
        let before = track_items(track, evs, ticks, (k - 1) as nat);
        match event_read(evs[k - 1]) {
            Some(ev) => before.push(ReadItem { tick: ticks[k - 1], track, event: ev }),
            None => before,
        }
    }
}

/// The reported events of the tracks, track by track, each in its order, at absolute ticks.
pub open spec fn read_items(tracks: Seq<Seq<(u32, Seq<u8>, Option<u32>)>>) -> Seq<ReadItem>
    decreases tracks.len(),
{
    if tracks.len() == 0 {
        Seq::empty()
    } else {
        let t = tracks.last();
        read_items(tracks.drop_last())
            + track_items((tracks.len() - 1) as usize, t, running_ticks(event_deltas(t)), t.len())
    }
}

/// Whether the delta times of every track add up to a tick that fits.
pub open spec fn ticks_fit(tracks: Seq<Seq<(u32, Seq<u8>, Option<u32>)>>) -> bool {
    forall|i: int| 0 <= i < tracks.len() ==> delta_sum(event_deltas(#[trigger] tracks[i])) <= u64::MAX
}

fn decode_event(e: &SmfEvent) -> (r: Option<ReadEvent>)
    ensures
        r == event_read(smf_event_view(*e)),
{
    let b = &e.live;
    if b.len() >= 2 && b[0] >= 0x80 && b[0] < 0xF0 {
        let kind = b[0] / 16;
        let ch = b[0] % 16;
        let m = if kind == 8 && b.len() >= 3 {
            Some(TrackMessage::NoteOff { key: b[1], vel: b[2] })
        } else if kind == 9 && b.len() >= 3 {
            Some(TrackMessage::NoteOn { key: b[1], vel: b[2] })
        } else if kind == 11 && b.len() >= 3 {
            Some(TrackMessage::Controller { controller: b[1], value: b[2] })
        } else if kind == 12 {
            Some(TrackMessage::ProgramChange { program: b[1] })
        } else if kind == 14 && b.len() >= 3 {
            Some(TrackMessage::PitchBend { bend: b[1] as u16 + 128 * (b[2] as u16) })
        } else {
            None
        };
        if let Some(message) = m {
            return Some(ReadEvent::Message { channel: ch + 1, message });
        }
    }
    match e.tempo {
        Some(us) => Some(ReadEvent::Tempo { micros: us }),
        None => None,
    }
}

/// The events that `midi_read` reports for parsed tracks: on each track in turn, the channel
/// messages (channels counted from 1) and tempo changes, in order, at their absolute ticks.
pub fn read_events(tracks: &Vec<Vec<SmfEvent>>) -> (r: Vec<ReadItem>)
    requires
        ticks_fit(smf_tracks_view(tracks@)),
    ensures
        r@ == read_items(smf_tracks_view(tracks@)),
{
    let ghost tv = smf_tracks_view(tracks@);
    let mut out: Vec<ReadItem> = Vec::new();
    let mut ti: usize = 0;
    while ti < tracks.len()
        invariant
            ti <= tracks@.len(),
            tv == smf_tracks_view(tracks@),
            ticks_fit(tv),
            out@ == read_items(tv.take(ti as int)),
        decreases tracks.len() - ti,
    {
        let track = &tracks[ti];
        let ghost evs = tv[ti as int];
        assert(evs == track@.map_values(|e: SmfEvent| smf_event_view(e)));
        let mut deltas: Vec<u32> = Vec::new();
        let mut k: usize = 0;
        while k < track.len()
            invariant
                k <= track@.len(),
                evs == track@.map_values(|e: SmfEvent| smf_event_view(e)),
                deltas@ == event_deltas(evs).take(k as int),
            decreases track.len() - k,
        {
            deltas.push(track[k].delta);
            k += 1;
            assert(deltas@ =~= event_deltas(evs).take(k as int));
        }
        assert(deltas@ =~= event_deltas(evs));
        assert(ticks_fit(tv));
        assert(delta_sum(event_deltas(tv[ti as int])) <= u64::MAX);
        let ticks = absolute_ticks(&deltas);
        proof { lemma_running_ticks(deltas@); }
        let ghost base = out@;
        let mut k: usize = 0;
        while k < track.len()
            invariant
                k <= track@.len(),
                ti < tracks@.len(),
                evs == track@.map_values(|e: SmfEvent| smf_event_view(e)),
                ticks@ == running_ticks(event_deltas(evs)),
                ticks@.len() == track@.len(),
                out@ == base + track_items(ti, evs, ticks@, k as nat),
            decreases track.len() - k,
        {
            let ev = decode_event(&track[k]);
            assert(smf_event_view(track@[k as int]) == evs[k as int]);
            match ev {
                Some(e) => {
                    out.push(ReadItem { tick: ticks[k], track: ti, event: e });
                },
                None => {},
            }
            k += 1;
            assert(out@ =~= base + track_items(ti, evs, ticks@, k as nat));
        }
        proof {
            let tt = tv.take(ti + 1);
            assert(tt.drop_last() =~= tv.take(ti as int));
            assert(tt.last() == evs);
            assert(tt.len() - 1 == ti);
        }
        ti += 1;
    }
    assert(tv.take(tracks@.len() as int) =~= tv);
    out
}

/// The error message of a file that does not parse.
pub open spec fn midi_parse_error(e: Seq<char>) -> Seq<char> {
    "midi_read(): failed to parse MIDI file: "@ + e
}

/// The error message of a track whose delta times add up past the largest tick.
pub open spec fn midi_ticks_error() -> Seq<char> {
    "midi_read(): a track's delta times add up past the largest tick"@
}

/// `midi_read` on the bytes of a file: its timing and the events it reports (see
/// `read_events`); an error when the bytes do not parse, or when a track's delta times add
/// up past the largest tick.
pub fn midi_read_bytes(data: &[u8]) -> (r: Result<(SmfTiming, Vec<ReadItem>), crate::error::AudionError>)
    ensures
        match smf_events(data@) {
            Err(e) => crate::sequences::is_runtime_error(r, midi_parse_error(e)),
            Ok((t, tracks)) => if ticks_fit(tracks) {
                r matches Ok((t2, items)) && t2 == t && items@ == read_items(tracks)
            } else {
                crate::sequences::is_runtime_error(r, midi_ticks_error())
            },
        },
{
    let parsed = parse_smf(data);
    match parsed {
        Err(e) => {
            let mut msg = String::from_str("midi_read(): failed to parse MIDI file: ");
            msg.append(e.as_str());
            Err(crate::error::AudionError::RuntimeError { msg })
        },
        Ok((timing, tracks)) => {
            let ghost tv = smf_tracks_view(tracks@);
            let mut ti: usize = 0;
            while ti < tracks.len()
                invariant
                    ti <= tracks@.len(),
                    tv == smf_tracks_view(tracks@),
                    smf_events(data@) == Ok::<(SmfTiming, Seq<Seq<(u32, Seq<u8>, Option<u32>)>>), Seq<char>>((timing, tv)),
                    forall|i: int| 0 <= i < ti ==> delta_sum(event_deltas(#[trigger] tv[i])) <= u64::MAX,
                decreases tracks.len() - ti,
            {
                let track = &tracks[ti];
                let ghost evs = tv[ti as int];
                assert(evs == track@.map_values(|e: SmfEvent| smf_event_view(e)));
                let mut sum: u64 = 0;
                let mut k: usize = 0;
                while k < track.len()
                    invariant
                        k <= track@.len(),
                        evs == track@.map_values(|e: SmfEvent| smf_event_view(e)),
                        sum == delta_sum(event_deltas(evs).take(k as int)),
                        ti < tv.len(),
                        tv[ti as int] == evs,
                        smf_events(data@) == Ok::<(SmfTiming, Seq<Seq<(u32, Seq<u8>, Option<u32>)>>), Seq<char>>((timing, tv)),
                    decreases track.len() - k,
                {
                    let d = track[k].delta;
                    proof {
                        let ds = event_deltas(evs);
                        assert(ds.take(k + 1).drop_last() =~= ds.take(k as int));
                        assert(ds.take(k + 1).last() == d);
                    }
                    if sum > u64::MAX - (d as u64) {
                        proof {
                            lemma_delta_sum_prefix(event_deltas(evs), (k + 1) as nat);
                            assert(delta_sum(event_deltas(tv[ti as int])) > u64::MAX);
                            assert(!ticks_fit(tv));
                        }
                        return Err(crate::error::AudionError::RuntimeError {
                            msg: String::from_str("midi_read(): a track's delta times add up past the largest tick"),
                        });
                    }
                    sum = sum + d as u64;
                    k += 1;
                }
                assert(event_deltas(evs).take(k as int) =~= event_deltas(evs));
                ti += 1;
            }
            let items = read_events(&tracks);
            Ok((timing, items))
        },
    }
}


// ---------------------------------------------------------------------------
// Writing standard MIDI files
// ---------------------------------------------------------------------------

/// The bytes of a channel message on channel `ch` (0 to 15, low 4 bits kept): the status byte,
/// then the data bytes, each of 7 bits (a pitch bend's 14 bits low byte first).
pub open spec fn message_bytes(ch: u8, m: TrackMessage) -> Seq<u8> {
    let c = ch % 16;
    match m {
        TrackMessage::NoteOff { key, vel } => seq![(0x80 + c) as u8, key % 128, vel % 128],
        TrackMessage::NoteOn { key, vel } => seq![(0x90 + c) as u8, key % 128, vel % 128],
        TrackMessage::Controller { controller, value } => seq![(0xB0 + c) as u8, controller % 128, value % 128],
        TrackMessage::ProgramChange { program } => seq![(0xC0 + c) as u8, program % 128],
        TrackMessage::PitchBend { bend } => seq![(0xE0 + c) as u8, ((bend % 16384) % 128) as u8, ((bend % 16384) / 128) as u8],
    }
}

/// A channel message whose data fit MIDI's 7-bit data bytes (a pitch bend: 14 bits).
pub open spec fn message_fits(m: TrackMessage) -> bool {
    match m {
        TrackMessage::NoteOff { key, vel } => key < 128 && vel < 128,
        TrackMessage::NoteOn { key, vel } => key < 128 && vel < 128,
        TrackMessage::Controller { controller, value } => controller < 128 && value < 128,
        TrackMessage::ProgramChange { program } => program < 128,
        TrackMessage::PitchBend { bend } => bend < 16384,
    }
}

/// The bytes written for a message are MIDI's: a status byte of the message's kind (0x8 note
/// off, 0x9 note on, 0xB controller, 0xC program change, 0xE pitch bend) and the channel
/// `ch % 16`, then its 7-bit data bytes in order; a pitch bend's 14-bit value is written least
/// significant 7 bits first.
pub proof fn law_message_wire_format(ch: u8, m: TrackMessage)
    requires
        message_fits(m),
    ensures
        ({
            let b = message_bytes(ch, m);
            &&& b[0] % 16 == ch % 16
            &&& forall|x: int| 1 <= x < b.len() ==> b[x] < 128
            &&& match m {
                TrackMessage::NoteOff { key, vel } => b.len() == 3 && b[0] / 16 == 8 && b[1] == key && b[2] == vel,
                TrackMessage::NoteOn { key, vel } => b.len() == 3 && b[0] / 16 == 9 && b[1] == key && b[2] == vel,
                TrackMessage::Controller { controller, value } =>
                    b.len() == 3 && b[0] / 16 == 11 && b[1] == controller && b[2] == value,
                TrackMessage::ProgramChange { program } => b.len() == 2 && b[0] / 16 == 12 && b[1] == program,
                TrackMessage::PitchBend { bend } => b.len() == 3 && b[0] / 16 == 14 && b[1] + 128 * b[2] == bend,
            }
        }),
{
    let c = ch % 16;
    assert(((0x80 + c) as u8) / 16 == 8 && ((0x80 + c) as u8) % 16 == c);
    assert(((0x90 + c) as u8) / 16 == 9 && ((0x90 + c) as u8) % 16 == c);
    assert(((0xB0 + c) as u8) / 16 == 11 && ((0xB0 + c) as u8) % 16 == c);
    assert(((0xC0 + c) as u8) / 16 == 12 && ((0xC0 + c) as u8) % 16 == c);
    assert(((0xE0 + c) as u8) / 16 == 14 && ((0xE0 + c) as u8) % 16 == c);
}

/// What is written is read back: the bytes written for a message on channel `ch` decode to
/// that message on channel `ch % 16`, for every message whose data fit in MIDI's data bytes.
/// (A pitch bend is written low 7 bits first, then the high 7 bits.)
pub proof fn law_message_round_trip(ch: u8, m: TrackMessage)
    requires
        message_fits(m),
    ensures
        decode_message(message_bytes(ch, m)) == Some((ch % 16, m)),
{
    let c = ch % 16;
    match m {
        TrackMessage::PitchBend { bend } => {
            let lo = ((bend % 16384) % 128) as u8;
            let hi = ((bend % 16384) / 128) as u8;
            assert(bend % 16384 == bend);
            assert(lo + 128 * hi == bend);
            assert(((0xE0 + c) as u8) / 16 == 14 && ((0xE0 + c) as u8) % 16 == c);
        },
        TrackMessage::NoteOff { key, vel } => {
            assert(((0x80 + c) as u8) / 16 == 8 && ((0x80 + c) as u8) % 16 == c);
        },
        TrackMessage::NoteOn { key, vel } => {
            assert(((0x90 + c) as u8) / 16 == 9 && ((0x90 + c) as u8) % 16 == c);
        },
        TrackMessage::Controller { controller, value } => {
            assert(((0xB0 + c) as u8) / 16 == 11 && ((0xB0 + c) as u8) % 16 == c);
        },
        TrackMessage::ProgramChange { program } => {
            assert(((0xC0 + c) as u8) / 16 == 12 && ((0xC0 + c) as u8) % 16 == c);
        },
    }
}

/// The bytes of a channel message (see `message_bytes`).
pub fn write_message_bytes(ch: u8, m: TrackMessage) -> (b: Vec<u8>)
    ensures
        b@ == message_bytes(ch, m),
{
    let c = ch % 16;
    let mut b: Vec<u8> = Vec::new();
    match m {
        TrackMessage::NoteOff { key, vel } => { b.push(0x80 + c); b.push(key % 128); b.push(vel % 128); },
        TrackMessage::NoteOn { key, vel } => { b.push(0x90 + c); b.push(key % 128); b.push(vel % 128); },
        TrackMessage::Controller { controller, value } => { b.push(0xB0 + c); b.push(controller % 128); b.push(value % 128); },
        TrackMessage::ProgramChange { program } => { b.push(0xC0 + c); b.push(program % 128); },
        TrackMessage::PitchBend { bend } => {
            b.push(0xE0 + c);
            b.push(((bend % 16384) % 128) as u8);
            b.push(((bend % 16384) / 128) as u8);
        },
    }
    assert(b@ =~= message_bytes(ch, m));
    b
}

/// Events as values: delta time and message bytes.
pub open spec fn timed_bytes_view(v: Seq<(u32, Vec<u8>)>) -> Seq<(u32, Seq<u8>)> {
    v.map_values(|e: (u32, Vec<u8>)| (e.0, e.1@))
}

/// A byte result, as values.
pub open spec fn bytes_result_view(r: Result<Vec<u8>, String>) -> Result<Seq<u8>, Seq<char>> {
    match r {
        Ok(b) => Ok(b@),
        Err(e) => Err(e@),
    }
}

/// What midly writes for a single-track file at `ppqn` ticks per quarter note whose track
/// holds the channel messages `events` (delta time and message bytes) and then the end of
/// the track, or its error message.
pub uninterp spec fn smf_written(ppqn: u16, events: Seq<(u32, Seq<u8>)>) -> Result<Seq<u8>, Seq<char>>;

/// Reads each event's bytes with `midly::live::LiveEvent::parse`, turns it into a track event
/// (`as_track_event`) after its delta time, ends the track with an end-of-track meta event,
/// and writes the single-track file at `ppqn` ticks per quarter note with `Smf::write_std`.
/// The result is named `smf_written` of the arguments; the error is midly's message.
#[verifier::external_body]
fn encode_smf(ppqn: u16, events: &Vec<(u32, Vec<u8>)>) -> (r: Result<Vec<u8>, String>)
    ensures
        bytes_result_view(r) == smf_written(ppqn, timed_bytes_view(events@)),
{
    let arena = Arena::new();
    let mut track = Vec::new();
    for (d, b) in events.iter() {
        let kind = LiveEvent::parse(b).map_err(|e| e.to_string())?.as_track_event(&arena);
        track.push(SmfTrackEvent { delta: (*d).into(), kind });
    }
    track.push(SmfTrackEvent { delta: 0.into(), kind: Meta(EndOfTrack) });
    let smf = Smf { header: Header::new(Format::SingleTrack, Metrical(ppqn.into())), tracks: vec![track] };
    let mut buf = Vec::new();
    smf.write_std(&mut buf).map_err(|e| e.to_string())?;
    Ok(buf)
}

/// The tick-ordered track of the messages, as delta times and message bytes.
pub open spec fn track_bytes(events: Seq<TimedMessage>) -> Seq<(u32, Seq<u8>)> {
    track_of(by_tick(events)).map_values(|e: TrackEvent| (e.delta, message_bytes(e.channel, e.message)))
}

/// The bytes of the single-track file (480 ticks per quarter note) that `midi_write` writes
/// for the messages: in tick order, those at one tick in the order given, each after its delta
/// time; or midly's error message.
pub fn midi_file_bytes(events: Vec<TimedMessage>) -> (r: Result<Vec<u8>, String>)
    ensures
        bytes_result_view(r) == smf_written(480, track_bytes(events@)),
{
    let ghost ev = events@;
    let track = track_events(events);
    let mut list: Vec<(u32, Vec<u8>)> = Vec::new();
    let mut i: usize = 0;
    while i < track.len()
        invariant
            i <= track@.len(),
            track@ == track_of(by_tick(ev)),
            timed_bytes_view(list@) == track_bytes(ev).take(i as int),
        decreases track.len() - i,
    {
        let e = track[i];
        let b = write_message_bytes(e.channel, e.message);
        assert(track_bytes(ev).len() == track@.len());
        assert(track_bytes(ev)[i as int] == (e.delta, message_bytes(e.channel, e.message)));
        let ghost before = list@;
        list.push((e.delta, b));
        assert(list@ == before.push((e.delta, b)));
        proof {
            let lv = timed_bytes_view(list@);
            let want = track_bytes(ev).take(i + 1);
            assert(timed_bytes_view(before).len() == i);
            assert(before.len() == i);
            assert(list@.len() == i + 1);
            assert(lv.len() == i + 1);
            assert(want.len() == i + 1);
            assert forall|k: int| 0 <= k < lv.len() implies lv[k] == want[k] by {
                if k < i {
                    assert(lv[k] == timed_bytes_view(before)[k]);
                    assert(timed_bytes_view(before)[k] == track_bytes(ev).take(i as int)[k]);
                } else {
                    assert(list@[k] == (e.delta, b));
                    assert(lv[k] == (list@[k].0, list@[k].1@));
                }
            }
            assert(lv =~= want);
        }
        i += 1;
    }
    assert(track_bytes(ev).take(track@.len() as int) =~= track_bytes(ev));
    encode_smf(480, &list)
}

} // verus!
