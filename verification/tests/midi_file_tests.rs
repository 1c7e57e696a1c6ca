use audion::error::AudionError;
use audion::midi_file::{midi_file_bytes, midi_read_bytes, ReadEvent, ReadItem, SmfTiming};
use midly::num::{u14, u15, u24, u28, u4, u7};
use midly::{Format, Header, MetaMessage, MidiMessage, PitchBend, Smf, Timing, TrackEventKind};
use audion::midi_file::{
    absolute_ticks, read_kind, track_events, write_channel, write_message, TimedMessage, TrackEvent, TrackMessage,
};

fn at(tick: u64, key: u8) -> TimedMessage {
    TimedMessage { tick, channel: 0, message: TrackMessage::NoteOn { key, vel: 100 } }
}

#[test]
fn events_go_in_tick_order_keeping_ties_in_order() {
    let out = track_events(vec![at(480, 1), at(0, 2), at(480, 3), at(240, 4), at(0, 5)]);
    let keys: Vec<u8> = out
        .iter()
        .map(|e| match e.message {
            TrackMessage::NoteOn { key, .. } => key,
            _ => 0,
        })
        .collect();
    assert_eq!(keys, vec![2, 5, 4, 1, 3]);
    let deltas: Vec<u32> = out.iter().map(|e| e.delta).collect();
    assert_eq!(deltas, vec![0, 0, 240, 240, 0]);
}

#[test]
fn delta_times_are_capped_and_cut_to_28_bits() {
    let out = track_events(vec![at(0x1000_0005, 1), at(u64::MAX, 2)]);
    assert_eq!(out[0].delta, 5);
    assert_eq!(out[1].delta, 0x0FFF_FFFF);
    assert_eq!(out[1], TrackEvent { delta: 0x0FFF_FFFF, channel: 0, message: TrackMessage::NoteOn { key: 2, vel: 100 } });
}

#[test]
fn read_ticks_are_running_sums() {
    assert_eq!(absolute_ticks(&[0, 10, 0, 5]), vec![0, 10, 10, 15]);
    assert_eq!(absolute_ticks(&[]), Vec::<u64>::new());
}

#[test]
fn written_ticks_read_back() {
    let events = vec![at(960, 1), at(0, 2), at(480, 3)];
    let deltas: Vec<u32> = track_events(events).iter().map(|e| e.delta).collect();
    assert_eq!(absolute_ticks(&deltas), vec![0, 480, 960]);
}

#[test]
fn write_message_rules() {
    assert_eq!(write_message("note_on", Some(200), None, None), Some(TrackMessage::NoteOn { key: 72, vel: 64 }));
    assert_eq!(write_message("note_off", Some(60), None, None), Some(TrackMessage::NoteOff { key: 60, vel: 0 }));
    assert_eq!(write_message("note_on", None, Some(3), None), None);
    assert_eq!(write_message("cc", Some(7), Some(255), None), Some(TrackMessage::Controller { controller: 7, value: 127 }));
    assert_eq!(write_message("cc", Some(7), None, None), None);
    assert_eq!(write_message("program", Some(130), None, None), Some(TrackMessage::ProgramChange { program: 2 }));
    assert_eq!(write_message("pitchbend", None, None, Some(0xFFFF)), Some(TrackMessage::PitchBend { bend: 0x3FFF }));
    assert_eq!(write_message("tempo", Some(1), Some(1), Some(1)), None);
}

#[test]
fn write_channel_counts_from_one() {
    assert_eq!(write_channel(Some(1)), 0);
    assert_eq!(write_channel(Some(16)), 15);
    assert_eq!(write_channel(Some(17)), 0);
    assert_eq!(write_channel(Some(0)), 0);
    assert_eq!(write_channel(None), 0);
}

#[test]
fn read_kind_reports_silent_note_ons_as_note_offs() {
    assert_eq!(read_kind(&TrackMessage::NoteOn { key: 1, vel: 0 }), "note_off");
    assert_eq!(read_kind(&TrackMessage::NoteOn { key: 1, vel: 1 }), "note_on");
    assert_eq!(read_kind(&TrackMessage::PitchBend { bend: 0 }), "pitchbend");
    assert_eq!(read_kind(&TrackMessage::Controller { controller: 1, value: 1 }), "cc");
}

#[test]
fn midi_read_reports_channel_and_tempo_events() {
    let ev = |delta: u32, kind: TrackEventKind<'static>| midly::TrackEvent { delta: u28::from(delta), kind };
    let midi = |ch: u8, message: MidiMessage| TrackEventKind::Midi { channel: u4::from(ch), message };
    let t0 = vec![
        ev(0, TrackEventKind::Meta(MetaMessage::Tempo(u24::from(500_000)))),
        ev(10, midi(2, MidiMessage::NoteOn { key: u7::from(60), vel: u7::from(100) })),
        ev(5, midi(2, MidiMessage::Aftertouch { key: u7::from(60), vel: u7::from(3) })),
        ev(20, midi(2, MidiMessage::NoteOff { key: u7::from(60), vel: u7::from(0) })),
        ev(0, TrackEventKind::Meta(MetaMessage::EndOfTrack)),
    ];
    let t1 = vec![
        ev(7, midi(0, MidiMessage::PitchBend { bend: PitchBend(u14::from(0x2100)) })),
        ev(1, midi(15, MidiMessage::Controller { controller: u7::from(7), value: u7::from(99) })),
        ev(1, midi(9, MidiMessage::ProgramChange { program: u7::from(5) })),
        ev(0, TrackEventKind::Meta(MetaMessage::EndOfTrack)),
    ];
    let smf = Smf { header: Header { format: Format::Parallel, timing: Timing::Metrical(u15::from(96)) }, tracks: vec![t0, t1] };
    let mut bytes = Vec::new();
    smf.write_std(&mut bytes).unwrap();
    let (timing, items) = midi_read_bytes(&bytes).unwrap();
    assert_eq!(timing, SmfTiming::Metrical(96));
    let want = vec![
        ReadItem { tick: 0, track: 0, event: ReadEvent::Tempo { micros: 500_000 } },
        ReadItem { tick: 10, track: 0, event: ReadEvent::Message { channel: 3, message: TrackMessage::NoteOn { key: 60, vel: 100 } } },
        ReadItem { tick: 35, track: 0, event: ReadEvent::Message { channel: 3, message: TrackMessage::NoteOff { key: 60, vel: 0 } } },
        ReadItem { tick: 7, track: 1, event: ReadEvent::Message { channel: 1, message: TrackMessage::PitchBend { bend: 0x2100 } } },
        ReadItem { tick: 8, track: 1, event: ReadEvent::Message { channel: 16, message: TrackMessage::Controller { controller: 7, value: 99 } } },
        ReadItem { tick: 9, track: 1, event: ReadEvent::Message { channel: 10, message: TrackMessage::ProgramChange { program: 5 } } },
    ];
    assert_eq!(items, want);
    match midi_read_bytes(b"not a midi file") {
        Err(AudionError::RuntimeError { msg }) => assert!(msg.starts_with("midi_read(): failed to parse MIDI file: ")),
        _ => panic!("expected a parse error"),
    }
}

#[test]
fn midi_file_bytes_read_back_in_tick_order() {
    let events = vec![
        TimedMessage { tick: 480, channel: 1, message: TrackMessage::NoteOff { key: 64, vel: 0 } },
        TimedMessage { tick: 0, channel: 1, message: TrackMessage::NoteOn { key: 64, vel: 90 } },
        TimedMessage { tick: 240, channel: 9, message: TrackMessage::Controller { controller: 10, value: 3 } },
    ];
    let bytes = midi_file_bytes(events).unwrap();
    assert_eq!(&bytes[0..4], b"MThd");
    let (timing, items) = midi_read_bytes(&bytes).unwrap();
    assert_eq!(timing, SmfTiming::Metrical(480));
    let want = vec![
        ReadItem { tick: 0, track: 0, event: ReadEvent::Message { channel: 2, message: TrackMessage::NoteOn { key: 64, vel: 90 } } },
        ReadItem { tick: 240, track: 0, event: ReadEvent::Message { channel: 10, message: TrackMessage::Controller { controller: 10, value: 3 } } },
        ReadItem { tick: 480, track: 0, event: ReadEvent::Message { channel: 2, message: TrackMessage::NoteOff { key: 64, vel: 0 } } },
    ];
    assert_eq!(items, want);
}
