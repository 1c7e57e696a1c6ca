use audion::builtins::{
    builtin_date, date_with_clock, format_date, DateTimeFields,
    builtin_assert,
    scala_pitch_lines,
    builtin_array_to_bytes, builtin_bin, builtin_bytes_get, builtin_bytes_slice, builtin_hex, builtin_oct,
    builtin_hash,
    assert_stats_report, extract_regex_pattern, hash_seed, midi_message_to_event, reset_assert_stats,
    split_args, xorshift64, AssertStats, MidiEvent, BUILTIN_NAMES,
};

#[test]
fn assert_counters_and_report() {
    let mut s = AssertStats::new();
    assert_eq!(assert_stats_report(&s), (None, false));
    s.record(true);
    s.record(true);
    assert_eq!(assert_stats_report(&s), (Some("assert: 2 / 2 passed".to_string()), false));
    s.record(false);
    assert_eq!(assert_stats_report(&s), (Some("assert: 2 passed, 1 failed / 3 total".to_string()), true));
    reset_assert_stats(&mut s);
    assert_eq!((s.pass, s.fail), (0, 0));
}

#[test]
fn split_args_keeps_order() {
    let raw = vec![
        (1, None),
        (2, Some("freq".to_string())),
        (3, None),
        (4, Some("amp".to_string())),
    ];
    let (pos, named) = split_args(raw);
    assert_eq!(pos, vec![1, 3]);
    assert_eq!(named, vec![("freq".to_string(), 2), ("amp".to_string(), 4)]);
}

#[test]
fn xorshift_steps() {
    assert_eq!(xorshift64(1), 1082269761);
    assert_ne!(xorshift64(12345), 0);
    assert_eq!(xorshift64(0), 0);
}

#[test]
fn string_seeds() {
    assert_eq!(hash_seed(""), 14695981039346656037);
    assert_eq!(hash_seed("abc"), 16654208175385433931);
}

#[test]
fn regex_delimiters() {
    assert_eq!(extract_regex_pattern("/a+b/"), Some("a+b".to_string()));
    assert_eq!(extract_regex_pattern("{x|y}"), Some("x|y".to_string()));
    assert_eq!(extract_regex_pattern("%%[0-9]%%"), Some("[0-9]".to_string()));
    assert_eq!(extract_regex_pattern("plain"), None);
    assert_eq!(extract_regex_pattern("/"), None);
    assert_eq!(extract_regex_pattern("%%%"), None);
    assert_eq!(extract_regex_pattern("//"), Some("".to_string()));
}

#[test]
fn builtin_names_are_distinct() {
    let mut v: Vec<&str> = BUILTIN_NAMES.to_vec();
    v.sort();
    v.dedup();
    assert_eq!(v.len(), BUILTIN_NAMES.len());
    assert!(BUILTIN_NAMES.contains(&"array_seq_euclidean"));
}

#[test]
fn midi_note_on_decodes_note_velocity_and_channel() {
    let e = midi_message_to_event(&[0x90, 60, 100]).unwrap();
    assert_eq!(e, MidiEvent::NoteOn { note: 60, vel: 100, channel: 1 });
    assert_eq!(e.name(), "note_on");
}

#[test]
fn midi_missing_velocity_reads_as_zero() {
    assert_eq!(
        midi_message_to_event(&[0x83, 64]),
        Some(MidiEvent::NoteOff { note: 64, vel: 0, channel: 4 })
    );
}

#[test]
fn midi_real_time_messages() {
    assert_eq!(midi_message_to_event(&[0xF8]), Some(MidiEvent::Clock));
    assert_eq!(midi_message_to_event(&[0xFA]), Some(MidiEvent::Start));
    assert_eq!(midi_message_to_event(&[0xFB]), Some(MidiEvent::Continue));
    assert_eq!(midi_message_to_event(&[0xFC]).unwrap().name(), "stop");
}

#[test]
fn midi_control_and_program_change() {
    assert_eq!(
        midi_message_to_event(&[0xBF, 7, 127]),
        Some(MidiEvent::ControlChange { num: 7, value: 127, channel: 16 })
    );
    let p = midi_message_to_event(&[0xC2, 5, 99]).unwrap();
    assert_eq!(p, MidiEvent::ProgramChange { num: 5, channel: 3 });
    assert_eq!(p.name(), "program");
}

#[test]
fn midi_messages_that_are_no_event() {
    assert_eq!(midi_message_to_event(&[]), None);
    assert_eq!(midi_message_to_event(&[0x90]), None);
    assert_eq!(midi_message_to_event(&[0xE0, 0, 64]), None);
}

#[test]
fn hash_md5_of_empty_text() {
    assert_eq!(builtin_hash("md5", "").unwrap(), "d41d8cd98f00b204e9800998ecf8427e");
}

#[test]
fn hash_sha256_of_abc() {
    assert_eq!(
        builtin_hash("sha256", "abc").unwrap(),
        "ba7816bf8f01cfea414140de5dae2223b00361a396177a9cb410ff61f20015ad"
    );
}

#[test]
fn hash_sha512_of_empty_text() {
    assert_eq!(
        builtin_hash("sha512", "").unwrap(),
        "cf83e1357eefb8bdf1542850d66d8007d620e4050b5715dc83f4a921d36ce9ce47d0d13c5d85f2b0ff8318d2877eec2f63b931bd47417a81a538327af927da3e"
    );
}

#[test]
fn hash_md5_of_a_sentence() {
    assert_eq!(builtin_hash("md5", "The quick brown fox jumps over the lazy dog").unwrap(), "9e107d9d372bb6826bd81d3542a419d6");
}

#[test]
fn hash_refuses_unknown_algorithms() {
    match builtin_hash("sha1", "x") {
        Err(audion::error::AudionError::RuntimeError { msg }) => {
            assert_eq!(msg, "hash() unsupported algorithm 'sha1'. Use: md5, sha256, sha512")
        }
        other => panic!("unexpected {:?}", other),
    }
}

#[test]
fn radix_formatting_matches_std() {
    for n in [0u64, 1, 7, 8, 10, 15, 16, 255, 256, 4095, 123456789, u64::MAX] {
        for w in [0usize, 1, 4, 8, 20] {
            assert_eq!(builtin_hex(n, w), format!("{:0>width$x}", n, width = w));
            assert_eq!(builtin_bin(n, w), format!("{:0>width$b}", n, width = w));
            assert_eq!(builtin_oct(n, w), format!("{:0>width$o}", n, width = w));
        }
    }
    assert_eq!(builtin_hex(255, 4), "00ff");
    assert_eq!(builtin_bin(10, 0), "1010");
    assert_eq!(builtin_oct(8, 3), "010");
}

#[test]
fn bytes_get_counts_from_the_end_for_negative_indices() {
    let b = [10u8, 20, 30];
    assert_eq!(builtin_bytes_get(&b, 0), Some(10));
    assert_eq!(builtin_bytes_get(&b, 2), Some(30));
    assert_eq!(builtin_bytes_get(&b, 3), None);
    assert_eq!(builtin_bytes_get(&b, -1), Some(30));
    assert_eq!(builtin_bytes_get(&b, -3), Some(10));
    assert_eq!(builtin_bytes_get(&b, -4), None);
    assert_eq!(builtin_bytes_get(&b, i64::MIN), None);
    assert_eq!(builtin_bytes_get(&[], 0), None);
}

#[test]
fn bytes_slice_clamps_both_ends() {
    let b = [1u8, 2, 3, 4, 5];
    assert_eq!(builtin_bytes_slice(&b, 1, Some(2)), vec![2, 3]);
    assert_eq!(builtin_bytes_slice(&b, 3, None), vec![4, 5]);
    assert_eq!(builtin_bytes_slice(&b, 3, Some(10)), vec![4, 5]);
    assert_eq!(builtin_bytes_slice(&b, 9, Some(1)), Vec::<u8>::new());
    assert_eq!(builtin_bytes_slice(&b, 0, Some(0)), Vec::<u8>::new());
}

#[test]
fn array_to_bytes_clamps_values() {
    assert_eq!(builtin_array_to_bytes(&[-5, 0, 128, 255, 256, 1000]), vec![0, 0, 128, 255, 255, 255]);
}

fn reference_pitch_lines(contents: &str) -> Option<Vec<String>> {
    let lines: Vec<&str> = contents.lines().map(|l| l.trim()).filter(|l| !l.starts_with('!') && !l.is_empty()).collect();
    if lines.len() < 2 {
        return None;
    }
    let n: usize = lines[1].trim().parse().ok()?;
    Some(lines.iter().skip(2).take(n).map(|s| s.to_string()).collect())
}

#[test]
fn scala_file_pitch_lines() {
    let text = "! test.scl\r\n!\r\nTest scale\r\n 3\r\n!\r\n100.0\r\n 3/2   fifth\r\n\r\n2/1\r\n";
    assert_eq!(scala_pitch_lines(text, "t.scl").unwrap(), vec!["100.0", "3/2   fifth", "2/1"]);
    let short = "desc\n+2\n1/1\n";
    assert_eq!(scala_pitch_lines(short, "s.scl").unwrap(), vec!["1/1"]);
    for t in [text, short, "a\n5\nx\ny\nz\nw\nv\nu", "a\n0\nb", "\n\n a \n 1 \n\tb\t"] {
        assert_eq!(scala_pitch_lines(t, "f").ok(), reference_pitch_lines(t), "{:?}", t);
    }
}

#[test]
fn scala_file_errors() {
    match scala_pitch_lines("! only a comment\njust a description\n", "x.scl") {
        Err(audion::error::AudionError::RuntimeError { msg }) => assert_eq!(msg, "mtof(): invalid scala file 'x.scl'"),
        other => panic!("unexpected {:?}", other),
    }
    for bad in ["d\nx\n1/1", "d\n-1\n1/1", "d\n+\n1/1", "d\n99999999999999999999999\n1/1"] {
        match scala_pitch_lines(bad, "y.scl") {
            Err(audion::error::AudionError::RuntimeError { msg }) => {
                assert_eq!(msg, "mtof(): invalid note count in scala file 'y.scl'")
            }
            other => panic!("unexpected {:?}", other),
        }
    }
}

#[test]
fn assert_counts_and_reports_failures() {
    let mut s = AssertStats::new();
    assert_eq!(builtin_assert(&mut s, true, Some("fine"), true), (None, false));
    assert_eq!(builtin_assert(&mut s, false, Some("x must be 1"), false), (Some("assert failed: x must be 1".to_string()), false));
    assert_eq!(builtin_assert(&mut s, false, None, true), (Some("assert failed".to_string()), true));
    assert_eq!((s.pass, s.fail), (1, 2));
    assert_eq!(assert_stats_report(&s), (Some("assert: 1 passed, 2 failed / 3 total".to_string()), true));
}

fn moment(year: i32, hour: u32) -> DateTimeFields {
    DateTimeFields {
        year,
        month: 3,
        day: 7,
        hour,
        minute: 5,
        second: 9,
        nanosecond: 0,
        weekday: 2,
        timestamp: -42,
    }
}

#[test]
fn date_format_letters() {
    let t = moment(2024, 15);
    assert_eq!(format_date("Y-m-d H:i:s", &t), "2024-03-07 15:05:09");
    assert_eq!(format_date("j/n G g A N U", &t), "7/3 15 3 PM 2 -42");
    assert_eq!(format_date("g A", &moment(2024, 0)), "12 AM");
    assert_eq!(format_date("g A", &moment(2024, 12)), "12 PM");
    assert_eq!(format_date("[x]", &t), "[x]");
}

#[test]
fn date_years_outside_four_digits_carry_a_sign() {
    assert_eq!(format_date("Y", &moment(7, 1)), "0007");
    assert_eq!(format_date("Y", &moment(10000, 1)), "+10000");
    assert_eq!(format_date("Y", &moment(-1, 1)), "-0001");
    let mut leap = moment(2016, 23);
    leap.second = 59;
    leap.nanosecond = 1_000_000_000;
    assert_eq!(format_date("s", &leap), "60");
}

#[test]
fn date_of_a_timestamp_matches_chrono() {
    let t = chrono::DateTime::from_timestamp(1_700_000_000, 0).unwrap().with_timezone(&chrono::Local);
    let expected = t.format("%Y-%m-%d %H:%M:%S %u %-d %-m %-H %p %-I").to_string() + " 1700000000";
    assert_eq!(builtin_date("Y-m-d H:i:s N j n G A g U", Some(1_700_000_000)).unwrap(), expected);
    assert_eq!(builtin_date("Y", Some(i64::MAX)), None);
    assert!(builtin_date("Y", Some(8_000_000_000_000)).is_some());
    assert!(builtin_date("Y", Some(-8_000_000_000_000)).is_some());
    assert!(builtin_date("Y", None).is_some());
    assert_eq!(date_with_clock("U", None, None), None);
    assert_eq!(date_with_clock("U", None, Some((1_700_000_000, 5))).unwrap(), "1700000000");
    assert_eq!(date_with_clock("U", Some(42), Some((1_700_000_000, 5))).unwrap(), "42");
}
