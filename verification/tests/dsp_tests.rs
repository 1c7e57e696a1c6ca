use audion::dsp::encoder::write_pstring;
use audion::dsp::errors::SynthDefError;
use audion::dsp::graph::Rate;

#[test]
fn pstring_appends_after_existing_bytes() {
    let mut buf = vec![9u8];
    write_pstring(&mut buf, "é").unwrap();
    assert_eq!(buf, vec![9, 2, 0xC3, 0xA9]);
}

#[test]
fn pstring_refuses_long_strings() {
    let long = "x".repeat(256);
    let mut buf = vec![1u8];
    match write_pstring(&mut buf, &long) {
        Err(SynthDefError::EncodingError(m)) => assert_eq!(m, format!("string too long for pstring: {}", long)),
        _ => panic!("expected an encoding error"),
    }
    assert_eq!(buf, vec![1u8]);
    let ok = "y".repeat(255);
    let mut buf2 = Vec::new();
    write_pstring(&mut buf2, &ok).unwrap();
    assert_eq!(buf2.len(), 256);
    assert_eq!(buf2[0], 255);
}

#[test]
fn rate_bytes_follow_the_ordering() {
    assert_eq!(Rate::Scalar.as_byte(), 0);
    assert_eq!(Rate::Control.as_byte(), 1);
    assert_eq!(Rate::Audio.as_byte(), 2);
    assert!(Rate::Scalar < Rate::Control && Rate::Control < Rate::Audio);
}

#[test]
fn synthdef_error_messages() {
    assert_eq!(SynthDefError::NoActiveBuilder.message(), "no active graph builder in scope");
    assert_eq!(SynthDefError::EncodingError("x".to_string()).message(), "encoding error: x");
    assert_eq!(SynthDefError::ValidationError("y".to_string()).message(), "validation error: y");
}
