use audion::dsp::encoder::encode_synthdef;
use audion::dsp::graph::{GraphBuilderInner, GraphIR};
use audion::dsp::encoder::write_pstring;

#[test]
fn test_pstring_encoding() {
    let mut buf = Vec::new();
    write_pstring(&mut buf, "test").unwrap();
    assert_eq!(buf, vec![4, b't', b'e', b's', b't']);
}

#[test]
fn test_encode_empty_synthdef() {
    let builder = GraphBuilderInner::new();
    let ir = GraphIR::from_builder("empty".to_string(), builder);
    let bytes = encode_synthdef(&ir).unwrap();
    assert_eq!(&bytes[0..4], b"SCgf");
    assert_eq!(bytes[4..8], [0, 0, 0, 2]);
}
