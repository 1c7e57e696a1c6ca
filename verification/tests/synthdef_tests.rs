use audion::dsp::ctx::{arg_or, binop, konst, unop, BuildCtx};
use audion::dsp::encoder::encode_synthdef;
use audion::dsp::errors::SynthDefError;
use audion::dsp::graph::{GraphBuilderInner, GraphIR, Input, ParamSpec, Rate, UGenNode};
use audion::dsp::single::count_to_f32_bits;

fn k(v: f32) -> Input {
    Input::Constant(v.to_bits())
}

fn out(node_id: u32, output_index: u32) -> Input {
    Input::Node { node_id, output_index }
}

fn pstr(s: &str) -> Vec<u8> {
    let mut v = vec![s.len() as u8];
    v.extend_from_slice(s.as_bytes());
    v
}

fn be32(x: i32) -> Vec<u8> {
    x.to_be_bytes().to_vec()
}

fn node(name: &str, rate: Rate, inputs: Vec<Input>, num_outputs: u32) -> UGenNode {
    UGenNode { name: name.to_string(), rate, inputs, num_outputs, special_index: 0 }
}

fn sine_graph() -> GraphIR {
    let mut b = GraphBuilderInner::new();
    b.add_param("freq".to_string(), vec![440.0f32.to_bits()]);
    b.create_control_ugen();
    let sin = b.add_node("SinOsc".to_string(), Rate::Audio, vec![out(0, 0), k(0.0)], 1, 0);
    b.add_node("Out".to_string(), Rate::Audio, vec![k(0.0), out(sin, 0)], 0, 0);
    GraphIR::from_builder("sine".to_string(), b)
}

fn validation_message(ir: &GraphIR) -> String {
    match ir.validate() {
        Err(SynthDefError::ValidationError(m)) => m,
        other => panic!("expected a validation error, got {:?}", other),
    }
}

#[test]
fn sine_graph_encodes_to_the_synthdef_layout() {
    let ir = sine_graph();
    assert_eq!(ir.constants, vec![0u32]);
    let bytes = encode_synthdef(&ir).unwrap();
    let mut expected: Vec<u8> = Vec::new();
    expected.extend_from_slice(b"SCgf");
    expected.extend(be32(2));
    expected.extend([0u8, 1]);
    expected.extend(pstr("sine"));
    expected.extend(be32(1));
    expected.extend(be32(0));
    expected.extend(be32(1));
    expected.extend(440.0f32.to_be_bytes());
    expected.extend(be32(1));
    expected.extend(pstr("freq"));
    expected.extend(be32(0));
    expected.extend(be32(3));
    // Control
    expected.extend(pstr("Control"));
    expected.push(1);
    expected.extend(be32(0));
    expected.extend(be32(1));
    expected.extend([0u8, 0]);
    expected.push(1);
    // SinOsc
    expected.extend(pstr("SinOsc"));
    expected.push(2);
    expected.extend(be32(2));
    expected.extend(be32(1));
    expected.extend([0u8, 0]);
    expected.extend(be32(0));
    expected.extend(be32(0));
    expected.extend(be32(-1));
    expected.extend(be32(0));
    expected.push(2);
    // Out
    expected.extend(pstr("Out"));
    expected.push(2);
    expected.extend(be32(2));
    expected.extend(be32(0));
    expected.extend([0u8, 0]);
    expected.extend(be32(-1));
    expected.extend(be32(0));
    expected.extend(be32(1));
    expected.extend(be32(0));
    expected.extend([0u8, 0]);
    assert_eq!(bytes, expected);
}

#[test]
fn special_index_and_negative_values_are_written_in_twos_complement() {
    let mut b = GraphBuilderInner::new();
    b.add_node("BinaryOpUGen".to_string(), Rate::Control, vec![k(-1.5), k(2.0)], 1, -2);
    let ir = GraphIR::from_builder("op".to_string(), b);
    assert_eq!(ir.constants, vec![(-1.5f32).to_bits(), 2.0f32.to_bits()]);
    let bytes = encode_synthdef(&ir).unwrap();
    let tail = &bytes[bytes.len() - 2 - 1 - 16 - 2..];
    assert_eq!(&tail[0..2], &[0xFF, 0xFE]);
    assert_eq!(&tail[2..10], &[0xFF, 0xFF, 0xFF, 0xFF, 0, 0, 0, 0]);
    assert_eq!(&tail[10..18], &[0xFF, 0xFF, 0xFF, 0xFF, 0, 0, 0, 1]);
    assert_eq!(tail[18], 1);
    assert_eq!(&tail[19..21], &[0, 0]);
}

#[test]
fn constants_are_collected_once_in_order_of_use() {
    let mut b = GraphBuilderInner::new();
    b.add_node("A".to_string(), Rate::Scalar, vec![k(3.0), k(1.0), k(3.0)], 1, 0);
    b.add_node("B".to_string(), Rate::Scalar, vec![out(0, 0), k(1.0), k(7.0)], 1, 0);
    let ir = GraphIR::from_builder("c".to_string(), b);
    assert_eq!(ir.constants, vec![3.0f32.to_bits(), 1.0f32.to_bits(), 7.0f32.to_bits()]);
}

#[test]
fn builder_constants_are_deduplicated() {
    let mut b = GraphBuilderInner::new();
    assert_eq!(b.add_constant(5.0f32.to_bits()), 0);
    assert_eq!(b.add_constant(6.0f32.to_bits()), 1);
    assert_eq!(b.add_constant(5.0f32.to_bits()), 0);
    assert_eq!(b.constants.len(), 2);
}

#[test]
fn params_take_consecutive_slots_and_names_are_bound() {
    let mut b = GraphBuilderInner::new();
    assert_eq!(b.add_param("a".to_string(), vec![0, 0]), 0);
    assert_eq!(b.add_param("b".to_string(), vec![1]), 1);
    assert_eq!(b.add_param("a".to_string(), vec![2, 3, 4]), 2);
    assert_eq!(b.params[0].index, 0);
    assert_eq!(b.params[1].index, 2);
    assert_eq!(b.params[2].index, 3);
    assert_eq!(b.total_param_slots(), 6);
    assert_eq!(b.param_map, vec![("a".to_string(), 2), ("b".to_string(), 1)]);
    b.create_control_ugen();
    assert_eq!(b.nodes.len(), 1);
    assert_eq!(b.nodes[0].name, "Control");
    assert_eq!(b.nodes[0].num_outputs, 6);
    assert_eq!(b.nodes[0].rate, Rate::Control);
}

#[test]
fn control_ugen_needs_parameters() {
    let mut b = GraphBuilderInner::new();
    b.create_control_ugen();
    assert!(b.nodes.is_empty());
}

#[test]
fn operator_rate_is_the_highest_input_rate() {
    let mut b = GraphBuilderInner::new();
    b.add_node("K".to_string(), Rate::Control, vec![], 1, 0);
    b.add_node("A".to_string(), Rate::Audio, vec![], 1, 0);
    assert_eq!(b.max_rate_from_inputs(&[]), Rate::Scalar);
    assert_eq!(b.max_rate_from_inputs(&[k(1.0)]), Rate::Scalar);
    assert_eq!(b.max_rate_from_inputs(&[k(1.0), out(0, 0)]), Rate::Control);
    assert_eq!(b.max_rate_from_inputs(&[out(1, 0), out(0, 0)]), Rate::Audio);
    assert_eq!(b.max_rate_from_inputs(&[out(9, 0)]), Rate::Scalar);
    assert_eq!(b.get_node_rate(1), Rate::Audio);
    assert_eq!(b.get_node_rate(2), Rate::Scalar);
}

#[test]
fn local_bufs_get_a_max_local_bufs_node_after_control() {
    let mut b = GraphBuilderInner::new();
    b.add_param("buf".to_string(), vec![0]);
    b.create_control_ugen();
    b.add_node("LocalBuf".to_string(), Rate::Scalar, vec![k(1.0), k(512.0)], 1, 0);
    b.add_node("LocalBuf".to_string(), Rate::Scalar, vec![k(1.0), k(512.0)], 1, 0);
    b.add_node("RecordBuf".to_string(), Rate::Audio, vec![out(1, 0), out(2, 0), out(0, 0)], 1, 0);
    let ir = GraphIR::from_builder("lb".to_string(), b);
    let names: Vec<&str> = ir.nodes.iter().map(|n| n.name.as_str()).collect();
    assert_eq!(names, vec!["Control", "MaxLocalBufs", "LocalBuf", "LocalBuf", "RecordBuf"]);
    assert_eq!(ir.nodes[1].inputs, vec![k(2.0)]);
    assert_eq!(ir.nodes[1].rate, Rate::Scalar);
    assert_eq!(ir.nodes[4].inputs, vec![out(2, 0), out(3, 0), out(0, 0)]);
    assert_eq!(ir.constants, vec![2.0f32.to_bits(), 1.0f32.to_bits(), 512.0f32.to_bits()]);
    assert!(ir.validate().is_ok());
}

#[test]
fn max_local_bufs_is_not_added_twice() {
    let mut b = GraphBuilderInner::new();
    b.add_node("MaxLocalBufs".to_string(), Rate::Scalar, vec![k(1.0)], 1, 0);
    b.add_node("LocalBuf".to_string(), Rate::Scalar, vec![k(1.0), k(8.0)], 1, 0);
    let ir = GraphIR::from_builder("lb".to_string(), b);
    assert_eq!(ir.nodes.len(), 2);
    let mut b = GraphBuilderInner::new();
    b.add_node("LocalBuf".to_string(), Rate::Scalar, vec![k(1.0), k(8.0)], 1, 0);
    let ir = GraphIR::from_builder("lb".to_string(), b);
    assert_eq!(ir.nodes[0].name, "MaxLocalBufs");
    assert_eq!(ir.nodes[1].name, "LocalBuf");
}

#[test]
fn counts_convert_to_single_precision_like_a_cast() {
    for n in [0u64, 1, 2, 3, 255, 16777215, 16777216, 16777217, 16777218, 16777219, 33554435, u64::MAX, 1 << 40, (1 << 40) + 1] {
        assert_eq!(count_to_f32_bits(n), (n as f32).to_bits(), "n = {}", n);
    }
}

#[test]
fn validation_reports_a_missing_control_node() {
    let ir = GraphIR {
        name: "x".to_string(),
        constants: vec![],
        params: vec![ParamSpec { name: "a".to_string(), default: vec![0], index: 0 }],
        nodes: vec![],
    };
    assert_eq!(validation_message(&ir), "graph has parameters but no Control UGen");
    let ir = GraphIR { nodes: vec![node("SinOsc", Rate::Audio, vec![], 1)], ..ir };
    assert_eq!(validation_message(&ir), "first UGen should be Control, got SinOsc");
    let ir = GraphIR { nodes: vec![node("Control", Rate::Audio, vec![], 1)], ..ir };
    assert_eq!(validation_message(&ir), "Control UGen must have Control rate");
    let ir = GraphIR { nodes: vec![node("Control", Rate::Control, vec![], 2)], ..ir };
    assert_eq!(validation_message(&ir), "Control UGen has 2 outputs, expected 1");
}

#[test]
fn validation_reports_references_out_of_order() {
    let ir = GraphIR {
        name: "x".to_string(),
        constants: vec![],
        params: vec![],
        nodes: vec![node("A", Rate::Audio, vec![], 1), node("B", Rate::Audio, vec![k(1.0), out(1, 0)], 1)],
    };
    assert_eq!(validation_message(&ir), "UGen 1 references future UGen 1 - violates topological order");
}

#[test]
fn validation_reports_missing_outputs() {
    let ir = GraphIR {
        name: "x".to_string(),
        constants: vec![],
        params: vec![],
        nodes: vec![node("A", Rate::Audio, vec![], 1), node("B", Rate::Audio, vec![out(0, 3)], 1)],
    };
    assert_eq!(validation_message(&ir), "UGen 1 references output 3 of node 0, but it only has 1 outputs");
}

#[test]
fn validation_reports_slot_problems() {
    let control = node("Control", Rate::Control, vec![], 2);
    let ir = GraphIR {
        name: "x".to_string(),
        constants: vec![],
        params: vec![
            ParamSpec { name: "a".to_string(), default: vec![0], index: 0 },
            ParamSpec { name: "b".to_string(), default: vec![0], index: 2 },
        ],
        nodes: vec![control],
    };
    assert_eq!(validation_message(&ir), "parameter 'b' index 2 exceeds total slots 2");
    let ir = GraphIR {
        params: vec![
            ParamSpec { name: "a".to_string(), default: vec![0], index: 0 },
            ParamSpec { name: "b".to_string(), default: vec![0], index: 0 },
        ],
        ..ir
    };
    assert_eq!(validation_message(&ir), "parameter slot 1 is not covered by any parameter");
}

#[test]
fn encoding_reports_validation_and_encoding_errors() {
    let ir = GraphIR {
        name: "x".to_string(),
        constants: vec![],
        params: vec![],
        nodes: vec![node("A", Rate::Audio, vec![k(1.0)], 1)],
    };
    match encode_synthdef(&ir) {
        Err(SynthDefError::EncodingError(m)) => {
            assert_eq!(m, format!("constant with bit pattern {} not found in table", 1.0f32.to_bits()))
        }
        other => panic!("unexpected {:?}", other),
    }
    let ir = GraphIR { name: "n".repeat(300), nodes: vec![], ..ir };
    match encode_synthdef(&ir) {
        Err(SynthDefError::EncodingError(m)) => assert!(m.starts_with("string too long for pstring: nnn")),
        other => panic!("unexpected {:?}", other),
    }
    let ir = GraphIR {
        name: "x".to_string(),
        constants: vec![],
        params: vec![],
        nodes: vec![node("A", Rate::Audio, vec![out(0, 0)], 1)],
    };
    assert!(matches!(encode_synthdef(&ir), Err(SynthDefError::ValidationError(_))));
}

#[test]
fn parameter_defaults_are_written_by_slot() {
    let ir = GraphIR {
        name: "p".to_string(),
        constants: vec![],
        params: vec![
            ParamSpec { name: "a".to_string(), default: vec![1, 2], index: 1 },
            ParamSpec { name: "b".to_string(), default: vec![9], index: 0 },
        ],
        nodes: vec![node("Control", Rate::Control, vec![], 3)],
    };
    let bytes = encode_synthdef(&ir).unwrap();
    let after_header = 4 + 4 + 2;
    let defaults_at = after_header + 2 + 4 + 4;
    assert_eq!(&bytes[defaults_at - 4..defaults_at], &[0, 0, 0, 3]);
    assert_eq!(&bytes[defaults_at..defaults_at + 12], &[0, 0, 0, 9, 0, 0, 0, 1, 0, 0, 0, 2]);
    assert_eq!(&bytes[defaults_at + 12..defaults_at + 16], &[0, 0, 0, 2]);
    assert_eq!(&bytes[defaults_at + 16..defaults_at + 18], &[1, b'a']);
    assert_eq!(&bytes[defaults_at + 18..defaults_at + 22], &[0, 0, 0, 1]);
}

#[test]
fn build_context_adds_operator_nodes_at_the_highest_rate() {
    let mut c = BuildCtx::new();
    let lfo = c.node1("SinOsc", Rate::Control, vec![k(1.0), k(0.0)], 0);
    assert_eq!(lfo, out(0, 0));
    let sum = c.binop(binop::ADD, lfo, konst(2.0f32.to_bits()));
    assert_eq!(sum, out(1, 0));
    assert_eq!(c.builder.nodes[1].name, "BinaryOpUGen");
    assert_eq!(c.builder.nodes[1].rate, Rate::Control);
    assert_eq!(c.builder.nodes[1].special_index, binop::ADD);
    let neg = c.unop(unop::ABS, k(3.0));
    assert_eq!(neg, out(2, 0));
    assert_eq!(c.builder.nodes[2].rate, Rate::Scalar);
    let outs = c.node("Pan2", Rate::Audio, vec![sum], 2, 0);
    assert_eq!(outs, vec![out(3, 0), out(3, 1)]);
    assert_eq!(c.rate_of(&[outs[0], sum]), Rate::Audio);
    assert_eq!(arg_or(&[sum], 0, 0), sum);
    assert_eq!(arg_or(&[sum], 1, 5.0f32.to_bits()), k(5.0));
}
