use vstd::prelude::*;
use byteorder::BigEndian;
use byteorder::WriteBytesExt;
use vstd::string::StringSliceAdditionalSpecFns;
use vstd::utf8::encode_utf8;
use crate::dsp::errors::SynthDefError;
use crate::dsp::graph::GraphIR;
use crate::dsp::graph::Input;
use crate::dsp::graph::ParamSpec;
use crate::dsp::graph::ParamView;
use crate::dsp::graph::UGenNode;
use crate::dsp::graph::UGenView;
use crate::dsp::graph::nodes_view;
use crate::dsp::graph::params_view;
use crate::dsp::graph::rate_byte;
use crate::dsp::graph::slot_count;
use crate::dsp::graph::slot_error;
use crate::dsp::graph::slot_overflow;
use crate::dsp::graph::validation_error;
use crate::dsp::graph::constants_in;
use crate::dsp::graph::node_constants;
use crate::dsp::graph::first_occurrences;
use crate::text::decimal;
use crate::text::push_decimal;

verus! {

/// Calls byteorder's `WriteBytesExt::write_u8` on a byte vector, which writes the byte with
/// `write_all`; writing to a `Vec<u8>` appends and does not fail. The error, were there one,
/// is handed back as its text.
#[verifier::external_body]
fn put_u8(buf: &mut Vec<u8>, n: u8) -> (r: Result<(), String>)
    ensures
        r is Ok,
        final(buf)@ == old(buf)@.push(n),
{
    match buf.write_u8(n) {
        Ok(()) => Ok(()),
        Err(e) => Err(e.to_string()),
    }
}

/// Appends `s` to `buf` as a Pascal string: its length in one byte, then its UTF-8 bytes.
/// A string of more than 255 bytes is refused and `buf` left as it was.
/// `write_pstring(&mut buf, "test")` appends `[4, b't', b'e', b's', b't']`.
pub fn write_pstring(buf: &mut Vec<u8>, s: &str) -> (r: Result<(), SynthDefError>)
    ensures
        s.spec_bytes().len() > 255 ==> final(buf)@ == old(buf)@ && (r matches Err(SynthDefError::EncodingError(m))
            && m@ == "string too long for pstring: "@ + s@),
        s.spec_bytes().len() <= 255 ==> r is Ok
            && final(buf)@ == old(buf)@.push(s.spec_bytes().len() as u8) + s.spec_bytes(),
{
    let bytes = s.as_bytes();
    if bytes.len() > 255 {
        let mut m = String::from_str("string too long for pstring: ");
        m.append(s);
        return Err(SynthDefError::EncodingError(m));
    }
    match put_u8(buf, bytes.len() as u8) {
        Ok(()) => {},
        Err(e) => {
            let mut m = String::from_str("failed to write string length: ");
            m.append(e.as_str());
            return Err(SynthDefError::EncodingError(m));
        },
    }
    let ghost b0 = buf@;
    let mut i: usize = 0;
    while i < bytes.len()
        invariant
            i <= bytes@.len(),
            bytes@ == s.spec_bytes(),
            buf@ == b0 + bytes@.take(i as int),
        decreases bytes.len() - i,
    {
        buf.push(bytes[i]);
        i += 1;
        assert(buf@ =~= b0 + bytes@.take(i as int));
    }
    assert(bytes@.take(bytes@.len() as int) =~= bytes@);
    Ok(())
}

/// The four bytes of `x` taken modulo `2^32`, most significant first: how a 32-bit integer
/// is written big-endian, a negative one in two's complement.
pub open spec fn be4(x: int) -> Seq<u8> {
    let u = x % 0x1_0000_0000;
    seq![(u / 0x100_0000) as u8, ((u / 0x1_0000) % 0x100) as u8, ((u / 0x100) % 0x100) as u8, (u % 0x100) as u8]
}

/// The two bytes of `x` taken modulo `2^16`, most significant first.
pub open spec fn be2(x: int) -> Seq<u8> {
    let u = x % 0x1_0000;
    seq![(u / 0x100) as u8, (u % 0x100) as u8]
}

/// Calls byteorder's `WriteBytesExt::write_i32::<BigEndian>` on a byte vector: the
/// integer's four bytes in big-endian order are appended.
#[verifier::external_body]
fn put_i32_be(buf: &mut Vec<u8>, n: i32) -> (r: Result<(), String>)
    ensures
        r is Ok,
        final(buf)@ == old(buf)@ + be4(n as int),
{
    match buf.write_i32::<BigEndian>(n) {
        Ok(()) => Ok(()),
        Err(e) => Err(e.to_string()),
    }
}

/// Calls byteorder's `WriteBytesExt::write_u32::<BigEndian>` on a byte vector: the
/// integer's four bytes in big-endian order are appended.
#[verifier::external_body]
fn put_u32_be(buf: &mut Vec<u8>, n: u32) -> (r: Result<(), String>)
    ensures
        r is Ok,
        final(buf)@ == old(buf)@ + be4(n as int),
{
    match buf.write_u32::<BigEndian>(n) {
        Ok(()) => Ok(()),
        Err(e) => Err(e.to_string()),
    }
}

/// Calls byteorder's `WriteBytesExt::write_i16::<BigEndian>` on a byte vector: the
/// integer's two bytes in big-endian order are appended.
#[verifier::external_body]
fn put_i16_be(buf: &mut Vec<u8>, n: i16) -> (r: Result<(), String>)
    ensures
        r is Ok,
        final(buf)@ == old(buf)@ + be2(n as int),
{
    match buf.write_i16::<BigEndian>(n) {
        Ok(()) => Ok(()),
        Err(e) => Err(e.to_string()),
    }
}

/// Calls byteorder's `WriteBytesExt::write_i8` on a byte vector: the integer's byte, in
/// two's complement, is appended.
#[verifier::external_body]
fn put_i8(buf: &mut Vec<u8>, n: i8) -> (r: Result<(), String>)
    ensures
        r is Ok,
        final(buf)@ == old(buf)@.push((n as int % 0x100) as u8),
{
    match buf.write_i8(n) {
        Ok(()) => Ok(()),
        Err(e) => Err(e.to_string()),
    }
}

/// A count written as a 32-bit integer keeps its low 32 bits.
proof fn lemma_count_as_i32(x: usize)
    ensures
        be4((x as i32) as int) == be4(x as int),
{
    let y = x as i32;
    assert(((x as i32) as u32) == (x as u64 % 0x1_0000_0000) as u32) by (bit_vector);
    assert(y < 0 ==> (y as u32) as int == y as int + 0x1_0000_0000) by (bit_vector);
    assert(y >= 0 ==> (y as u32) as int == y as int) by (bit_vector);
    assert((y as int) % 0x1_0000_0000 == (x as int) % 0x1_0000_0000);
}

/// A 32-bit unsigned value written as a signed one keeps its bits.
proof fn lemma_u32_as_i32(x: u32)
    ensures
        be4((x as i32) as int) == be4(x as int),
{
    let y = x as i32;
    assert((x as i32) as u32 == x) by (bit_vector);
    assert(y < 0 ==> (y as u32) as int == y as int + 0x1_0000_0000) by (bit_vector);
    assert(y >= 0 ==> (y as u32) as int == y as int) by (bit_vector);
    assert((y as int) % 0x1_0000_0000 == (x as int) % 0x1_0000_0000);
}

/// A string as a Pascal string: its UTF-8 length in one byte, then its UTF-8 bytes.
pub open spec fn pstring_bytes(s: Seq<char>) -> Seq<u8> {
    seq![encode_utf8(s).len() as u8] + encode_utf8(s)
}

/// Whether a string fits in a Pascal string.
pub open spec fn pstring_fits(s: Seq<char>) -> bool {
    encode_utf8(s).len() <= 255
}

pub open spec fn too_long_message(s: Seq<char>) -> Seq<char> {
    "string too long for pstring: "@ + s
}

/// The message for a constant input that the constants table lacks, naming the
/// constant's bit pattern.
pub open spec fn missing_constant_message(v: u32) -> Seq<char> {
    "constant with bit pattern "@ + decimal(v as nat) + " not found in table"@
}

/// Whether `i` is the first place of `v` in `consts`.
pub open spec fn first_place(consts: Seq<u32>, v: u32, i: int) -> bool {
    0 <= i < consts.len() && consts[i] == v && forall|j: int| 0 <= j < i ==> consts[j] != v
}

/// How an input is written: a constant as -1 and its first place in the table, a node
/// output as the node's id and the output's index.
pub open spec fn input_bytes(consts: Seq<u32>, input: Input) -> Seq<u8> {
    match input {
        Input::Constant(v) => be4(-1) + be4(choose|i: int| first_place(consts, v, i)),
        Input::Node { node_id, output_index } => be4(node_id as int) + be4(output_index as int),
    }
}

pub open spec fn inputs_bytes(consts: Seq<u32>, inputs: Seq<Input>) -> Seq<u8>
    decreases inputs.len(),
{
    if inputs.len() == 0 { Seq::empty() } else { inputs_bytes(consts, inputs.drop_last()) + input_bytes(consts, inputs.last()) }
}

/// The first constant input, in order, that the table lacks.
pub open spec fn missing_constant(consts: Seq<u32>, inputs: Seq<Input>) -> Option<u32>
    decreases inputs.len(),
{
    if inputs.len() == 0 {
        None
    } else {
        match missing_constant(consts, inputs.drop_last()) {
            Some(v) => Some(v),
            None => match inputs.last() {
                Input::Constant(v) => if consts.contains(v) { None } else { Some(v) },
                Input::Node { .. } => None,
            },
        }
    }
}

/// Why a node cannot be written, if it cannot: a name too long for a Pascal string, or a
/// constant input missing from the table.
pub open spec fn ugen_error(n: UGenView, consts: Seq<u32>) -> Option<Seq<char>> {
    if !pstring_fits(n.name) {
        Some(too_long_message(n.name))
    } else {
        match missing_constant(consts, n.inputs) {
            Some(v) => Some(missing_constant_message(v)),
            None => None,
        }
    }
}

/// How a node is written: its name, rate, input and output counts, special index, inputs,
/// and its rate once per output.
pub open spec fn ugen_bytes(n: UGenView, consts: Seq<u32>) -> Seq<u8> {
    pstring_bytes(n.name) + seq![rate_byte(n.rate)] + be4(n.inputs.len() as int) + be4(n.num_outputs as int)
        + be2(n.special_index as int) + inputs_bytes(consts, n.inputs)
        + Seq::new(n.num_outputs as nat, |i: int| rate_byte(n.rate))
}

pub open spec fn words_bytes(vals: Seq<u32>) -> Seq<u8>
    decreases vals.len(),
{
    if vals.len() == 0 { Seq::empty() } else { words_bytes(vals.drop_last()) + be4(vals.last() as int) }
}

/// The slot values with one parameter's defaults written over its slots.
pub open spec fn fill_param(values: Seq<u32>, p: ParamView) -> Seq<u32> {
    Seq::new(values.len(), |s: int| if p.index <= s < p.index + p.default.len() { p.default[s - p.index] } else { values[s] })
}

/// The default value of each of `total` slots: zero, then each parameter's defaults written
/// over its slots, in order.
pub open spec fn param_values(ps: Seq<ParamView>, total: nat) -> Seq<u32>
    decreases ps.len(),
{
    if ps.len() == 0 { Seq::new(total, |s: int| 0u32) } else { fill_param(param_values(ps.drop_last(), total), ps.last()) }
}

pub open spec fn param_names_bytes(ps: Seq<ParamView>) -> Seq<u8>
    decreases ps.len(),
{
    if ps.len() == 0 { Seq::empty() } else { param_names_bytes(ps.drop_last()) + pstring_bytes(ps.last().name) + be4(ps.last().index as int) }
}

/// The first parameter, in order, whose name is too long for a Pascal string.
pub open spec fn long_param_name(ps: Seq<ParamView>) -> Option<Seq<char>>
    decreases ps.len(),
{
    if ps.len() == 0 {
        None
    } else {
        match long_param_name(ps.drop_last()) {
            Some(n) => Some(n),
            None => if pstring_fits(ps.last().name) { None } else { Some(ps.last().name) },
        }
    }
}

pub open spec fn nodes_bytes(ns: Seq<UGenView>, consts: Seq<u32>) -> Seq<u8>
    decreases ns.len(),
{
    if ns.len() == 0 { Seq::empty() } else { nodes_bytes(ns.drop_last(), consts) + ugen_bytes(ns.last(), consts) }
}

pub open spec fn nodes_error(ns: Seq<UGenView>, consts: Seq<u32>) -> Option<Seq<char>>
    decreases ns.len(),
{
    if ns.len() == 0 {
        None
    } else {
        match nodes_error(ns.drop_last(), consts) {
            Some(m) => Some(m),
            None => ugen_error(ns.last(), consts),
        }
    }
}

/// Why a graph cannot be written, if it cannot: the first name that is too long (graph,
/// then parameters), or the first node that cannot be written.
pub open spec fn graph_error(name: Seq<char>, params: Seq<ParamView>, nodes: Seq<UGenView>, consts: Seq<u32>) -> Option<Seq<char>> {
    if !pstring_fits(name) {
        Some(too_long_message(name))
    } else {
        match long_param_name(params) {
            Some(n) => Some(too_long_message(n)),
            None => nodes_error(nodes, consts),
        }
    }
}

/// How a graph is written: name, constants, parameter defaults, parameter names with
/// their slots, nodes, and no variants.
pub open spec fn graph_bytes(name: Seq<char>, params: Seq<ParamView>, nodes: Seq<UGenView>, consts: Seq<u32>) -> Seq<u8> {
    pstring_bytes(name) + be4(consts.len() as int) + words_bytes(consts)
        + be4(slot_count(params) as int) + words_bytes(param_values(params, slot_count(params)))
        + be4(params.len() as int) + param_names_bytes(params)
        + be4(nodes.len() as int) + nodes_bytes(nodes, consts) + be2(0)
}

/// The file header: the tag `SCgf`, format version 2, one definition.
pub open spec fn synthdef_header() -> Seq<u8> {
    seq![0x53u8, 0x43u8, 0x67u8, 0x66u8] + be4(2) + be2(1)
}

fn write_failed(what: &str, e: String) -> (err: SynthDefError)
    ensures
        err matches SynthDefError::EncodingError(m) && m@ == "failed to write "@ + what@ + ": "@ + e@,
{
    let mut m = String::from_str("failed to write ");
    m.append(what);
    m.append(": ");
    m.append(e.as_str());
    SynthDefError::EncodingError(m)
}

/// Encodes a graph in the SynthDef v2 binary format that scsynth loads. The graph is
/// validated first; then a name too long for a Pascal string, or a constant input missing
/// from the constants table, is an encoding error.
pub fn encode_synthdef(ir: &GraphIR) -> (r: Result<Vec<u8>, SynthDefError>)
    requires
        slot_count(params_view(ir.params@)) <= usize::MAX,
    ensures
        match validation_error(nodes_view(ir.nodes@), params_view(ir.params@)) {
            Some(m) => r matches Err(SynthDefError::ValidationError(t)) && t@ == m,
            None => match graph_error(ir.name@, params_view(ir.params@), nodes_view(ir.nodes@), ir.constants@) {
                Some(m) => r matches Err(SynthDefError::EncodingError(t)) && t@ == m,
                None => r matches Ok(b) && b@ == synthdef_header()
                    + graph_bytes(ir.name@, params_view(ir.params@), nodes_view(ir.nodes@), ir.constants@),
            },
        },
{
    match ir.validate() {
        Ok(()) => {},
        Err(e) => return Err(e),
    }
    let mut buf: Vec<u8> = Vec::new();
    buf.push(0x53);
    buf.push(0x43);
    buf.push(0x67);
    buf.push(0x66);
    match put_i32_be(&mut buf, 2) {
        Ok(()) => {},
        Err(e) => return Err(write_failed("version", e)),
    }
    match put_i16_be(&mut buf, 1) {
        Ok(()) => {},
        Err(e) => return Err(write_failed("def count", e)),
    }
    proof {
        assert(buf@ =~= synthdef_header());
    }
    match encode_graph(&mut buf, ir) {
        Ok(()) => {},
        Err(e) => return Err(e),
    }
    Ok(buf)
}

/// Each parameter's slots are among the slots that all parameters take together.
proof fn lemma_default_len_within(ps: Seq<ParamView>, p: int)
    requires
        0 <= p < ps.len(),
    ensures
        ps[p].default.len() <= slot_count(ps),
    decreases ps.len(),
{
    if p < ps.len() - 1 {
        lemma_default_len_within(ps.drop_last(), p);
    }
}

/// The first place of a value in a table is unique.
proof fn lemma_first_place_unique(consts: Seq<u32>, v: u32, i: int)
    requires
        first_place(consts, v, i),
    ensures
        (choose|k: int| first_place(consts, v, k)) == i,
{
    let k = choose|k: int| first_place(consts, v, k);
    assert(first_place(consts, v, k));
    if k < i {
        assert(consts[k] != v);
    } else if k > i {
        assert(consts[i] != v);
    }
}

/// Writes a graph's name, constants, parameters and nodes.
#[verifier::rlimit(40)]
fn encode_graph(buf: &mut Vec<u8>, ir: &GraphIR) -> (r: Result<(), SynthDefError>)
    requires
        slot_count(params_view(ir.params@)) <= usize::MAX,
        validation_error(nodes_view(ir.nodes@), params_view(ir.params@)) is None,
    ensures
        match graph_error(ir.name@, params_view(ir.params@), nodes_view(ir.nodes@), ir.constants@) {
            Some(m) => r matches Err(SynthDefError::EncodingError(t)) && t@ == m,
            None => r is Ok && final(buf)@ == old(buf)@
                + graph_bytes(ir.name@, params_view(ir.params@), nodes_view(ir.nodes@), ir.constants@),
        },
{
    let ghost start = buf@;
    let ghost pv = params_view(ir.params@);
    let ghost nv = nodes_view(ir.nodes@);
    let ghost consts = ir.constants@;
    match write_pstring(buf, ir.name.as_str()) {
        Ok(()) => {},
        Err(e) => return Err(e),
    }
    let ghost p1 = pstring_bytes(ir.name@);
    assert(buf@ == start + p1);
    match put_i32_be(buf, ir.constants.len() as i32) {
        Ok(()) => {},
        Err(e) => return Err(write_failed("constant count", e)),
    }
    proof { lemma_count_as_i32(ir.constants.len()); }
    match write_words(buf, &ir.constants, "constant") {
        Ok(()) => {},
        Err(e) => return Err(e),
    }
    let ghost p2 = be4(consts.len() as int) + words_bytes(consts);
    assert(buf@ =~= start + p1 + p2);
    let total_slots = ir.total_param_slots();
    match put_i32_be(buf, total_slots as i32) {
        Ok(()) => {},
        Err(e) => return Err(write_failed("param count", e)),
    }
    proof {
        lemma_count_as_i32(total_slots);
        if total_slots > 0 {
            assert(slot_error(pv) is None);
        }
    }
    let values = slot_defaults(&ir.params, total_slots);
    match write_words(buf, &values, "param default") {
        Ok(()) => {},
        Err(e) => return Err(e),
    }
    let ghost p3 = be4(slot_count(pv) as int) + words_bytes(param_values(pv, slot_count(pv)));
    assert(buf@ =~= start + p1 + p2 + p3);
    match put_i32_be(buf, ir.params.len() as i32) {
        Ok(()) => {},
        Err(e) => return Err(write_failed("param name count", e)),
    }
    proof { lemma_count_as_i32(ir.params.len()); }
    match write_param_names(buf, &ir.params) {
        Ok(()) => {},
        Err(e) => return Err(e),
    }
    let ghost p4 = be4(pv.len() as int) + param_names_bytes(pv);
    assert(buf@ =~= start + p1 + p2 + p3 + p4);
    match put_i32_be(buf, ir.nodes.len() as i32) {
        Ok(()) => {},
        Err(e) => return Err(write_failed("ugen count", e)),
    }
    proof { lemma_count_as_i32(ir.nodes.len()); }
    match write_nodes(buf, &ir.nodes, ir.constants.as_slice()) {
        Ok(()) => {},
        Err(e) => return Err(e),
    }
    let ghost p5 = be4(nv.len() as int) + nodes_bytes(nv, consts);
    assert(buf@ =~= start + p1 + p2 + p3 + p4 + p5);
    match put_i16_be(buf, 0) {
        Ok(()) => {},
        Err(e) => return Err(write_failed("variant count", e)),
    }
    proof {
        assert(buf@ =~= start + p1 + p2 + p3 + p4 + p5 + be2(0));
        assert(graph_bytes(ir.name@, pv, nv, consts) =~= p1 + p2 + p3 + p4 + p5 + be2(0));
    }
    Ok(())
}

/// Writes each value as a 32-bit big-endian word.
fn write_words(buf: &mut Vec<u8>, vals: &Vec<u32>, what: &str) -> (r: Result<(), SynthDefError>)
    ensures
        r is Ok,
        final(buf)@ == old(buf)@ + words_bytes(vals@),
{
    let ghost start = buf@;
    let mut k: usize = 0;
    while k < vals.len()
        invariant
            k <= vals@.len(),
            buf@ == start + words_bytes(vals@.take(k as int)),
        decreases vals.len() - k,
    {
        match put_u32_be(buf, vals[k]) {
            Ok(()) => {},
            Err(e) => return Err(write_failed(what, e)),
        }
        proof {
            assert(vals@.take(k + 1).drop_last() =~= vals@.take(k as int));
            assert(buf@ =~= start + words_bytes(vals@.take(k + 1)));
        }
        k += 1;
    }
    proof { assert(vals@.take(k as int) =~= vals@); }
    Ok(())
}

proof fn lemma_param_values_len(ps: Seq<ParamView>, total: nat)
    ensures
        param_values(ps, total).len() == total,
    decreases ps.len(),
{
    if ps.len() > 0 {
        lemma_param_values_len(ps.drop_last(), total);
    }
}

/// The default value of each control slot: zero where no parameter writes, each
/// parameter's defaults over its slots, later parameters over earlier ones.
fn slot_defaults(params: &Vec<ParamSpec>, total_slots: usize) -> (values: Vec<u32>)
    requires
        total_slots == slot_count(params_view(params@)),
        total_slots > 0 ==> slot_overflow(params_view(params@), total_slots as nat, 0, 0) is None,
    ensures
        values@ == param_values(params_view(params@), total_slots as nat),
{
    let ghost pv = params_view(params@);
    let ghost total = total_slots as nat;
    let mut values: Vec<u32> = Vec::new();
    while values.len() < total_slots
        invariant
            values@.len() <= total_slots,
            forall|x: int| 0 <= x < values@.len() ==> values@[x] == 0,
        decreases total_slots - values.len(),
    {
        values.push(0);
    }
    proof {
        assert(values@ =~= param_values(pv.take(0), total));
    }
    let mut p: usize = 0;
    while p < params.len()
        invariant
            p <= pv.len() == params@.len(),
            pv == params_view(params@),
            total == total_slots == slot_count(pv),
            values@ == param_values(pv.take(p as int), total),
            total > 0 ==> slot_overflow(pv, total, p as nat, 0) is None,
        decreases params.len() - p,
    {
        let param = &params[p];
        assert(param@ == pv[p as int]);
        proof {
            lemma_default_len_within(pv, p as int);
            lemma_param_values_len(pv.take(p as int), total);
        }
        let ghost prev = values@;
        proof {
            assert(values@ =~= Seq::new(total, |x: int| if param.index <= x < param.index + 0 { param.default@[x - param.index] } else { prev[x] }));
        }
        let mut i: usize = 0;
        while i < param.default.len()
            invariant
                p < pv.len(),
                pv == params_view(params@),
                param@ == pv[p as int],
                param.default@.len() <= total,
                i <= param.default@.len(),
                total == total_slots,
                prev.len() == total,
                total > 0 ==> slot_overflow(pv, total, p as nat, i as nat) is None,
                values@ == Seq::new(total, |x: int| if param.index <= x < param.index + i { param.default@[x - param.index] } else { prev[x] }),
            decreases param.default.len() - i,
        {
            assert(param.index + i < total);
            values.set(param.index + i, param.default[i]);
            proof {
                assert(values@ =~= Seq::new(total, |x: int| if param.index <= x < param.index + (i + 1) { param.default@[x - param.index] } else { prev[x] }));
            }
            i += 1;
        }
        proof {
            assert(pv.take(p + 1).drop_last() =~= pv.take(p as int));
            assert(values@ =~= fill_param(prev, pv[p as int]));
        }
        p += 1;
    }
    proof { assert(pv.take(p as int) =~= pv); }
    values
}

/// Writes each parameter's name and first slot.
fn write_param_names(buf: &mut Vec<u8>, params: &Vec<ParamSpec>) -> (r: Result<(), SynthDefError>)
    ensures
        match long_param_name(params_view(params@)) {
            Some(n) => r matches Err(SynthDefError::EncodingError(t)) && t@ == too_long_message(n),
            None => r is Ok && final(buf)@ == old(buf)@ + param_names_bytes(params_view(params@)),
        },
{
    let ghost pv = params_view(params@);
    let ghost start = buf@;
    let mut p: usize = 0;
    while p < params.len()
        invariant
            p <= pv.len() == params@.len(),
            pv == params_view(params@),
            long_param_name(pv.take(p as int)) is None,
            buf@ == start + param_names_bytes(pv.take(p as int)),
        decreases params.len() - p,
    {
        let param = &params[p];
        assert(param@ == pv[p as int]);
        proof { assert(pv.take(p + 1).drop_last() =~= pv.take(p as int)); }
        match write_pstring(buf, param.name.as_str()) {
            Ok(()) => {},
            Err(e) => {
                proof {
                    assert(long_param_name(pv.take(p + 1)) == Some(pv[p as int].name));
                    lemma_long_name_prefix(pv, (p + 1) as nat);
                }
                return Err(e);
            },
        }
        match put_i32_be(buf, param.index as i32) {
            Ok(()) => {},
            Err(e) => return Err(write_failed("param name index", e)),
        }
        proof {
            lemma_count_as_i32(param.index);
            assert(buf@ =~= start + param_names_bytes(pv.take(p + 1)));
        }
        p += 1;
    }
    proof { assert(pv.take(p as int) =~= pv); }
    Ok(())
}

/// Writes each node.
fn write_nodes(buf: &mut Vec<u8>, nodes: &Vec<UGenNode>, constants: &[u32]) -> (r: Result<(), SynthDefError>)
    ensures
        match nodes_error(nodes_view(nodes@), constants@) {
            Some(m) => r matches Err(SynthDefError::EncodingError(t)) && t@ == m,
            None => r is Ok && final(buf)@ == old(buf)@ + nodes_bytes(nodes_view(nodes@), constants@),
        },
{
    let ghost nv = nodes_view(nodes@);
    let ghost consts = constants@;
    let ghost start = buf@;
    let mut n: usize = 0;
    while n < nodes.len()
        invariant
            n <= nv.len() == nodes@.len(),
            nv == nodes_view(nodes@),
            consts == constants@,
            nodes_error(nv.take(n as int), consts) is None,
            buf@ == start + nodes_bytes(nv.take(n as int), consts),
        decreases nodes.len() - n,
    {
        assert(nodes@[n as int]@ == nv[n as int]);
        proof { assert(nv.take(n + 1).drop_last() =~= nv.take(n as int)); }
        match encode_ugen(buf, &nodes[n], constants) {
            Ok(()) => {},
            Err(e) => {
                proof { lemma_nodes_error_prefix(nv, consts, (n + 1) as nat); }
                return Err(e);
            },
        }
        proof {
            assert(buf@ =~= start + nodes_bytes(nv.take(n + 1), consts));
        }
        n += 1;
    }
    proof { assert(nv.take(n as int) =~= nv); }
    Ok(())
}

/// The first place of `v` in `consts`, if it is there.
fn position_of(consts: &[u32], v: u32) -> (r: Option<usize>)
    ensures
        match r {
            Some(i) => first_place(consts@, v, i as int),
            None => !consts@.contains(v),
        },
{
    let mut c: usize = 0;
    while c < consts.len()
        invariant
            c <= consts@.len(),
            forall|x: int| 0 <= x < c ==> consts@[x] != v,
        decreases consts.len() - c,
    {
        if consts[c] == v {
            return Some(c);
        }
        c += 1;
    }
    None
}

/// A long name among the first parameters is the first long name among all of them.
proof fn lemma_long_name_prefix(ps: Seq<ParamView>, k: nat)
    requires
        k <= ps.len(),
        long_param_name(ps.take(k as int)) is Some,
    ensures
        long_param_name(ps) == long_param_name(ps.take(k as int)),
    decreases ps.len() - k,
{
    if k < ps.len() {
        assert(ps.take((k + 1) as int).drop_last() =~= ps.take(k as int));
        lemma_long_name_prefix(ps, k + 1);
    } else {
        assert(ps.take(k as int) =~= ps);
    }
}

/// An error among the first nodes is the first error among all of them.
proof fn lemma_nodes_error_prefix(ns: Seq<UGenView>, consts: Seq<u32>, k: nat)
    requires
        k <= ns.len(),
        nodes_error(ns.take(k as int), consts) is Some,
    ensures
        nodes_error(ns, consts) == nodes_error(ns.take(k as int), consts),
    decreases ns.len() - k,
{
    if k < ns.len() {
        assert(ns.take((k + 1) as int).drop_last() =~= ns.take(k as int));
        lemma_nodes_error_prefix(ns, consts, k + 1);
    } else {
        assert(ns.take(k as int) =~= ns);
    }
}

/// A missing constant among the first inputs is the first one among all of them.
proof fn lemma_missing_prefix(consts: Seq<u32>, inputs: Seq<Input>, k: nat)
    requires
        k <= inputs.len(),
        missing_constant(consts, inputs.take(k as int)) is Some,
    ensures
        missing_constant(consts, inputs) == missing_constant(consts, inputs.take(k as int)),
    decreases inputs.len() - k,
{
    if k < inputs.len() {
        assert(inputs.take((k + 1) as int).drop_last() =~= inputs.take(k as int));
        lemma_missing_prefix(consts, inputs, k + 1);
    } else {
        assert(inputs.take(k as int) =~= inputs);
    }
}

/// Writes one node.
fn encode_ugen(buf: &mut Vec<u8>, node: &UGenNode, constants: &[u32]) -> (r: Result<(), SynthDefError>)
    ensures
        match ugen_error(node@, constants@) {
            Some(m) => r matches Err(SynthDefError::EncodingError(t)) && t@ == m,
            None => r is Ok && final(buf)@ == old(buf)@ + ugen_bytes(node@, constants@),
        },
{
    let ghost start = buf@;
    let ghost consts = constants@;
    let ghost inputs = node.inputs@;
    match write_pstring(buf, node.name.as_str()) {
        Ok(()) => {},
        Err(e) => return Err(e),
    }
    let rate = node.rate.as_byte();
    match put_i8(buf, rate as i8) {
        Ok(()) => {},
        Err(e) => return Err(write_failed("ugen rate", e)),
    }
    match put_i32_be(buf, node.inputs.len() as i32) {
        Ok(()) => {},
        Err(e) => return Err(write_failed("input count", e)),
    }
    proof { lemma_count_as_i32(node.inputs.len()); }
    match put_i32_be(buf, node.num_outputs as i32) {
        Ok(()) => {},
        Err(e) => return Err(write_failed("output count", e)),
    }
    proof { lemma_u32_as_i32(node.num_outputs); }
    match put_i16_be(buf, node.special_index) {
        Ok(()) => {},
        Err(e) => return Err(write_failed("special index", e)),
    }
    let ghost before_inputs = buf@;
    proof {
        assert(before_inputs =~= start + pstring_bytes(node.name@) + seq![rate_byte(node.rate)]
            + be4(inputs.len() as int) + be4(node.num_outputs as int) + be2(node.special_index as int));
    }
    let mut j: usize = 0;
    while j < node.inputs.len()
        invariant
            j <= inputs.len(),
            inputs == node.inputs@,
            consts == constants@,
            pstring_fits(node@.name),
            missing_constant(consts, inputs.take(j as int)) is None,
            buf@ == before_inputs + inputs_bytes(consts, inputs.take(j as int)),
        decreases node.inputs.len() - j,
    {
        proof { assert(inputs.take(j + 1).drop_last() =~= inputs.take(j as int)); }
        match write_input(buf, node.inputs[j], constants) {
            Ok(()) => {},
            Err(e) => {
                proof {
                    match inputs[j as int] {
                        Input::Constant(v) => {
                            assert(!consts.contains(v));
                            assert(inputs.take(j + 1).last() == Input::Constant(v));
                            assert(missing_constant(consts, inputs.take(j + 1)) == Some(v));
                        },
                        Input::Node { .. } => {},
                    }
                    lemma_missing_prefix(consts, inputs, (j + 1) as nat);
                }
                return Err(e);
            },
        }
        proof {
            assert(buf@ =~= before_inputs + inputs_bytes(consts, inputs.take(j + 1)));
        }
        j += 1;
    }
    proof { assert(inputs.take(j as int) =~= inputs); }
    let ghost before_rates = buf@;
    let mut k: u32 = 0;
    while k < node.num_outputs
        invariant
            k <= node.num_outputs,
            rate == rate_byte(node.rate),
            buf@ == before_rates + Seq::new(k as nat, |i: int| rate_byte(node.rate)),
        decreases node.num_outputs - k,
    {
        match put_i8(buf, rate as i8) {
            Ok(()) => {},
            Err(e) => return Err(write_failed("output rate", e)),
        }
        proof {
            assert(buf@ =~= before_rates + Seq::new((k + 1) as nat, |i: int| rate_byte(node.rate)));
        }
        k += 1;
    }
    proof {
        assert(buf@ =~= start + ugen_bytes(node@, consts));
    }
    Ok(())
}


/// Writes one input of a node.
fn write_input(buf: &mut Vec<u8>, input: Input, constants: &[u32]) -> (r: Result<(), SynthDefError>)
    ensures
        match input {
            Input::Constant(v) => !constants@.contains(v) ==> (r matches Err(SynthDefError::EncodingError(t))
                && t@ == missing_constant_message(v)),
            Input::Node { .. } => true,
        },
        !(input matches Input::Constant(v) && !constants@.contains(v)) ==> (r is Ok
            && final(buf)@ == old(buf)@ + input_bytes(constants@, input)),
{
    let ghost start = buf@;
    match input {
        Input::Constant(val) => {
            match put_i32_be(buf, -1) {
                Ok(()) => {},
                Err(e) => return Err(write_failed("constant input", e)),
            }
            let c = match position_of(constants, val) {
                Some(c) => c,
                None => {
                    let m = missing_message(val);
                    return Err(SynthDefError::EncodingError(m));
                },
            };
            proof {
                lemma_first_place_unique(constants@, val, c as int);
            }
            match put_i32_be(buf, c as i32) {
                Ok(()) => {},
                Err(e) => return Err(write_failed("constant index", e)),
            }
            proof {
                lemma_count_as_i32(c);
                assert(buf@ =~= start + input_bytes(constants@, input));
            }
        },
        Input::Node { node_id, output_index } => {
            match put_i32_be(buf, node_id as i32) {
                Ok(()) => {},
                Err(e) => return Err(write_failed("node input", e)),
            }
            match put_i32_be(buf, output_index as i32) {
                Ok(()) => {},
                Err(e) => return Err(write_failed("output index", e)),
            }
            proof {
                lemma_u32_as_i32(node_id);
                lemma_u32_as_i32(output_index);
                assert(buf@ =~= start + input_bytes(constants@, input));
            }
        },
    }
    Ok(())
}

fn missing_message(v: u32) -> (m: String)
    ensures
        m@ == missing_constant_message(v),
{
    let mut m = String::from_str("constant with bit pattern ");
    push_decimal(&mut m, v as u64);
    m.append(" not found in table");
    m
}

proof fn lemma_first_occurrences(s: Seq<u32>)
    ensures
        forall|x: u32| first_occurrences(s).contains(x) <==> s.contains(x),
        first_occurrences(s).no_duplicates(),
    decreases s.len(),
{
    if s.len() > 0 {
        let t = s.drop_last();
        lemma_first_occurrences(t);
        let d = first_occurrences(t);
        let l = s.last();
        assert(s =~= t.push(l));
        assert forall|x: u32| first_occurrences(s).contains(x) <==> s.contains(x) by {
            if s.contains(x) {
                let i = choose|i: int| 0 <= i < s.len() && s[i] == x;
                if i < s.len() - 1 {
                    assert(t[i] == x);
                    assert(t.contains(x));
                    assert(d.contains(x));
                }
            }
            if t.contains(x) {
                let i = choose|i: int| 0 <= i < t.len() && t[i] == x;
                assert(s[i] == x);
            }
            if d.contains(l) {
                assert(t.contains(l));
            } else {
                assert(d.push(l)[d.len() as int] == l);
                if d.push(l).contains(x) {
                    let i = choose|i: int| 0 <= i < d.push(l).len() && d.push(l)[i] == x;
                    if i < d.len() { assert(d[i] == x); }
                }
                if d.contains(x) {
                    let i = choose|i: int| 0 <= i < d.len() && d[i] == x;
                    assert(d.push(l)[i] == x);
                }
            }
            if x == l {
                assert(s[s.len() - 1] == x);
            }
        }
        if !d.contains(l) {
            assert forall|i: int, j: int| 0 <= i < j < d.push(l).len() implies d.push(l)[i] != d.push(l)[j] by {
                if j == d.len() {
                    assert(d[i] == d.push(l)[i]);
                }
            }
        }
    }
}

proof fn lemma_constants_in_contains(inputs: Seq<Input>, j: int)
    requires
        0 <= j < inputs.len(),
    ensures
        inputs[j] matches Input::Constant(v) ==> constants_in(inputs).contains(v),
    decreases inputs.len(),
{
    let t = inputs.drop_last();
    if j < inputs.len() - 1 {
        lemma_constants_in_contains(t, j);
        if let Input::Constant(v) = inputs[j] {
            let i = choose|i: int| 0 <= i < constants_in(t).len() && constants_in(t)[i] == v;
            assert(constants_in(inputs)[i] == v);
        }
    } else if let Input::Constant(v) = inputs[j] {
        assert(constants_in(inputs)[constants_in(inputs).len() - 1] == v);
    }
}

proof fn lemma_node_constants_contains(nodes: Seq<UGenView>, n: int, v: u32)
    requires
        0 <= n < nodes.len(),
        constants_in(nodes[n].inputs).contains(v),
    ensures
        node_constants(nodes).contains(v),
    decreases nodes.len(),
{
    let t = nodes.drop_last();
    if n < nodes.len() - 1 {
        lemma_node_constants_contains(t, n, v);
        let i = choose|i: int| 0 <= i < node_constants(t).len() && node_constants(t)[i] == v;
        assert(node_constants(nodes)[i] == v);
    } else {
        let i = choose|i: int| 0 <= i < constants_in(nodes[n].inputs).len() && constants_in(nodes[n].inputs)[i] == v;
        assert(node_constants(nodes)[node_constants(t).len() + i] == v);
    }
}

proof fn lemma_no_missing(table: Seq<u32>, inputs: Seq<Input>)
    requires
        forall|j: int| 0 <= j < inputs.len() ==> (#[trigger] inputs[j] matches Input::Constant(v) ==> table.contains(v)),
    ensures
        missing_constant(table, inputs) is None,
    decreases inputs.len(),
{
    if inputs.len() > 0 {
        let t = inputs.drop_last();
        assert forall|j: int| 0 <= j < t.len() implies (#[trigger] t[j] matches Input::Constant(v) ==> table.contains(v)) by {
            assert(t[j] == inputs[j]);
        }
        lemma_no_missing(table, t);
        assert(inputs.last() == inputs[inputs.len() - 1]);
    }
}

/// The constants table that a graph's nodes give (`GraphIR::from_builder` builds it so)
/// holds each value once and every constant input of every node, so encoding such a graph
/// never reports a missing constant.
pub proof fn law_collected_constants_cover_inputs(nodes: Seq<UGenView>)
    ensures
        first_occurrences(node_constants(nodes)).no_duplicates(),
        forall|n: int| 0 <= n < nodes.len()
            ==> missing_constant(first_occurrences(node_constants(nodes)), #[trigger] nodes[n].inputs) is None,
{
    let table = first_occurrences(node_constants(nodes));
    lemma_first_occurrences(node_constants(nodes));
    assert forall|n: int| 0 <= n < nodes.len()
        implies missing_constant(table, #[trigger] nodes[n].inputs) is None by {
        let inputs = nodes[n].inputs;
        assert forall|j: int| 0 <= j < inputs.len() implies (#[trigger] inputs[j] matches Input::Constant(v) ==> table.contains(v)) by {
            lemma_constants_in_contains(inputs, j);
            if let Input::Constant(v) = inputs[j] {
                lemma_node_constants_contains(nodes, n, v);
            }
        }
        lemma_no_missing(table, inputs);
    }
}

} // verus!
