use vstd::prelude::*;
use crate::text::str_eq;
use crate::text::decimal;
use crate::text::push_decimal;
use crate::dsp::errors::SynthDefError;
use crate::dsp::single::count_to_f32_bits;
use crate::dsp::single::f32_bits_of;

verus! {

/// Rate of a UGen. Ordering: Scalar < Control < Audio.
#[derive(Clone, Copy, Debug, PartialEq, Eq, Structural, PartialOrd, Ord)]
pub enum Rate {
    Scalar,
    Control,
    Audio,
}

/// The byte that encodes a rate: its place in the ordering Scalar < Control < Audio.
pub open spec fn rate_byte(r: Rate) -> u8 {
    match r {
        Rate::Scalar => 0,
        Rate::Control => 1,
        Rate::Audio => 2,
    }
}

impl Rate {
    /// The byte that encodes this rate in a SynthDef file.
    pub fn as_byte(&self) -> (b: u8)
        ensures b == rate_byte(*self),
    {
        match self {
            Rate::Scalar => 0,
            Rate::Control => 1,
            Rate::Audio => 2,
        }
    }
}

/// Distinct rates are encoded by distinct bytes.
pub proof fn law_rate_byte_injective(a: Rate, b: Rate)
    ensures rate_byte(a) == rate_byte(b) <==> a == b,
{
}

/// Input to a UGen: a constant, or one output of another node.
///
/// A constant is held as the bit pattern of its IEEE-754 single-precision value, which is
/// exactly what the SynthDef format stores; two constants are the same constant when their
/// bit patterns agree.
#[derive(Clone, Copy, Debug, PartialEq, Eq, Structural)]
pub enum Input {
    Constant(u32),
    Node { node_id: u32, output_index: u32 },
}

/// A UGen node in the graph.
#[derive(Debug)]
pub struct UGenNode {
    pub name: String,
    pub rate: Rate,
    pub inputs: Vec<Input>,
    pub num_outputs: u32,
    pub special_index: i16,
}

/// What a node holds, as values.
pub struct UGenView {
    pub name: Seq<char>,
    pub rate: Rate,
    pub inputs: Seq<Input>,
    pub num_outputs: u32,
    pub special_index: i16,
}

impl View for UGenNode {
    type V = UGenView;

    open spec fn view(&self) -> UGenView {
        UGenView {
            name: self.name@,
            rate: self.rate,
            inputs: self.inputs@,
            num_outputs: self.num_outputs,
            special_index: self.special_index,
        }
    }
}

/// A synth parameter: its name, its default values (one per slot, each the bit pattern of a
/// single-precision value) and the first control slot it occupies.
#[derive(Debug)]
pub struct ParamSpec {
    pub name: String,
    pub default: Vec<u32>,
    pub index: usize,
}

/// What a parameter holds, as values.
pub struct ParamView {
    pub name: Seq<char>,
    pub default: Seq<u32>,
    pub index: usize,
}

impl View for ParamSpec {
    type V = ParamView;

    open spec fn view(&self) -> ParamView {
        ParamView { name: self.name@, default: self.default@, index: self.index }
    }
}

pub open spec fn nodes_view(s: Seq<UGenNode>) -> Seq<UGenView> {
    s.map_values(|n: UGenNode| n@)
}

pub open spec fn params_view(s: Seq<ParamSpec>) -> Seq<ParamView> {
    s.map_values(|p: ParamSpec| p@)
}

pub open spec fn names_view(s: Seq<(String, u32)>) -> Seq<(Seq<char>, u32)> {
    s.map_values(|e: (String, u32)| (e.0@, e.1))
}

/// The number of control slots that the parameters take together.
pub open spec fn slot_count(ps: Seq<ParamView>) -> nat
    decreases ps.len(),
{
    if ps.len() == 0 { 0 } else { slot_count(ps.drop_last()) + ps.last().default.len() }
}

/// The rate that an input runs at: a constant is scalar; a node output runs at its node's
/// rate, or scalar when there is no such node.
pub open spec fn input_rate(nodes: Seq<UGenView>, input: Input) -> Rate {
    match input {
        Input::Constant(_) => Rate::Scalar,
        Input::Node { node_id, .. } => if node_id < nodes.len() { nodes[node_id as int].rate } else { Rate::Scalar },
    }
}

/// Whether `i` is the first place in `names` that holds `name`.
pub open spec fn first_named(names: Seq<(Seq<char>, u32)>, name: Seq<char>, i: int) -> bool {
    &&& 0 <= i < names.len()
    &&& names[i].0 == name
    &&& forall|j: int| 0 <= j < i ==> names[j].0 != name
}

/// `names` with `name` bound to `id`: the first entry with that name takes the new id, and
/// when there is none the pair is appended.
pub open spec fn bind_name(names: Seq<(Seq<char>, u32)>, name: Seq<char>, id: u32) -> Seq<(Seq<char>, u32)> {
    if exists|i: int| #[trigger] first_named(names, name, i) {
        names.update(choose|i: int| #[trigger] first_named(names, name, i), (name, id))
    } else {
        names.push((name, id))
    }
}

/// The Control node for some parameters: control rate, no inputs, one output per slot.
pub open spec fn control_node_view(params: Seq<ParamView>) -> UGenView {
    UGenView {
        name: "Control"@,
        rate: Rate::Control,
        inputs: Seq::empty(),
        num_outputs: slot_count(params) as u32,
        special_index: 0,
    }
}

/// The mutable state of a graph builder, accumulated while walking a `define` body.
/// `param_map` binds each parameter name to the id of its latest parameter.
pub struct GraphBuilderInner {
    pub nodes: Vec<UGenNode>,
    pub constants: Vec<u32>,
    pub params: Vec<ParamSpec>,
    pub param_map: Vec<(String, u32)>,
}

impl GraphBuilderInner {
    pub fn new() -> (b: Self)
        ensures
            b.nodes@.len() == 0,
            b.constants@.len() == 0,
            b.params@.len() == 0,
            b.param_map@.len() == 0,
    {
        GraphBuilderInner { nodes: Vec::new(), constants: Vec::new(), params: Vec::new(), param_map: Vec::new() }
    }

    /// Adds a constant and returns its index. Constants are deduplicated: a constant already
    /// in the table keeps its first index and the table is left as it was.
    pub fn add_constant(&mut self, value: u32) -> (r: usize)
        ensures
            nodes_view(final(self).nodes@) == nodes_view(old(self).nodes@),
            params_view(final(self).params@) == params_view(old(self).params@),
            names_view(final(self).param_map@) == names_view(old(self).param_map@),
            old(self).constants@.contains(value) ==> {
                &&& final(self).constants@ == old(self).constants@
                &&& r < old(self).constants@.len()
                &&& old(self).constants@[r as int] == value
                &&& forall|j: int| 0 <= j < r ==> old(self).constants@[j] != value
            },
            !old(self).constants@.contains(value) ==> {
                &&& final(self).constants@ == old(self).constants@.push(value)
                &&& r == old(self).constants@.len()
            },
    {
        let mut i: usize = 0;
        while i < self.constants.len()
            invariant
                i <= self.constants@.len(),
                forall|j: int| 0 <= j < i ==> self.constants@[j] != value,
            decreases self.constants.len() - i,
        {
            if self.constants[i] == value {
                return i;
            }
            i += 1;
        }
        let idx = self.constants.len();
        self.constants.push(value);
        idx
    }

    /// Adds a UGen node and returns its id, its place among the nodes.
    pub fn add_node(&mut self, name: String, rate: Rate, inputs: Vec<Input>, num_outputs: u32, special_index: i16) -> (id: u32)
        ensures
            id == old(self).nodes@.len() as u32,
            nodes_view(final(self).nodes@) == nodes_view(old(self).nodes@).push(UGenView {
                name: name@, rate, inputs: inputs@, num_outputs, special_index,
            }),
            final(self).constants@ == old(self).constants@,
            params_view(final(self).params@) == params_view(old(self).params@),
            names_view(final(self).param_map@) == names_view(old(self).param_map@),
    {
        let id = self.nodes.len() as u32;
        self.nodes.push(UGenNode { name, rate, inputs, num_outputs, special_index });
        proof {
            assert(nodes_view(self.nodes@) =~= nodes_view(old(self).nodes@).push(UGenView {
                name: name@, rate, inputs: inputs@, num_outputs, special_index,
            }));
        }
        id
    }

    /// Adds a parameter with its default values and returns its id. It takes the slots that
    /// follow those of the parameters before it, and its name is bound to its id.
    pub fn add_param(&mut self, name: String, default: Vec<u32>) -> (id: u32)
        requires
            slot_count(params_view(old(self).params@)) <= usize::MAX,
        ensures
            id == old(self).params@.len() as u32,
            params_view(final(self).params@) == params_view(old(self).params@).push(ParamView {
                name: name@, default: default@, index: slot_count(params_view(old(self).params@)) as usize,
            }),
            names_view(final(self).param_map@) == bind_name(names_view(old(self).param_map@), name@, id),
            nodes_view(final(self).nodes@) == nodes_view(old(self).nodes@),
            final(self).constants@ == old(self).constants@,
    {
        let id = self.params.len() as u32;
        let index = self.total_param_slots();
        let ghost d = default@;
        self.params.push(ParamSpec { name: name.clone(), default, index });
        proof {
            assert(params_view(self.params@) =~= params_view(old(self).params@).push(ParamView {
                name: name@, default: d, index,
            }));
        }
        bind_param_name(&mut self.param_map, name, id);
        id
    }

    /// The number of control slots that all parameters take together.
    pub fn total_param_slots(&self) -> (n: usize)
        requires
            slot_count(params_view(self.params@)) <= usize::MAX,
        ensures
            n == slot_count(params_view(self.params@)),
    {
        total_slots_of(&self.params)
    }

    /// The rate of the node with the given id, or scalar when there is none.
    pub fn get_node_rate(&self, node_id: u32) -> (r: Rate)
        ensures
            r == input_rate(nodes_view(self.nodes@), Input::Node { node_id, output_index: 0 }),
    {
        if (node_id as usize) < self.nodes.len() {
            self.nodes[node_id as usize].rate
        } else {
            Rate::Scalar
        }
    }

    /// The highest rate among the inputs' rates (scalar when there are none); used for the
    /// rate of operator UGens.
    pub fn max_rate_from_inputs(&self, inputs: &[Input]) -> (r: Rate)
        ensures
            forall|i: int| 0 <= i < inputs@.len()
                ==> rate_byte(#[trigger] input_rate(nodes_view(self.nodes@), inputs@[i])) <= rate_byte(r),
            r == Rate::Scalar || exists|i: int| 0 <= i < inputs@.len()
                && #[trigger] input_rate(nodes_view(self.nodes@), inputs@[i]) == r,
    {
        let mut max_rate = Rate::Scalar;
        let mut k: usize = 0;
        while k < inputs.len()
            invariant
                k <= inputs@.len(),
                forall|i: int| 0 <= i < k
                    ==> rate_byte(#[trigger] input_rate(nodes_view(self.nodes@), inputs@[i])) <= rate_byte(max_rate),
                max_rate == Rate::Scalar || exists|i: int| 0 <= i < k
                    && #[trigger] input_rate(nodes_view(self.nodes@), inputs@[i]) == max_rate,
            decreases inputs.len() - k,
        {
            let rate = match inputs[k] {
                Input::Constant(_) => Rate::Scalar,
                Input::Node { node_id, .. } => self.get_node_rate(node_id),
            };
            assert(rate == input_rate(nodes_view(self.nodes@), inputs@[k as int]));
            if rate.as_byte() > max_rate.as_byte() {
                max_rate = rate;
            }
            k += 1;
        }
        max_rate
    }

    /// Puts the Control UGen, whose outputs are the parameter slots, in front of all nodes.
    /// Without parameters nothing changes. It is meant to run after all parameters are added
    /// and before any other node, so no node reference is adjusted.
    pub fn create_control_ugen(&mut self)
        requires
            slot_count(params_view(old(self).params@)) <= usize::MAX,
        ensures
            old(self).params@.len() == 0 ==> nodes_view(final(self).nodes@) == nodes_view(old(self).nodes@),
            old(self).params@.len() > 0 ==> nodes_view(final(self).nodes@)
                == seq![control_node_view(params_view(old(self).params@))] + nodes_view(old(self).nodes@),
            final(self).constants@ == old(self).constants@,
            params_view(final(self).params@) == params_view(old(self).params@),
            names_view(final(self).param_map@) == names_view(old(self).param_map@),
    {
        if self.params.len() == 0 {
            return;
        }
        let total_slots = self.total_param_slots() as u32;
        let control_node = UGenNode {
            name: String::from_str("Control"),
            rate: Rate::Control,
            inputs: Vec::new(),
            num_outputs: total_slots,
            special_index: 0,
        };
        self.nodes.insert(0, control_node);
        proof {
            reveal_strlit("Control");
            assert(nodes_view(self.nodes@) =~= seq![UGenView {
                name: "Control"@,
                rate: Rate::Control,
                inputs: Seq::empty(),
                num_outputs: total_slots,
                special_index: 0,
            }] + nodes_view(old(self).nodes@));
        }
    }
}

/// The slot count of a list of parameters.
fn total_slots_of(params: &Vec<ParamSpec>) -> (n: usize)
    requires
        slot_count(params_view(params@)) <= usize::MAX,
    ensures
        n == slot_count(params_view(params@)),
{
    let mut total: usize = 0;
    let mut k: usize = 0;
    while k < params.len()
        invariant
            k <= params@.len(),
            slot_count(params_view(params@)) <= usize::MAX,
            total == slot_count(params_view(params@.take(k as int))),
        decreases params.len() - k,
    {
        proof {
            lemma_slot_count_prefix(params_view(params@), (k + 1) as nat);
            assert(params_view(params@.take(k + 1)) =~= params_view(params@).take(k + 1));
            assert(params_view(params@.take(k as int)) =~= params_view(params@).take(k as int));
            assert(params_view(params@).take(k + 1).drop_last() =~= params_view(params@).take(k as int));
        }
        total = total + params[k].default.len();
        k += 1;
    }
    proof {
        assert(params@.take(k as int) =~= params@);
    }
    total
}

/// A prefix takes no more slots than the whole list.
proof fn lemma_slot_count_prefix(ps: Seq<ParamView>, k: nat)
    requires
        k <= ps.len(),
    ensures
        slot_count(ps.take(k as int)) <= slot_count(ps),
    decreases ps.len() - k,
{
    if k < ps.len() {
        lemma_slot_count_prefix(ps, k + 1);
        assert(ps.take((k + 1) as int).drop_last() =~= ps.take(k as int));
    } else {
        assert(ps.take(k as int) =~= ps);
    }
}

/// Binds `name` to `id` in an association list of names: the first entry with that name
/// takes the new id; when there is none the pair is appended.
fn bind_param_name(names: &mut Vec<(String, u32)>, name: String, id: u32)
    ensures
        names_view(final(names)@) == bind_name(names_view(old(names)@), name@, id),
{
    let ghost nv = names_view(names@);
    let mut i: usize = 0;
    while i < names.len()
        invariant
            i <= names@.len(),
            names@ == old(names)@,
            nv == names_view(old(names)@),
            forall|j: int| 0 <= j < i ==> nv[j].0 != name@,
        decreases names.len() - i,
    {
        if str_eq(names[i].0.as_str(), name.as_str()) {
            let ghost nm = name@;
            names.set(i, (name, id));
            proof {
                assert(names_view(names@) =~= nv.update(i as int, (nm, id)));
                assert(first_named(nv, nm, i as int));
                let c = choose|c: int| #[trigger] first_named(nv, nm, c);
                assert(c == i) by {
                    if c < i {
                        assert(nv[c].0 != nm);
                    } else if c > i {
                        assert(nv[i as int].0 != nm);
                    }
                }
                assert(bind_name(nv, nm, id) == nv.update(i as int, (nm, id)));
            }
            return;
        }
        i += 1;
    }
    let ghost nm = name@;
    names.push((name, id));
    proof {
        assert forall|c: int| !#[trigger] first_named(nv, nm, c) by {
            if 0 <= c < nv.len() { assert(nv[c].0 != nm); }
        }
        assert(names_view(names@) =~= nv.push((nm, id)));
    }
}

/// How many nodes carry the name `name`.
pub open spec fn count_named(nodes: Seq<UGenView>, name: Seq<char>) -> nat
    decreases nodes.len(),
{
    if nodes.len() == 0 {
        0
    } else {
        count_named(nodes.drop_last(), name) + if nodes.last().name == name { 1nat } else { 0nat }
    }
}

/// Whether some node carries the name `name`.
pub open spec fn has_named(nodes: Seq<UGenView>, name: Seq<char>) -> bool {
    exists|i: int| 0 <= i < nodes.len() && #[trigger] nodes[i].name == name
}

/// A node reference moved one place along when a node is inserted at `at`.
pub open spec fn shift_input(input: Input, at: nat) -> Input {
    match input {
        Input::Node { node_id, output_index } =>
            if node_id >= at { Input::Node { node_id: (node_id + 1) as u32, output_index } } else { input },
        Input::Constant(_) => input,
    }
}

/// A node whose references are moved along for an insertion at `at`.
pub open spec fn shift_node(n: UGenView, at: nat) -> UGenView {
    UGenView { inputs: n.inputs.map_values(|i: Input| shift_input(i, at)), ..n }
}

/// Whether the nodes need a MaxLocalBufs node: some use a LocalBuf and none is a
/// MaxLocalBufs node yet.
pub open spec fn needs_max_local_bufs(nodes: Seq<UGenView>) -> bool {
    count_named(nodes, "LocalBuf"@) > 0 && !has_named(nodes, "MaxLocalBufs"@)
}

/// Where the MaxLocalBufs node goes: right after a leading Control node, else first.
pub open spec fn max_local_bufs_place(nodes: Seq<UGenView>) -> nat {
    if nodes.len() > 0 && nodes[0].name == "Control"@ { 1 } else { 0 }
}

/// No node reference is the largest id, so every reference can move one place along.
pub open spec fn refs_movable(nodes: Seq<UGenView>) -> bool {
    forall|i: int, j: int| 0 <= i < nodes.len() && 0 <= j < nodes[i].inputs.len()
        ==> (#[trigger] nodes[i].inputs[j] matches Input::Node { node_id, .. } ==> node_id < u32::MAX)
}

/// The nodes with a MaxLocalBufs node added where one is needed: it takes the count of
/// LocalBuf nodes as its one constant input, and the references to the nodes after it move
/// one place along.
pub open spec fn with_max_local_bufs(nodes: Seq<UGenView>) -> Seq<UGenView> {
    if needs_max_local_bufs(nodes) {
        let at = max_local_bufs_place(nodes);
        nodes.map_values(|n: UGenView| shift_node(n, at)).insert(at as int, UGenView {
            name: "MaxLocalBufs"@,
            rate: Rate::Scalar,
            inputs: seq![Input::Constant(f32_bits_of(count_named(nodes, "LocalBuf"@)) as u32)],
            num_outputs: 1,
            special_index: 0,
        })
    } else {
        nodes
    }
}

impl GraphBuilderInner {
    /// Adds the MaxLocalBufs node that scsynth needs before any LocalBuf can allocate.
    fn ensure_max_local_bufs(&mut self)
        requires
            needs_max_local_bufs(nodes_view(old(self).nodes@)) ==> refs_movable(nodes_view(old(self).nodes@)),
        ensures
            nodes_view(final(self).nodes@) == with_max_local_bufs(nodes_view(old(self).nodes@)),
            params_view(final(self).params@) == params_view(old(self).params@),
    {
        let ghost nv = nodes_view(self.nodes@);
        let mut local_buf_count: usize = 0;
        let mut has_max = false;
        let mut i: usize = 0;
        while i < self.nodes.len()
            invariant
                i <= self.nodes@.len(),
                nv == nodes_view(self.nodes@),
                local_buf_count == count_named(nv.take(i as int), "LocalBuf"@),
                local_buf_count <= i,
                has_max == has_named(nv.take(i as int), "MaxLocalBufs"@),
            decreases self.nodes.len() - i,
        {
            proof {
                reveal_strlit("LocalBuf");
                reveal_strlit("MaxLocalBufs");
                assert(nv.take(i + 1).drop_last() =~= nv.take(i as int));
            }
            if str_eq(self.nodes[i].name.as_str(), "LocalBuf") {
                local_buf_count += 1;
            }
            if str_eq(self.nodes[i].name.as_str(), "MaxLocalBufs") {
                has_max = true;
                assert(nv.take(i + 1)[i as int].name == "MaxLocalBufs"@);
            }
            proof {
                if !has_max {
                    assert forall|j: int| 0 <= j < i + 1 implies #[trigger] nv.take(i + 1)[j].name != "MaxLocalBufs"@ by {
                        if j < i { assert(nv.take(i + 1)[j] == nv.take(i as int)[j]); }
                    }
                } else if !has_named(nv.take(i as int), "MaxLocalBufs"@) {
                    assert(nv.take(i + 1)[i as int].name == "MaxLocalBufs"@);
                } else {
                    let w = choose|j: int| 0 <= j < i && #[trigger] nv.take(i as int)[j].name == "MaxLocalBufs"@;
                    assert(nv.take(i + 1)[w] == nv.take(i as int)[w]);
                }
            }
            i += 1;
        }
        proof {
            assert(nv.take(i as int) =~= nv);
        }
        if local_buf_count == 0 || has_max {
            return;
        }
        let insert_at: usize = if self.nodes.len() > 0 && str_eq(self.nodes[0].name.as_str(), "Control") { 1 } else { 0 };
        let bits = count_to_f32_bits(local_buf_count as u64);
        self.add_constant(bits);
        self.shift_node_references_for_insert(insert_at);
        let mut inputs: Vec<Input> = Vec::new();
        inputs.push(Input::Constant(bits));
        let ghost shifted = nodes_view(self.nodes@);
        let ghost ins = inputs@;
        self.nodes.insert(insert_at, UGenNode {
            name: String::from_str("MaxLocalBufs"),
            rate: Rate::Scalar,
            inputs,
            num_outputs: 1,
            special_index: 0,
        });
        proof {
            reveal_strlit("Control");
            reveal_strlit("MaxLocalBufs");
            assert(ins =~= seq![Input::Constant(f32_bits_of(count_named(nv, "LocalBuf"@)) as u32)]);
            assert(nodes_view(self.nodes@) =~= shifted.insert(insert_at as int, UGenView {
                name: "MaxLocalBufs"@,
                rate: Rate::Scalar,
                inputs: ins,
                num_outputs: 1,
                special_index: 0,
            }));
        }
    }

    /// Moves every reference to a node at or after `insert_at` one place along, ready for a
    /// node to be inserted there.
    fn shift_node_references_for_insert(&mut self, insert_at: usize)
        requires
            refs_movable(nodes_view(old(self).nodes@)),
        ensures
            nodes_view(final(self).nodes@) == nodes_view(old(self).nodes@).map_values(
                |n: UGenView| shift_node(n, insert_at as nat)),
            final(self).constants@ == old(self).constants@,
            params_view(final(self).params@) == params_view(old(self).params@),
    {
        let ghost nv = nodes_view(self.nodes@);
        let mut i: usize = 0;
        while i < self.nodes.len()
            invariant
                i <= self.nodes@.len() == nv.len(),
                refs_movable(nv),
                forall|k: int| 0 <= k < i ==> #[trigger] nodes_view(self.nodes@)[k] == shift_node(nv[k], insert_at as nat),
                forall|k: int| i <= k < nv.len() ==> #[trigger] nodes_view(self.nodes@)[k] == nv[k],
                self.constants@ == old(self).constants@,
                params_view(self.params@) == params_view(old(self).params@),
            decreases self.nodes.len() - i,
        {
            let mut inputs: Vec<Input> = Vec::new();
            let mut j: usize = 0;
            assert(nodes_view(self.nodes@)[i as int] == nv[i as int]);
            while j < self.nodes[i].inputs.len()
                invariant
                    i < self.nodes@.len() == nv.len(),
                    refs_movable(nv),
                    nodes_view(self.nodes@)[i as int] == nv[i as int],
                    j <= nv[i as int].inputs.len(),
                    inputs@ == nv[i as int].inputs.take(j as int).map_values(|x: Input| shift_input(x, insert_at as nat)),
                decreases nv[i as int].inputs.len() - j,
            {
                let input = self.nodes[i].inputs[j];
                assert(input == nv[i as int].inputs[j as int]);
                let moved = match input {
                    Input::Node { node_id, output_index } => {
                        if node_id as usize >= insert_at {
                            Input::Node { node_id: node_id + 1, output_index }
                        } else {
                            input
                        }
                    },
                    Input::Constant(_) => input,
                };
                inputs.push(moved);
                proof {
                    assert(nv[i as int].inputs.take(j + 1).drop_last() =~= nv[i as int].inputs.take(j as int));
                    assert(inputs@ =~= nv[i as int].inputs.take(j + 1).map_values(|x: Input| shift_input(x, insert_at as nat)));
                }
                j += 1;
            }
            proof {
                assert(nv[i as int].inputs.take(j as int) =~= nv[i as int].inputs);
            }
            let node = UGenNode {
                name: self.nodes[i].name.clone(),
                rate: self.nodes[i].rate,
                inputs,
                num_outputs: self.nodes[i].num_outputs,
                special_index: self.nodes[i].special_index,
            };
            let ghost before = self.nodes@;
            proof {
                assert(node@.inputs == nv[i as int].inputs.map_values(|x: Input| shift_input(x, insert_at as nat)));
                assert(node@ == shift_node(nv[i as int], insert_at as nat));
            }
            self.nodes.set(i, node);
            proof {
                assert forall|k: int| 0 <= k < i + 1 implies #[trigger] nodes_view(self.nodes@)[k] == shift_node(nv[k], insert_at as nat) by {
                    if k < i { assert(nodes_view(before)[k] == nodes_view(self.nodes@)[k]); }
                }
                assert forall|k: int| i + 1 <= k < nv.len() implies #[trigger] nodes_view(self.nodes@)[k] == nv[k] by {
                    assert(nodes_view(before)[k] == nodes_view(self.nodes@)[k]);
                }
            }
            i += 1;
        }
        proof {
            assert(nodes_view(self.nodes@) =~= nv.map_values(|n: UGenView| shift_node(n, insert_at as nat)));
        }
    }
}

/// The constant values among some inputs, in order.
pub open spec fn constants_in(inputs: Seq<Input>) -> Seq<u32>
    decreases inputs.len(),
{
    if inputs.len() == 0 {
        Seq::empty()
    } else {
        constants_in(inputs.drop_last()) + match inputs.last() {
            Input::Constant(v) => seq![v],
            Input::Node { .. } => Seq::empty(),
        }
    }
}

/// The constant values among the inputs of the nodes, node by node, in order.
pub open spec fn node_constants(nodes: Seq<UGenView>) -> Seq<u32>
    decreases nodes.len(),
{
    if nodes.len() == 0 { Seq::empty() } else { node_constants(nodes.drop_last()) + constants_in(nodes.last().inputs) }
}

/// The values of `s` with each kept at its first occurrence only.
pub open spec fn first_occurrences(s: Seq<u32>) -> Seq<u32>
    decreases s.len(),
{
    if s.len() == 0 {
        Seq::empty()
    } else {
        let d = first_occurrences(s.drop_last());
        if d.contains(s.last()) { d } else { d.push(s.last()) }
    }
}

/// The final graph, ready for encoding.
#[derive(Debug)]
pub struct GraphIR {
    pub name: String,
    pub constants: Vec<u32>,
    pub params: Vec<ParamSpec>,
    pub nodes: Vec<UGenNode>,
}

impl GraphIR {
    /// Finishes a builder: adds the MaxLocalBufs node where LocalBufs need one, then
    /// collects the constants table from the nodes' constant inputs, each value once, in the
    /// order of first use.
    pub fn from_builder(name: String, builder: GraphBuilderInner) -> (ir: GraphIR)
        requires
            needs_max_local_bufs(nodes_view(builder.nodes@)) ==> refs_movable(nodes_view(builder.nodes@)),
        ensures
            ir.name@ == name@,
            nodes_view(ir.nodes@) == with_max_local_bufs(nodes_view(builder.nodes@)),
            ir.constants@ == first_occurrences(node_constants(nodes_view(ir.nodes@))),
            params_view(ir.params@) == params_view(builder.params@),
    {
        let mut builder = builder;
        builder.ensure_max_local_bufs();
        let ghost nv = nodes_view(builder.nodes@);
        let mut constants: Vec<u32> = Vec::new();
        let mut i: usize = 0;
        while i < builder.nodes.len()
            invariant
                i <= builder.nodes@.len() == nv.len(),
                nv == nodes_view(builder.nodes@),
                constants@ == first_occurrences(node_constants(nv.take(i as int))),
            decreases builder.nodes.len() - i,
        {
            let mut j: usize = 0;
            assert(nv[i as int] == builder.nodes@[i as int]@);
            while j < builder.nodes[i].inputs.len()
                invariant
                    i < builder.nodes@.len() == nv.len(),
                    nv == nodes_view(builder.nodes@),
                    j <= nv[i as int].inputs.len(),
                    constants@ == first_occurrences(node_constants(nv.take(i as int)) + constants_in(nv[i as int].inputs.take(j as int))),
                decreases nv[i as int].inputs.len() - j,
            {
                let ghost before = node_constants(nv.take(i as int)) + constants_in(nv[i as int].inputs.take(j as int));
                proof {
                    assert(nv[i as int].inputs.take(j + 1).drop_last() =~= nv[i as int].inputs.take(j as int));
                }
                match builder.nodes[i].inputs[j] {
                    Input::Constant(v) => {
                        proof {
                            assert(nv[i as int].inputs[j as int] == Input::Constant(v));
                            let after = node_constants(nv.take(i as int)) + constants_in(nv[i as int].inputs.take(j + 1));
                            assert(after =~= before.push(v));
                            assert(after.drop_last() =~= before);
                        }
                        if !vec_contains(&constants, v) {
                            constants.push(v);
                        }
                    },
                    Input::Node { .. } => {
                        proof {
                            let after = node_constants(nv.take(i as int)) + constants_in(nv[i as int].inputs.take(j + 1));
                            assert(after =~= before);
                        }
                    },
                }
                j += 1;
            }
            proof {
                assert(nv[i as int].inputs.take(j as int) =~= nv[i as int].inputs);
                assert(nv.take(i + 1).drop_last() =~= nv.take(i as int));
            }
            i += 1;
        }
        proof {
            assert(nv.take(i as int) =~= nv);
        }
        GraphIR { name, constants, params: builder.params, nodes: builder.nodes }
    }

    /// The number of control slots that all parameters take together.
    pub fn total_param_slots(&self) -> (n: usize)
        requires
            slot_count(params_view(self.params@)) <= usize::MAX,
        ensures
            n == slot_count(params_view(self.params@)),
    {
        total_slots_of(&self.params)
    }
}

/// Whether `v` holds `x`.
fn vec_contains(v: &Vec<u32>, x: u32) -> (r: bool)
    ensures
        r == v@.contains(x),
{
    let mut i: usize = 0;
    while i < v.len()
        invariant
            i <= v@.len(),
            forall|j: int| 0 <= j < i ==> v@[j] != x,
        decreases v.len() - i,
    {
        if v[i] == x {
            return true;
        }
        i += 1;
    }
    false
}

// ---------------------------------------------------------------------------
// Validation
// ---------------------------------------------------------------------------

/// The error of the Control node check: with parameters, the first node must be a
/// control-rate Control node with one output per parameter slot.
pub open spec fn control_error(nodes: Seq<UGenView>, params: Seq<ParamView>) -> Option<Seq<char>> {
    if params.len() == 0 {
        None
    } else if nodes.len() == 0 {
        Some("graph has parameters but no Control UGen"@)
    } else if nodes[0].name != "Control"@ {
        Some("first UGen should be Control, got "@ + nodes[0].name)
    } else if nodes[0].rate != Rate::Control {
        Some("Control UGen must have Control rate"@)
    } else if nodes[0].num_outputs != slot_count(params) as u32 {
        Some("Control UGen has "@ + decimal(nodes[0].num_outputs as nat) + " outputs, expected "@
            + decimal((slot_count(params) as u32) as nat))
    } else {
        None
    }
}

/// The first message that `check` gives for an input, scanning the nodes in order and each
/// node's inputs in order, from input `j` of node `i` on.
pub open spec fn scan_inputs(nodes: Seq<UGenView>, check: spec_fn(nat, Input) -> Option<Seq<char>>, i: nat, j: nat)
    -> Option<Seq<char>>
    decreases nodes.len() - i, (if i < nodes.len() { nodes[i as int].inputs.len() - j } else { 0 }),
{
    if i >= nodes.len() {
        None
    } else if j >= nodes[i as int].inputs.len() {
        scan_inputs(nodes, check, i + 1, 0)
    } else {
        match check(i, nodes[i as int].inputs[j as int]) {
            Some(m) => Some(m),
            None => scan_inputs(nodes, check, i, j + 1),
        }
    }
}

/// A reference from node `idx` to itself or a later node breaks the topological order.
pub open spec fn order_check(idx: nat, input: Input) -> Option<Seq<char>> {
    match input {
        Input::Node { node_id, .. } => if node_id >= idx % 0x1_0000_0000 {
            Some("UGen "@ + decimal(idx) + " references future UGen "@ + decimal(node_id as nat)
                + " - violates topological order"@)
        } else {
            None
        },
        Input::Constant(_) => None,
    }
}

/// A reference must name an existing node and one of its outputs.
pub open spec fn reference_check(nodes: Seq<UGenView>, idx: nat, input: Input) -> Option<Seq<char>> {
    match input {
        Input::Node { node_id, output_index } => if node_id >= nodes.len() {
            Some("UGen "@ + decimal(idx) + " references invalid node "@ + decimal(node_id as nat))
        } else if output_index >= nodes[node_id as int].num_outputs {
            Some("UGen "@ + decimal(idx) + " references output "@ + decimal(output_index as nat) + " of node "@
                + decimal(node_id as nat) + ", but it only has "@ + decimal(nodes[node_id as int].num_outputs as nat)
                + " outputs"@)
        } else {
            None
        },
        Input::Constant(_) => None,
    }
}

/// The first parameter slot, scanning the parameters in order and each one's slots in
/// order from slot `i` of parameter `p` on, that lies at or beyond `total`: the
/// parameter's place and the slot.
pub open spec fn slot_overflow(params: Seq<ParamView>, total: nat, p: nat, i: nat) -> Option<(nat, nat)>
    decreases params.len() - p, (if p < params.len() { params[p as int].default.len() - i } else { 0 }),
{
    if p >= params.len() {
        None
    } else if i >= params[p as int].default.len() {
        slot_overflow(params, total, p + 1, 0)
    } else if params[p as int].index + i >= total {
        Some((p, (params[p as int].index + i) as nat))
    } else {
        slot_overflow(params, total, p, i + 1)
    }
}

/// Whether slot `i` of parameter `p` is slot `s` of the whole.
pub open spec fn occupies(params: Seq<ParamView>, p: int, i: int, s: int) -> bool {
    0 <= p < params.len() && 0 <= i < params[p].default.len() && params[p].index + i == s
}

/// Whether some parameter occupies slot `s`.
pub open spec fn slot_covered(params: Seq<ParamView>, s: nat) -> bool {
    exists|p: int, i: int| #[trigger] occupies(params, p, i, s as int)
}

/// Whether a parameter slot before slot `i0` of parameter `p0` is slot `s`.
pub open spec fn covered_before(params: Seq<ParamView>, p0: int, i0: int, s: int) -> bool {
    exists|p: int, i: int| #[trigger] occupies(params, p, i, s) && (p < p0 || (p == p0 && i < i0))
}

/// The first slot from `s` on, below `total`, that no parameter occupies.
pub open spec fn first_uncovered(params: Seq<ParamView>, total: nat, s: nat) -> Option<nat>
    decreases total - s,
{
    if s >= total {
        None
    } else if !slot_covered(params, s) {
        Some(s)
    } else {
        first_uncovered(params, total, s + 1)
    }
}

/// The error of the slot checks: every slot of every parameter lies below the total, and
/// every slot below the total is occupied.
pub open spec fn slot_error(params: Seq<ParamView>) -> Option<Seq<char>> {
    let total = slot_count(params);
    if total == 0 {
        None
    } else {
        match slot_overflow(params, total, 0, 0) {
            Some((p, slot)) => Some("parameter '"@ + params[p as int].name + "' index "@ + decimal(slot)
                + " exceeds total slots "@ + decimal(total)),
            None => match first_uncovered(params, total, 0) {
                Some(s) => Some("parameter slot "@ + decimal(s) + " is not covered by any parameter"@),
                None => None,
            },
        }
    }
}

/// The first problem that makes a graph unfit for encoding, checked in this order: the
/// Control node, the topological order of references, the parameter slots, and the
/// references' targets and outputs.
pub open spec fn validation_error(nodes: Seq<UGenView>, params: Seq<ParamView>) -> Option<Seq<char>> {
    if control_error(nodes, params) is Some {
        control_error(nodes, params)
    } else if scan_inputs(nodes, |idx: nat, x: Input| order_check(idx, x), 0, 0) is Some {
        scan_inputs(nodes, |idx: nat, x: Input| order_check(idx, x), 0, 0)
    } else if slot_error(params) is Some {
        slot_error(params)
    } else {
        scan_inputs(nodes, |idx: nat, x: Input| reference_check(nodes, idx, x), 0, 0)
    }
}

/// A message made of a text, a number and a text.
fn message_with(a: &str, n: u64, b: &str) -> (m: String)
    ensures
        m@ == a@ + decimal(n as nat) + b@,
{
    let mut m = String::from_str(a);
    push_decimal(&mut m, n);
    m.append(b);
    m
}

/// The Control node that `create_control_ugen` puts first passes the Control checks of
/// `validate`, whatever nodes follow it.
pub proof fn law_control_ugen_passes_control_check(nodes: Seq<UGenView>, params: Seq<ParamView>)
    requires
        params.len() > 0,
    ensures
        control_error(seq![control_node_view(params)] + nodes, params) is None,
{
    assert((seq![control_node_view(params)] + nodes)[0] == control_node_view(params));
}

impl GraphIR {
    /// Checks the graph's structure before encoding; the error names the first problem
    /// found (see `validation_error`).
    pub fn validate(&self) -> (r: Result<(), SynthDefError>)
        requires
            slot_count(params_view(self.params@)) <= usize::MAX,
        ensures
            match validation_error(nodes_view(self.nodes@), params_view(self.params@)) {
                None => r is Ok,
                Some(m) => r matches Err(SynthDefError::ValidationError(t)) && t@ == m,
            },
    {
        match self.control_problem() {
            Some(m) => return Err(SynthDefError::ValidationError(m)),
            None => {},
        }
        match self.order_problem() {
            Some(m) => return Err(SynthDefError::ValidationError(m)),
            None => {},
        }
        match self.slot_problem() {
            Some(m) => return Err(SynthDefError::ValidationError(m)),
            None => {},
        }
        match self.reference_problem() {
            Some(m) => return Err(SynthDefError::ValidationError(m)),
            None => {},
        }
        Ok(())
    }

    fn control_problem(&self) -> (r: Option<String>)
        requires
            slot_count(params_view(self.params@)) <= usize::MAX,
        ensures
            match control_error(nodes_view(self.nodes@), params_view(self.params@)) {
                None => r is None,
                Some(m) => r matches Some(t) && t@ == m,
            },
    {
        proof { reveal_strlit("Control"); }
        if self.params.len() == 0 {
            return None;
        }
        if self.nodes.len() == 0 {
            return Some(String::from_str("graph has parameters but no Control UGen"));
        }
        let control_node = &self.nodes[0];
        if !str_eq(control_node.name.as_str(), "Control") {
            let mut m = String::from_str("first UGen should be Control, got ");
            m.append(control_node.name.as_str());
            return Some(m);
        }
        if control_node.rate != Rate::Control {
            return Some(String::from_str("Control UGen must have Control rate"));
        }
        let expected_outputs = self.total_param_slots() as u32;
        if control_node.num_outputs != expected_outputs {
            let mut m = message_with("Control UGen has ", control_node.num_outputs as u64, " outputs, expected ");
            push_decimal(&mut m, expected_outputs as u64);
            return Some(m);
        }
        None
    }

    fn order_problem(&self) -> (r: Option<String>)
        ensures
            match scan_inputs(nodes_view(self.nodes@), |idx: nat, x: Input| order_check(idx, x), 0, 0) {
                None => r is None,
                Some(m) => r matches Some(t) && t@ == m,
            },
    {
        let ghost nv = nodes_view(self.nodes@);
        let ghost check = |idx: nat, x: Input| order_check(idx, x);
        let mut idx: usize = 0;
        while idx < self.nodes.len()
            invariant
                idx <= nv.len() == self.nodes@.len(),
                nv == nodes_view(self.nodes@),
                check == (|idx: nat, x: Input| order_check(idx, x)),
                scan_inputs(nv, check, 0, 0) == scan_inputs(nv, check, idx as nat, 0),
            decreases self.nodes.len() - idx,
        {
            let node = &self.nodes[idx];
            assert(node@ == nv[idx as int]);
            let mut j: usize = 0;
            while j < node.inputs.len()
                invariant
                    idx < nv.len(),
                    nv == nodes_view(self.nodes@),
                    node@ == nv[idx as int],
                    j <= node.inputs@.len(),
                    check == (|idx: nat, x: Input| order_check(idx, x)),
                    scan_inputs(nv, check, 0, 0) == scan_inputs(nv, check, idx as nat, j as nat),
                decreases node.inputs.len() - j,
            {
                match node.inputs[j] {
                    Input::Node { node_id, .. } => {
                        if node_id >= (idx as u64 % 0x1_0000_0000) as u32 {
                            let mut m = message_with("UGen ", idx as u64, " references future UGen ");
                            push_decimal(&mut m, node_id as u64);
                            m.append(" - violates topological order");
                            return Some(m);
                        }
                    },
                    Input::Constant(_) => {},
                }
                j += 1;
            }
            idx += 1;
        }
        None
    }

    fn reference_problem(&self) -> (r: Option<String>)
        ensures
            match scan_inputs(nodes_view(self.nodes@), |idx: nat, x: Input| reference_check(nodes_view(self.nodes@), idx, x), 0, 0) {
                None => r is None,
                Some(m) => r matches Some(t) && t@ == m,
            },
    {
        let ghost nv = nodes_view(self.nodes@);
        let ghost check = |idx: nat, x: Input| reference_check(nodes_view(self.nodes@), idx, x);
        let mut idx: usize = 0;
        while idx < self.nodes.len()
            invariant
                idx <= nv.len() == self.nodes@.len(),
                nv == nodes_view(self.nodes@),
                check == (|idx: nat, x: Input| reference_check(nodes_view(self.nodes@), idx, x)),
                scan_inputs(nv, check, 0, 0) == scan_inputs(nv, check, idx as nat, 0),
            decreases self.nodes.len() - idx,
        {
            let node = &self.nodes[idx];
            assert(node@ == nv[idx as int]);
            let mut j: usize = 0;
            while j < node.inputs.len()
                invariant
                    idx < nv.len() == self.nodes@.len(),
                    nv == nodes_view(self.nodes@),
                    node@ == nv[idx as int],
                    j <= node.inputs@.len(),
                    check == (|idx: nat, x: Input| reference_check(nodes_view(self.nodes@), idx, x)),
                    scan_inputs(nv, check, 0, 0) == scan_inputs(nv, check, idx as nat, j as nat),
                decreases node.inputs.len() - j,
            {
                match node.inputs[j] {
                    Input::Node { node_id, output_index } => {
                        if node_id as usize >= self.nodes.len() {
                            let m = message_with("UGen ", idx as u64, " references invalid node ");
                            let mut m = m;
                            push_decimal(&mut m, node_id as u64);
                            return Some(m);
                        }
                        let referenced_node = &self.nodes[node_id as usize];
                        assert(referenced_node@ == nv[node_id as int]);
                        if output_index >= referenced_node.num_outputs {
                            let mut m = message_with("UGen ", idx as u64, " references output ");
                            push_decimal(&mut m, output_index as u64);
                            m.append(" of node ");
                            push_decimal(&mut m, node_id as u64);
                            m.append(", but it only has ");
                            push_decimal(&mut m, referenced_node.num_outputs as u64);
                            m.append(" outputs");
                            return Some(m);
                        }
                    },
                    Input::Constant(_) => {},
                }
                j += 1;
            }
            idx += 1;
        }
        None
    }
}

impl GraphIR {
    fn slot_problem(&self) -> (r: Option<String>)
        requires
            slot_count(params_view(self.params@)) <= usize::MAX,
        ensures
            match slot_error(params_view(self.params@)) {
                None => r is None,
                Some(m) => r matches Some(t) && t@ == m,
            },
    {
        let total_slots = self.total_param_slots();
        if total_slots == 0 {
            return None;
        }
        let ghost pv = params_view(self.params@);
        let ghost total = total_slots as nat;
        let mut covered: Vec<bool> = Vec::new();
        while covered.len() < total_slots
            invariant
                covered@.len() <= total_slots,
                forall|x: int| 0 <= x < covered@.len() ==> !covered@[x],
            decreases total_slots - covered.len(),
        {
            covered.push(false);
        }
        let mut p: usize = 0;
        while p < self.params.len()
            invariant
                p <= pv.len() == self.params@.len(),
                pv == params_view(self.params@),
                total == total_slots == slot_count(pv),
                total_slots > 0,
                covered@.len() == total_slots,
                slot_overflow(pv, total, 0, 0) == slot_overflow(pv, total, p as nat, 0),
                forall|x: int| 0 <= x < total_slots ==> (covered@[x] <==> covered_before(pv, p as int, 0, x)),
            decreases self.params.len() - p,
        {
            let param = &self.params[p];
            assert(param@ == pv[p as int]);
            let mut i: usize = 0;
            while i < param.default.len()
                invariant
                    p < pv.len(),
                    pv == params_view(self.params@),
                    param@ == pv[p as int],
                    i <= param.default@.len(),
                    total == total_slots == slot_count(pv),
                    total_slots > 0,
                    covered@.len() == total_slots,
                    i == 0 || param.index + i <= total_slots,
                    slot_overflow(pv, total, 0, 0) == slot_overflow(pv, total, p as nat, i as nat),
                    forall|x: int| 0 <= x < total_slots ==> (covered@[x] <==> covered_before(pv, p as int, i as int, x)),
                decreases param.default.len() - i,
            {
                if param.index >= total_slots || i >= total_slots - param.index {
                    let slot = param.index + i;
                    proof {
                        assert(slot_overflow(pv, total, p as nat, i as nat) == Some((p as nat, slot as nat)));
                        assert(param.name@ == pv[p as int].name);
                    }
                    let mut m = String::from_str("parameter '");
                    m.append(param.name.as_str());
                    m.append("' index ");
                    push_decimal(&mut m, slot as u64);
                    m.append(" exceeds total slots ");
                    push_decimal(&mut m, total_slots as u64);
                    return Some(m);
                }
                let slot = param.index + i;
                let ghost before = covered@;
                covered.set(slot, true);
                proof {
                    assert(occupies(pv, p as int, i as int, slot as int));
                    assert forall|x: int| 0 <= x < total_slots implies
                        (covered@[x] <==> covered_before(pv, p as int, i + 1, x)) by {
                        if x == slot {
                            assert(occupies(pv, p as int, i as int, x));
                        } else {
                            if covered_before(pv, p as int, i + 1, x) {
                                let (q, k) = choose|q: int, k: int| #[trigger] occupies(pv, q, k, x) && (q < p || (q == p && k < i + 1));
                                assert(!(q == p && k == i));
                                assert(covered_before(pv, p as int, i as int, x));
                            }
                            if covered_before(pv, p as int, i as int, x) {
                                let (q, k) = choose|q: int, k: int| #[trigger] occupies(pv, q, k, x) && (q < p || (q == p && k < i));
                                assert(occupies(pv, q, k, x) && (q < p || (q == p && k < i + 1)));
                            }
                            assert(covered@[x] == before[x]);
                        }
                    }
                }
                i += 1;
            }
            proof {
                assert forall|x: int| 0 <= x < total_slots implies
                    (covered@[x] <==> covered_before(pv, p + 1, 0, x)) by {
                    if covered_before(pv, p + 1, 0, x) {
                        let (q, k) = choose|q: int, k: int| #[trigger] occupies(pv, q, k, x) && (q < p + 1 || (q == p + 1 && k < 0));
                        assert(occupies(pv, q, k, x) && (q < p || (q == p && k < i)));
                    }
                    if covered_before(pv, p as int, i as int, x) {
                        let (q, k) = choose|q: int, k: int| #[trigger] occupies(pv, q, k, x) && (q < p || (q == p && k < i));
                        assert(occupies(pv, q, k, x) && (q < p + 1 || (q == p + 1 && k < 0)));
                    }
                }
            }
            p += 1;
        }
        let mut s: usize = 0;
        while s < total_slots
            invariant
                pv == params_view(self.params@),
                p == pv.len(),
                total == total_slots == slot_count(pv),
                total_slots > 0,
                covered@.len() == total_slots,
                s <= total_slots,
                slot_overflow(pv, total, 0, 0) is None,
                first_uncovered(pv, total, 0) == first_uncovered(pv, total, s as nat),
                forall|x: int| 0 <= x < total_slots ==> (covered@[x] <==> covered_before(pv, p as int, 0, x)),
            decreases total_slots - s,
        {
            proof {
                if slot_covered(pv, s as nat) {
                    let (q, k) = choose|q: int, k: int| #[trigger] occupies(pv, q, k, s as int);
                    assert(occupies(pv, q, k, s as int) && (q < p || (q == p && k < 0)));
                }
                if covered_before(pv, p as int, 0, s as int) {
                    let (q, k) = choose|q: int, k: int| #[trigger] occupies(pv, q, k, s as int) && (q < p || (q == p && k < 0));
                    assert(occupies(pv, q, k, s as int));
                }
            }
            if !covered[s] {
                proof {
                    assert(!slot_covered(pv, s as nat));
                    assert(first_uncovered(pv, total, s as nat) == Some(s as nat));
                }
                let m = message_with("parameter slot ", s as u64, " is not covered by any parameter");
                return Some(m);
            }
            s += 1;
        }
        None
    }
}

/// Whether every reference points to an earlier node.
pub open spec fn refs_point_back(nodes: Seq<UGenView>) -> bool {
    forall|i: int, j: int| 0 <= i < nodes.len() && 0 <= j < nodes[i].inputs.len()
        ==> (#[trigger] nodes[i].inputs[j] matches Input::Node { node_id, .. } ==> node_id < i)
}

proof fn lemma_scan_order(nodes: Seq<UGenView>, i: nat, j: nat)
    requires
        nodes.len() <= 0x1_0000_0000,
        refs_point_back(nodes),
    ensures
        scan_inputs(nodes, |idx: nat, x: Input| order_check(idx, x), i, j) is None,
    decreases nodes.len() - i, (if i < nodes.len() { nodes[i as int].inputs.len() - j } else { 0 }),
{
    let check = |idx: nat, x: Input| order_check(idx, x);
    if i < nodes.len() {
        if j >= nodes[i as int].inputs.len() {
            lemma_scan_order(nodes, i + 1, 0);
        } else {
            let x = nodes[i as int].inputs[j as int];
            assert(i % 0x1_0000_0000 == i);
            assert(check(i, x) is None);
            lemma_scan_order(nodes, i, j + 1);
        }
    }
}

/// Adding the MaxLocalBufs node keeps every reference pointing to an earlier node, so a
/// graph built in order stays in order through `GraphIR::from_builder`, and then passes the
/// order check of `validate`.
pub proof fn law_max_local_bufs_keeps_order(nodes: Seq<UGenView>)
    requires
        refs_point_back(nodes),
        nodes.len() < 0xFFFF_FFFF,
    ensures
        refs_point_back(with_max_local_bufs(nodes)),
        scan_inputs(with_max_local_bufs(nodes), |idx: nat, x: Input| order_check(idx, x), 0, 0) is None,
{
    let out = with_max_local_bufs(nodes);
    if needs_max_local_bufs(nodes) {
        let at = max_local_bufs_place(nodes);
        let shifted = nodes.map_values(|n: UGenView| shift_node(n, at));
        assert forall|i: int, j: int| 0 <= i < out.len() && 0 <= j < out[i].inputs.len()
            implies (#[trigger] out[i].inputs[j] matches Input::Node { node_id, .. } ==> node_id < i) by {
            if i < at {
                assert(out[i] == shifted[i]);
                let x = nodes[i].inputs[j];
                assert(out[i].inputs[j] == shift_input(x, at));
                if let Input::Node { node_id, .. } = x {
                    assert(node_id < i);
                }
            } else if i == at {
                assert(out[i].inputs.len() == 1);
            } else {
                assert(out[i] == shifted[i - 1]);
                let x = nodes[i - 1].inputs[j];
                assert(out[i].inputs[j] == shift_input(x, at));
                if let Input::Node { node_id, .. } = x {
                    assert(node_id < i - 1);
                }
            }
        }
    }
    lemma_scan_order(out, 0, 0);
}

} // verus!
