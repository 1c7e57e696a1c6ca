//! A thin layer over the graph builder for building UGen graphs call by call.
use vstd::prelude::*;
use crate::dsp::graph::GraphBuilderInner;
use crate::dsp::graph::Input;
use crate::dsp::graph::Rate;
use crate::dsp::graph::UGenView;
use crate::dsp::graph::input_rate;
use crate::dsp::graph::names_view;
use crate::dsp::graph::nodes_view;
use crate::dsp::graph::params_view;
use crate::dsp::graph::rate_byte;

pub mod binop;
pub mod unop;

verus! {

/// A bare constant input (the bit pattern of a single-precision value).
pub fn konst(v: u32) -> (i: Input)
    ensures
        i == Input::Constant(v),
{
    Input::Constant(v)
}

/// The outputs of node `id`, one input per output.
pub open spec fn outputs_of(id: u32, count: nat) -> Seq<Input> {
    Seq::new(count, |o: int| Input::Node { node_id: id, output_index: o as u32 })
}

/// The highest rate among some inputs, scalar when there are none.
pub open spec fn is_max_rate(nodes: Seq<UGenView>, inputs: Seq<Input>, r: Rate) -> bool {
    &&& forall|i: int| 0 <= i < inputs.len() ==> rate_byte(#[trigger] input_rate(nodes, inputs[i])) <= rate_byte(r)
    &&& (r == Rate::Scalar || exists|i: int| 0 <= i < inputs.len() && #[trigger] input_rate(nodes, inputs[i]) == r)
}

/// Build context: the graph builder with helpers for adding nodes.
pub struct BuildCtx {
    pub builder: GraphBuilderInner,
}

impl BuildCtx {
    pub fn new() -> (c: Self)
        ensures
            c.builder.nodes@.len() == 0,
            c.builder.constants@.len() == 0,
            c.builder.params@.len() == 0,
            c.builder.param_map@.len() == 0,
    {
        BuildCtx { builder: GraphBuilderInner::new() }
    }

    /// A bare constant input.
    pub fn konst(&mut self, v: u32) -> (i: Input)
        ensures
            i == Input::Constant(v),
            nodes_view(final(self).builder.nodes@) == nodes_view(old(self).builder.nodes@),
    {
        konst(v)
    }

    /// Adds a node and returns one input per output of it.
    pub fn node(&mut self, name: &str, rate: Rate, inputs: Vec<Input>, num_outputs: u32, special_index: i16)
        -> (outs: Vec<Input>)
        ensures
            nodes_view(final(self).builder.nodes@) == nodes_view(old(self).builder.nodes@).push(UGenView {
                name: name@, rate, inputs: inputs@, num_outputs, special_index,
            }),
            outs@ == outputs_of(old(self).builder.nodes@.len() as u32, num_outputs as nat),
            final(self).builder.constants@ == old(self).builder.constants@,
            params_view(final(self).builder.params@) == params_view(old(self).builder.params@),
            names_view(final(self).builder.param_map@) == names_view(old(self).builder.param_map@),
    {
        let id = self.builder.add_node(name.to_string(), rate, inputs, num_outputs, special_index);
        let mut outs: Vec<Input> = Vec::new();
        let mut o: u32 = 0;
        while o < num_outputs
            invariant
                o <= num_outputs,
                outs@ == outputs_of(id, o as nat),
            decreases num_outputs - o,
        {
            outs.push(Input::Node { node_id: id, output_index: o });
            proof { assert(outs@ =~= outputs_of(id, (o + 1) as nat)); }
            o += 1;
        }
        outs
    }

    /// Adds a node with one output and returns that output.
    pub fn node1(&mut self, name: &str, rate: Rate, inputs: Vec<Input>, special_index: i16) -> (out: Input)
        ensures
            nodes_view(final(self).builder.nodes@) == nodes_view(old(self).builder.nodes@).push(UGenView {
                name: name@, rate, inputs: inputs@, num_outputs: 1, special_index,
            }),
            out == (Input::Node { node_id: old(self).builder.nodes@.len() as u32, output_index: 0 }),
            final(self).builder.constants@ == old(self).builder.constants@,
            params_view(final(self).builder.params@) == params_view(old(self).builder.params@),
            names_view(final(self).builder.param_map@) == names_view(old(self).builder.param_map@),
    {
        let outs = self.node(name, rate, inputs, 1, special_index);
        outs[0]
    }

    /// The highest rate among the inputs.
    pub fn rate_of(&self, inputs: &[Input]) -> (r: Rate)
        ensures
            is_max_rate(nodes_view(self.builder.nodes@), inputs@, r),
    {
        self.builder.max_rate_from_inputs(inputs)
    }

    /// Adds a BinaryOpUGen applying operator `op` to `a` and `b`, at the higher of their
    /// rates, and returns its output.
    pub fn binop(&mut self, op: i16, a: Input, b: Input) -> (out: Input)
        ensures
            nodes_view(final(self).builder.nodes@).len() == old(self).builder.nodes@.len() + 1,
            nodes_view(final(self).builder.nodes@).drop_last() == nodes_view(old(self).builder.nodes@),
            nodes_view(final(self).builder.nodes@).last().name == "BinaryOpUGen"@,
            nodes_view(final(self).builder.nodes@).last().inputs == seq![a, b],
            nodes_view(final(self).builder.nodes@).last().num_outputs == 1,
            nodes_view(final(self).builder.nodes@).last().special_index == op,
            is_max_rate(nodes_view(old(self).builder.nodes@), seq![a, b],
                nodes_view(final(self).builder.nodes@).last().rate),
            out == (Input::Node { node_id: old(self).builder.nodes@.len() as u32, output_index: 0 }),
    {
        let pair = [a, b];
        let rate = self.rate_of(&pair);
        proof { assert(pair@ =~= seq![a, b]); }
        let mut inputs: Vec<Input> = Vec::new();
        inputs.push(a);
        inputs.push(b);
        let ghost ins = inputs@;
        let out = self.node1("BinaryOpUGen", rate, inputs, op);
        proof {
            reveal_strlit("BinaryOpUGen");
            assert(ins =~= seq![a, b]);
            assert(nodes_view(self.builder.nodes@).drop_last() =~= nodes_view(old(self).builder.nodes@));
        }
        out
    }

    /// Adds a UnaryOpUGen applying operator `op` to `a`, at its rate, and returns its
    /// output.
    pub fn unop(&mut self, op: i16, a: Input) -> (out: Input)
        ensures
            nodes_view(final(self).builder.nodes@).len() == old(self).builder.nodes@.len() + 1,
            nodes_view(final(self).builder.nodes@).drop_last() == nodes_view(old(self).builder.nodes@),
            nodes_view(final(self).builder.nodes@).last().name == "UnaryOpUGen"@,
            nodes_view(final(self).builder.nodes@).last().inputs == seq![a],
            nodes_view(final(self).builder.nodes@).last().num_outputs == 1,
            nodes_view(final(self).builder.nodes@).last().special_index == op,
            is_max_rate(nodes_view(old(self).builder.nodes@), seq![a],
                nodes_view(final(self).builder.nodes@).last().rate),
            out == (Input::Node { node_id: old(self).builder.nodes@.len() as u32, output_index: 0 }),
    {
        let one = [a];
        let rate = self.rate_of(&one);
        proof { assert(one@ =~= seq![a]); }
        let mut inputs: Vec<Input> = Vec::new();
        inputs.push(a);
        let ghost ins = inputs@;
        let out = self.node1("UnaryOpUGen", rate, inputs, op);
        proof {
            reveal_strlit("UnaryOpUGen");
            assert(ins =~= seq![a]);
            assert(nodes_view(self.builder.nodes@).drop_last() =~= nodes_view(old(self).builder.nodes@));
        }
        out
    }
}

/// `args[idx]`, or the constant `default` when there is no such argument.
pub fn arg_or(args: &[Input], idx: usize, default: u32) -> (i: Input)
    ensures
        i == if idx < args@.len() { args@[idx as int] } else { Input::Constant(default) },
{
    if idx < args.len() {
        args[idx]
    } else {
        Input::Constant(default)
    }
}

} // verus!
