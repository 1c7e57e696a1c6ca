use vstd::prelude::*;

verus! {

/// How the execution of a statement ends, for a language whose values are `V`: normally, by
/// `break`, by `continue`, by `return` with a value, or by a call in tail position that the
/// caller performs in its place.
pub enum ControlFlow<V> {
    Normal,
    Break,
    Continue,
    Return(V),
    TailCall {
        callee: V,
        positional: Vec<V>,
        named: Vec<(String, V)>,
    },
}

} // verus!
