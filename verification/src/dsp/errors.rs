use vstd::prelude::*;

verus! {

/// What can go wrong while building or encoding a SynthDef.
#[derive(Debug)]
pub enum SynthDefError {
    NoActiveBuilder,
    EncodingError(String),
    ValidationError(String),
}

/// The text shown for an error.
pub open spec fn synthdef_error_text(e: SynthDefError) -> Seq<char> {
    match e {
        SynthDefError::NoActiveBuilder => "no active graph builder in scope"@,
        SynthDefError::EncodingError(s) => "encoding error: "@ + s@,
        SynthDefError::ValidationError(s) => "validation error: "@ + s@,
    }
}

impl SynthDefError {
    /// The text of this error.
    pub fn message(&self) -> (s: String)
        ensures s@ == synthdef_error_text(*self),
    {
        match self {
            SynthDefError::NoActiveBuilder => String::from_str("no active graph builder in scope"),
            SynthDefError::EncodingError(m) => {
                let mut s = String::from_str("encoding error: ");
                s.append(m.as_str());
                s
            },
            SynthDefError::ValidationError(m) => {
                let mut s = String::from_str("validation error: ");
                s.append(m.as_str());
                s
            },
        }
    }
}

} // verus!
