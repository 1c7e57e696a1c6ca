use vstd::prelude::*;

verus! {

/// The errors of the language: lexing and parsing errors carry the line on which
/// they were found; runtime errors carry only a message.
#[derive(Debug)]
pub enum AudionError {
    LexError { msg: String, line: usize },
    ParseError { msg: String, line: usize },
    RuntimeError { msg: String },
}

/// What an error is, with its message taken as a character sequence.
pub enum ErrorView {
    Lex(Seq<char>, nat),
    Parse(Seq<char>, nat),
    Runtime(Seq<char>),
}

pub open spec fn error_view(e: AudionError) -> ErrorView {
    match e {
        AudionError::LexError { msg, line } => ErrorView::Lex(msg@, line as nat),
        AudionError::ParseError { msg, line } => ErrorView::Parse(msg@, line as nat),
        AudionError::RuntimeError { msg } => ErrorView::Runtime(msg@),
    }
}

/// The text shown for an error.
pub open spec fn spec_error_text(e: ErrorView) -> Seq<char> {
    match e {
        ErrorView::Lex(m, l) => "error[line "@ + crate::text::decimal(l) + "]: "@ + m,
        ErrorView::Parse(m, l) => "error[line "@ + crate::text::decimal(l) + "]: "@ + m,
        ErrorView::Runtime(m) => "runtime error: "@ + m,
    }
}

impl AudionError {
    /// The text of this error, as the language prints it.
    pub fn message(&self) -> (s: String)
        ensures s@ == spec_error_text(error_view(*self)),
    {
        match self {
            AudionError::LexError { msg, line } => {
                let mut s = String::from_str("error[line ");
                crate::text::push_decimal(&mut s, *line as u64);
                s.append("]: ");
                s.append(msg.as_str());
                s
            },
            AudionError::ParseError { msg, line } => {
                let mut s = String::from_str("error[line ");
                crate::text::push_decimal(&mut s, *line as u64);
                s.append("]: ");
                s.append(msg.as_str());
                s
            },
            AudionError::RuntimeError { msg } => {
                let mut s = String::from_str("runtime error: ");
                s.append(msg.as_str());
                s
            },
        }
    }
}

} // verus!
