//! The errors of the modal tokenizer and of the parser built on it.

use vstd::prelude::*;

verus! {

#[derive(Debug)]
pub enum RError {
    Nothing,
    /// A character that starts no token: its offset and a message.
    Tokenize(usize, String),
    /// A token that the grammar does not allow where it stands: the offset
    /// of the token and a message.
    Parse(usize, String),
    /// A tree that has no code: a message.
    Codegen(String),
}

/// A run of `n` spaces.
pub open spec fn spaces(n: nat) -> Seq<char> {
    Seq::new(n, |i: int| ' ')
}

/// The text shown for an error that has no position.
pub open spec fn unexpected_error() -> Seq<char> {
    "Unexpected Error"@
}

/// The source line, and below it a caret under the offending offset with the
/// message beside it.
pub open spec fn caret_message(input: Seq<char>, offset: usize, message: Seq<char>) -> Seq<char> {
    input + seq!['\n'] + spaces(offset as nat) + seq!['^', ' '] + message + seq!['\n']
}

impl RError {
    /// The text that `build_error_message` gives for this error.
    pub open spec fn message(&self, input: Seq<char>) -> Seq<char> {
        match *self {
            RError::Tokenize(offset, message) => caret_message(input, offset, message@),
            RError::Parse(offset, message) => caret_message(input, offset, message@),
            RError::Codegen(message) => message@ + seq!['\n'],
            RError::Nothing => unexpected_error(),
        }
    }

    pub fn build_error_message<'a>(&self, input: &'a str) -> (out: String)
        ensures
            out@ == self.message(input@),
    {
        match self {
            RError::Tokenize(i, s) | RError::Parse(i, s) => {
                let mut out = input.to_owned();
                out.push('\n');
                let mut k: usize = 0;
                while k < *i
                    invariant
                        k <= *i,
                        out@ == input@ + seq!['\n'] + spaces(k as nat),
                    decreases *i - k,
                {
                    out.push(' ');
                    proof {
                        assert(spaces(k as nat).push(' ') =~= spaces((k + 1) as nat));
                        assert((input@ + seq!['\n'] + spaces(k as nat)).push(' ') =~= input@
                            + seq!['\n'] + spaces((k + 1) as nat));
                    }
                    k += 1;
                }
                out.push('^');
                out.push(' ');
                out.append(s.as_str());
                out.push('\n');
                proof {
                    assert(out@ =~= caret_message(input@, *i, s@));
                }
                out
            },
            RError::Codegen(s) => {
                let mut out = s.clone();
                out.push('\n');
                out
            },
            RError::Nothing => "Unexpected Error".to_owned(),
        }
    }
}

} // verus!
