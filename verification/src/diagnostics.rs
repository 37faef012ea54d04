use vstd::prelude::*;

verus! {

/// The two kinds of lexical error the scanner can report.
#[derive(Debug, PartialEq, Clone, Copy)]
pub enum LexErrorKind {
    /// A `"` was opened but the source ended before a matching closing `"`.
    UnterminatedString,
    /// A character that begins no recognized token class.
    UnexpectedCharacter,
}

/// The mathematical image of a `LexError`.
pub ghost struct LexErrorModel {
    pub kind: LexErrorKind,
    pub line: nat,
}

/// A recovered lexical error, reported at the line on which it occurred.
#[derive(Debug, PartialEq, Clone)]
pub struct LexError {
    pub kind: LexErrorKind,
    pub line: usize,
}

impl View for LexError {
    type V = LexErrorModel;

    open spec fn view(&self) -> LexErrorModel {
        LexErrorModel { kind: self.kind, line: self.line as nat }
    }
}

/// What `message` returns for each error kind.
pub open spec fn message_of(kind: LexErrorKind) -> Seq<char> {
    match kind {
        LexErrorKind::UnterminatedString => "Unterminated string."@,
        LexErrorKind::UnexpectedCharacter => "Unexpected character."@,
    }
}

impl LexError {
    /// A human-readable description of the error, for a driver to display.
    pub fn message(&self) -> (m: String)
        ensures
            m@ == message_of(self.kind),
    {
        match self.kind {
            LexErrorKind::UnterminatedString => "Unterminated string.".to_owned(),
            LexErrorKind::UnexpectedCharacter => "Unexpected character.".to_owned(),
        }
    }
}

} // verus!
