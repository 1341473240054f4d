//! Lexical diagnostics.  Errors found while scanning are non-fatal: the
//! scanner records each one and keeps going, so the caller can surface
//! several independent errors from a single pass.  How a diagnostic is shown
//! to a person is the caller's concern, not the scanner's.

use vstd::prelude::*;

verus! {

/// The taxonomy of lexical errors.  All three are recoverable at the token
/// level: the scanner skips the offending span and continues.
#[derive(Clone, Copy, Debug, PartialEq, Eq, Structural)]
pub enum DiagnosticKind {
    /// A character no scanning rule recognizes; it carries the character.
    UnexpectedCharacter(char),
    /// A string literal whose closing quote never arrives before the input
    /// ends.
    UnterminatedString,
    /// A number literal whose decimal point is not followed by a digit.
    InvalidNumberFormat,
}

/// One lexical error: what went wrong and the 1-based line it was found on.
/// For an unterminated string the line is the one the string began on.
#[derive(Clone, Copy, Debug, PartialEq, Eq, Structural)]
pub struct Diagnostic {
    pub kind: DiagnosticKind,
    pub line: usize,
}

/// Mathematical model of a diagnostic: the same record with an unbounded
/// line number.
pub struct SpecDiagnostic {
    pub kind: DiagnosticKind,
    pub line: nat,
}

impl View for Diagnostic {
    type V = SpecDiagnostic;

    open spec fn view(&self) -> SpecDiagnostic {
        SpecDiagnostic { kind: self.kind, line: self.line as nat }
    }
}

/// Builds the record of one lexical error, as delivered on the diagnostic
/// channel.
pub fn error(line: usize, kind: DiagnosticKind) -> (d: Diagnostic)
    ensures
        d == (Diagnostic { kind, line }),
{
    Diagnostic { kind, line }
}

} // verus!
