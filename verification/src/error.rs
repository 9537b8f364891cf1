//! The one recoverable failure of the library: a syntax error with its position.

use vstd::prelude::*;
use vstd::string::StringExecFns;
use crate::text::{decimal, push_decimal};

verus! {

/// What the scanner met where the grammar did not allow it.
#[derive(Clone, Copy, Debug, PartialEq, Eq, Structural)]
pub enum SyntaxErrorKind {
    /// A newline before the output field of the line was reached.
    UnexpectedNewline,
    /// A `>` anywhere but at the end of the input list.
    UnexpectedArrow,
    /// A comma after the output field, where only a newline may follow.
    ExpectedNewline,
}

impl SyntaxErrorKind {
    /// The wording of this kind of error.
    pub open spec fn text(self) -> Seq<char> {
        match self {
            SyntaxErrorKind::UnexpectedNewline => "didn't expect newline"@,
            SyntaxErrorKind::UnexpectedArrow => "didn't expect '>'"@,
            SyntaxErrorKind::ExpectedNewline => "expected newline, got ','"@,
        }
    }

    /// The wording of this kind of error.
    pub fn as_str(self) -> (s: &'static str)
        ensures
            s@ == self.text(),
    {
        match self {
            SyntaxErrorKind::UnexpectedNewline => "didn't expect newline",
            SyntaxErrorKind::UnexpectedArrow => "didn't expect '>'",
            SyntaxErrorKind::ExpectedNewline => "expected newline, got ','",
        }
    }
}

/// A syntax error as a mathematical value: its kind, the 1-based line and the
/// 0-based column of the offending character within that line.
pub struct SyntaxError {
    pub kind: SyntaxErrorKind,
    pub line: nat,
    pub column: nat,
}

impl SyntaxError {
    /// The message shown to a user: wording, then line and column.
    pub open spec fn message(self) -> Seq<char> {
        self.kind.text() + " at line "@ + decimal(self.line) + " (column "@ + decimal(self.column)
            + ")"@
    }
}

/// A syntax error found while reading a description.
#[derive(Debug)]
pub struct MachineError {
    pub kind: SyntaxErrorKind,
    pub line: usize,
    pub offset: usize,
}

impl View for MachineError {
    type V = SyntaxError;

    open spec fn view(&self) -> SyntaxError {
        SyntaxError { kind: self.kind, line: self.line as nat, column: self.offset as nat }
    }
}

impl MachineError {
    /// The message shown to a user, such as
    /// `didn't expect newline at line 3 (column 7)`.
    pub fn message(&self) -> (out: String)
        ensures
            out@ == self@.message(),
    {
        let mut out = String::new();
        out.append(self.kind.as_str());
        out.append(" at line ");
        push_decimal(&mut out, self.line);
        out.append(" (column ");
        push_decimal(&mut out, self.offset);
        out.append(")");
        out
    }
}

} // verus!
