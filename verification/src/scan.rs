//! The grammar of a description, as a scanner over its characters.
//!
//! One line reads `state, input[, input...] > next, output` and stands for one
//! transition per input. Blanks, tabs and carriage returns carry no meaning.

use vstd::prelude::*;
use crate::error::{SyntaxError, SyntaxErrorKind};

verus! {

/// One transition: in `state`, reading `input`, go to `next_state` and emit
/// `output`.
pub struct Transition {
    pub state: Seq<char>,
    pub input: Seq<char>,
    pub next_state: Seq<char>,
    pub output: Seq<char>,
}

/// Which field of a line the scanner is reading.
#[derive(Clone, Copy, Debug, PartialEq, Eq, Structural)]
pub enum Phase {
    State,
    Input,
    NextState,
    Output,
}

/// What the scanner knows after some characters: the transitions of the lines
/// that are complete, and the fields of the line that is not.
pub struct Scan {
    /// The transitions of all complete lines, in order.
    pub rows: Seq<Transition>,
    /// The field being read.
    pub phase: Phase,
    /// The characters of the field being read.
    pub token: Seq<char>,
    /// The state field of the current line, once it is closed.
    pub state: Seq<char>,
    /// The closed inputs of the current line.
    pub inputs: Seq<Seq<char>>,
    /// The next-state field of the current line, once it is closed.
    pub next_state: Seq<char>,
}

/// Characters that are skipped wherever they stand.
pub open spec fn is_blank(ch: char) -> bool {
    ch == ' ' || ch == '\t' || ch == '\r'
}

/// Characters that separate fields or lines.
pub open spec fn is_delimiter(ch: char) -> bool {
    ch == ',' || ch == '>' || ch == '\n'
}

/// The transitions that one line stands for: one per input, all with the
/// line's state, next state and output.
pub open spec fn expand(
    state: Seq<char>,
    inputs: Seq<Seq<char>>,
    next_state: Seq<char>,
    output: Seq<char>,
) -> Seq<Transition> {
    Seq::new(
        inputs.len(),
        |j: int| Transition { state, input: inputs[j], next_state, output },
    )
}

impl Scan {
    /// The scanner at the start of a line, with `rows` behind it.
    pub open spec fn at_line_start(rows: Seq<Transition>) -> Scan {
        Scan {
            rows,
            phase: Phase::State,
            token: Seq::empty(),
            state: Seq::empty(),
            inputs: Seq::empty(),
            next_state: Seq::empty(),
        }
    }

    /// The scanner after one more character, or the kind of error that the
    /// character is.
    pub open spec fn step(self, ch: char) -> Result<Scan, SyntaxErrorKind> {
        if is_blank(ch) {
            Ok(self)
        } else if ch == ',' {
            match self.phase {
                Phase::State => Ok(
                    Scan { phase: Phase::Input, state: self.token, token: Seq::empty(), ..self },
                ),
                Phase::Input => Ok(
                    Scan { inputs: self.inputs.push(self.token), token: Seq::empty(), ..self },
                ),
                Phase::NextState => Ok(
                    Scan {
                        phase: Phase::Output,
                        next_state: self.token,
                        token: Seq::empty(),
                        ..self
                    },
                ),
                Phase::Output => Err(SyntaxErrorKind::ExpectedNewline),
            }
        } else if ch == '>' {
            match self.phase {
                Phase::Input => Ok(
                    Scan {
                        phase: Phase::NextState,
                        inputs: self.inputs.push(self.token),
                        token: Seq::empty(),
                        ..self
                    },
                ),
                _ => Err(SyntaxErrorKind::UnexpectedArrow),
            }
        } else if ch == '\n' {
            match self.phase {
                Phase::Output => Ok(
                    Scan::at_line_start(
                        self.rows + expand(self.state, self.inputs, self.next_state, self.token),
                    ),
                ),
                _ => Err(SyntaxErrorKind::UnexpectedNewline),
            }
        } else {
            Ok(Scan { token: self.token.push(ch), ..self })
        }
    }
}

/// The 1-based number of the line on which the character after `before` stands.
pub open spec fn line_of(before: Seq<char>) -> nat
    decreases before.len(),
{
    if before.len() == 0 {
        1
    } else if before.last() == '\n' {
        line_of(before.drop_last()) + 1
    } else {
        line_of(before.drop_last())
    }
}

/// The 0-based column of the character after `before`: how many characters
/// stand between it and the start of its line.
pub open spec fn column_of(before: Seq<char>) -> nat
    decreases before.len(),
{
    if before.len() == 0 || before.last() == '\n' {
        0
    } else {
        column_of(before.drop_last()) + 1
    }
}

/// The scanner after all of `text`, or the first error in it, placed at the
/// character that caused it.
pub open spec fn scan(text: Seq<char>) -> Result<Scan, SyntaxError>
    decreases text.len(),
{
    if text.len() == 0 {
        Ok(Scan::at_line_start(Seq::empty()))
    } else {
        let before = text.drop_last();
        match scan(before) {
            Err(e) => Err(e),
            Ok(s) => match s.step(text.last()) {
                Ok(next) => Ok(next),
                Err(kind) => Err(
                    SyntaxError { kind, line: line_of(before), column: column_of(before) },
                ),
            },
        }
    }
}

/// What a description means: the transitions of its complete lines, or its
/// first syntax error. A last line that no newline ends is checked like any
/// other and then left out.
pub open spec fn parse(text: Seq<char>) -> Result<Seq<Transition>, SyntaxError> {
    match scan(text) {
        Ok(s) => Ok(s.rows),
        Err(e) => Err(e),
    }
}

/// Once a prefix of the text holds an error, that error is the result for the
/// whole text: the scanner stops at the first offending character.
pub proof fn lemma_first_error_stands(text: Seq<char>, n: int)
    requires
        0 <= n <= text.len(),
        scan(text.take(n)) is Err,
    ensures
        scan(text) == scan(text.take(n)),
    decreases text.len() - n,
{
    if n < text.len() {
        assert(text.take(n + 1).drop_last() =~= text.take(n));
        lemma_first_error_stands(text, n + 1);
    } else {
        assert(text.take(n) =~= text);
    }
}

} // verus!
