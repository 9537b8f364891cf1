//! The canonical text of a table: one line per transition.

use vstd::prelude::*;
use vstd::string::StringExecFns;
use crate::scan::Transition;

verus! {

/// The line of one transition: `state, input > next, output` and a newline.
pub open spec fn row_line(row: Transition) -> Seq<char> {
    row.state + seq![',', ' '] + row.input + seq![' ', '>', ' '] + row.next_state + seq![',', ' ']
        + row.output + seq!['\n']
}

/// The lines of all transitions, in order.
pub open spec fn listing(rows: Seq<Transition>) -> Seq<char>
    decreases rows.len(),
{
    if rows.len() == 0 {
        Seq::empty()
    } else {
        listing(rows.drop_last()) + row_line(rows.last())
    }
}

/// Appends the line of the transition with these four fields.
pub fn push_row(out: &mut String, state: &str, input: &str, next_state: &str, output: &str)
    ensures
        final(out)@ == old(out)@ + row_line(
            Transition {
                state: state@,
                input: input@,
                next_state: next_state@,
                output: output@,
            },
        ),
{
    out.append(state);
    out.push(',');
    out.push(' ');
    out.append(input);
    out.push(' ');
    out.push('>');
    out.push(' ');
    out.append(next_state);
    out.push(',');
    out.push(' ');
    out.append(output);
    out.push('\n');
    assert(out@ =~= old(out)@ + row_line(
        Transition { state: state@, input: input@, next_state: next_state@, output: output@ },
    ));
}

} // verus!
