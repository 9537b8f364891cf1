//! The transition table and what can be asked of it.

use vstd::prelude::*;
use crate::counts::{
    count_map, distinct, lemma_distinct_len, lemma_distinct_members, occurrences, tally, CountMap,
};
use crate::emit::{
    array_decl, array_items, c_source, count_char, count_char_in_all, includes,
    lemma_one_literal_per_item, main_routine, quoted, render_c, MATCHER_BODY, MATCHER_OPEN,
};
use crate::error::{MachineError, SyntaxError, SyntaxErrorKind};
use crate::listing::{listing, push_row};
use crate::scan::{
    column_of, expand, lemma_first_error_stands, line_of, parse, scan, Phase, Scan, Transition,
};
use crate::text::texts;

verus! {

/// The rows that four parallel columns stand for. The first column decides how
/// many there are.
pub open spec fn rows_of(
    states: Seq<String>,
    inputs: Seq<String>,
    next_states: Seq<String>,
    outputs: Seq<String>,
) -> Seq<Transition> {
    Seq::new(
        states.len(),
        |i: int|
            Transition {
                state: states[i]@,
                input: inputs[i]@,
                next_state: next_states[i]@,
                output: outputs[i]@,
            },
    )
}

/// The state column of a table.
pub open spec fn states_of(rows: Seq<Transition>) -> Seq<Seq<char>> {
    Seq::new(rows.len(), |i: int| rows[i].state)
}

/// The input column of a table.
pub open spec fn inputs_of(rows: Seq<Transition>) -> Seq<Seq<char>> {
    Seq::new(rows.len(), |i: int| rows[i].input)
}

/// The next-state column of a table.
pub open spec fn next_states_of(rows: Seq<Transition>) -> Seq<Seq<char>> {
    Seq::new(rows.len(), |i: int| rows[i].next_state)
}

/// The output column of a table.
pub open spec fn outputs_of(rows: Seq<Transition>) -> Seq<Seq<char>> {
    Seq::new(rows.len(), |i: int| rows[i].output)
}

/// Whether every state of the table has as many rows as the table has
/// different inputs. Only the numbers are compared: which inputs a state
/// handles is not looked at.
pub open spec fn is_complete(rows: Seq<Transition>) -> bool {
    forall|i: int|
        0 <= i < rows.len() ==> occurrences(states_of(rows), #[trigger] states_of(rows)[i])
            == inputs_of(rows).to_set().len()
}

/// The C source for a table: the program whose four arrays are the four
/// columns, one entry per row and in row order, and whose matching routine
/// starts in the state of the first row.
pub open spec fn c_program(rows: Seq<Transition>, editline: bool) -> Seq<char> {
    c_source(states_of(rows), inputs_of(rows), next_states_of(rows), outputs_of(rows), editline)
}

/// In both variants each of the four arrays has as many entries as the table
/// has rows, and the routine starts with the literal of the first row's state.
pub proof fn lemma_program_holds_the_table(rows: Seq<Transition>, editline: bool)
    requires
        rows.len() > 0,
    ensures
        c_program(rows, editline) == includes(editline) + array_decl(
            "states"@,
            states_of(rows),
        ) + array_decl("inputs"@, inputs_of(rows)) + array_decl(
            "ostates"@,
            next_states_of(rows),
        ) + array_decl("outputs"@, outputs_of(rows)) + (MATCHER_OPEN@ + quoted(rows[0].state)
            + MATCHER_BODY@) + main_routine(editline),
        states_of(rows).len() == rows.len(),
        inputs_of(rows).len() == rows.len(),
        next_states_of(rows).len() == rows.len(),
        outputs_of(rows).len() == rows.len(),
        count_char(array_items(states_of(rows)), '"') == 2 * rows.len() + count_char_in_all(
            states_of(rows),
            '"',
        ),
        count_char(array_items(inputs_of(rows)), '"') == 2 * rows.len() + count_char_in_all(
            inputs_of(rows),
            '"',
        ),
        count_char(array_items(next_states_of(rows)), '"') == 2 * rows.len() + count_char_in_all(
            next_states_of(rows),
            '"',
        ),
        count_char(array_items(outputs_of(rows)), '"') == 2 * rows.len() + count_char_in_all(
            outputs_of(rows),
            '"',
        ),
{
    lemma_one_literal_per_item(states_of(rows));
    lemma_one_literal_per_item(inputs_of(rows));
    lemma_one_literal_per_item(next_states_of(rows));
    lemma_one_literal_per_item(outputs_of(rows));
}

/// A transition table: four columns of equal length, one entry of each per
/// transition, in the order in which the description gave them. The state of
/// the first row is the initial state.
#[derive(Debug, PartialEq)]
pub struct Machine {
    inputs: Vec<String>,
    outputs: Vec<String>,
    states: Vec<String>,
    ostates: Vec<String>,
}

impl View for Machine {
    type V = Seq<Transition>;

    closed spec fn view(&self) -> Seq<Transition> {
        rows_of(self.states@, self.inputs@, self.ostates@, self.outputs@)
    }
}

impl Default for Machine {
    /// The table without rows.
    fn default() -> (m: Machine)
        ensures
            m@ == Seq::<Transition>::empty(),
    {
        let m = Machine {
            inputs: Vec::new(),
            outputs: Vec::new(),
            states: Vec::new(),
            ostates: Vec::new(),
        };
        assert(m@ =~= Seq::<Transition>::empty());
        m
    }
}

/// Appends to the four columns the rows that a line with these fields stands
/// for: one per input.
fn commit_line(
    states: &mut Vec<String>,
    inputs: &mut Vec<String>,
    next_states: &mut Vec<String>,
    outputs: &mut Vec<String>,
    state: &String,
    line_inputs: &Vec<String>,
    next_state: &String,
    output: &String,
)
    requires
        old(states).len() == old(inputs).len(),
        old(states).len() == old(next_states).len(),
        old(states).len() == old(outputs).len(),
    ensures
        final(states).len() == final(inputs).len(),
        final(states).len() == final(next_states).len(),
        final(states).len() == final(outputs).len(),
        rows_of(final(states)@, final(inputs)@, final(next_states)@, final(outputs)@) == rows_of(
            old(states)@,
            old(inputs)@,
            old(next_states)@,
            old(outputs)@,
        ) + expand(state@, texts(line_inputs@), next_state@, output@),
{
    let ghost before = rows_of(states@, inputs@, next_states@, outputs@);
    let ghost all = texts(line_inputs@);
    let mut j: usize = 0;
    while j < line_inputs.len()
        invariant
            j <= line_inputs.len(),
            all == texts(line_inputs@),
            states.len() == inputs.len(),
            states.len() == next_states.len(),
            states.len() == outputs.len(),
            rows_of(states@, inputs@, next_states@, outputs@) == before + expand(
                state@,
                all.take(j as int),
                next_state@,
                output@,
            ),
        decreases line_inputs.len() - j,
    {
        let ghost rows = rows_of(states@, inputs@, next_states@, outputs@);
        states.push(state.clone());
        inputs.push(line_inputs[j].clone());
        next_states.push(next_state.clone());
        outputs.push(output.clone());
        assert(rows_of(states@, inputs@, next_states@, outputs@) =~= rows.push(
            Transition {
                state: state@,
                input: all[j as int],
                next_state: next_state@,
                output: output@,
            },
        ));
        assert(before + expand(state@, all.take(j + 1), next_state@, output@) =~= (before + expand(
            state@,
            all.take(j as int),
            next_state@,
            output@,
        )).push(
            Transition {
                state: state@,
                input: all[j as int],
                next_state: next_state@,
                output: output@,
            },
        ));
        j = j + 1;
    }
    assert(all.take(j as int) =~= all);
}

impl Machine {
    #[verifier::type_invariant]
    spec fn columns_agree(self) -> bool {
        &&& self.states.len() == self.inputs.len()
        &&& self.states.len() == self.ostates.len()
        &&& self.states.len() == self.outputs.len()
    }

    /// Reads a description. The result is the table of its complete lines, or
    /// its first syntax error with the line and column of the character that
    /// caused it.
    pub fn from_str(s: &str) -> (result: Result<Machine, MachineError>)
        ensures
            match parse(s@) {
                Ok(rows) => result is Ok && result->Ok_0@ == rows,
                Err(e) => result is Err && result->Err_0@ == e,
            },
    {
        // The number of characters bounds the line and column counters.
        let total = s.unicode_len();
        let mut states: Vec<String> = Vec::new();
        let mut inputs: Vec<String> = Vec::new();
        let mut next_states: Vec<String> = Vec::new();
        let mut outputs: Vec<String> = Vec::new();
        let mut buf = String::new();
        let mut state = String::new();
        let mut line_inputs: Vec<String> = Vec::new();
        let mut next_state = String::new();
        let mut phase = Phase::State;
        let mut line: usize = 1;
        let mut offset: usize = 0;
        assert(rows_of(states@, inputs@, next_states@, outputs@) =~= Seq::<Transition>::empty());
        assert(texts(line_inputs@) =~= Seq::<Seq<char>>::empty());
        assert(s@.take(0) =~= Seq::<char>::empty());
        for ch in it: s.chars()
            invariant
                it.seq() == s@,
                total == s@.len(),
                states.len() == inputs.len(),
                states.len() == next_states.len(),
                states.len() == outputs.len(),
                scan(s@.take(it.index() as int)) == Ok::<Scan, SyntaxError>(
                    Scan {
                        rows: rows_of(states@, inputs@, next_states@, outputs@),
                        phase,
                        token: buf@,
                        state: state@,
                        inputs: texts(line_inputs@),
                        next_state: next_state@,
                    },
                ),
                line == line_of(s@.take(it.index() as int)),
                offset == column_of(s@.take(it.index() as int)),
                offset <= it.index(),
                line + (if phase == Phase::State { 0int } else { 1int }) <= it.index() + 1,
        {
            let ghost before = s@.take(it.index() as int);
            let ghost upto = s@.take(it.index() + 1);
            let ghost here = Scan {
                rows: rows_of(states@, inputs@, next_states@, outputs@),
                phase,
                token: buf@,
                state: state@,
                inputs: texts(line_inputs@),
                next_state: next_state@,
            };
            assert(upto.drop_last() =~= before);
            assert(upto.last() == ch);
            let mut ended = false;
            if ch == ' ' || ch == '\t' || ch == '\r' {
            } else if ch == ',' {
                match phase {
                    Phase::State => {
                        state = buf;
                        buf = String::new();
                        phase = Phase::Input;
                    },
                    Phase::Input => {
                        let ghost closed = texts(line_inputs@);
                        line_inputs.push(buf);
                        buf = String::new();
                        assert(texts(line_inputs@) =~= closed.push(here.token));
                    },
                    Phase::NextState => {
                        next_state = buf;
                        buf = String::new();
                        phase = Phase::Output;
                    },
                    Phase::Output => {
                        proof {
                            lemma_first_error_stands(s@, it.index() + 1);
                        }
                        return Err(
                            MachineError { kind: SyntaxErrorKind::ExpectedNewline, line, offset },
                        );
                    },
                }
            } else if ch == '>' {
                match phase {
                    Phase::Input => {
                        let ghost closed = texts(line_inputs@);
                        line_inputs.push(buf);
                        buf = String::new();
                        assert(texts(line_inputs@) =~= closed.push(here.token));
                        phase = Phase::NextState;
                    },
                    _ => {
                        proof {
                            lemma_first_error_stands(s@, it.index() + 1);
                        }
                        return Err(
                            MachineError { kind: SyntaxErrorKind::UnexpectedArrow, line, offset },
                        );
                    },
                }
            } else if ch == '\n' {
                match phase {
                    Phase::Output => {
                        commit_line(
                            &mut states,
                            &mut inputs,
                            &mut next_states,
                            &mut outputs,
                            &state,
                            &line_inputs,
                            &next_state,
                            &buf,
                        );
                        buf = String::new();
                        state = String::new();
                        next_state = String::new();
                        line_inputs = Vec::new();
                        assert(texts(line_inputs@) =~= Seq::<Seq<char>>::empty());
                        phase = Phase::State;
                        line = line + 1;
                        ended = true;
                    },
                    _ => {
                        proof {
                            lemma_first_error_stands(s@, it.index() + 1);
                        }
                        return Err(
                            MachineError { kind: SyntaxErrorKind::UnexpectedNewline, line, offset },
                        );
                    },
                }
            } else {
                buf.push(ch);
            }
            if ended {
                offset = 0;
            } else {
                offset = offset + 1;
            }
        }
        assert(s@.take(s@.len() as int) =~= s@);
        Ok(Machine { inputs, outputs, states, ostates: next_states })
    }

    /// The table as text: one line `state, input > next, output` per row.
    pub fn listing(&self) -> (out: String)
        ensures
            out@ == listing(self@),
    {
        proof {
            use_type_invariant(self);
        }
        let mut out = String::new();
        let mut i: usize = 0;
        while i < self.states.len()
            invariant
                i <= self.states.len(),
                self.states.len() == self.inputs.len(),
                self.states.len() == self.ostates.len(),
                self.states.len() == self.outputs.len(),
                out@ == listing(self@.take(i as int)),
            decreases self.states.len() - i,
        {
            assert(self@.take(i + 1).drop_last() =~= self@.take(i as int));
            push_row(
                &mut out,
                self.states[i].as_str(),
                self.inputs[i].as_str(),
                self.ostates[i].as_str(),
                self.outputs[i].as_str(),
            );
            i = i + 1;
        }
        assert(self@.take(i as int) =~= self@);
        out
    }

    /// The C source of the transducer in the plain variant, which reads its
    /// lines from standard input.
    pub fn to_c(&self) -> (out: String)
        requires
            self@.len() > 0,
        ensures
            out@ == c_program(self@, false),
    {
        self.render(false)
    }

    /// The C source of the transducer in the interactive variant, which
    /// prompts for its lines when it runs on a terminal.
    pub fn to_c_editline(&self) -> (out: String)
        requires
            self@.len() > 0,
        ensures
            out@ == c_program(self@, true),
    {
        self.render(true)
    }

    fn render(&self, editline: bool) -> (out: String)
        requires
            self@.len() > 0,
        ensures
            out@ == c_program(self@, editline),
    {
        proof {
            use_type_invariant(self);
            assert(texts(self.states@) =~= states_of(self@));
            assert(texts(self.inputs@) =~= inputs_of(self@));
            assert(texts(self.ostates@) =~= next_states_of(self@));
            assert(texts(self.outputs@) =~= outputs_of(self@));
        }
        render_c(
            self.states.as_slice(),
            self.inputs.as_slice(),
            self.ostates.as_slice(),
            self.outputs.as_slice(),
            editline,
        )
    }

    /// For each state, in order of first appearance, the number of its rows.
    pub fn state_counts(&self) -> (counts: CountMap)
        ensures
            counts@ == tally(states_of(self@)),
    {
        assert(texts(self.states@) =~= states_of(self@));
        count_map(self.states.as_slice())
    }

    /// For each input, in order of first appearance, the number of its rows.
    pub fn input_counts(&self) -> (counts: CountMap)
        ensures
            counts@ == tally(inputs_of(self@)),
    {
        proof {
            use_type_invariant(self);
        }
        assert(texts(self.inputs@) =~= inputs_of(self@));
        count_map(self.inputs.as_slice())
    }

    /// Whether every state has as many rows as there are different inputs in
    /// the table.
    pub fn is_complete(&self) -> (complete: bool)
        ensures
            complete == is_complete(self@),
    {
        let by_state = self.state_counts();
        let by_input = self.input_counts();
        let input_count = by_input.len();
        let ghost states = states_of(self@);
        proof {
            lemma_distinct_len(inputs_of(self@));
            lemma_distinct_members(states);
        }
        let mut j: usize = 0;
        while j < by_state.len()
            invariant
                j <= by_state@.len(),
                states == states_of(self@),
                by_state@ == tally(states),
                input_count == inputs_of(self@).to_set().len(),
                forall|k: int| 0 <= k < j ==> (#[trigger] by_state@[k]).1 == input_count,
                forall|key: Seq<char>| #[trigger]
                    distinct(states).contains(key) <==> states.contains(key),
            decreases by_state@.len() - j,
        {
            if by_state.count(j) != input_count {
                proof {
                    let key = distinct(states)[j as int];
                    assert(by_state@[j as int].0 == key);
                    assert(distinct(states).contains(key));
                    let i = choose|i: int| 0 <= i < states.len() && states[i] == key;
                    assert(occurrences(states, states[i]) != input_count);
                }
                return false;
            }
            j = j + 1;
        }
        proof {
            assert forall|i: int| 0 <= i < self@.len() implies occurrences(
                states,
                #[trigger] states[i],
            ) == input_count by {
                let key = states[i];
                assert(states.contains(key));
                assert(distinct(states).contains(key));
                let k = choose|k: int|
                    0 <= k < distinct(states).len() && distinct(
                        states,
                    )[k] == key;
                assert(by_state@[k].1 == input_count);
            }
        }
        true
    }

    /// The number of rows.
    pub fn len(&self) -> (n: usize)
        ensures
            n == self@.len(),
    {
        self.states.len()
    }
}

} // verus!
