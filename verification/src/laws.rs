//! What holds of the grammar and of the listing, whatever the text.

use vstd::prelude::*;
use crate::error::{SyntaxError, SyntaxErrorKind};
use crate::listing::{listing, row_line};
use crate::scan::{
    expand, is_blank, is_delimiter, line_of, parse, scan, Phase, Scan, Transition,
};

verus! {

/// A token that the scanner can read back as it stands: it holds no blank and
/// no delimiter.
pub open spec fn is_clean(token: Seq<char>) -> bool {
    forall|i: int|
        0 <= i < token.len() ==> !is_blank(#[trigger] token[i]) && !is_delimiter(token[i])
}

/// Every token of the list is clean.
pub open spec fn all_clean(tokens: Seq<Seq<char>>) -> bool {
    forall|i: int| 0 <= i < tokens.len() ==> is_clean(#[trigger] tokens[i])
}

/// The four tokens of the row are clean.
pub open spec fn row_is_clean(row: Transition) -> bool {
    &&& is_clean(row.state)
    &&& is_clean(row.input)
    &&& is_clean(row.next_state)
    &&& is_clean(row.output)
}

/// Every row of the table is clean.
pub open spec fn rows_are_clean(rows: Seq<Transition>) -> bool {
    forall|i: int| 0 <= i < rows.len() ==> row_is_clean(#[trigger] rows[i])
}

/// Everything the scanner holds is clean.
pub open spec fn scan_is_clean(s: Scan) -> bool {
    &&& rows_are_clean(s.rows)
    &&& is_clean(s.token)
    &&& is_clean(s.state)
    &&& all_clean(s.inputs)
    &&& is_clean(s.next_state)
}

/// The inputs of a line as text: separated by a comma and a blank.
pub open spec fn input_list(inputs: Seq<Seq<char>>) -> Seq<char>
    decreases inputs.len(),
{
    if inputs.len() == 0 {
        Seq::empty()
    } else if inputs.len() == 1 {
        inputs[0]
    } else {
        input_list(inputs.drop_last()) + seq![',', ' '] + inputs.last()
    }
}

/// A line that names several inputs at once:
/// `state, input, input > next, output` and a newline.
pub open spec fn group_line(
    state: Seq<char>,
    inputs: Seq<Seq<char>>,
    next_state: Seq<char>,
    output: Seq<char>,
) -> Seq<char> {
    state + seq![',', ' '] + input_list(inputs) + seq![' ', '>', ' '] + next_state + seq![',', ' ']
        + output + seq!['\n']
}

/// The scanner `s` after the further characters `text`, or `None` if one of
/// them is an error.
pub open spec fn resume(s: Scan, text: Seq<char>) -> Option<Scan>
    decreases text.len(),
{
    if text.len() == 0 {
        Some(s)
    } else {
        match resume(s, text.drop_last()) {
            None => None,
            Some(m) => match m.step(text.last()) {
                Ok(next) => Some(next),
                Err(_) => None,
            },
        }
    }
}

/// Scanning two texts in a row is scanning the first and resuming with the
/// second.
pub proof fn lemma_resume_concat(s: Scan, a: Seq<char>, b: Seq<char>)
    ensures
        resume(s, a + b) == match resume(s, a) {
            Some(m) => resume(m, b),
            None => None,
        },
    decreases b.len(),
{
    if b.len() == 0 {
        assert(a + b =~= a);
    } else {
        assert((a + b).drop_last() =~= a + b.drop_last());
        assert((a + b).last() == b.last());
        lemma_resume_concat(s, a, b.drop_last());
    }
}

/// Where a text scans without error, so does any text that goes on from there
/// without error, with the result of resuming.
pub proof fn lemma_scan_resume(a: Seq<char>, b: Seq<char>)
    requires
        scan(a) is Ok,
        resume(scan(a)->Ok_0, b) is Some,
    ensures
        scan(a + b) == Ok::<Scan, SyntaxError>(resume(scan(a)->Ok_0, b)->Some_0),
    decreases b.len(),
{
    if b.len() == 0 {
        assert(a + b =~= a);
    } else {
        assert((a + b).drop_last() =~= a + b.drop_last());
        assert((a + b).last() == b.last());
        lemma_scan_resume(a, b.drop_last());
    }
}

/// A clean token is taken up character by character into the field being
/// read.
pub proof fn lemma_resume_token(s: Scan, token: Seq<char>)
    requires
        is_clean(token),
    ensures
        resume(s, token) == Some(Scan { token: s.token + token, ..s }),
    decreases token.len(),
{
    if token.len() == 0 {
        assert(s.token + token =~= s.token);
    } else {
        let front = token.drop_last();
        assert(is_clean(front)) by {
            assert forall|i: int| 0 <= i < front.len() implies !is_blank(#[trigger] front[i])
                && !is_delimiter(front[i]) by {
                assert(front[i] == token[i]);
            }
        }
        lemma_resume_token(s, front);
        let ch = token[token.len() - 1];
        assert(!is_blank(ch) && !is_delimiter(ch));
        assert((s.token + front).push(ch) =~= s.token + token);
    }
}

/// Two further characters are two steps.
pub proof fn lemma_resume_two(s: Scan, a: char, b: char)
    ensures
        resume(s, seq![a, b]) == match s.step(a) {
            Ok(m) => match m.step(b) {
                Ok(next) => Some(next),
                Err(_) => None,
            },
            Err(_) => None,
        },
{
    let text = seq![a, b];
    assert(text.drop_last() =~= seq![a]);
    assert(seq![a].drop_last() =~= Seq::<char>::empty());
    assert(resume(s, Seq::<char>::empty()) == Some(s));
    assert(resume(s, seq![a]) == match s.step(a) {
        Ok(m) => Some(m),
        Err(_) => None,
    });
}

/// Three further characters are three steps.
pub proof fn lemma_resume_three(s: Scan, a: char, b: char, c: char)
    ensures
        resume(s, seq![a, b, c]) == match resume(s, seq![a, b]) {
            Some(m) => match m.step(c) {
                Ok(next) => Some(next),
                Err(_) => None,
            },
            None => None,
        },
{
    assert(seq![a, b, c].drop_last() =~= seq![a, b]);
}

/// In the input field, a list of clean inputs closes all of them but the
/// last, which is left as the field being read.
pub proof fn lemma_resume_input_list(s: Scan, inputs: Seq<Seq<char>>)
    requires
        s.phase == Phase::Input,
        s.token.len() == 0,
        inputs.len() >= 1,
        all_clean(inputs),
    ensures
        resume(s, input_list(inputs)) == Some(
            Scan { inputs: s.inputs + inputs.drop_last(), token: inputs.last(), ..s },
        ),
    decreases inputs.len(),
{
    let last = inputs.last();
    assert(is_clean(last)) by {
        assert(inputs[inputs.len() - 1] == last);
    }
    if inputs.len() == 1 {
        assert(is_clean(inputs[0]));
        lemma_resume_token(s, inputs[0]);
        assert(s.token + inputs[0] =~= inputs[0]);
        assert(s.inputs + inputs.drop_last() =~= s.inputs);
    } else {
        let front = inputs.drop_last();
        assert(all_clean(front)) by {
            assert forall|i: int| 0 <= i < front.len() implies is_clean(#[trigger] front[i]) by {
                assert(front[i] == inputs[i]);
            }
        }
        lemma_resume_input_list(s, front);
        let m1 = Scan { inputs: s.inputs + front.drop_last(), token: front.last(), ..s };
        let m2 = Scan { inputs: m1.inputs.push(m1.token), token: Seq::empty(), ..m1 };
        lemma_resume_two(m1, ',', ' ');
        assert(m1.step(',') == Ok::<Scan, SyntaxErrorKind>(m2));
        assert(m2.step(' ') == Ok::<Scan, SyntaxErrorKind>(m2));
        lemma_resume_concat(s, input_list(front), seq![',', ' ']);
        lemma_resume_token(m2, last);
        lemma_resume_concat(s, input_list(front) + seq![',', ' '], last);
        assert(m2.inputs =~= s.inputs + front);
        assert(m2.token + last =~= last);
    }
}

/// From the start of a line, a line of clean fields with at least one input
/// adds one row per input and leaves the scanner at the start of the next
/// line.
pub proof fn lemma_resume_line(
    rows: Seq<Transition>,
    state: Seq<char>,
    inputs: Seq<Seq<char>>,
    next_state: Seq<char>,
    output: Seq<char>,
)
    requires
        is_clean(state),
        inputs.len() >= 1,
        all_clean(inputs),
        is_clean(next_state),
        is_clean(output),
    ensures
        resume(Scan::at_line_start(rows), group_line(state, inputs, next_state, output)) == Some(
            Scan::at_line_start(rows + expand(state, inputs, next_state, output)),
        ),
{
    let s0 = Scan::at_line_start(rows);
    let s1 = Scan { token: state, ..s0 };
    let s2 = Scan { phase: Phase::Input, state, ..s0 };
    let s3 = Scan { inputs: inputs.drop_last(), token: inputs.last(), ..s2 };
    let s4 = Scan { phase: Phase::NextState, inputs, token: Seq::empty(), ..s2 };
    let s5 = Scan { token: next_state, ..s4 };
    let s6 = Scan { phase: Phase::Output, next_state, token: Seq::empty(), ..s4 };
    let s7 = Scan { token: output, ..s6 };
    let s8 = Scan::at_line_start(rows + expand(state, inputs, next_state, output));
    let t1 = state;
    let t2 = t1 + seq![',', ' '];
    let t3 = t2 + input_list(inputs);
    let t4 = t3 + seq![' ', '>', ' '];
    let t5 = t4 + next_state;
    let t6 = t5 + seq![',', ' '];
    let t7 = t6 + output;
    let t8 = t7 + seq!['\n'];
    assert(resume(s0, t1) == Some(s1)) by {
        lemma_resume_token(s0, state);
        assert(s0.token + state =~= state);
    }
    assert(resume(s0, t2) == Some(s2)) by {
        lemma_resume_two(s1, ',', ' ');
        assert(s1.step(',') == Ok::<Scan, SyntaxErrorKind>(s2));
        lemma_resume_concat(s0, t1, seq![',', ' ']);
    }
    assert(resume(s0, t3) == Some(s3)) by {
        lemma_resume_input_list(s2, inputs);
        assert(s2.inputs + inputs.drop_last() =~= inputs.drop_last());
        lemma_resume_concat(s0, t2, input_list(inputs));
    }
    assert(resume(s0, t4) == Some(s4)) by {
        lemma_resume_two(s3, ' ', '>');
        lemma_resume_three(s3, ' ', '>', ' ');
        assert(s3.inputs.push(s3.token) =~= inputs);
        assert(s3.step('>') == Ok::<Scan, SyntaxErrorKind>(s4));
        lemma_resume_concat(s0, t3, seq![' ', '>', ' ']);
    }
    assert(resume(s0, t5) == Some(s5)) by {
        lemma_resume_token(s4, next_state);
        assert(s4.token + next_state =~= next_state);
        lemma_resume_concat(s0, t4, next_state);
    }
    assert(resume(s0, t6) == Some(s6)) by {
        lemma_resume_two(s5, ',', ' ');
        assert(s5.step(',') == Ok::<Scan, SyntaxErrorKind>(s6));
        lemma_resume_concat(s0, t5, seq![',', ' ']);
    }
    assert(resume(s0, t7) == Some(s7)) by {
        lemma_resume_token(s6, output);
        assert(s6.token + output =~= output);
        lemma_resume_concat(s0, t6, output);
    }
    assert(resume(s0, t8) == Some(s8)) by {
        assert(seq!['\n'].drop_last() =~= Seq::<char>::empty());
        assert(resume(s7, Seq::<char>::empty()) == Some(s7));
        assert(seq!['\n'].last() == '\n');
        assert(s7.step('\n') == Ok::<Scan, SyntaxErrorKind>(s8));
        assert(resume(s7, seq!['\n']) == Some(s8));
        lemma_resume_concat(s0, t7, seq!['\n']);
    }
    assert(t8 == group_line(state, inputs, next_state, output));
}

/// From the start of a line, the listing of clean rows adds exactly those
/// rows.
pub proof fn lemma_resume_listing(rows: Seq<Transition>, more: Seq<Transition>)
    requires
        rows_are_clean(more),
    ensures
        resume(Scan::at_line_start(rows), listing(more)) == Some(
            Scan::at_line_start(rows + more),
        ),
    decreases more.len(),
{
    if more.len() == 0 {
        assert(rows + more =~= rows);
    } else {
        let front = more.drop_last();
        let last = more.last();
        assert(rows_are_clean(front)) by {
            assert forall|i: int| 0 <= i < front.len() implies row_is_clean(
                #[trigger] front[i],
            ) by {
                assert(front[i] == more[i]);
            }
        }
        assert(row_is_clean(last)) by {
            assert(more[more.len() - 1] == last);
        }
        lemma_resume_listing(rows, front);
        let one = seq![last.input];
        assert(is_clean(one[0]));
        lemma_resume_line(rows + front, last.state, one, last.next_state, last.output);
        assert(group_line(last.state, one, last.next_state, last.output) == row_line(last));
        assert(expand(last.state, one, last.next_state, last.output) =~= seq![last]);
        assert(rows + front + seq![last] =~= rows + more);
        lemma_resume_concat(Scan::at_line_start(rows), listing(front), row_line(last));
    }
}

/// A step from clean to clean: no character makes a token unclean.
pub proof fn lemma_step_keeps_clean(s: Scan, ch: char)
    requires
        scan_is_clean(s),
        s.step(ch) is Ok,
    ensures
        scan_is_clean(s.step(ch)->Ok_0),
{
    let next = s.step(ch)->Ok_0;
    if is_blank(ch) {
    } else if ch == ',' || ch == '>' {
        if s.phase == Phase::Input {
            assert forall|i: int| 0 <= i < next.inputs.len() implies is_clean(
                #[trigger] next.inputs[i],
            ) by {
                if i < s.inputs.len() {
                    assert(next.inputs[i] == s.inputs[i]);
                }
            }
        }
    } else if ch == '\n' {
        let added = expand(s.state, s.inputs, s.next_state, s.token);
        assert forall|i: int| 0 <= i < next.rows.len() implies row_is_clean(
            #[trigger] next.rows[i],
        ) by {
            if i < s.rows.len() {
                assert(next.rows[i] == s.rows[i]);
            } else {
                assert(next.rows[i] == added[i - s.rows.len()]);
                assert(is_clean(s.inputs[i - s.rows.len()]));
            }
        }
    } else {
        assert forall|i: int| 0 <= i < next.token.len() implies !is_blank(
            #[trigger] next.token[i],
        ) && !is_delimiter(next.token[i]) by {
            if i < s.token.len() {
                assert(next.token[i] == s.token[i]);
            }
        }
    }
}

/// Whatever the text, the scanner holds clean tokens only.
pub proof fn lemma_scan_is_clean(text: Seq<char>)
    requires
        scan(text) is Ok,
    ensures
        scan_is_clean(scan(text)->Ok_0),
    decreases text.len(),
{
    if text.len() > 0 {
        lemma_scan_is_clean(text.drop_last());
        lemma_step_keeps_clean(scan(text.drop_last())->Ok_0, text.last());
    }
}

/// The tokens of a table that was read from text hold no blank and no
/// delimiter.
pub proof fn lemma_parsed_rows_are_clean(text: Seq<char>)
    requires
        parse(text) is Ok,
    ensures
        rows_are_clean(parse(text)->Ok_0),
{
    lemma_scan_is_clean(text);
}

/// The listing of a table with clean tokens reads back as that table.
pub proof fn lemma_listing_reads_back(rows: Seq<Transition>)
    requires
        rows_are_clean(rows),
    ensures
        parse(listing(rows)) == Ok::<Seq<Transition>, SyntaxError>(rows),
{
    let empty = Seq::<char>::empty();
    lemma_resume_listing(Seq::empty(), rows);
    lemma_scan_resume(empty, listing(rows));
    assert(empty + listing(rows) =~= listing(rows));
    assert(Seq::<Transition>::empty() + rows =~= rows);
}

/// Reading a text and listing the table gives a text of the same meaning in
/// normal form: it has one line per transition, and it reads back as the same
/// table.
pub proof fn lemma_listing_is_normal_form(text: Seq<char>)
    requires
        parse(text) is Ok,
    ensures
        parse(listing(parse(text)->Ok_0)) == parse(text),
        listing(parse(text)->Ok_0).len() == 0 <==> parse(text)->Ok_0.len() == 0,
{
    lemma_parsed_rows_are_clean(text);
    lemma_listing_reads_back(parse(text)->Ok_0);
    let rows = parse(text)->Ok_0;
    if rows.len() > 0 {
        assert(row_line(rows.last()).len() > 0);
    }
}

/// After complete lines, a line that names several inputs reads as the lines
/// that name them one by one, in the same order: both add one row per input.
pub proof fn lemma_group_line_is_its_expansion(
    before: Seq<char>,
    rows: Seq<Transition>,
    state: Seq<char>,
    inputs: Seq<Seq<char>>,
    next_state: Seq<char>,
    output: Seq<char>,
)
    requires
        scan(before) == Ok::<Scan, SyntaxError>(Scan::at_line_start(rows)),
        is_clean(state),
        inputs.len() >= 1,
        all_clean(inputs),
        is_clean(next_state),
        is_clean(output),
    ensures
        parse(before + group_line(state, inputs, next_state, output)) == Ok::<
            Seq<Transition>,
            SyntaxError,
        >(rows + expand(state, inputs, next_state, output)),
        parse(before + listing(expand(state, inputs, next_state, output))) == parse(
            before + group_line(state, inputs, next_state, output),
        ),
{
    let added = expand(state, inputs, next_state, output);
    lemma_resume_line(rows, state, inputs, next_state, output);
    lemma_scan_resume(before, group_line(state, inputs, next_state, output));
    assert(rows_are_clean(added)) by {
        assert forall|i: int| 0 <= i < added.len() implies row_is_clean(#[trigger] added[i]) by {
            assert(is_clean(inputs[i]));
        }
    }
    lemma_resume_listing(rows, added);
    lemma_scan_resume(before, listing(added));
}

/// The text without its blanks, tabs and carriage returns.
pub open spec fn without_blanks(text: Seq<char>) -> Seq<char>
    decreases text.len(),
{
    if text.len() == 0 {
        Seq::empty()
    } else if is_blank(text.last()) {
        without_blanks(text.drop_last())
    } else {
        without_blanks(text.drop_last()).push(text.last())
    }
}

/// Blanks do not end lines.
pub proof fn lemma_blanks_keep_lines(text: Seq<char>)
    ensures
        line_of(without_blanks(text)) == line_of(text),
    decreases text.len(),
{
    if text.len() > 0 {
        lemma_blanks_keep_lines(text.drop_last());
        if !is_blank(text.last()) {
            assert(without_blanks(text).drop_last() =~= without_blanks(text.drop_last()));
        }
    }
}

/// Blanks carry no meaning: a text and the same text without them leave the
/// scanner in the same place, or fail with the same kind of error on the same
/// line.
pub proof fn lemma_blanks_carry_no_meaning(text: Seq<char>)
    ensures
        match scan(text) {
            Ok(s) => scan(without_blanks(text)) == Ok::<Scan, SyntaxError>(s),
            Err(e) => scan(without_blanks(text)) is Err && scan(
                without_blanks(text),
            )->Err_0.kind == e.kind && scan(without_blanks(text))->Err_0.line == e.line,
        },
    decreases text.len(),
{
    if text.len() > 0 {
        let front = text.drop_last();
        lemma_blanks_carry_no_meaning(front);
        lemma_blanks_keep_lines(front);
        if !is_blank(text.last()) {
            assert(without_blanks(text).drop_last() =~= without_blanks(front));
            assert(without_blanks(text).last() == text.last());
        }
    }
}

/// One line of a description: a state, the inputs it names, the next state
/// and the output.
pub struct Line {
    pub state: Seq<char>,
    pub inputs: Seq<Seq<char>>,
    pub next_state: Seq<char>,
    pub output: Seq<char>,
}

/// A line that the grammar accepts as it stands: at least one input, and
/// clean fields.
pub open spec fn line_is_well_formed(line: Line) -> bool {
    &&& is_clean(line.state)
    &&& line.inputs.len() >= 1
    &&& all_clean(line.inputs)
    &&& is_clean(line.next_state)
    &&& is_clean(line.output)
}

/// Every line of the list is well formed.
pub open spec fn lines_are_well_formed(lines: Seq<Line>) -> bool {
    forall|i: int| 0 <= i < lines.len() ==> line_is_well_formed(#[trigger] lines[i])
}

/// The text of a description with these lines.
pub open spec fn description(lines: Seq<Line>) -> Seq<char>
    decreases lines.len(),
{
    if lines.len() == 0 {
        Seq::empty()
    } else {
        let last = lines.last();
        description(lines.drop_last()) + group_line(
            last.state,
            last.inputs,
            last.next_state,
            last.output,
        )
    }
}

/// The transitions that these lines stand for: line by line, one per input.
pub open spec fn transitions(lines: Seq<Line>) -> Seq<Transition>
    decreases lines.len(),
{
    if lines.len() == 0 {
        Seq::empty()
    } else {
        let last = lines.last();
        transitions(lines.drop_last()) + expand(
            last.state,
            last.inputs,
            last.next_state,
            last.output,
        )
    }
}

/// A description of well-formed lines leaves the scanner at the start of a
/// line with the transitions of all of them.
pub proof fn lemma_description_reads_as_transitions(lines: Seq<Line>)
    requires
        lines_are_well_formed(lines),
    ensures
        scan(description(lines)) == Ok::<Scan, SyntaxError>(
            Scan::at_line_start(transitions(lines)),
        ),
    decreases lines.len(),
{
    if lines.len() > 0 {
        let front = lines.drop_last();
        let last = lines.last();
        assert(lines_are_well_formed(front)) by {
            assert forall|i: int| 0 <= i < front.len() implies line_is_well_formed(
                #[trigger] front[i],
            ) by {
                assert(front[i] == lines[i]);
            }
        }
        assert(line_is_well_formed(last)) by {
            assert(lines[lines.len() - 1] == last);
        }
        lemma_description_reads_as_transitions(front);
        lemma_resume_line(
            transitions(front),
            last.state,
            last.inputs,
            last.next_state,
            last.output,
        );
        lemma_scan_resume(
            description(front),
            group_line(last.state, last.inputs, last.next_state, last.output),
        );
    }
}

/// The listing of two tables in a row is the two listings in a row.
pub proof fn lemma_listing_concat(a: Seq<Transition>, b: Seq<Transition>)
    ensures
        listing(a + b) == listing(a) + listing(b),
    decreases b.len(),
{
    if b.len() == 0 {
        assert(a + b =~= a);
        assert(listing(a) + listing(b) =~= listing(a));
    } else {
        assert((a + b).drop_last() =~= a + b.drop_last());
        assert((a + b).last() == b.last());
        lemma_listing_concat(a, b.drop_last());
        assert(listing(a) + listing(b.drop_last()) + row_line(b.last()) =~= listing(a) + (listing(
            b.drop_last(),
        ) + row_line(b.last())));
    }
}

/// Reading then listing normalizes a well-formed text. Where the text is,
/// blanks aside, a description of well-formed lines, it reads as their
/// transitions, and its listing has one line per input of each line, in the
/// order of the text: the lines that name several inputs are expanded.
pub proof fn lemma_reading_then_listing_normalizes(text: Seq<char>, lines: Seq<Line>)
    requires
        lines_are_well_formed(lines),
        without_blanks(text) == without_blanks(description(lines)),
    ensures
        parse(text) == Ok::<Seq<Transition>, SyntaxError>(transitions(lines)),
        listing(parse(text)->Ok_0) == listing(transitions(lines)),
        lines.len() > 0 ==> listing(transitions(lines)) == listing(
            transitions(lines.drop_last()),
        ) + listing(
            expand(
                lines.last().state,
                lines.last().inputs,
                lines.last().next_state,
                lines.last().output,
            ),
        ),
{
    lemma_description_reads_as_transitions(lines);
    lemma_blanks_carry_no_meaning(description(lines));
    lemma_blanks_carry_no_meaning(text);
    if lines.len() > 0 {
        let last = lines.last();
        lemma_listing_concat(
            transitions(lines.drop_last()),
            expand(last.state, last.inputs, last.next_state, last.output),
        );
    }
}

} // verus!
