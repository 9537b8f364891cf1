//! Rendering a transition table as C source.
//!
//! The program that comes out holds the table in four parallel arrays of
//! string literals, each closed by `NULL`, and a routine that walks them: from
//! the initial state it looks, in row order, for the first row whose state is
//! the current one and whose input starts the rest of the line, takes it, and
//! starts over. Two variants differ only in how `main` reads its lines.
//!
//! Tokens are written between double quotes as they are. One that holds a
//! quote or a backslash gives source that a C compiler will not take.

use vstd::prelude::*;
use vstd::string::StringExecFns;
use crate::text::texts;

verus! {

/// The headers of the variant that needs the C library only.
pub const INCLUDES_PLAIN: &'static str = "#include <stdio.h>
#include <string.h>

";

/// The headers of the variant that can prompt on a terminal.
pub const INCLUDES_EDITLINE: &'static str = "#include <stdio.h>
#include <string.h>
#include <unistd.h>
#include <editline/readline.h>

";

/// What stands before the name of an array.
pub const ARRAY_OPEN: &'static str = "static char * ";

/// What stands between the name of an array and its entries.
pub const ARRAY_ENTRIES: &'static str = "[] = {
 ";

/// What closes an array: the terminating `NULL` and the brace.
pub const ARRAY_CLOSE: &'static str = ", NULL
};

";

/// The matching routine up to the literal of the initial state.
pub const MATCHER_OPEN: &'static str = "void process_input(const char *input, size_t len) {
  char * state = ";

/// The matching routine after the literal of the initial state.
pub const MATCHER_BODY: &'static str = ";
  size_t strindex = 0;
  while(strindex < len) {
    for (int i = 0; inputs[i] != NULL; i++) {
      size_t step = strlen(inputs[i]);
      if (strncmp(inputs[i], input, step) == 0 &&
        strcmp(state, states[i]) == 0) {
        fprintf(stderr, \"%s -> %s\\n\", state, ostates[i]);
        state = ostates[i];
        printf(\"%s\", outputs[i]);
        strindex+=step;
        input+=step;
        break;
      }
    }
  }
}

";

/// `main` of the plain variant: lines from standard input, one at a time.
pub const MAIN_PLAIN: &'static str = "int main(int argc, char *argv[]) {
  char line[256];          
  while (fgets(line, sizeof(line), stdin) != NULL) {
    size_t size = strcspn(line, \"\\n\");
    line[size] = 0;
    process_input(line, size);
    puts(\"\");
  }

  return 0;
}";

/// `main` of the interactive variant: a prompt on a terminal, else as plain.
pub const MAIN_EDITLINE: &'static str = "int main(int argc, char *argv[]) {
  if (isatty(STDIN_FILENO)) {
    while (1) {
        char * line = readline(\"> \");
        process_input(line, strlen(line));
        puts(\"\");
    }
  } else {
    char line[256];          
    while (fgets(line, sizeof(line), stdin) != NULL) {
      size_t size = strcspn(line, \"\\n\");
      line[size] = 0;
      process_input(line, size);
      puts(\"\");
    }
  }
  return 0;
}";

/// A token as a string literal: between double quotes, nothing escaped.
pub open spec fn quoted(token: Seq<char>) -> Seq<char> {
    seq!['"'] + token + seq!['"']
}

/// The entries of an array: one literal per item, in order, separated by a
/// comma and a blank.
pub open spec fn array_items(items: Seq<Seq<char>>) -> Seq<char>
    decreases items.len(),
{
    if items.len() == 0 {
        Seq::empty()
    } else if items.len() == 1 {
        quoted(items[0])
    } else {
        array_items(items.drop_last()) + seq![',', ' '] + quoted(items.last())
    }
}

/// The declaration of one array: its name, its entries and the closing `NULL`.
pub open spec fn array_decl(name: Seq<char>, items: Seq<Seq<char>>) -> Seq<char> {
    ARRAY_OPEN@ + name + ARRAY_ENTRIES@ + array_items(items) + ARRAY_CLOSE@
}

/// The headers of a variant.
pub open spec fn includes(editline: bool) -> Seq<char> {
    if editline {
        INCLUDES_EDITLINE@
    } else {
        INCLUDES_PLAIN@
    }
}

/// `main` of a variant.
pub open spec fn main_routine(editline: bool) -> Seq<char> {
    if editline {
        MAIN_EDITLINE@
    } else {
        MAIN_PLAIN@
    }
}

/// The matching routine, which starts in state `initial`.
pub open spec fn matcher(initial: Seq<char>) -> Seq<char> {
    MATCHER_OPEN@ + quoted(initial) + MATCHER_BODY@
}

/// The whole program for a table given by its columns: headers, the four
/// arrays with one entry per row, the matching routine that starts in the
/// state of the first row, and `main`.
pub open spec fn c_source(
    states: Seq<Seq<char>>,
    inputs: Seq<Seq<char>>,
    next_states: Seq<Seq<char>>,
    outputs: Seq<Seq<char>>,
    editline: bool,
) -> Seq<char> {
    includes(editline) + array_decl("states"@, states) + array_decl("inputs"@, inputs)
        + array_decl("ostates"@, next_states) + array_decl("outputs"@, outputs) + matcher(
        states[0],
    ) + main_routine(editline)
}

/// Appends `token` as a string literal.
pub fn push_quoted(out: &mut String, token: &str)
    ensures
        final(out)@ == old(out)@ + quoted(token@),
{
    out.push('"');
    out.append(token);
    out.push('"');
    assert(out@ =~= old(out)@ + quoted(token@));
}

/// The entries of an array for the items of `arr`.
pub fn arrayize(arr: &[String]) -> (out: String)
    ensures
        out@ == array_items(texts(arr@)),
{
    let ghost items = texts(arr@);
    let mut out = String::new();
    let mut i: usize = 0;
    while i < arr.len()
        invariant
            i <= arr.len(),
            items == texts(arr@),
            out@ == array_items(items.take(i as int)),
        decreases arr.len() - i,
    {
        let ghost done = items.take(i as int);
        let ghost next = items.take(i + 1);
        assert(next.drop_last() =~= done);
        assert(next.last() == arr[i as int]@);
        if i > 0 {
            out.push(',');
            out.push(' ');
        }
        push_quoted(&mut out, arr[i].as_str());
        assert(out@ =~= array_items(next));
        i = i + 1;
    }
    assert(items.take(i as int) =~= items);
    out
}

/// Appends the declaration of the array `name` with the items of `arr`.
pub fn push_array(out: &mut String, name: &str, arr: &[String])
    ensures
        final(out)@ == old(out)@ + array_decl(name@, texts(arr@)),
{
    out.append(ARRAY_OPEN);
    out.append(name);
    out.append(ARRAY_ENTRIES);
    let entries = arrayize(arr);
    out.append(entries.as_str());
    out.append(ARRAY_CLOSE);
    assert(out@ =~= old(out)@ + array_decl(name@, texts(arr@)));
}

/// Renders the program for a table given by its columns, in the interactive
/// variant if `editline` is set and in the plain one if not.
pub fn render_c(
    states: &[String],
    inputs: &[String],
    next_states: &[String],
    outputs: &[String],
    editline: bool,
) -> (out: String)
    requires
        states@.len() > 0,
    ensures
        out@ == c_source(
            texts(states@),
            texts(inputs@),
            texts(next_states@),
            texts(outputs@),
            editline,
        ),
{
    let mut out = String::new();
    if editline {
        out.append(INCLUDES_EDITLINE);
    } else {
        out.append(INCLUDES_PLAIN);
    }
    assert(out@ =~= includes(editline));
    push_array(&mut out, "states", states);
    push_array(&mut out, "inputs", inputs);
    push_array(&mut out, "ostates", next_states);
    push_array(&mut out, "outputs", outputs);
    let ghost arrays = out@;
    out.append(MATCHER_OPEN);
    push_quoted(&mut out, states[0].as_str());
    out.append(MATCHER_BODY);
    assert(out@ =~= arrays + matcher(texts(states@)[0]));
    if editline {
        out.append(MAIN_EDITLINE);
    } else {
        out.append(MAIN_PLAIN);
    }
    out
}

/// How often `ch` stands in `text`.
pub open spec fn count_char(text: Seq<char>, ch: char) -> nat
    decreases text.len(),
{
    if text.len() == 0 {
        0
    } else if text.last() == ch {
        count_char(text.drop_last(), ch) + 1
    } else {
        count_char(text.drop_last(), ch)
    }
}

/// How often `ch` stands in all of `items` together.
pub open spec fn count_char_in_all(items: Seq<Seq<char>>, ch: char) -> nat
    decreases items.len(),
{
    if items.len() == 0 {
        0
    } else {
        count_char_in_all(items.drop_last(), ch) + count_char(items.last(), ch)
    }
}

/// Counting in a text made of two parts is counting in each.
pub proof fn lemma_count_char_concat(a: Seq<char>, b: Seq<char>, ch: char)
    ensures
        count_char(a + b, ch) == count_char(a, ch) + count_char(b, ch),
    decreases b.len(),
{
    if b.len() == 0 {
        assert(a + b =~= a);
    } else {
        assert((a + b).drop_last() =~= a + b.drop_last());
        assert((a + b).last() == b.last());
        lemma_count_char_concat(a, b.drop_last(), ch);
    }
}

/// Counting in a text of one character.
pub proof fn lemma_count_char_one(c: char, ch: char)
    ensures
        count_char(seq![c], ch) == if c == ch {
            1nat
        } else {
            0nat
        },
{
    let one = seq![c];
    assert(one.drop_last() =~= Seq::<char>::empty());
    assert(one.last() == c);
    assert(count_char(Seq::<char>::empty(), ch) == 0);
}

/// A literal holds two quotes more than its token.
pub proof fn lemma_quoted_count(token: Seq<char>)
    ensures
        count_char(quoted(token), '"') == count_char(token, '"') + 2,
{
    let mark = seq!['"'];
    lemma_count_char_one('"', '"');
    lemma_count_char_concat(mark, token, '"');
    lemma_count_char_concat(mark + token, mark, '"');
}

/// The entries of an array hold one pair of quotes per item, beside the quotes
/// that the items hold themselves. So for items without quotes the entries
/// are as many literals as there are items.
pub proof fn lemma_one_literal_per_item(items: Seq<Seq<char>>)
    ensures
        count_char(array_items(items), '"') == 2 * items.len() + count_char_in_all(items, '"'),
    decreases items.len(),
{
    if items.len() == 0 {
    } else if items.len() == 1 {
        lemma_quoted_count(items[0]);
        assert(items.drop_last().len() == 0);
        assert(count_char_in_all(items.drop_last(), '"') == 0);
    } else {
        let front = items.drop_last();
        let comma = seq![',', ' '];
        lemma_one_literal_per_item(front);
        lemma_quoted_count(items.last());
        assert(comma =~= seq![','] + seq![' ']);
        lemma_count_char_one(',', '"');
        lemma_count_char_one(' ', '"');
        lemma_count_char_concat(seq![','], seq![' '], '"');
        lemma_count_char_concat(array_items(front), comma, '"');
        lemma_count_char_concat(array_items(front) + comma, quoted(items.last()), '"');
    }
}

} // verus!
