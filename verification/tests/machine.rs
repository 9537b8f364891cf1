use atomato::error::{MachineError, SyntaxErrorKind};
use atomato::machine::Machine;

const BINARY_ADDITION: &str = "s0, 00 > s0, 0
s0, 01 > s0, 1
s0, 10 > s0, 1
s0, 11 > s1, 0
s1, 10 > s1, 0
s1, 01 > s1, 0
s1, 00 > s0, 1
s1, 11 > s1, 1
";

fn failure(text: &str) -> MachineError {
    match Machine::from_str(text) {
        Ok(machine) => panic!("parsed to {} rows", machine.len()),
        Err(err) => err,
    }
}

#[test]
fn test_simple() {
    let machine = Machine::from_str(BINARY_ADDITION);
    assert!(machine.is_ok());
    let machine = machine.unwrap();
    assert_eq!(machine.listing(), BINARY_ADDITION)
}

#[test]
fn multi_input_lines_expand_in_order() {
    let grouped = "s0, 00 > s0, 0
s0, 01, 10 > s0, 1
s0, 11 > s1, 0
s1, 01, 10 > s1, 0
s1, 00 > s0, 1
s1, 11 > s1, 1
";
    let machine = Machine::from_str(grouped);
    assert!(machine.is_ok());
    let machine = machine.unwrap();
    assert_eq!(machine.len(), 8);
    assert_eq!(
        machine.listing(),
        "s0, 00 > s0, 0
s0, 01 > s0, 1
s0, 10 > s0, 1
s0, 11 > s1, 0
s1, 01 > s1, 0
s1, 10 > s1, 0
s1, 00 > s0, 1
s1, 11 > s1, 1
"
    );
    assert!(machine.is_complete());
}

#[test]
fn one_line_with_two_inputs_equals_two_lines() {
    let grouped = Machine::from_str("s0, 01, 10 > s0, 1\n").unwrap();
    let separate = Machine::from_str("s0, 01 > s0, 1\ns0, 10 > s0, 1\n").unwrap();
    assert_eq!(grouped, separate);
    assert_eq!(grouped.len(), 2);
    assert_eq!(grouped.listing(), "s0, 01 > s0, 1\ns0, 10 > s0, 1\n");
    let reversed = Machine::from_str("s0, 10 > s0, 1\ns0, 01 > s0, 1\n").unwrap();
    assert_ne!(grouped, reversed);
}

#[test]
fn three_inputs_share_state_target_and_output() {
    let machine = Machine::from_str("a, x, y, z > b, out\nb, x > a, 0\n").unwrap();
    assert_eq!(machine.len(), 4);
    assert_eq!(
        machine.listing(),
        "a, x > b, out\na, y > b, out\na, z > b, out\nb, x > a, 0\n"
    );
}

#[test]
fn binary_adder_is_complete() {
    let machine = Machine::from_str(BINARY_ADDITION).unwrap();
    assert_eq!(machine.len(), 8);
    assert!(machine.is_complete());
    assert_eq!(machine.listing(), BINARY_ADDITION);
    let states = machine.state_counts();
    assert_eq!(states.len(), 2);
    assert_eq!(states.key(0), "s0");
    assert_eq!(states.count(0), 4);
    assert_eq!(states.key(1), "s1");
    assert_eq!(states.count(1), 4);
    let inputs = machine.input_counts();
    assert_eq!(inputs.len(), 4);
    for (at, input) in ["00", "01", "10", "11"].iter().enumerate() {
        assert_eq!(inputs.key(at), input);
        assert_eq!(inputs.count(at), 2);
    }
}

#[test]
fn binary_adder_less_any_row_is_incomplete() {
    let lines: Vec<&str> = BINARY_ADDITION.lines().collect();
    assert_eq!(lines.len(), 8);
    for gone in 0..lines.len() {
        let mut text = String::new();
        for (at, line) in lines.iter().enumerate() {
            if at != gone {
                text.push_str(line);
                text.push('\n');
            }
        }
        let machine = Machine::from_str(&text).unwrap();
        assert_eq!(machine.len(), 7);
        assert!(!machine.is_complete());
    }
}

#[test]
fn completeness_compares_counts_only() {
    let machine = Machine::from_str("a, 0 > a, x\na, 0 > a, y\nb, 0 > b, x\nb, 1 > b, y\n").unwrap();
    assert!(machine.is_complete());
    let short = Machine::from_str("a, 0 > a, x\nb, 0 > b, x\nb, 1 > b, y\n").unwrap();
    assert!(!short.is_complete());
    let long = Machine::from_str("a, 0 > a, x\na, 0 > a, x\nb, 0 > b, x\n").unwrap();
    assert!(!long.is_complete());
}

#[test]
fn the_empty_table() {
    let machine = Machine::from_str("").unwrap();
    assert_eq!(machine.len(), 0);
    assert_eq!(machine.listing(), "");
    assert!(machine.is_complete());
    assert_eq!(machine.state_counts().len(), 0);
    assert_eq!(machine, Machine::default());
}

#[test]
fn arrow_in_the_state_field() {
    let err = failure("s0 > s1\n");
    assert_eq!(err.kind, SyntaxErrorKind::UnexpectedArrow);
    assert_eq!(err.line, 1);
    assert_eq!(err.offset, 3);
    assert_eq!(err.message(), "didn't expect '>' at line 1 (column 3)");
}

#[test]
fn arrow_in_the_state_field_of_a_later_line() {
    let err = failure("a, b > c, d\ne, f > g, h\ns0 > s1\n");
    assert_eq!(err.kind, SyntaxErrorKind::UnexpectedArrow);
    assert_eq!(err.line, 3);
    assert_eq!(err.offset, 3);
    assert_eq!(err.message(), "didn't expect '>' at line 3 (column 3)");
}

#[test]
fn arrow_after_the_next_state() {
    let err = failure("a, b > c > d\n");
    assert_eq!(err.kind, SyntaxErrorKind::UnexpectedArrow);
    assert_eq!((err.line, err.offset), (1, 9));
    let err = failure("a, b > c, d > e\n");
    assert_eq!(err.kind, SyntaxErrorKind::UnexpectedArrow);
    assert_eq!((err.line, err.offset), (1, 12));
}

#[test]
fn comma_after_the_output() {
    let err = failure("a, b > c, d, e\n");
    assert_eq!(err.kind, SyntaxErrorKind::ExpectedNewline);
    assert_eq!(err.line, 1);
    assert_eq!(err.offset, 11);
    assert_eq!(err.message(), "expected newline, got ',' at line 1 (column 11)");
}

#[test]
fn comma_after_the_output_of_the_second_line() {
    let err = failure("a, b > c, d\n  e, f > g, h,\n");
    assert_eq!(err.kind, SyntaxErrorKind::ExpectedNewline);
    assert_eq!(err.line, 2);
    assert_eq!(err.offset, 13);
}

#[test]
fn newline_before_the_output() {
    let err = failure("\n");
    assert_eq!(err.kind, SyntaxErrorKind::UnexpectedNewline);
    assert_eq!((err.line, err.offset), (1, 0));
    assert_eq!(err.message(), "didn't expect newline at line 1 (column 0)");
    let err = failure("a\n");
    assert_eq!(err.kind, SyntaxErrorKind::UnexpectedNewline);
    assert_eq!((err.line, err.offset), (1, 1));
    let err = failure("a, b\n");
    assert_eq!(err.kind, SyntaxErrorKind::UnexpectedNewline);
    assert_eq!((err.line, err.offset), (1, 4));
    let err = failure("a, b > c\n");
    assert_eq!(err.kind, SyntaxErrorKind::UnexpectedNewline);
    assert_eq!((err.line, err.offset), (1, 8));
    let err = failure("a, b > c, d\n\n");
    assert_eq!(err.kind, SyntaxErrorKind::UnexpectedNewline);
    assert_eq!((err.line, err.offset), (2, 0));
}

#[test]
fn the_first_error_is_reported() {
    let err = failure("a, b > c, d\nx > y, z, w\n\n");
    assert_eq!(err.kind, SyntaxErrorKind::UnexpectedArrow);
    assert_eq!((err.line, err.offset), (2, 2));
}

#[test]
fn columns_count_characters_not_bytes() {
    let err = failure("\u{e9}t\u{e9} > x\n");
    assert_eq!(err.kind, SyntaxErrorKind::UnexpectedArrow);
    assert_eq!((err.line, err.offset), (1, 4));
}

#[test]
fn blanks_carry_no_meaning() {
    let machine = Machine::from_str("  s 0,\t0 0>s1 ,x y\r\n").unwrap();
    assert_eq!(machine.listing(), "s0, 00 > s1, xy\n");
    let tight = Machine::from_str("s0,00>s1,xy\n").unwrap();
    assert_eq!(machine, tight);
}

#[test]
fn fields_may_be_empty() {
    let machine = Machine::from_str(",>,\n").unwrap();
    assert_eq!(machine.len(), 1);
    assert_eq!(machine.listing(), ",  > , \n");
    let machine = Machine::from_str("a, , b > c, d\n").unwrap();
    assert_eq!(machine.listing(), "a,  > c, d\na, b > c, d\n");
}

#[test]
fn a_last_line_without_newline_is_left_out() {
    let machine = Machine::from_str("a, b > c, d\ne, f > g, h").unwrap();
    assert_eq!(machine.len(), 1);
    assert_eq!(machine.listing(), "a, b > c, d\n");
    let machine = Machine::from_str("a, b > c, d").unwrap();
    assert_eq!(machine.len(), 0);
    let machine = Machine::from_str("a, b").unwrap();
    assert_eq!(machine.len(), 0);
}

#[test]
fn a_last_line_without_newline_is_still_checked() {
    let err = failure("a, b > c, d\ne > f");
    assert_eq!(err.kind, SyntaxErrorKind::UnexpectedArrow);
    assert_eq!((err.line, err.offset), (2, 2));
}

#[test]
fn a_listing_parses_to_the_same_table() {
    let texts = [
        BINARY_ADDITION,
        "s0, 01, 10 > s0, 1\n",
        " a ,b,c>d ,e\r\nf,g>h,i\n",
        ",>,\n",
        "",
    ];
    for text in texts {
        let machine = Machine::from_str(text).unwrap();
        let listing = machine.listing();
        let again = Machine::from_str(&listing).unwrap();
        assert_eq!(again, machine);
        assert_eq!(again.listing(), listing);
    }
}

#[test]
fn messages_name_line_and_column() {
    let err = MachineError { kind: SyntaxErrorKind::UnexpectedNewline, line: 120, offset: 4507 };
    assert_eq!(err.message(), "didn't expect newline at line 120 (column 4507)");
    let err = MachineError { kind: SyntaxErrorKind::ExpectedNewline, line: 10, offset: 0 };
    assert_eq!(err.message(), "expected newline, got ',' at line 10 (column 0)");
    let err = MachineError { kind: SyntaxErrorKind::UnexpectedArrow, line: 99, offset: usize::MAX };
    assert_eq!(
        err.message(),
        format!("didn't expect '>' at line 99 (column {})", usize::MAX)
    );
}

#[test]
fn wording_of_each_kind() {
    assert_eq!(SyntaxErrorKind::UnexpectedNewline.as_str(), "didn't expect newline");
    assert_eq!(SyntaxErrorKind::UnexpectedArrow.as_str(), "didn't expect '>'");
    assert_eq!(SyntaxErrorKind::ExpectedNewline.as_str(), "expected newline, got ','");
}
