use atomato::counts::count_map;
use atomato::emit::{arrayize, push_array, push_quoted, render_c};
use atomato::listing::push_row;
use atomato::text::{digit_char, push_decimal};

fn strings(items: &[&str]) -> Vec<String> {
    items.iter().map(|s| s.to_string()).collect()
}

#[test]
fn arrayize_quotes_and_joins() {
    assert_eq!(arrayize(&strings(&[])), "");
    assert_eq!(arrayize(&strings(&["a"])), "\"a\"");
    assert_eq!(arrayize(&strings(&["a", "b"])), "\"a\", \"b\"");
    assert_eq!(arrayize(&strings(&["s0", "", "s 1"])), "\"s0\", \"\", \"s 1\"");
}

#[test]
fn push_quoted_appends_a_literal() {
    let mut out = String::from("x = ");
    push_quoted(&mut out, "s0");
    assert_eq!(out, "x = \"s0\"");
    push_quoted(&mut out, "");
    assert_eq!(out, "x = \"s0\"\"\"");
}

#[test]
fn push_array_declares_a_null_terminated_array() {
    let mut out = String::from("/* */\n");
    push_array(&mut out, "inputs", &strings(&["00", "01"]));
    assert_eq!(out, "/* */\nstatic char * inputs[] = {\n \"00\", \"01\", NULL\n};\n\n");
}

#[test]
fn render_c_takes_the_first_state_as_initial() {
    let states = strings(&["p", "q"]);
    let inputs = strings(&["0", "1"]);
    let next = strings(&["q", "p"]);
    let outputs = strings(&["x", "y"]);
    let plain = render_c(&states, &inputs, &next, &outputs, false);
    assert!(plain.contains("static char * states[] = {\n \"p\", \"q\", NULL\n};\n\n"));
    assert!(plain.contains("static char * inputs[] = {\n \"0\", \"1\", NULL\n};\n\n"));
    assert!(plain.contains("static char * ostates[] = {\n \"q\", \"p\", NULL\n};\n\n"));
    assert!(plain.contains("static char * outputs[] = {\n \"x\", \"y\", NULL\n};\n\n"));
    assert!(plain.contains("  char * state = \"p\";\n"));
    assert!(plain.ends_with("  char line[256];          \n  while (fgets(line, sizeof(line), stdin) != NULL) {\n    size_t size = strcspn(line, \"\\n\");\n    line[size] = 0;\n    process_input(line, size);\n    puts(\"\");\n  }\n\n  return 0;\n}"));
    let editline = render_c(&states, &inputs, &next, &outputs, true);
    assert!(editline.contains("        char * line = readline(\"> \");\n"));
    assert!(editline.ends_with("  }\n  return 0;\n}"));
}

#[test]
fn push_row_writes_one_line() {
    let mut out = String::new();
    push_row(&mut out, "s0", "11", "s1", "0");
    assert_eq!(out, "s0, 11 > s1, 0\n");
    push_row(&mut out, "", "", "", "");
    assert_eq!(out, "s0, 11 > s1, 0\n,  > , \n");
}

#[test]
fn decimal_numerals() {
    for n in [0usize, 7, 9, 10, 11, 99, 100, 101, 4096, 1_000_000, usize::MAX] {
        let mut out = String::from("#");
        push_decimal(&mut out, n);
        assert_eq!(out, format!("#{}", n));
    }
}

#[test]
fn digit_characters() {
    let digits: Vec<char> = (0..10).map(digit_char).collect();
    assert_eq!(digits, vec!['0', '1', '2', '3', '4', '5', '6', '7', '8', '9']);
}

#[test]
fn count_map_keeps_first_occurrence_order() {
    let counts = count_map(&strings(&["b", "a", "b", "c", "a", "b"]));
    assert_eq!(counts.len(), 3);
    assert_eq!((counts.key(0).as_str(), counts.count(0)), ("b", 3));
    assert_eq!((counts.key(1).as_str(), counts.count(1)), ("a", 2));
    assert_eq!((counts.key(2).as_str(), counts.count(2)), ("c", 1));
    assert_eq!(count_map(&strings(&[])).len(), 0);
}
