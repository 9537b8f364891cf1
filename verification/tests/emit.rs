use atomato::machine::Machine;

const ADDER: &str = "s0, 00 > s0, 0
s0, 01 > s0, 1
s0, 10 > s0, 1
s0, 11 > s1, 0
s1, 10 > s1, 0
s1, 01 > s1, 0
s1, 00 > s0, 1
s1, 11 > s1, 1
";

fn parsed(text: &str) -> Machine {
    match Machine::from_str(text) {
        Ok(machine) => machine,
        Err(err) => panic!("{}", err.message()),
    }
}

fn plain_source(states: &str, inputs: &str, ostates: &str, outputs: &str, first: &str) -> String {
    format!(
        "#include <stdio.h>
#include <string.h>

static char * states[] = {{
 {}, NULL
}};

static char * inputs[] = {{
 {}, NULL
}};

static char * ostates[] = {{
 {}, NULL
}};

static char * outputs[] = {{
 {}, NULL
}};

void process_input(const char *input, size_t len) {{
  char * state = \"{}\";
  size_t strindex = 0;
  while(strindex < len) {{
    for (int i = 0; inputs[i] != NULL; i++) {{
      size_t step = strlen(inputs[i]);
      if (strncmp(inputs[i], input, step) == 0 &&
        strcmp(state, states[i]) == 0) {{
        fprintf(stderr, \"%s -> %s\\n\", state, ostates[i]);
        state = ostates[i];
        printf(\"%s\", outputs[i]);
        strindex+=step;
        input+=step;
        break;
      }}
    }}
  }}
}}

int main(int argc, char *argv[]) {{
  char line[256];          
  while (fgets(line, sizeof(line), stdin) != NULL) {{
    size_t size = strcspn(line, \"\\n\");
    line[size] = 0;
    process_input(line, size);
    puts(\"\");
  }}

  return 0;
}}",
        states, inputs, ostates, outputs, first
    )
}

fn editline_source(
    states: &str,
    inputs: &str,
    ostates: &str,
    outputs: &str,
    first: &str,
) -> String {
    format!(
        "#include <stdio.h>
#include <string.h>
#include <unistd.h>
#include <editline/readline.h>

static char * states[] = {{
 {}, NULL
}};

static char * inputs[] = {{
 {}, NULL
}};

static char * ostates[] = {{
 {}, NULL
}};

static char * outputs[] = {{
 {}, NULL
}};

void process_input(const char *input, size_t len) {{
  char * state = \"{}\";
  size_t strindex = 0;
  while(strindex < len) {{
    for (int i = 0; inputs[i] != NULL; i++) {{
      size_t step = strlen(inputs[i]);
      if (strncmp(inputs[i], input, step) == 0 &&
        strcmp(state, states[i]) == 0) {{
        fprintf(stderr, \"%s -> %s\\n\", state, ostates[i]);
        state = ostates[i];
        printf(\"%s\", outputs[i]);
        strindex+=step;
        input+=step;
        break;
      }}
    }}
  }}
}}

int main(int argc, char *argv[]) {{
  if (isatty(STDIN_FILENO)) {{
    while (1) {{
        char * line = readline(\"> \");
        process_input(line, strlen(line));
        puts(\"\");
    }}
  }} else {{
    char line[256];          
    while (fgets(line, sizeof(line), stdin) != NULL) {{
      size_t size = strcspn(line, \"\\n\");
      line[size] = 0;
      process_input(line, size);
      puts(\"\");
    }}
  }}
  return 0;
}}",
        states, inputs, ostates, outputs, first
    )
}

#[test]
fn plain_variant_of_one_row() {
    let machine = parsed("a, 0 > b, x\n");
    assert_eq!(
        machine.to_c(),
        plain_source("\"a\"", "\"0\"", "\"b\"", "\"x\"", "a")
    );
}

#[test]
fn editline_variant_of_one_row() {
    let machine = parsed("a, 0 > b, x\n");
    assert_eq!(
        machine.to_c_editline(),
        editline_source("\"a\"", "\"0\"", "\"b\"", "\"x\"", "a")
    );
}

#[test]
fn plain_variant_of_the_adder() {
    let machine = parsed(ADDER);
    assert_eq!(
        machine.to_c(),
        plain_source(
            "\"s0\", \"s0\", \"s0\", \"s0\", \"s1\", \"s1\", \"s1\", \"s1\"",
            "\"00\", \"01\", \"10\", \"11\", \"10\", \"01\", \"00\", \"11\"",
            "\"s0\", \"s0\", \"s0\", \"s1\", \"s1\", \"s1\", \"s0\", \"s1\"",
            "\"0\", \"1\", \"1\", \"0\", \"0\", \"0\", \"1\", \"1\"",
            "s0"
        )
    );
}

#[test]
fn editline_variant_of_the_adder() {
    let machine = parsed(ADDER);
    assert_eq!(
        machine.to_c_editline(),
        editline_source(
            "\"s0\", \"s0\", \"s0\", \"s0\", \"s1\", \"s1\", \"s1\", \"s1\"",
            "\"00\", \"01\", \"10\", \"11\", \"10\", \"01\", \"00\", \"11\"",
            "\"s0\", \"s0\", \"s0\", \"s1\", \"s1\", \"s1\", \"s0\", \"s1\"",
            "\"0\", \"1\", \"1\", \"0\", \"0\", \"0\", \"1\", \"1\"",
            "s0"
        )
    );
}

fn count(text: &str, pattern: &str) -> usize {
    text.matches(pattern).count()
}

#[test]
fn each_array_has_one_entry_per_row() {
    let machine = parsed(ADDER);
    for source in [machine.to_c(), machine.to_c_editline()] {
        let lines: Vec<&str> = source.lines().collect();
        let mut arrays = 0;
        for (at, line) in lines.iter().enumerate() {
            if line.starts_with("static char * ") {
                let entries = lines[at + 1];
                assert!(entries.ends_with(", NULL"));
                assert_eq!(count(entries, "\""), 2 * machine.len());
                assert_eq!(count(entries, ", "), machine.len());
                arrays += 1;
            }
        }
        assert_eq!(arrays, 4);
        assert_eq!(count(&source, "  char * state = \"s0\";\n"), 1);
    }
}

#[test]
fn the_first_row_names_the_initial_state() {
    let machine = parsed("idle, go > busy, 1\nbusy, stop > idle, 0\n");
    assert!(machine.to_c().contains("  char * state = \"idle\";\n"));
    assert!(machine.to_c_editline().contains("  char * state = \"idle\";\n"));
    let swapped = parsed("busy, stop > idle, 0\nidle, go > busy, 1\n");
    assert!(swapped.to_c().contains("  char * state = \"busy\";\n"));
}

#[test]
fn the_variants_differ_in_headers_and_main_only() {
    let machine = parsed(ADDER);
    let plain = machine.to_c();
    let editline = machine.to_c_editline();
    assert!(plain.starts_with("#include <stdio.h>\n#include <string.h>\n\nstatic char * states[] = {\n \"s0\""));
    assert!(editline.starts_with(
        "#include <stdio.h>\n#include <string.h>\n#include <unistd.h>\n#include <editline/readline.h>\n\nstatic char * states[] = {\n \"s0\""
    ));
    assert!(!plain.contains("readline"));
    assert!(editline.contains("isatty(STDIN_FILENO)"));
    let from = plain.find("static char").unwrap();
    let to = plain.find("int main").unwrap();
    let from_e = editline.find("static char").unwrap();
    let to_e = editline.find("int main").unwrap();
    assert_eq!(plain[from..to], editline[from_e..to_e]);
}

#[test]
fn tokens_are_quoted_without_escaping() {
    let machine = parsed("a\"b, \\ > c, d\n");
    let source = machine.to_c();
    assert!(source.contains("static char * states[] = {\n \"a\"b\", NULL\n};"));
    assert!(source.contains("static char * inputs[] = {\n \"\\\", NULL\n};"));
}
