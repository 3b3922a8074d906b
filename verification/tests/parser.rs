use bake::model::{find_rule, get_rule, Bakefile, Rule};
use bake::parser::{
    is_include_keyword, populate_bakefile, read_line, store_recipe, store_variable, Header,
};

fn parsed(text: &str) -> Bakefile {
    let mut bakefile = Bakefile::new();
    populate_bakefile(&mut bakefile, text);
    bakefile
}

fn rule(target: &str, dependencies: &[&str], recipe: &[&str]) -> Rule {
    Rule {
        target: target.to_string(),
        dependencies: dependencies.iter().map(|d| d.to_string()).collect(),
        recipe: recipe.iter().map(|l| l.to_string()).collect(),
    }
}

fn variable(name: &str, value: &str) -> (String, String) {
    (name.to_string(), value.to_string())
}

fn line_chars(s: &str) -> Vec<char> {
    s.chars().collect()
}

#[test]
fn an_empty_text_gives_an_empty_model() {
    let bakefile = parsed("");
    assert!(bakefile.variables.is_empty());
    assert!(bakefile.rules.is_empty());
    assert!(bakefile.includes.is_empty());
    assert_eq!(bakefile, Bakefile::new());
}

#[test]
fn rules_with_recipes_are_read() {
    let bakefile = parsed("A: B\n\tcmd1\nB:\n\tcmd2");
    assert_eq!(bakefile.rules, vec![rule("A", &["B"], &["cmd1"]), rule("B", &[], &["cmd2"])]);
    assert!(bakefile.variables.is_empty());
    assert!(bakefile.includes.is_empty());
}

#[test]
fn comments_and_blank_lines_are_ignored() {
    let bakefile = parsed("# a comment: with = signs\n\nA:\n#\tnot a recipe\n\n\tcmd\n");
    assert_eq!(bakefile.rules, vec![rule("A", &[], &["cmd"])]);
    assert!(bakefile.variables.is_empty());
}

#[test]
fn variables_are_trimmed_and_split_at_the_first_equals_sign() {
    let bakefile = parsed("CC = gcc\nFLAGS=-O2 -DX=1\nEMPTY=\n=novalue");
    assert_eq!(
        bakefile.variables,
        vec![
            variable("CC", "gcc"),
            variable("FLAGS", "-O2 -DX=1"),
            variable("EMPTY", ""),
            variable("", "novalue"),
        ]
    );
}

#[test]
fn a_variable_that_is_defined_again_is_added_again() {
    let bakefile = parsed("X=1\nX=2");
    assert_eq!(bakefile.variables, vec![variable("X", "1"), variable("X", "2")]);
}

#[test]
fn a_colon_makes_a_header_even_with_an_equals_sign() {
    let bakefile = parsed("A=B: C");
    assert_eq!(bakefile.rules, vec![rule("A=B", &["C"], &[])]);
    assert!(bakefile.variables.is_empty());
}

#[test]
fn lines_without_colon_or_equals_sign_are_ignored() {
    let bakefile = parsed("just some words\n\rX");
    assert_eq!(bakefile, Bakefile::new());
}

#[test]
fn dependencies_are_split_at_whitespace() {
    let bakefile = parsed("all:   a.o\tb.o   c.o  ");
    assert_eq!(bakefile.rules, vec![rule("all", &["a.o", "b.o", "c.o"], &[])]);
}

#[test]
fn a_header_is_split_at_the_first_colon() {
    let bakefile = parsed(" out : http://x y");
    assert!(bakefile.rules.is_empty());
    let bakefile = parsed("out : http://x y");
    assert_eq!(bakefile.rules, vec![rule("out", &["http://x", "y"], &[])]);
}

#[test]
fn recipe_lines_begin_with_a_space_or_a_tab_and_are_trimmed() {
    let bakefile = parsed("A:\n\t  cc -c a.c  \n  echo done\t");
    assert_eq!(bakefile.rules, vec![rule("A", &[], &["cc -c a.c", "echo done"])]);
}

#[test]
fn an_indented_line_of_whitespace_is_an_empty_recipe_line() {
    let bakefile = parsed("A:\n\t \n\tcmd");
    assert_eq!(bakefile.rules, vec![rule("A", &[], &["", "cmd"])]);
}

#[test]
fn an_indented_line_before_any_header_is_dropped() {
    let bakefile = parsed("\tcmd\nX=1");
    assert!(bakefile.rules.is_empty());
    assert_eq!(bakefile.variables, vec![variable("X", "1")]);
}

#[test]
fn an_indented_line_is_never_a_header_or_a_variable() {
    let bakefile = parsed("A:\n\tB: C\n\tX=1");
    assert_eq!(bakefile.rules, vec![rule("A", &[], &["B: C", "X=1"])]);
    assert!(bakefile.variables.is_empty());
}

#[test]
fn inclusion_lists_are_read() {
    let bakefile = parsed("include:\n\tcommon.bake\n\t\"https://example.com/x.bake\"\nA:\n\tcmd");
    assert_eq!(bakefile.includes, vec!["common.bake", "\"https://example.com/x.bake\""]);
    assert_eq!(bakefile.rules, vec![rule("A", &[], &["cmd"])]);
}

#[test]
fn the_inclusion_header_is_recognised_after_trimming() {
    let bakefile = parsed("include  : ignored words\n\tother.bake");
    assert_eq!(bakefile.includes, vec!["other.bake"]);
    assert!(bakefile.rules.is_empty());
}

#[test]
fn a_rule_header_closes_an_inclusion_list() {
    let bakefile = parsed("include:\n\tone\nA:\n\ttwo\ninclude:\n\tthree");
    assert_eq!(bakefile.includes, vec!["one", "three"]);
    assert_eq!(bakefile.rules, vec![rule("A", &[], &["two"])]);
}

#[test]
fn variables_do_not_close_a_header() {
    let bakefile = parsed("A:\n\tone\nX=1\n\ttwo");
    assert_eq!(bakefile.rules, vec![rule("A", &[], &["one", "two"])]);
    assert_eq!(bakefile.variables, vec![variable("X", "1")]);
}

#[test]
fn recipe_lines_go_to_the_first_rule_of_the_open_target() {
    let bakefile = parsed("A:\n\tone\nB:\n\ttwo\nA: B\n\tthree");
    assert_eq!(
        bakefile.rules,
        vec![rule("A", &[], &["one", "three"]), rule("B", &[], &["two"]), rule("A", &["B"], &[])]
    );
}

#[test]
fn a_second_text_is_added_behind_the_first() {
    let mut bakefile = parsed("X=1\nA:\n\tone");
    populate_bakefile(&mut bakefile, "Y=2\n\tlost\nB: A\n\ttwo\nA:\n\tthree");
    assert_eq!(bakefile.variables, vec![variable("X", "1"), variable("Y", "2")]);
    assert_eq!(
        bakefile.rules,
        vec![rule("A", &[], &["one", "three"]), rule("B", &["A"], &["two"]), rule("A", &[], &[])]
    );
}

#[test]
fn no_header_is_open_when_a_text_begins() {
    let mut bakefile = parsed(":\n\tkept");
    assert_eq!(bakefile.rules, vec![rule("", &[], &["kept"])]);
    populate_bakefile(&mut bakefile, "\tdropped");
    assert_eq!(bakefile.rules, vec![rule("", &[], &["kept"])]);
}

#[test]
fn store_variable_adds_one_entry() {
    let mut variables = vec![variable("A", "1")];
    store_variable(&mut variables, " NAME = some value ");
    assert_eq!(variables, vec![variable("A", "1"), variable("NAME", "some value")]);
    store_variable(&mut variables, "no assignment");
    assert_eq!(variables.len(), 2);
}

#[test]
fn store_recipe_adds_to_the_first_rule_with_the_target() {
    let mut rules = vec![rule("A", &[], &["x"]), rule("B", &[], &[]), rule("B", &[], &[])];
    store_recipe(&mut rules, "\t echo b ", "B");
    assert_eq!(rules, vec![rule("A", &[], &["x"]), rule("B", &[], &["echo b"]), rule("B", &[], &[])]);
    store_recipe(&mut rules, "\techo c", "C");
    assert_eq!(rules, vec![rule("A", &[], &["x"]), rule("B", &[], &["echo b"]), rule("B", &[], &[])]);
}

#[test]
fn get_rule_gives_the_first_declaration() {
    let bakefile = parsed("A: one\nB:\nA: two");
    assert_eq!(get_rule(&bakefile, "A"), Some(&rule("A", &["one"], &[])));
    assert_eq!(get_rule(&bakefile, "B"), Some(&rule("B", &[], &[])));
    assert_eq!(get_rule(&bakefile, "C"), None);
    assert_eq!(find_rule(&bakefile.rules, "A"), Some(0));
    assert_eq!(find_rule(&bakefile.rules, "B"), Some(1));
    assert_eq!(find_rule(&bakefile.rules, ""), None);
}

#[test]
fn read_line_gives_the_open_header() {
    let mut bakefile = Bakefile::new();
    let open = read_line(&mut bakefile, Header::Closed, &line_chars("# comment"));
    assert_eq!(open, Header::Closed);
    let open = read_line(&mut bakefile, open, &line_chars("include:"));
    assert_eq!(open, Header::Including);
    let open = read_line(&mut bakefile, open, &line_chars(" a.bake"));
    assert_eq!(open, Header::Including);
    let open = read_line(&mut bakefile, open, &line_chars(" all : x"));
    assert_eq!(open, Header::Including);
    let open = read_line(&mut bakefile, open, &line_chars("all : x"));
    assert_eq!(open, Header::Rule("all".to_string()));
    let open = read_line(&mut bakefile, open, &line_chars("V=1"));
    assert_eq!(open, Header::Rule("all".to_string()));
    assert_eq!(bakefile.includes, vec!["a.bake", "all : x"]);
    assert_eq!(bakefile.rules, vec![rule("all", &["x"], &[])]);
    assert_eq!(bakefile.variables, vec![variable("V", "1")]);
}

#[test]
fn the_inclusion_keyword_is_one_word() {
    assert!(is_include_keyword(&line_chars("include")));
    assert!(!is_include_keyword(&line_chars("includes")));
    assert!(!is_include_keyword(&line_chars("Include")));
    assert!(!is_include_keyword(&line_chars("includ")));
    assert!(!is_include_keyword(&line_chars("")));
}
