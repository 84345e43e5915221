use remake::parse::{parse, ParseError};
use remake::types::{RemakeFile, RemakeRule, RemakeWildcard};

fn rule(target: &str, deps: &[&str], cmds: &[&str], phony: bool) -> RemakeRule {
    RemakeRule {
        target: target.to_string(),
        dependencies: deps.iter().map(|d| d.to_string()).collect(),
        build_commands: cmds.iter().map(|c| c.to_string()).collect(),
        is_phony: phony,
    }
}

fn wildcard(symbol: &str, values: &[&str]) -> RemakeWildcard {
    RemakeWildcard {
        symbol: symbol.to_string(),
        values: values.iter().map(|v| v.to_string()).collect(),
    }
}

#[test]
fn parses_a_small_rule_file() {
    let text = "CC = gcc\nall: main.o\n\tgcc -o all main.o\nclean:\n\trm all\n";
    let file = parse(text).unwrap();
    let expected = RemakeFile {
        rules: vec![
            rule("all", &["main.o"], &["gcc -o all main.o"], false),
            rule("clean", &[], &["rm all"], false),
        ],
        wildcards: vec![wildcard("CC", &["gcc"])],
    };
    assert_eq!(file, expected);
}

#[test]
fn blank_lines_are_skipped() {
    let text = "\nall: a b\n\n\techo done\n\n";
    let file = parse(text).unwrap();
    assert_eq!(file.rules, vec![rule("all", &["a", "b"], &["echo done"], false)]);
    assert!(file.wildcards.is_empty());
}

#[test]
fn assignment_values_split_on_spaces() {
    let file = parse("FLAGS =  -O2   -Wall\nall:\n").unwrap();
    assert_eq!(file.wildcards, vec![wildcard("FLAGS", &["-O2", "-Wall"])]);
}

#[test]
fn repeated_assignment_accumulates_in_place() {
    let file = parse("A = one\nB = x\nA = two\nall:\n").unwrap();
    assert_eq!(
        file.wildcards,
        vec![wildcard("A", &["one", "two"]), wildcard("B", &["x"])]
    );
}

#[test]
fn header_and_symbol_are_trimmed() {
    let file = parse("CC  =  gcc\n out : dep \n").unwrap();
    assert_eq!(file.wildcards, vec![wildcard("CC", &["gcc"])]);
    assert_eq!(file.rules, vec![rule("out", &["dep"], &[], false)]);
}

#[test]
fn value_may_hold_colon_after_equals() {
    let file = parse("URL = http://example\nall:\n").unwrap();
    assert_eq!(file.wildcards, vec![wildcard("URL", &["http://example"])]);
}

#[test]
fn phony_pseudo_rule_is_marked_at_parse_time() {
    let file = parse(".PHONY: clean\nclean:\n\trm -f out\n").unwrap();
    assert_eq!(file.rules.len(), 2);
    assert_eq!(file.rules[0].target, ".PHONY");
    assert!(file.rules[0].is_phony);
    assert_eq!(file.rules[0].dependencies, vec!["clean".to_string()]);
    assert!(!file.rules[1].is_phony);
}

#[test]
fn malformed_line_without_separator_is_rejected() {
    assert_eq!(parse("all: x\nnot a header\n"), Err(ParseError::MalformedLine));
}

#[test]
fn two_colons_are_rejected() {
    assert_eq!(parse("a:b:c\n"), Err(ParseError::MalformedLine));
}

#[test]
fn empty_target_is_rejected() {
    assert_eq!(parse(": dep\n"), Err(ParseError::MalformedLine));
}

#[test]
fn empty_symbol_is_rejected() {
    assert_eq!(parse("= value\n"), Err(ParseError::MalformedLine));
}

#[test]
fn orphan_command_line_is_rejected() {
    assert_eq!(parse("\techo too early\nall:\n"), Err(ParseError::OrphanCommandLine));
}

#[test]
fn rule_without_trailing_newline_is_kept() {
    let file = parse("all: x\n\techo hi").unwrap();
    assert_eq!(file.rules, vec![rule("all", &["x"], &["echo hi"], false)]);
}
