use remake::parse::parse;
use remake::render::render;
use remake::text::{contains_sub, count_char, find_char, join_spaces, replace_all, split_char, trim};
use remake::types::{RemakeFile, RemakeRule, RemakeWildcard};

fn rule(target: &str, deps: &[&str], cmds: &[&str], phony: bool) -> RemakeRule {
    RemakeRule {
        target: target.to_string(),
        dependencies: deps.iter().map(|d| d.to_string()).collect(),
        build_commands: cmds.iter().map(|c| c.to_string()).collect(),
        is_phony: phony,
    }
}

fn wildcard(symbol: &str, values: &[&str]) -> RemakeWildcard {
    RemakeWildcard {
        symbol: symbol.to_string(),
        values: values.iter().map(|v| v.to_string()).collect(),
    }
}

#[test]
fn renders_the_expected_text() {
    let file = RemakeFile {
        rules: vec![rule("all", &["a.o", "b.o"], &["cc -o all a.o b.o"], false)],
        wildcards: vec![wildcard("CC", &["cc"])],
    };
    let text = render(&file);
    assert_eq!(text, "CC = cc\nall: a.o b.o\n\tcc -o all a.o b.o\n");
}

#[test]
fn parse_inverts_render() {
    let file = RemakeFile {
        rules: vec![
            rule("all", &["main.o", "util.o"], &["cc -o all main.o util.o"], false),
            rule(".PHONY", &["clean"], &[], true),
            rule("clean", &[], &["rm -f all", "rm -f *.o"], false),
        ],
        wildcards: vec![wildcard("CC", &["cc"]), wildcard("FLAGS", &["-O2", "-Wall"])],
    };
    let text = render(&file);
    let back = parse(&text).unwrap();
    assert_eq!(back, file);
}

#[test]
fn parse_inverts_render_on_the_empty_rule_set() {
    let file = RemakeFile { rules: vec![], wildcards: vec![] };
    let back = parse(&render(&file)).unwrap();
    assert_eq!(back, file);
}

#[test]
fn replace_all_is_leftmost_and_non_overlapping() {
    assert_eq!(replace_all("aaa", "aa", "b"), "ba");
    assert_eq!(replace_all("xyx", "x", "zz"), "zzyzz");
    assert_eq!(replace_all("none", "q", "r"), "none");
    assert_eq!(replace_all("abc", "", "r"), "abc");
}

#[test]
fn split_and_join_are_inverse_on_plain_tokens() {
    let parts = split_char("a b  c", ' ');
    let expected: Vec<String> =
        vec!["a".to_string(), "b".to_string(), "".to_string(), "c".to_string()];
    assert_eq!(parts, expected);
    let joined = join_spaces(&vec!["a".to_string(), "b".to_string()]);
    assert_eq!(joined, "a b");
}

#[test]
fn text_scanners_report_positions_and_counts() {
    assert_eq!(find_char("a=b", '='), 1);
    assert_eq!(find_char("abc", '='), 3);
    assert_eq!(count_char("a:b:c", ':'), 2);
    assert!(contains_sub("main.c", ".c"));
    assert!(!contains_sub("main.c", ".o"));
    assert_eq!(trim("  padded  "), "padded");
}
