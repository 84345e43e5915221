use remake::types::{RemakeFile, RemakeRule, RemakeWildcard};

fn rule(target: &str, deps: &[&str], cmds: &[&str], phony: bool) -> RemakeRule {
    RemakeRule {
        target: target.to_string(),
        dependencies: deps.iter().map(|d| d.to_string()).collect(),
        build_commands: cmds.iter().map(|c| c.to_string()).collect(),
        is_phony: phony,
    }
}

fn wildcard(symbol: &str, values: &[&str]) -> RemakeWildcard {
    RemakeWildcard {
        symbol: symbol.to_string(),
        values: values.iter().map(|v| v.to_string()).collect(),
    }
}

fn strings(items: &[&str]) -> Vec<String> {
    items.iter().map(|s| s.to_string()).collect()
}

#[test]
fn wildcard_and_automatic_variables_expand() {
    let mut r = rule("out", &["a.c", "b.c"], &["$CC -o $@ $^"], false);
    let table = vec![wildcard("CC", &["gcc"])];
    let entries: Vec<String> = Vec::new();
    let expanded = r.expand_wildcards(&table, &entries);
    assert_eq!(expanded.build_commands, strings(&["gcc -o out a.c b.c"]));
    assert_eq!(expanded.target, "out");
    assert_eq!(expanded.dependencies, strings(&["a.c", "b.c"]));
    assert_eq!(r.build_commands, strings(&["gcc -o out a.c b.c"]));
}

#[test]
fn multi_value_wildcard_in_dependency_resplits() {
    let mut r = rule("out", &["$SRCS", "extra.c"], &[], false);
    let table = vec![wildcard("SRCS", &["a.c", "b.c"])];
    let entries: Vec<String> = Vec::new();
    let expanded = r.expand_wildcards(&table, &entries);
    assert_eq!(expanded.dependencies, strings(&["a.c", "b.c", "extra.c"]));
}

#[test]
fn wildcard_expands_inside_the_target() {
    let mut r = rule("$NAME.bin", &[], &["touch $@"], false);
    let table = vec![wildcard("NAME", &["demo"])];
    let entries: Vec<String> = Vec::new();
    let expanded = r.expand_wildcards(&table, &entries);
    assert_eq!(expanded.target, "demo.bin");
    assert_eq!(expanded.build_commands, strings(&["touch demo.bin"]));
}

#[test]
fn automatic_variables_work_without_any_wildcard() {
    let mut r = rule("out", &["dep"], &["link $@ $^"], false);
    let table: Vec<RemakeWildcard> = Vec::new();
    let entries: Vec<String> = Vec::new();
    let expanded = r.expand_wildcards(&table, &entries);
    assert_eq!(expanded.build_commands, strings(&["link out dep"]));
}

#[test]
fn glob_token_collects_matching_entries() {
    let mut r = rule("all", &["x"], &["cat *.c"], false);
    let table: Vec<RemakeWildcard> = Vec::new();
    let entries = strings(&["a.c", "notes.txt", "b.c"]);
    let expanded = r.expand_wildcards(&table, &entries);
    assert_eq!(expanded.build_commands, strings(&["cat a.c b.c"]));
}

#[test]
fn glob_with_no_match_becomes_empty_token() {
    let mut r = rule("all", &["x"], &["ls *.zig here"], false);
    let table: Vec<RemakeWildcard> = Vec::new();
    let entries = strings(&["a.c"]);
    let expanded = r.expand_wildcards(&table, &entries);
    assert_eq!(expanded.build_commands, strings(&["ls  here"]));
}

#[test]
fn get_all_matches_by_pattern_filters_entries() {
    let r = rule("all", &[], &[], false);
    let entries = strings(&["main.c", "main.o", "lib.c"]);
    let matches = r.get_all_matches_by_pattern(&"*.c".to_string(), &entries);
    assert_eq!(matches, strings(&["main.c", "lib.c"]));
}

#[test]
fn handle_wildcards_expands_every_rule() {
    let mut file = RemakeFile {
        rules: vec![
            rule("out", &["a.c"], &["$CC $^"], false),
            rule("other", &[], &["echo $@"], false),
        ],
        wildcards: vec![wildcard("CC", &["cc"])],
    };
    let entries: Vec<String> = Vec::new();
    file.handle_wildcards(&entries);
    assert_eq!(file.rules[0].build_commands, strings(&["cc a.c"]));
    assert_eq!(file.rules[1].build_commands, strings(&["echo other"]));
    assert_eq!(file.wildcards, vec![wildcard("CC", &["cc"])]);
}

#[test]
fn placeholder_rule_materializes_per_matching_entry() {
    let mut file = RemakeFile {
        rules: vec![rule("%.o", &["%.c"], &["cc -c $^"], false)],
        wildcards: vec![],
    };
    let entries = strings(&["foo.c"]);
    file.create_new_rules_from_placeholders(&entries);
    assert_eq!(file.rules, vec![rule("foo.o", &["foo.c"], &["cc -c $^"], false)]);
}

#[test]
fn placeholder_rule_yields_one_rule_per_match_in_directory_order() {
    let mut file = RemakeFile {
        rules: vec![
            rule("all", &["x"], &[], false),
            rule("%.o", &["%.c"], &[], false),
        ],
        wildcards: vec![],
    };
    let entries = strings(&["a.c", "readme", "b.c"]);
    file.create_new_rules_from_placeholders(&entries);
    assert_eq!(
        file.rules,
        vec![
            rule("all", &["x"], &[], false),
            rule("a.o", &["a.c"], &[], false),
            rule("b.o", &["b.c"], &[], false),
        ]
    );
}

#[test]
fn rule_with_empty_dependencies_is_never_a_pattern_rule() {
    let mut file = RemakeFile { rules: vec![rule("all", &[], &[], false)], wildcards: vec![] };
    let entries = strings(&["a.c"]);
    file.create_new_rules_from_placeholders(&entries);
    assert_eq!(file.rules, vec![rule("all", &[], &[], false)]);
}

#[test]
fn phony_folding_marks_and_removes() {
    let mut file = RemakeFile {
        rules: vec![
            rule(".PHONY", &["clean"], &[], true),
            rule("clean", &[], &["rm -f out"], false),
            rule("out", &["a.c"], &[], false),
        ],
        wildcards: vec![],
    };
    file.handle_phony_rules();
    assert_eq!(
        file.rules,
        vec![
            rule("clean", &[], &["rm -f out"], true),
            rule("out", &["a.c"], &[], false),
        ]
    );
}

#[test]
fn phony_name_without_rule_is_ignored() {
    let mut file = RemakeFile {
        rules: vec![rule(".PHONY", &["nothing"], &[], true), rule("all", &[], &[], false)],
        wildcards: vec![],
    };
    file.handle_phony_rules();
    assert_eq!(file.rules, vec![rule("all", &[], &[], false)]);
}

#[test]
fn rule_is_empty_and_clear() {
    let mut r = RemakeRule::new();
    assert!(r.is_empty());
    r.target = "x".to_string();
    r.is_phony = true;
    assert!(!r.is_empty());
    r.clear();
    assert!(r.is_empty());
    assert!(r.is_phony);
}

#[test]
fn wildcard_values_as_string_joins_with_spaces() {
    let w = wildcard("FLAGS", &["-O2", "-Wall"]);
    assert_eq!(w.values_as_string(), "-O2 -Wall");
    let mut w2 = wildcard("X", &[]);
    assert_eq!(w2.values_as_string(), "");
    w2.clear();
    assert_eq!(w2.symbol, "");
}

#[test]
fn dependencies_as_string_joins_with_spaces() {
    let r = rule("out", &["a", "b", "c"], &[], false);
    assert_eq!(r.dependencies_as_string(), "a b c");
}
