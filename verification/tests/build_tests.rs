use remake::resolver::{
    cache_is_stale, process_rules, strip_quiet_marker, BuildAction, BuildError, FsEntry,
};
use remake::types::{RemakeFile, RemakeRule};

fn rule(target: &str, deps: &[&str], cmds: &[&str], phony: bool) -> RemakeRule {
    RemakeRule {
        target: target.to_string(),
        dependencies: deps.iter().map(|d| d.to_string()).collect(),
        build_commands: cmds.iter().map(|c| c.to_string()).collect(),
        is_phony: phony,
    }
}

fn entry(name: &str, mtime: u64) -> FsEntry {
    FsEntry { name: name.to_string(), mtime }
}

fn file_of(rules: Vec<RemakeRule>) -> RemakeFile {
    RemakeFile { rules, wildcards: vec![] }
}

#[test]
fn missing_root_rule_is_fatal() {
    let file = file_of(vec![rule("all", &[], &[], false)]);
    let fs: Vec<FsEntry> = vec![];
    let got = process_rules(&file, &"ghost".to_string(), &fs);
    assert_eq!(got, Err(BuildError::NoRuleByName));
}

#[test]
fn rule_without_dependencies_always_runs() {
    let file = file_of(vec![rule("gen", &[], &["touch gen"], false)]);
    let fs = vec![entry("gen", 1_000_000)];
    let got = process_rules(&file, &"gen".to_string(), &fs).unwrap();
    assert_eq!(got, vec![BuildAction::Run { rule: 0 }]);
}

#[test]
fn phony_rule_runs_despite_fresh_timestamps() {
    let file = file_of(vec![rule("clean", &["marker"], &["rm -f out"], true)]);
    let fs = vec![entry("clean", 100), entry("marker", 1)];
    let got = process_rules(&file, &"clean".to_string(), &fs).unwrap();
    assert_eq!(got, vec![BuildAction::Run { rule: 0 }]);
}

#[test]
fn fresh_target_is_reported_up_to_date() {
    let file = file_of(vec![rule("out", &["a.c", "b.c"], &["cc"], false)]);
    let fs = vec![entry("out", 50), entry("a.c", 10), entry("b.c", 20)];
    let got = process_rules(&file, &"out".to_string(), &fs).unwrap();
    assert_eq!(got, vec![BuildAction::UpToDate { rule: 0 }]);
}

#[test]
fn target_equal_in_age_to_dependency_is_up_to_date() {
    let file = file_of(vec![rule("out", &["a.c"], &["cc"], false)]);
    let fs = vec![entry("out", 10), entry("a.c", 10)];
    let got = process_rules(&file, &"out".to_string(), &fs).unwrap();
    assert_eq!(got, vec![BuildAction::UpToDate { rule: 0 }]);
}

#[test]
fn stale_target_runs_exactly_once() {
    let file = file_of(vec![rule("out", &["a.c"], &["cc"], false)]);
    let fs = vec![entry("out", 5), entry("a.c", 10)];
    let got = process_rules(&file, &"out".to_string(), &fs).unwrap();
    assert_eq!(got, vec![BuildAction::Run { rule: 0 }]);
}

#[test]
fn missing_target_file_counts_as_oldest() {
    let file = file_of(vec![rule("out", &["a.c"], &["cc"], false)]);
    let fs = vec![entry("a.c", 10)];
    let got = process_rules(&file, &"out".to_string(), &fs).unwrap();
    assert_eq!(got, vec![BuildAction::Run { rule: 0 }]);
}

#[test]
fn dependency_rule_is_resolved_before_the_dependent() {
    let file = file_of(vec![
        rule("out", &["mid"], &["link"], false),
        rule("mid", &["src"], &["compile"], false),
    ]);
    let fs = vec![entry("out", 5), entry("mid", 10), entry("src", 1)];
    let got = process_rules(&file, &"out".to_string(), &fs).unwrap();
    assert_eq!(
        got,
        vec![BuildAction::UpToDate { rule: 1 }, BuildAction::Run { rule: 0 }]
    );
}

#[test]
fn rebuilt_dependency_makes_the_dependent_stale() {
    let file = file_of(vec![
        rule("out", &["mid"], &["link"], false),
        rule("mid", &["src"], &["compile"], false),
    ]);
    let fs = vec![entry("out", 20), entry("mid", 10), entry("src", 15)];
    let got = process_rules(&file, &"out".to_string(), &fs).unwrap();
    assert_eq!(
        got,
        vec![BuildAction::Run { rule: 1 }, BuildAction::Run { rule: 0 }]
    );
}

#[test]
fn unresolved_dependency_is_fatal() {
    let file = file_of(vec![rule("out", &["missing.o"], &["cc"], false)]);
    let fs = vec![entry("out", 5)];
    let got = process_rules(&file, &"out".to_string(), &fs);
    assert_eq!(got, Err(BuildError::UnresolvedDependency { rule: 0, dep: 0 }));
}

#[test]
fn dependency_cycle_ends_and_runs_each_rule_once() {
    let file = file_of(vec![
        rule("a", &["b"], &["build a"], false),
        rule("b", &["a"], &["build b"], false),
    ]);
    let fs = vec![entry("a", 1), entry("b", 2)];
    let got = process_rules(&file, &"a".to_string(), &fs).unwrap();
    assert_eq!(
        got,
        vec![BuildAction::UpToDate { rule: 1 }, BuildAction::Run { rule: 0 }]
    );
}

#[test]
fn cache_is_stale_only_when_rule_file_is_newer() {
    assert!(cache_is_stale(10, 5));
    assert!(!cache_is_stale(5, 10));
    assert!(!cache_is_stale(7, 7));
}

#[test]
fn quiet_marker_is_stripped_for_one_line() {
    let (quiet, body) = strip_quiet_marker(&"@echo hello".to_string());
    assert!(quiet);
    assert_eq!(body, "echo hello");
    let (loud, same) = strip_quiet_marker(&"echo hello".to_string());
    assert!(!loud);
    assert_eq!(same, "echo hello");
}
