//! The laws the build planner obeys, stated over the resolver's
//! specification and proved for every rule set, root and filesystem
//! snapshot.

use vstd::prelude::*;
use crate::resolver::{
    fs_mtime, init_plan_state, rule_index, rule_index_from, spec_process_rules, spec_visit,
    spec_visit_deps, BuildAction, BuildError, PlanState,
};
use crate::types::{
    phony_listed, phony_marked, phony_pass, phony_target_name, rule_view_is_empty, FileView,
    RuleView, WildcardView,
};
use crate::resolver::FsEntryView;
use crate::parse::{
    add_wildcard, empty_rule_view, init_parse_state, parse_line, parse_lines, spec_parse,
    ParseError, ParseState,
};
use crate::render::{
    assignment_line, command_lines, header_line, join_lines, render_lines, renderable,
    renderable_rule, renderable_wildcard, plain_command, rule_lines, rules_lines, spec_render,
    wildcard_lines,
};
use crate::text::{
    contains_ch, count_ch, first_ch, lemma_count_ch_concat, lemma_count_ch_zero,
    lemma_first_ch_concat, lemma_first_ch_props, lemma_join_space_free, lemma_split_join_more,
    lemma_split_prefix, lemma_trim_plain, lemma_trim_token_space, nonempty_parts, spec_join_more,
    spec_join_space, spec_split_ch, trim_spaces,
};

verus! {

/// The rule an action speaks of.
pub open spec fn action_rule(a: BuildAction) -> usize {
    match a {
        BuildAction::Run { rule } => rule,
        BuildAction::UpToDate { rule } => rule,
    }
}

/// How many positions are still unvisited.
pub open spec fn count_false(s: Seq<bool>) -> int
    decreases s.len(),
{
    if s.len() == 0 {
        0int
    } else {
        (if s[0] {
            0int
        } else {
            1int
        }) + count_false(s.skip(1))
    }
}

/// No rule of the set is phony.
pub open spec fn no_phony(rules: Seq<RuleView>) -> bool {
    forall|k: int| 0 <= k < rules.len() ==> !rules[k].is_phony
}

/// Every target is strictly newer than every one of its dependencies.
pub open spec fn all_targets_fresh(rules: Seq<RuleView>, fs: Seq<FsEntryView>) -> bool {
    forall|k: int, d: int|
        0 <= k < rules.len() && 0 <= d < rules[k].dependencies.len() ==> fs_mtime(
            fs,
            rules[k].target,
        ) > fs_mtime(fs, rules[k].dependencies[d])
}

proof fn lemma_count_false_nonneg(s: Seq<bool>)
    ensures
        count_false(s) >= 0,
    decreases s.len(),
{
    if s.len() > 0 {
        lemma_count_false_nonneg(s.skip(1));
    }
}

proof fn lemma_count_false_update(s: Seq<bool>, i: int)
    requires
        0 <= i < s.len(),
        !s[i],
    ensures
        count_false(s.update(i, true)) == count_false(s) - 1,
        count_false(s) >= 1,
    decreases s.len(),
{
    lemma_count_false_nonneg(s.skip(1));
    if i == 0 {
        assert(s.update(0, true).skip(1) =~= s.skip(1));
    } else {
        assert(s.update(i, true).skip(1) =~= s.skip(1).update(i - 1, true));
        assert(s.skip(1)[i - 1] == s[i]);
        lemma_count_false_update(s.skip(1), i - 1);
    }
}

proof fn lemma_count_false_le(s1: Seq<bool>, s2: Seq<bool>)
    requires
        s1.len() == s2.len(),
        forall|k: int| 0 <= k < s1.len() && s1[k] ==> s2[k],
    ensures
        count_false(s2) <= count_false(s1),
    decreases s1.len(),
{
    if s1.len() > 0 {
        assert(forall|k: int|
            0 <= k < s1.skip(1).len() && s1.skip(1)[k] ==> s1[k + 1] && s2.skip(1)[k]);
        lemma_count_false_le(s1.skip(1), s2.skip(1));
    }
}

/// Where the scan for a target lands: between its start and the end
/// of the rule set, and on a matching rule when inside it.
pub proof fn lemma_rule_index_from_bounds(rules: Seq<RuleView>, name: Seq<char>, i: int)
    requires
        0 <= i <= rules.len(),
    ensures
        i <= rule_index_from(rules, name, i) <= rules.len(),
        rule_index_from(rules, name, i) < rules.len() ==> rules[rule_index_from(
            rules,
            name,
            i,
        )].target == name,
    decreases rules.len() - i,
{
    if i < rules.len() && rules[i].target != name {
        lemma_rule_index_from_bounds(rules, name, i + 1);
    }
}

/// A rule with no dependencies runs unconditionally: the whole plan is
/// one run of that rule, whatever the filesystem looks like.
pub proof fn lemma_no_dependencies_runs(file: FileView, root: Seq<char>, fs: Seq<FsEntryView>)
    requires
        rule_index(file.rules, root) < file.rules.len(),
        file.rules[rule_index(file.rules, root)].dependencies.len() == 0,
    ensures
        spec_process_rules(file, root, fs) == Ok::<Seq<BuildAction>, BuildError>(
            seq![BuildAction::Run { rule: rule_index(file.rules, root) as usize }],
        ),
{
}

/// A phony root always runs: whenever the build succeeds, the plan
/// holds a run of the root rule, whatever the timestamps say.
pub proof fn lemma_phony_always_runs(
    file: FileView,
    root: Seq<char>,
    fs: Seq<FsEntryView>,
    plan: Seq<BuildAction>,
)
    requires
        spec_process_rules(file, root, fs) == Ok::<Seq<BuildAction>, BuildError>(plan),
        rule_index(file.rules, root) < file.rules.len(),
        file.rules[rule_index(file.rules, root)].is_phony,
    ensures
        plan.len() > 0,
        exists|m: int|
            0 <= m < plan.len() && plan[m] == (BuildAction::Run {
                rule: rule_index(file.rules, root) as usize,
            }),
{
    let rules = file.rules;
    let r = rule_index(rules, root);
    let a = BuildAction::Run { rule: r as usize };
    if rules[r].dependencies.len() == 0 {
        assert(plan[0] == a);
    } else {
        let st0 = init_plan_state(rules.len());
        let st = spec_visit(rules, fs, st0, r, rules.len() as nat);
        let walked = spec_visit_deps(
            rules,
            fs,
            PlanState { visited: st0.visited.update(r, true), ..st0 },
            r,
            0,
            rules.len() as nat,
        );
        assert(st.failure is None);
        assert(plan == st.actions);
        assert(plan[plan.len() - 1] == a);
    }
}

/// On a fresh filesystem without phony rules, a visit schedules
/// nothing to run: no rule becomes executed and every appended action
/// reports up to date.
proof fn lemma_fresh_visit(
    rules: Seq<RuleView>,
    fs: Seq<FsEntryView>,
    st: PlanState,
    i: int,
    fuel: nat,
)
    requires
        no_phony(rules),
        all_targets_fresh(rules, fs),
        st.visited.len() == rules.len(),
        st.executed.len() == rules.len(),
        0 <= i < rules.len(),
        forall|k: int| 0 <= k < rules.len() ==> !st.executed[k],
    ensures
        ({
            let res = spec_visit(rules, fs, st, i, fuel);
            &&& res.visited.len() == rules.len()
            &&& res.executed.len() == rules.len()
            &&& forall|k: int| 0 <= k < rules.len() ==> !res.executed[k]
            &&& res.actions.len() >= st.actions.len()
            &&& forall|m: int| 0 <= m < st.actions.len() ==> res.actions[m] == st.actions[m]
            &&& forall|m: int|
                st.actions.len() <= m < res.actions.len() ==> res.actions[m] is UpToDate
        }),
    decreases fuel, 1int, 0int,
{
    if st.failure is None && fuel > 0 {
        let st1 = PlanState { visited: st.visited.update(i, true), ..st };
        lemma_fresh_visit_deps(rules, fs, st1, i, 0, fuel);
    }
}

/// On a fresh filesystem without phony rules, a dependency walk finds
/// nothing stale and schedules nothing to run.
proof fn lemma_fresh_visit_deps(
    rules: Seq<RuleView>,
    fs: Seq<FsEntryView>,
    st: PlanState,
    i: int,
    d: int,
    fuel: nat,
)
    requires
        no_phony(rules),
        all_targets_fresh(rules, fs),
        st.visited.len() == rules.len(),
        st.executed.len() == rules.len(),
        0 <= i < rules.len(),
        forall|k: int| 0 <= k < rules.len() ==> !st.executed[k],
    ensures
        ({
            let res = spec_visit_deps(rules, fs, st, i, d, fuel);
            &&& res.0.visited.len() == rules.len()
            &&& res.0.executed.len() == rules.len()
            &&& forall|k: int| 0 <= k < rules.len() ==> !res.0.executed[k]
            &&& res.0.actions.len() >= st.actions.len()
            &&& forall|m: int| 0 <= m < st.actions.len() ==> res.0.actions[m] == st.actions[m]
            &&& forall|m: int|
                st.actions.len() <= m < res.0.actions.len() ==> res.0.actions[m] is UpToDate
            &&& !res.1
        }),
    decreases fuel, 0int, rules[i].dependencies.len() - d,
{
    if st.failure is None && fuel > 0 && 0 <= d < rules[i].dependencies.len() {
        let dep = rules[i].dependencies[d];
        let j = rule_index(rules, dep);
        lemma_rule_index_from_bounds(rules, dep, 0);
        let st1 = if j < rules.len() && !st.visited[j] {
            spec_visit(rules, fs, st, j, (fuel - 1) as nat)
        } else {
            st
        };
        if j < rules.len() && !st.visited[j] {
            lemma_fresh_visit(rules, fs, st, j, (fuel - 1) as nat);
        }
        if st1.failure is None {
            if !(j >= rules.len() && !crate::resolver::fs_exists(fs, dep)) {
                assert(fs_mtime(fs, rules[i].target) > fs_mtime(fs, dep));
                lemma_fresh_visit_deps(rules, fs, st1, i, d + 1, fuel);
                let res = spec_visit_deps(rules, fs, st, i, d, fuel);
                let rest = spec_visit_deps(rules, fs, st1, i, d + 1, fuel);
                assert(res.0 == rest.0);
                assert forall|m: int|
                    st.actions.len() <= m < res.0.actions.len() implies res.0.actions[m] is UpToDate by {
                    if m < st1.actions.len() {
                        assert(res.0.actions[m] == st1.actions[m]);
                        assert(st1.actions[m] is UpToDate);
                    } else {
                        assert(res.0.actions[m] is UpToDate);
                    }
                }
            }
        }
    }
}

/// On a fresh filesystem the build is a no-op: when every rule is
/// non-phony and every target strictly newer than all its
/// dependencies, a successful build of a root with dependencies runs
/// nothing, and its last word is that the root is up to date.
pub proof fn lemma_fresh_build_runs_nothing(
    file: FileView,
    root: Seq<char>,
    fs: Seq<FsEntryView>,
    plan: Seq<BuildAction>,
)
    requires
        spec_process_rules(file, root, fs) == Ok::<Seq<BuildAction>, BuildError>(plan),
        no_phony(file.rules),
        all_targets_fresh(file.rules, fs),
        rule_index(file.rules, root) < file.rules.len(),
        file.rules[rule_index(file.rules, root)].dependencies.len() > 0,
    ensures
        forall|m: int| 0 <= m < plan.len() ==> plan[m] is UpToDate,
        plan.len() > 0,
        plan[plan.len() - 1] == (BuildAction::UpToDate {
            rule: rule_index(file.rules, root) as usize,
        }),
{
    let rules = file.rules;
    let r = rule_index(rules, root);
    lemma_rule_index_from_bounds(rules, root, 0);
    let st0 = init_plan_state(rules.len());
    let st = spec_visit(rules, fs, st0, r, rules.len() as nat);
    assert(st.failure is None);
    assert(plan == st.actions);
    lemma_fresh_visit(rules, fs, st0, r, rules.len() as nat);
    let st1 = PlanState { visited: st0.visited.update(r, true), ..st0 };
    lemma_fresh_visit_deps(rules, fs, st1, r, 0, rules.len() as nat);
}

/// Any failure a visit creates is an unresolved dependency.
proof fn lemma_visit_failure_kind(
    rules: Seq<RuleView>,
    fs: Seq<FsEntryView>,
    st: PlanState,
    i: int,
    fuel: nat,
)
    requires
        st.failure is None,
    ensures
        ({
            let res = spec_visit(rules, fs, st, i, fuel);
            res.failure is None || res.failure matches Some(
                BuildError::UnresolvedDependency { .. },
            )
        }),
    decreases fuel, 1int, 0int,
{
    if fuel > 0 {
        let st1 = PlanState { visited: st.visited.update(i, true), ..st };
        lemma_visit_deps_failure_kind(rules, fs, st1, i, 0, fuel);
    }
}

/// Any failure a dependency walk creates is an unresolved dependency.
proof fn lemma_visit_deps_failure_kind(
    rules: Seq<RuleView>,
    fs: Seq<FsEntryView>,
    st: PlanState,
    i: int,
    d: int,
    fuel: nat,
)
    requires
        st.failure is None,
    ensures
        ({
            let res = spec_visit_deps(rules, fs, st, i, d, fuel);
            res.0.failure is None || res.0.failure matches Some(
                BuildError::UnresolvedDependency { .. },
            )
        }),
    decreases fuel, 0int, rules[i].dependencies.len() - d,
{
    if fuel > 0 && 0 <= d < rules[i].dependencies.len() {
        let dep = rules[i].dependencies[d];
        let j = rule_index(rules, dep);
        let st1 = if j < rules.len() && !st.visited[j] {
            spec_visit(rules, fs, st, j, (fuel - 1) as nat)
        } else {
            st
        };
        if j < rules.len() && !st.visited[j] {
            lemma_visit_failure_kind(rules, fs, st, j, (fuel - 1) as nat);
        }
        if st1.failure is None && !(j >= rules.len() && !crate::resolver::fs_exists(fs, dep)) {
            lemma_visit_deps_failure_kind(rules, fs, st1, i, d + 1, fuel);
        }
    }
}

/// A dependency walk that still has an unresolvable dependency ahead
/// of it ends in failure.
proof fn lemma_unresolved_visit_deps(
    rules: Seq<RuleView>,
    fs: Seq<FsEntryView>,
    st: PlanState,
    i: int,
    d: int,
    fuel: nat,
)
    requires
        0 <= i < rules.len(),
        0 <= d,
        fuel >= 1,
        exists|d2: int|
            d <= d2 < rules[i].dependencies.len() && rule_index(
                rules,
                rules[i].dependencies[d2],
            ) == rules.len() && !crate::resolver::fs_exists(fs, rules[i].dependencies[d2]),
    ensures
        spec_visit_deps(rules, fs, st, i, d, fuel).0.failure is Some,
    decreases fuel, 0int, rules[i].dependencies.len() - d,
{
    if st.failure is Some {
    } else {
        let d2 = choose|d2: int|
            d <= d2 < rules[i].dependencies.len() && rule_index(
                rules,
                rules[i].dependencies[d2],
            ) == rules.len() && !crate::resolver::fs_exists(fs, rules[i].dependencies[d2]);
        let dep = rules[i].dependencies[d];
        let j = rule_index(rules, dep);
        lemma_rule_index_from_bounds(rules, dep, 0);
        let st1 = if j < rules.len() && !st.visited[j] {
            spec_visit(rules, fs, st, j, (fuel - 1) as nat)
        } else {
            st
        };
        if st1.failure is None && !(j >= rules.len() && !crate::resolver::fs_exists(fs, dep)) {
            assert(d2 > d);
            lemma_unresolved_visit_deps(rules, fs, st1, i, d + 1, fuel);
        }
    }
}

/// A dependency that names no rule and no name on disk is a fatal
/// resolution error: the build of a root whose rule has such a
/// dependency never returns a plan.
pub proof fn lemma_unresolved_dependency_fails(file: FileView, root: Seq<char>, fs: Seq<
    FsEntryView,
>)
    requires
        rule_index(file.rules, root) < file.rules.len(),
        exists|d2: int|
            0 <= d2 < file.rules[rule_index(file.rules, root)].dependencies.len() && rule_index(
                file.rules,
                file.rules[rule_index(file.rules, root)].dependencies[d2],
            ) == file.rules.len() && !crate::resolver::fs_exists(
                fs,
                file.rules[rule_index(file.rules, root)].dependencies[d2],
            ),
    ensures
        spec_process_rules(file, root, fs) matches Err(BuildError::UnresolvedDependency { .. }),
{
    let rules = file.rules;
    let r = rule_index(rules, root);
    lemma_rule_index_from_bounds(rules, root, 0);
    let st0 = init_plan_state(rules.len());
    let st1 = PlanState { visited: st0.visited.update(r, true), ..st0 };
    lemma_unresolved_visit_deps(rules, fs, st1, r, 0, rules.len() as nat);
    lemma_visit_deps_failure_kind(rules, fs, st1, r, 0, rules.len() as nat);
}

proof fn lemma_count_false_all_false(n: nat)
    ensures
        count_false(Seq::new(n, |k: int| false)) == n,
    decreases n,
{
    if n > 0 {
        assert(Seq::new(n, |k: int| false).skip(1) =~= Seq::new((n - 1) as nat, |k: int| false));
        lemma_count_false_all_false((n - 1) as nat);
    }
}

/// A visit extends the plan with one action per newly visited rule and
/// nothing else: earlier actions stay, every new action speaks of a
/// rule that this visit reached first, no two new actions speak of the
/// same rule, and on success the visited rule's own action comes last.
proof fn lemma_visit_structure(
    rules: Seq<RuleView>,
    fs: Seq<FsEntryView>,
    st: PlanState,
    i: int,
    fuel: nat,
)
    requires
        st.visited.len() == rules.len(),
        st.executed.len() == rules.len(),
        st.failure is None,
        rules.len() <= usize::MAX,
        0 <= i < rules.len(),
        !st.visited[i],
        fuel >= count_false(st.visited),
    ensures
        ({
            let res = spec_visit(rules, fs, st, i, fuel);
            &&& res.visited.len() == rules.len()
            &&& res.executed.len() == rules.len()
            &&& forall|k: int| 0 <= k < rules.len() && st.visited[k] ==> res.visited[k]
            &&& res.visited[i]
            &&& res.actions.len() >= st.actions.len()
            &&& forall|m: int| 0 <= m < st.actions.len() ==> res.actions[m] == st.actions[m]
            &&& forall|m: int|
                st.actions.len() <= m < res.actions.len() ==> 0 <= action_rule(res.actions[m])
                    < rules.len() && !st.visited[action_rule(res.actions[m]) as int]
                    && res.visited[action_rule(res.actions[m]) as int]
            &&& forall|m1: int, m2: int|
                st.actions.len() <= m1 < m2 < res.actions.len() ==> action_rule(res.actions[m1])
                    != action_rule(res.actions[m2])
            &&& (res.failure is None ==> res.actions.len() > st.actions.len() && action_rule(
                res.actions[res.actions.len() - 1],
            ) == i as usize && forall|k: int|
                0 <= k < rules.len() && !st.visited[k] && res.visited[k] ==> exists|m: int|
                    st.actions.len() <= m < res.actions.len() && action_rule(res.actions[m]) == k
                        as usize)
        }),
    decreases fuel, 1int, 0int,
{
    lemma_count_false_update(st.visited, i);
    let st1 = PlanState { visited: st.visited.update(i, true), ..st };
    lemma_visit_deps_structure(rules, fs, st1, i, 0, fuel);
    let walked = spec_visit_deps(rules, fs, st1, i, 0, fuel);
    let st2 = walked.0;
    let res = spec_visit(rules, fs, st, i, fuel);
    assert(res.visited == st2.visited);
    assert forall|k: int| 0 <= k < rules.len() && st.visited[k] implies res.visited[k] by {
        assert(st1.visited[k]);
    }
    assert(st1.visited[i]);
    assert(st2.visited[i]);
    if st2.failure is None {
        assert(res.actions == st2.actions.push(res.actions[res.actions.len() - 1]));
        assert forall|m: int|
            st.actions.len() <= m < res.actions.len() implies 0 <= action_rule(res.actions[m])
            < rules.len() && !st.visited[action_rule(res.actions[m]) as int] && res.visited[
        action_rule(res.actions[m]) as int] by {
            if m < res.actions.len() - 1 {
                assert(res.actions[m] == st2.actions[m]);
            } else {
                assert(action_rule(res.actions[m]) == i as usize);
                assert(res.visited[i]);
            }
        }
        assert forall|m1: int, m2: int|
            st.actions.len() <= m1 < m2 < res.actions.len() implies action_rule(res.actions[m1])
            != action_rule(res.actions[m2]) by {
            if m2 < res.actions.len() - 1 {
                assert(res.actions[m1] == st2.actions[m1]);
                assert(res.actions[m2] == st2.actions[m2]);
            } else {
                assert(action_rule(res.actions[m2]) == i as usize);
                if m1 < res.actions.len() - 1 {
                    assert(res.actions[m1] == st2.actions[m1]);
                    assert(!st1.visited[action_rule(st2.actions[m1]) as int]);
                }
            }
        }
        assert forall|k: int|
            0 <= k < rules.len() && !st.visited[k] && res.visited[k] implies exists|m: int|
            st.actions.len() <= m < res.actions.len() && action_rule(res.actions[m]) == k
                as usize by {
            if k == i {
                assert(action_rule(res.actions[res.actions.len() - 1]) == k as usize);
            } else {
                assert(!st1.visited[k] && st2.visited[k]);
                let m = choose|m: int|
                    st1.actions.len() <= m < st2.actions.len() && action_rule(st2.actions[m]) == k
                        as usize;
                assert(res.actions[m] == st2.actions[m]);
            }
        }
    }
}

/// A dependency walk extends the plan with one action per newly
/// visited rule and nothing else, and on success every dependency that
/// names a rule has that rule visited.
proof fn lemma_visit_deps_structure(
    rules: Seq<RuleView>,
    fs: Seq<FsEntryView>,
    st: PlanState,
    i: int,
    d: int,
    fuel: nat,
)
    requires
        st.visited.len() == rules.len(),
        st.executed.len() == rules.len(),
        st.failure is None,
        rules.len() <= usize::MAX,
        0 <= i < rules.len(),
        0 <= d,
        fuel >= count_false(st.visited) + 1,
    ensures
        ({
            let res = spec_visit_deps(rules, fs, st, i, d, fuel);
            &&& res.0.visited.len() == rules.len()
            &&& res.0.executed.len() == rules.len()
            &&& forall|k: int| 0 <= k < rules.len() && st.visited[k] ==> res.0.visited[k]
            &&& res.0.actions.len() >= st.actions.len()
            &&& forall|m: int| 0 <= m < st.actions.len() ==> res.0.actions[m] == st.actions[m]
            &&& forall|m: int|
                st.actions.len() <= m < res.0.actions.len() ==> 0 <= action_rule(res.0.actions[m])
                    < rules.len() && !st.visited[action_rule(res.0.actions[m]) as int]
                    && res.0.visited[action_rule(res.0.actions[m]) as int]
            &&& forall|m1: int, m2: int|
                st.actions.len() <= m1 < m2 < res.0.actions.len() ==> action_rule(
                    res.0.actions[m1],
                ) != action_rule(res.0.actions[m2])
            &&& (res.0.failure is None ==> (forall|k: int|
                0 <= k < rules.len() && !st.visited[k] && res.0.visited[k] ==> exists|m: int|
                    st.actions.len() <= m < res.0.actions.len() && action_rule(res.0.actions[m])
                        == k as usize) && (forall|d2: int|
                d <= d2 < rules[i].dependencies.len() && rule_index(
                    rules,
                    rules[i].dependencies[d2],
                ) < rules.len() ==> res.0.visited[rule_index(rules, rules[i].dependencies[d2])]))
        }),
    decreases fuel, 0int, rules[i].dependencies.len() - d,
{
    lemma_count_false_nonneg(st.visited);
    if 0 <= d < rules[i].dependencies.len() {
        let dep = rules[i].dependencies[d];
        let j = rule_index(rules, dep);
        lemma_rule_index_from_bounds(rules, dep, 0);
        let st1 = if j < rules.len() && !st.visited[j] {
            spec_visit(rules, fs, st, j, (fuel - 1) as nat)
        } else {
            st
        };
        if j < rules.len() && !st.visited[j] {
            lemma_visit_structure(rules, fs, st, j, (fuel - 1) as nat);
        }
        let res = spec_visit_deps(rules, fs, st, i, d, fuel);
        if st1.failure is None && !(j >= rules.len() && !crate::resolver::fs_exists(fs, dep)) {
            lemma_count_false_le(st.visited, st1.visited);
            lemma_visit_deps_structure(rules, fs, st1, i, d + 1, fuel);
            let rest = spec_visit_deps(rules, fs, st1, i, d + 1, fuel);
            assert(res.0 == rest.0);
            assert forall|m: int|
                st.actions.len() <= m < res.0.actions.len() implies 0 <= action_rule(
                res.0.actions[m],
            ) < rules.len() && !st.visited[action_rule(res.0.actions[m]) as int] && res.0.visited[
            action_rule(res.0.actions[m]) as int] by {
                if m < st1.actions.len() {
                    assert(res.0.actions[m] == st1.actions[m]);
                    assert(!st.visited[action_rule(st1.actions[m]) as int]);
                    assert(st1.visited[action_rule(st1.actions[m]) as int]);
                }
            }
            assert forall|m1: int, m2: int|
                st.actions.len() <= m1 < m2 < res.0.actions.len() implies action_rule(
                res.0.actions[m1],
            ) != action_rule(res.0.actions[m2]) by {
                if m2 < st1.actions.len() {
                    assert(res.0.actions[m1] == st1.actions[m1]);
                    assert(res.0.actions[m2] == st1.actions[m2]);
                } else if m1 < st1.actions.len() {
                    assert(res.0.actions[m1] == st1.actions[m1]);
                    assert(st1.visited[action_rule(st1.actions[m1]) as int]);
                    assert(!st1.visited[action_rule(res.0.actions[m2]) as int]);
                }
            }
            if res.0.failure is None {
                assert forall|k: int|
                    0 <= k < rules.len() && !st.visited[k] && res.0.visited[k] implies exists|
                    m: int,
                |
                    st.actions.len() <= m < res.0.actions.len() && action_rule(res.0.actions[m])
                        == k as usize by {
                    if st1.visited[k] {
                        let m = choose|m: int|
                            st.actions.len() <= m < st1.actions.len() && action_rule(
                                st1.actions[m],
                            ) == k as usize;
                        assert(res.0.actions[m] == st1.actions[m]);
                    }
                }
                assert forall|d2: int|
                    d <= d2 < rules[i].dependencies.len() && rule_index(
                        rules,
                        rules[i].dependencies[d2],
                    ) < rules.len() implies res.0.visited[rule_index(
                    rules,
                    rules[i].dependencies[d2],
                )] by {
                    lemma_rule_index_from_bounds(rules, rules[i].dependencies[d2], 0);
                    if d2 == d {
                        assert(st1.visited[j]);
                    }
                }
            }
        }
    }
}

/// A dependency walk that still has a strictly newer dependency ahead
/// of it, and ends without failure, reports the rule stale.
proof fn lemma_deps_stale_found(
    rules: Seq<RuleView>,
    fs: Seq<FsEntryView>,
    st: PlanState,
    i: int,
    d: int,
    fuel: nat,
)
    requires
        0 <= i < rules.len(),
        0 <= d,
        fuel >= 1,
        spec_visit_deps(rules, fs, st, i, d, fuel).0.failure is None,
        exists|d2: int|
            d <= d2 < rules[i].dependencies.len() && fs_mtime(fs, rules[i].target) < fs_mtime(
                fs,
                rules[i].dependencies[d2],
            ),
    ensures
        spec_visit_deps(rules, fs, st, i, d, fuel).1,
    decreases fuel, 0int, rules[i].dependencies.len() - d,
{
    if st.failure is None {
        let d2 = choose|d2: int|
            d <= d2 < rules[i].dependencies.len() && fs_mtime(fs, rules[i].target) < fs_mtime(
                fs,
                rules[i].dependencies[d2],
            );
        let dep = rules[i].dependencies[d];
        let j = rule_index(rules, dep);
        lemma_rule_index_from_bounds(rules, dep, 0);
        let st1 = if j < rules.len() && !st.visited[j] {
            spec_visit(rules, fs, st, j, (fuel - 1) as nat)
        } else {
            st
        };
        if st1.failure is None && !(j >= rules.len() && !crate::resolver::fs_exists(fs, dep)) {
            if d2 > d {
                lemma_deps_stale_found(rules, fs, st1, i, d + 1, fuel);
            }
        }
    }
}

/// A root older than one of its dependencies runs exactly once, last,
/// after every dependency's own rule has been resolved: in a
/// successful plan the final action runs the root, no other action
/// speaks of the root, and each dependency that names another rule has
/// that rule's one action strictly earlier in the plan.
pub proof fn lemma_stale_root_runs_once(
    file: FileView,
    root: Seq<char>,
    fs: Seq<FsEntryView>,
    plan: Seq<BuildAction>,
)
    requires
        spec_process_rules(file, root, fs) == Ok::<Seq<BuildAction>, BuildError>(plan),
        file.rules.len() <= usize::MAX,
        rule_index(file.rules, root) < file.rules.len(),
        file.rules[rule_index(file.rules, root)].dependencies.len() > 0,
        exists|d: int|
            0 <= d < file.rules[rule_index(file.rules, root)].dependencies.len() && fs_mtime(
                fs,
                file.rules[rule_index(file.rules, root)].target,
            ) < fs_mtime(fs, file.rules[rule_index(file.rules, root)].dependencies[d]),
    ensures
        plan.len() > 0,
        plan[plan.len() - 1] == (BuildAction::Run {
            rule: rule_index(file.rules, root) as usize,
        }),
        forall|m: int|
            0 <= m < plan.len() - 1 ==> action_rule(plan[m]) != rule_index(file.rules, root)
                as usize,
        forall|d: int|
            0 <= d < file.rules[rule_index(file.rules, root)].dependencies.len() && rule_index(
                file.rules,
                file.rules[rule_index(file.rules, root)].dependencies[d],
            ) < file.rules.len() && rule_index(
                file.rules,
                file.rules[rule_index(file.rules, root)].dependencies[d],
            ) != rule_index(file.rules, root) ==> exists|m: int|
                0 <= m < plan.len() - 1 && action_rule(plan[m]) == rule_index(
                    file.rules,
                    file.rules[rule_index(file.rules, root)].dependencies[d],
                ) as usize,
{
    let rules = file.rules;
    let r = rule_index(rules, root);
    lemma_rule_index_from_bounds(rules, root, 0);
    let n = rules.len() as nat;
    let st0 = init_plan_state(n);
    lemma_count_false_all_false(n);
    lemma_count_false_update(st0.visited, r);
    let st1 = PlanState { visited: st0.visited.update(r, true), ..st0 };
    let walked = spec_visit_deps(rules, fs, st1, r, 0, n);
    let st = spec_visit(rules, fs, st0, r, n);
    assert(st.failure is None);
    assert(walked.0.failure is None);
    lemma_deps_stale_found(rules, fs, st1, r, 0, n);
    assert(walked.1);
    assert(plan == st.actions);
    assert(plan[plan.len() - 1] == (BuildAction::Run { rule: r as usize }));
    lemma_visit_structure(rules, fs, st0, r, n);
    assert forall|m: int|
        0 <= m < plan.len() - 1 implies action_rule(plan[m]) != r as usize by {
        assert(action_rule(plan[plan.len() - 1]) == r as usize);
    }
    lemma_visit_deps_structure(rules, fs, st1, r, 0, n);
    assert forall|d: int|
        0 <= d < rules[r].dependencies.len() && rule_index(rules, rules[r].dependencies[d])
            < rules.len() && rule_index(rules, rules[r].dependencies[d]) != r implies exists|
        m: int,
    |
        0 <= m < plan.len() - 1 && action_rule(plan[m]) == rule_index(
            rules,
            rules[r].dependencies[d],
        ) as usize by {
        let j = rule_index(rules, rules[r].dependencies[d]);
        lemma_rule_index_from_bounds(rules, rules[r].dependencies[d], 0);
        assert(walked.0.visited[j]);
        assert(!st1.visited[j]);
        let m = choose|m: int|
            st1.actions.len() <= m < walked.0.actions.len() && action_rule(walked.0.actions[m])
                == j as usize;
        assert(plan[m] == walked.0.actions[m]);
        assert(m < plan.len() - 1);
    }
}

/// A text that fits on one line: free of newlines.
pub open spec fn single_line(l: Seq<char>) -> bool {
    forall|j: int| 0 <= j < l.len() ==> l[j] != '\n'
}

/// Joining newline-free lines and splitting on newlines gives the
/// lines back, with one empty part after the final newline.
proof fn lemma_split_join_lines(lines: Seq<Seq<char>>)
    requires
        forall|k: int| 0 <= k < lines.len() ==> single_line(#[trigger] lines[k]),
    ensures
        spec_split_ch(join_lines(lines), '\n') == lines.push(Seq::<char>::empty()),
    decreases lines.len(),
{
    if lines.len() == 0 {
        assert(join_lines(lines) == Seq::<char>::empty());
        assert(spec_split_ch(Seq::<char>::empty(), '\n') == seq![Seq::<char>::empty()]);
        assert(seq![Seq::<char>::empty()] =~~= lines.push(Seq::<char>::empty()));
    } else {
        let tail = lines.skip(1);
        assert(forall|k: int| 0 <= k < tail.len() ==> tail[k] == lines[k + 1]);
        lemma_split_join_lines(tail);
        assert(join_lines(lines) == lines[0] + seq!['\n'] + join_lines(tail));
        lemma_split_prefix(lines[0], join_lines(tail), '\n');
        assert(spec_split_ch(join_lines(lines), '\n') == seq![lines[0]] + tail.push(
            Seq::<char>::empty(),
        ));
        assert(seq![lines[0]] + tail.push(Seq::<char>::empty()) =~= lines.push(
            Seq::<char>::empty(),
        ));
    }
}

/// Every character of an assignment line, and what the line holds where.
proof fn lemma_assignment_line_shape(w: WildcardView)
    requires
        renderable_wildcard(w),
    ensures
        single_line(assignment_line(w)),
        parse_line_is_assignment(w),
{
    let a = w.symbol;
    let b = seq![' ', '=', ' '];
    let j = spec_join_space(w.values);
    let l = assignment_line(w);
    assert(l == a + b + j);
    assert forall|p: int|
        0 <= p < w.values.len() implies w.values[p].len() > 0 && forall|k: int|
        0 <= k < w.values[p].len() ==> (#[trigger] w.values[p][k]) != ' ' by {}
    lemma_join_space_free(w.values, '\n');
    lemma_join_space_free(w.values, ':');
    lemma_join_space_free(w.values, '=');
    assert forall|k: int| 0 <= k < l.len() implies l[k] != '\n' by {
        if k < a.len() {
            assert(l[k] == a[k]);
        } else if k < a.len() + 3 {
            assert(l[k] == b[k - a.len()]);
        } else {
            assert(l[k] == j[k - a.len() - 3]);
        }
    }
    // the first equals sign stands right after the symbol and the one space
    assert(first_ch(b, '=') == 1) by {
        assert(b.skip(1) =~= seq!['=', ' ']);
        assert(first_ch(seq!['=', ' '], '=') == 0);
    }
    lemma_first_ch_concat(a, b, '=');
    lemma_first_ch_props(a, '=');
    assert(first_ch(a + b, '=') == a.len() + 1);
    lemma_first_ch_props(a + b, '=');
    lemma_first_ch_concat(a + b, j, '=');
    assert(first_ch(l, '=') == a.len() + 1);
    // no colon anywhere
    assert(first_ch(b, ':') == 3) by {
        assert(b.skip(1) =~= seq!['=', ' ']);
        assert(seq!['=', ' '].skip(1) =~= seq![' ']);
        assert(seq![' '].skip(1) =~= Seq::<char>::empty());
        assert(first_ch(Seq::<char>::empty(), ':') == 0);
        assert(first_ch(seq![' '], ':') == 1);
        assert(first_ch(seq!['=', ' '], ':') == 2);
    }
    lemma_first_ch_concat(a, b, ':');
    lemma_first_ch_props(a, ':');
    assert(first_ch(a + b, ':') == a.len() + 3);
    lemma_first_ch_props(a + b, ':');
    lemma_first_ch_concat(a + b, j, ':');
    lemma_first_ch_props(j, ':');
    if contains_ch(j, ':') {
        let i = choose|i: int| 0 <= i < j.len() && j[i] == ':';
        assert(false);
    }
    assert(first_ch(l, ':') == a.len() + 3 + j.len());
    assert(l.len() == a.len() + 3 + j.len());
    // the symbol comes back from the text before the equals sign
    assert(l.take((a.len() + 1) as int) =~= a + seq![' ']);
    lemma_trim_token_space(a);
    // the values come back from the text after the equals sign
    assert(l.skip((a.len() + 2) as int) =~= seq![' '] + j);
    if w.values.len() == 0 {
        assert(j =~= Seq::<char>::empty());
        let s = seq![' '] + j;
        assert(s =~= seq![' ']);
        assert(s[0] == ' ');
        assert(s.skip(1) =~= Seq::<char>::empty());
        let sp = spec_split_ch(s, ' ');
        assert(sp == seq![Seq::<char>::empty()] + spec_split_ch(Seq::<char>::empty(), ' '));
        assert(sp =~~= seq![Seq::<char>::empty(), Seq::<char>::empty()]);
        assert(sp[0].len() == 0);
        assert(sp.skip(1) =~= seq![Seq::<char>::empty()]);
        assert(nonempty_parts(sp) == nonempty_parts(sp.skip(1)));
        assert(sp.skip(1)[0].len() == 0);
        assert(sp.skip(1).skip(1) =~= Seq::<Seq<char>>::empty());
        assert(nonempty_parts(sp.skip(1)) == nonempty_parts(sp.skip(1).skip(1)));
        assert(nonempty_parts(Seq::<Seq<char>>::empty()) == Seq::<Seq<char>>::empty());
        assert(nonempty_parts(spec_split_ch(l.skip(first_ch(l, '=') + 1), ' ')) =~= w.values);
    } else {
        assert(spec_join_more(w.values) =~= seq![' '] + j);
        lemma_split_join_more(w.values);
        assert(nonempty_parts(spec_split_ch(l.skip(first_ch(l, '=') + 1), ' ')) == w.values);
    }
}

/// The shape an assignment line must have for `parse_line` to apply
/// the assignment.
pub open spec fn parse_line_is_assignment(w: WildcardView) -> bool {
    let l = assignment_line(w);
    &&& l.len() > 0
    &&& l[0] != '\t'
    &&& first_ch(l, '=') < l.len()
    &&& first_ch(l, '=') < first_ch(l, ':')
    &&& trim_spaces(l.take(first_ch(l, '='))) == w.symbol
    &&& nonempty_parts(spec_split_ch(l.skip(first_ch(l, '=') + 1), ' ')) == w.values
}

/// Parsing an assignment line applies the assignment and touches
/// nothing else.
proof fn lemma_parse_assignment_line(st: ParseState, w: WildcardView)
    requires
        renderable_wildcard(w),
    ensures
        parse_line(st, assignment_line(w)) == Ok::<ParseState, ParseError>(
            ParseState { wildcards: add_wildcard(st.wildcards, w.symbol, w.values), ..st },
        ),
{
    lemma_assignment_line_shape(w);
}

/// Every character of a header line, and what the line holds where.
proof fn lemma_header_line_shape(r: RuleView)
    requires
        renderable_rule(r),
    ensures
        single_line(header_line(r)),
        parse_line_is_header(r),
{
    let a = r.target;
    let j = spec_join_more(r.dependencies);
    let l = header_line(r);
    assert(l == a + seq![':'] + j);
    assert forall|p: int|
        0 <= p < r.dependencies.len() implies r.dependencies[p].len() > 0 && forall|k: int|
        0 <= k < r.dependencies[p].len() ==> (#[trigger] r.dependencies[p][k]) != ' ' by {}
    lemma_join_space_free(r.dependencies, '\n');
    lemma_join_space_free(r.dependencies, ':');
    lemma_join_space_free(r.dependencies, '=');
    assert forall|k: int| 0 <= k < l.len() implies l[k] != '\n' by {
        if k < a.len() {
            assert(l[k] == a[k]);
        } else if k == a.len() {
            assert(l[k] == ':');
        } else {
            assert(l[k] == j[k - a.len() - 1]);
        }
    }
    assert forall|k: int| 0 <= k < l.len() implies l[k] != '=' by {
        if k < a.len() {
            assert(l[k] == a[k]);
        } else if k == a.len() {
            assert(l[k] == ':');
        } else {
            assert(l[k] == j[k - a.len() - 1]);
        }
    }
    lemma_first_ch_props(l, '=');
    if contains_ch(l, '=') {
        let i = choose|i: int| 0 <= i < l.len() && l[i] == '=';
        assert(false);
    }
    assert(first_ch(l, '=') == l.len());
    // exactly one colon, right after the target
    lemma_count_ch_zero(a, ':');
    lemma_count_ch_zero(j, ':');
    assert(count_ch(seq![':'], ':') == 1) by {
        assert(seq![':'].skip(1) =~= Seq::<char>::empty());
        assert(count_ch(Seq::<char>::empty(), ':') == 0);
    }
    lemma_count_ch_concat(a, seq![':'], ':');
    lemma_count_ch_concat(a + seq![':'], j, ':');
    assert(count_ch(l, ':') == 1);
    assert(first_ch(seq![':'], ':') == 0);
    lemma_first_ch_concat(a, seq![':'], ':');
    lemma_first_ch_props(a, ':');
    assert(first_ch(a + seq![':'], ':') == a.len());
    lemma_first_ch_props(a + seq![':'], ':');
    lemma_first_ch_concat(a + seq![':'], j, ':');
    assert(first_ch(l, ':') == a.len());
    assert(l.take(a.len() as int) =~= a);
    lemma_trim_plain(a);
    assert(l.skip((a.len() + 1) as int) =~= j);
    lemma_split_join_more(r.dependencies);
}

/// The shape a header line must have for `parse_line` to open the rule.
pub open spec fn parse_line_is_header(r: RuleView) -> bool {
    let l = header_line(r);
    &&& l.len() > 0
    &&& l[0] != '\t'
    &&& first_ch(l, '=') == l.len()
    &&& count_ch(l, ':') == 1
    &&& trim_spaces(l.take(first_ch(l, ':'))) == r.target
    &&& nonempty_parts(spec_split_ch(l.skip(first_ch(l, ':') + 1), ' ')) == r.dependencies
}

/// Parsing a header line closes the open rule and opens the new one.
proof fn lemma_parse_header_line(st: ParseState, r: RuleView)
    requires
        renderable_rule(r),
    ensures
        parse_line(st, header_line(r)) == Ok::<ParseState, ParseError>(
            ParseState {
                rules: if !rule_view_is_empty(st.current) {
                    st.rules.push(st.current)
                } else {
                    st.rules
                },
                wildcards: st.wildcards,
                current: RuleView {
                    target: r.target,
                    dependencies: r.dependencies,
                    build_commands: Seq::empty(),
                    is_phony: r.is_phony,
                },
            },
        ),
{
    lemma_header_line_shape(r);
    let l = header_line(r);
    lemma_first_ch_props(l, '=');
}

/// Parsing lines one list after the other.
proof fn lemma_parse_lines_append(st: ParseState, la: Seq<Seq<char>>, lb: Seq<Seq<char>>)
    ensures
        parse_lines(st, la + lb) == (match parse_lines(st, la) {
            Ok(st2) => parse_lines(st2, lb),
            Err(e) => Err(e),
        }),
    decreases la.len(),
{
    if la.len() == 0 {
        assert(la + lb =~= lb);
    } else {
        assert((la + lb)[0] == la[0]);
        assert((la + lb).skip(1) =~= la.skip(1) + lb);
        match parse_line(st, la[0]) {
            Ok(st2) => {
                lemma_parse_lines_append(st2, la.skip(1), lb);
            },
            Err(e) => {},
        }
    }
}

/// Parsing the command lines of the open rule appends the commands.
proof fn lemma_parse_command_lines(st: ParseState, cs: Seq<Seq<char>>)
    requires
        st.current.target.len() > 0,
    ensures
        parse_lines(st, command_lines(cs)) == Ok::<ParseState, ParseError>(
            ParseState {
                current: RuleView {
                    build_commands: st.current.build_commands + cs,
                    ..st.current
                },
                ..st
            },
        ),
    decreases cs.len(),
{
    let lines = command_lines(cs);
    if cs.len() == 0 {
        assert(lines =~= Seq::<Seq<char>>::empty());
        assert(st.current.build_commands + cs =~= st.current.build_commands);
        assert(parse_lines(st, lines) == Ok::<ParseState, ParseError>(st));
        assert(Ok::<ParseState, ParseError>(st) == Ok::<ParseState, ParseError>(
            ParseState {
                current: RuleView { build_commands: st.current.build_commands + cs, ..st.current },
                ..st
            },
        )) by {
            assert(st =~= (ParseState {
                current: RuleView { build_commands: st.current.build_commands + cs, ..st.current },
                ..st
            }));
        }
    } else {
        let l = lines[0];
        assert(l == seq!['\t'] + cs[0]);
        assert(l[0] == '\t');
        assert(l.skip(1) =~= cs[0]);
        let st2 = ParseState {
            current: RuleView {
                build_commands: st.current.build_commands.push(cs[0]),
                ..st.current
            },
            ..st
        };
        assert(parse_line(st, l) == Ok::<ParseState, ParseError>(st2));
        assert(lines.skip(1) =~= command_lines(cs.skip(1)));
        lemma_parse_command_lines(st2, cs.skip(1));
        assert(st2.current.build_commands + cs.skip(1) =~= st.current.build_commands + cs);
        assert((ParseState {
            current: RuleView {
                build_commands: st2.current.build_commands + cs.skip(1),
                ..st2.current
            },
            ..st2
        }) =~= (ParseState {
            current: RuleView { build_commands: st.current.build_commands + cs, ..st.current },
            ..st
        }));
    }
}

/// Command lines are newline-free when the commands are.
proof fn lemma_command_lines_single(cs: Seq<Seq<char>>)
    requires
        forall|c: int| 0 <= c < cs.len() ==> plain_command(#[trigger] cs[c]),
    ensures
        forall|k: int| 0 <= k < command_lines(cs).len() ==> single_line(#[trigger] command_lines(cs)[k]),
{
    assert forall|k: int|
        0 <= k < command_lines(cs).len() implies single_line(#[trigger] command_lines(cs)[k]) by {
        let l = command_lines(cs)[k];
        assert(l == seq!['\t'] + cs[k]);
        assert forall|j: int| 0 <= j < l.len() implies l[j] != '\n' by {
            if j > 0 {
                assert(l[j] == cs[k][j - 1]);
            }
        }
    }
}

/// Parsing the assignment lines of a table of fresh, distinct symbols
/// appends them to the wildcard table and touches nothing else.
proof fn lemma_parse_wildcard_section(st: ParseState, ws: Seq<WildcardView>)
    requires
        forall|k: int| 0 <= k < ws.len() ==> renderable_wildcard(#[trigger] ws[k]),
        forall|k: int, j: int|
            0 <= k < ws.len() && 0 <= j < st.wildcards.len() ==> st.wildcards[j].symbol
                != ws[k].symbol,
        forall|a: int, b: int| 0 <= a < b < ws.len() ==> ws[a].symbol != ws[b].symbol,
    ensures
        parse_lines(st, wildcard_lines(ws)) == Ok::<ParseState, ParseError>(
            ParseState { wildcards: st.wildcards + ws, ..st },
        ),
    decreases ws.len(),
{
    if ws.len() == 0 {
        assert(wildcard_lines(ws) == Seq::<Seq<char>>::empty());
        assert(st.wildcards + ws =~= st.wildcards);
        assert(st =~= (ParseState { wildcards: st.wildcards + ws, ..st }));
    } else {
        let lines = wildcard_lines(ws);
        assert(lines[0] == assignment_line(ws[0]));
        assert(lines.skip(1) =~= wildcard_lines(ws.skip(1)));
        lemma_parse_assignment_line(st, ws[0]);
        crate::parse::lemma_add_wildcard_absent(st.wildcards, ws[0].symbol, ws[0].values);
        let st2 = ParseState { wildcards: st.wildcards + ws, ..st };
        let st1 = ParseState {
            wildcards: st.wildcards.push(
                WildcardView { symbol: ws[0].symbol, values: ws[0].values },
            ),
            ..st
        };
        assert(parse_line(st, lines[0]) == Ok::<ParseState, ParseError>(st1)) by {
            assert((ParseState {
                wildcards: add_wildcard(st.wildcards, ws[0].symbol, ws[0].values),
                ..st
            }) =~= st1);
        }
        assert(forall|k: int| 0 <= k < ws.skip(1).len() ==> ws.skip(1)[k] == ws[k + 1]);
        assert(st1.wildcards.len() == st.wildcards.len() + 1);
        assert(st1.wildcards[st.wildcards.len() as int] =~= ws[0]);
        assert forall|k: int, j: int|
            0 <= k < ws.skip(1).len() && 0 <= j < st1.wildcards.len() implies st1.wildcards[j].symbol
            != ws.skip(1)[k].symbol by {
            if j < st.wildcards.len() {
                assert(st1.wildcards[j] == st.wildcards[j]);
            } else {
                assert(st1.wildcards[j].symbol == ws[0].symbol);
            }
        }
        lemma_parse_wildcard_section(st1, ws.skip(1));
        assert(st1.wildcards + ws.skip(1) =~= st.wildcards + ws);
        assert((ParseState { wildcards: st1.wildcards + ws.skip(1), ..st1 }) =~= st2);
    }
}

/// Parsing the lines of a run of renderable rules, with `cur` the rule
/// still open: the earlier rules close in order and the last stays open.
proof fn lemma_parse_rules_section(
    done: Seq<RuleView>,
    table: Seq<WildcardView>,
    cur: RuleView,
    rest: Seq<RuleView>,
)
    requires
        forall|k: int| 0 <= k < rest.len() ==> renderable_rule(#[trigger] rest[k]),
        cur == empty_rule_view() || cur.target.len() > 0,
    ensures
        parse_lines(
            ParseState { rules: done, wildcards: table, current: cur },
            rules_lines(rest),
        ) == (if rest.len() == 0 {
            Ok::<ParseState, ParseError>(
                ParseState { rules: done, wildcards: table, current: cur },
            )
        } else {
            Ok::<ParseState, ParseError>(
                ParseState {
                    rules: done + (if !rule_view_is_empty(cur) {
                        seq![cur]
                    } else {
                        Seq::<RuleView>::empty()
                    }) + rest.take(rest.len() - 1),
                    wildcards: table,
                    current: rest[rest.len() - 1],
                },
            )
        }),
    decreases rest.len(),
{
    let st = ParseState { rules: done, wildcards: table, current: cur };
    if rest.len() > 0 {
        let r0 = rest[0];
        let lines = rules_lines(rest);
        assert(lines =~= rule_lines(r0) + rules_lines(rest.skip(1)));
        assert(lines[0] == header_line(r0));
        assert(lines.skip(1) =~= command_lines(r0.build_commands) + rules_lines(rest.skip(1)));
        lemma_parse_header_line(st, r0);
        let closed = if !rule_view_is_empty(cur) {
            done.push(cur)
        } else {
            done
        };
        let st_h = ParseState {
            rules: closed,
            wildcards: table,
            current: RuleView {
                target: r0.target,
                dependencies: r0.dependencies,
                build_commands: Seq::empty(),
                is_phony: r0.is_phony,
            },
        };
        assert(parse_line(st, lines[0]) == Ok::<ParseState, ParseError>(st_h));
        lemma_parse_lines_append(
            st_h,
            command_lines(r0.build_commands),
            rules_lines(rest.skip(1)),
        );
        lemma_parse_command_lines(st_h, r0.build_commands);
        let st_c = ParseState {
            rules: closed,
            wildcards: table,
            current: r0,
        };
        assert(parse_lines(st_h, command_lines(r0.build_commands)) == Ok::<
            ParseState,
            ParseError,
        >(st_c)) by {
            assert(Seq::<Seq<char>>::empty() + r0.build_commands =~= r0.build_commands);
            assert((ParseState {
                current: RuleView {
                    build_commands: st_h.current.build_commands + r0.build_commands,
                    ..st_h.current
                },
                ..st_h
            }) =~~= st_c);
        }
        assert(forall|k: int| 0 <= k < rest.skip(1).len() ==> rest.skip(1)[k] == rest[k + 1]);
        lemma_parse_rules_section(closed, table, r0, rest.skip(1));
        if rest.len() == 1 {
            assert(rest.take(0) =~= Seq::<RuleView>::empty());
            assert(closed + rest.take(0) =~= closed);
            assert(closed =~= done + (if !rule_view_is_empty(cur) {
                seq![cur]
            } else {
                Seq::<RuleView>::empty()
            }) + rest.take(rest.len() - 1));
        } else {
            assert(!rule_view_is_empty(r0));
            assert(closed + seq![r0] + rest.skip(1).take(rest.skip(1).len() - 1) =~= done + (
            if !rule_view_is_empty(cur) {
                seq![cur]
            } else {
                Seq::<RuleView>::empty()
            }) + rest.take(rest.len() - 1));
            assert(rest.skip(1)[rest.skip(1).len() - 1] == rest[rest.len() - 1]);
        }
    }
}

/// Every rendered line of the file fits on one line.
proof fn lemma_render_lines_single(f: FileView)
    requires
        renderable(f),
    ensures
        forall|k: int|
            0 <= k < render_lines(f).len() ==> single_line(#[trigger] render_lines(f)[k]),
{
    lemma_wildcard_lines_single(f.wildcards);
    lemma_rules_lines_single(f.rules);
    assert forall|k: int|
        0 <= k < render_lines(f).len() implies single_line(#[trigger] render_lines(f)[k]) by {
        if k < wildcard_lines(f.wildcards).len() {
            assert(render_lines(f)[k] == wildcard_lines(f.wildcards)[k]);
        } else {
            assert(render_lines(f)[k] == rules_lines(f.rules)[k - wildcard_lines(
                f.wildcards,
            ).len()]);
        }
    }
}

proof fn lemma_wildcard_lines_single(ws: Seq<WildcardView>)
    requires
        forall|k: int| 0 <= k < ws.len() ==> renderable_wildcard(#[trigger] ws[k]),
    ensures
        forall|k: int|
            0 <= k < wildcard_lines(ws).len() ==> single_line(#[trigger] wildcard_lines(ws)[k]),
    decreases ws.len(),
{
    if ws.len() > 0 {
        assert(forall|k: int| 0 <= k < ws.skip(1).len() ==> ws.skip(1)[k] == ws[k + 1]);
        lemma_wildcard_lines_single(ws.skip(1));
        lemma_assignment_line_shape(ws[0]);
        assert forall|k: int|
            0 <= k < wildcard_lines(ws).len() implies single_line(
            #[trigger] wildcard_lines(ws)[k],
        ) by {
            if k == 0 {
                assert(wildcard_lines(ws)[0] == assignment_line(ws[0]));
            } else {
                assert(wildcard_lines(ws)[k] == wildcard_lines(ws.skip(1))[k - 1]);
            }
        }
    }
}

proof fn lemma_rules_lines_single(rules: Seq<RuleView>)
    requires
        forall|k: int| 0 <= k < rules.len() ==> renderable_rule(#[trigger] rules[k]),
    ensures
        forall|k: int|
            0 <= k < rules_lines(rules).len() ==> single_line(#[trigger] rules_lines(rules)[k]),
    decreases rules.len(),
{
    if rules.len() > 0 {
        assert(forall|k: int| 0 <= k < rules.skip(1).len() ==> rules.skip(1)[k] == rules[k + 1]);
        lemma_rules_lines_single(rules.skip(1));
        lemma_header_line_shape(rules[0]);
        lemma_command_lines_single(rules[0].build_commands);
        assert forall|k: int|
            0 <= k < rules_lines(rules).len() implies single_line(
            #[trigger] rules_lines(rules)[k],
        ) by {
            let own = rule_lines(rules[0]);
            if k < own.len() {
                assert(rules_lines(rules)[k] == own[k]);
                if k == 0 {
                    assert(own[0] == header_line(rules[0]));
                } else {
                    assert(own[k] == command_lines(rules[0].build_commands)[k - 1]);
                }
            } else {
                assert(rules_lines(rules)[k] == rules_lines(rules.skip(1))[k - own.len()]);
            }
        }
    }
}

/// Parsing is the inverse of rendering: a renderable rule set,
/// re-serialized as rule-file text and parsed again, comes back equal.
pub proof fn lemma_parse_render_round_trip(f: FileView)
    requires
        renderable(f),
    ensures
        spec_parse(spec_render(f)) == Ok::<FileView, ParseError>(f),
{
    lemma_render_lines_single(f);
    lemma_split_join_lines(render_lines(f));
    let lines = render_lines(f).push(Seq::<char>::empty());
    assert(spec_split_ch(spec_render(f), '\n') == lines);
    let st0 = init_parse_state();
    assert(lines =~= wildcard_lines(f.wildcards) + (rules_lines(f.rules) + seq![
        Seq::<char>::empty(),
    ]));
    lemma_parse_lines_append(
        st0,
        wildcard_lines(f.wildcards),
        rules_lines(f.rules) + seq![Seq::<char>::empty()],
    );
    lemma_parse_wildcard_section(st0, f.wildcards);
    let st_w = ParseState {
        rules: Seq::empty(),
        wildcards: Seq::<WildcardView>::empty() + f.wildcards,
        current: empty_rule_view(),
    };
    assert(parse_lines(st0, wildcard_lines(f.wildcards)) == Ok::<ParseState, ParseError>(st_w));
    lemma_parse_lines_append(st_w, rules_lines(f.rules), seq![Seq::<char>::empty()]);
    lemma_parse_rules_section(Seq::empty(), st_w.wildcards, empty_rule_view(), f.rules);
    assert(Seq::<WildcardView>::empty() + f.wildcards =~= f.wildcards);
    if f.rules.len() == 0 {
        let st_r = ParseState {
            rules: st_w.rules,
            wildcards: st_w.wildcards,
            current: st_w.current,
        };
        assert(parse_lines(st_w, rules_lines(f.rules)) == Ok::<ParseState, ParseError>(st_w));
        assert(parse_line(st_w, Seq::<char>::empty()) == Ok::<ParseState, ParseError>(st_w));
        assert(seq![Seq::<char>::empty()].skip(1) =~= Seq::<Seq<char>>::empty());
        assert(parse_lines(st_w, Seq::<Seq<char>>::empty()) == Ok::<ParseState, ParseError>(st_w));
        assert(parse_lines(st_w, seq![Seq::<char>::empty()]) == Ok::<ParseState, ParseError>(
            st_w,
        ));
        assert(rule_view_is_empty(st_w.current));
        assert(spec_parse(spec_render(f))->Ok_0 =~~= f);
    } else {
        let last = f.rules[f.rules.len() - 1];
        let st_r = ParseState {
            rules: Seq::<RuleView>::empty() + Seq::<RuleView>::empty() + f.rules.take(
                f.rules.len() - 1,
            ),
            wildcards: f.wildcards,
            current: last,
        };
        assert(rule_view_is_empty(empty_rule_view()));
        assert(parse_lines(st_w, rules_lines(f.rules)) == Ok::<ParseState, ParseError>(st_r));
        assert(parse_line(st_r, Seq::<char>::empty()) == Ok::<ParseState, ParseError>(st_r));
        assert(seq![Seq::<char>::empty()].skip(1) =~= Seq::<Seq<char>>::empty());
        assert(parse_lines(st_r, Seq::<Seq<char>>::empty()) == Ok::<ParseState, ParseError>(st_r));
        assert(parse_lines(st_r, seq![Seq::<char>::empty()]) == Ok::<ParseState, ParseError>(
            st_r,
        ));
        assert(!rule_view_is_empty(last));
        assert(st_r.rules.push(last) =~= f.rules);
        assert(spec_parse(spec_render(f))->Ok_0 =~~= f);
    }
}


/// What one marking pass does: the pseudo-rules disappear, every other
/// rule survives with its fields kept, and its phony flag is raised
/// exactly when its target is among the listed names.
proof fn lemma_phony_marked_props(rules: Seq<RuleView>, names: Seq<Seq<char>>)
    ensures
        ({
            let res = phony_marked(rules, names);
            &&& forall|m: int| 0 <= m < res.len() ==> (#[trigger] res[m]).target != phony_target_name()
            &&& forall|k: int|
                0 <= k < rules.len() && (#[trigger] rules[k]).target != phony_target_name()
                    ==> exists|m: int|
                    0 <= m < res.len() && res[m] == (RuleView {
                        target: rules[k].target,
                        dependencies: rules[k].dependencies,
                        build_commands: rules[k].build_commands,
                        is_phony: rules[k].is_phony || names.contains(rules[k].target),
                    })
        }),
    decreases rules.len(),
{
    if rules.len() > 0 {
        assert(forall|k: int| 0 <= k < rules.skip(1).len() ==> rules.skip(1)[k] == rules[k + 1]);
        lemma_phony_marked_props(rules.skip(1), names);
        let res = phony_marked(rules, names);
        let rest = phony_marked(rules.skip(1), names);
        let head: Seq<RuleView> = if rules[0].target == phony_target_name() {
            Seq::<RuleView>::empty()
        } else {
            seq![
                RuleView {
                    target: rules[0].target,
                    dependencies: rules[0].dependencies,
                    build_commands: rules[0].build_commands,
                    is_phony: rules[0].is_phony || names.contains(rules[0].target),
                },
            ]
        };
        assert(res == head + rest);
        assert forall|m: int|
            0 <= m < res.len() implies (#[trigger] res[m]).target != phony_target_name() by {
            if m >= head.len() {
                assert(res[m] == rest[m - head.len()]);
            }
        }
        assert forall|k: int|
            0 <= k < rules.len() && (#[trigger] rules[k]).target != phony_target_name()
                implies exists|m: int|
            0 <= m < res.len() && res[m] == (RuleView {
                target: rules[k].target,
                dependencies: rules[k].dependencies,
                build_commands: rules[k].build_commands,
                is_phony: rules[k].is_phony || names.contains(rules[k].target),
            }) by {
            if k == 0 {
                assert(res[0] == head[0]);
            } else {
                assert(rules.skip(1)[k - 1] == rules[k]);
                assert((#[trigger] rules.skip(1)[k - 1]).target != phony_target_name());
                let m = choose|m: int|
                    0 <= m < rest.len() && rest[m] == (RuleView {
                        target: rules[k].target,
                        dependencies: rules[k].dependencies,
                        build_commands: rules[k].build_commands,
                        is_phony: rules[k].is_phony || names.contains(rules[k].target),
                    });
                assert(res[m + head.len()] == rest[m]);
            }
        }
    }
}

/// Phony folding leaves no pseudo-rule behind, and every rule named in
/// a pseudo-rule's dependency list comes out marked phony.
pub proof fn lemma_phony_pass_folds(rules: Seq<RuleView>)
    ensures
        forall|m: int|
            0 <= m < phony_pass(rules).len() ==> (#[trigger] phony_pass(rules)[m]).target
                != phony_target_name(),
        forall|k: int|
            0 <= k < rules.len() && (#[trigger] rules[k]).target != phony_target_name()
                && phony_listed(rules).contains(rules[k].target) ==> exists|m: int|
                0 <= m < phony_pass(rules).len() && phony_pass(rules)[m].target == rules[k].target
                    && phony_pass(rules)[m].is_phony,
{
    lemma_phony_marked_props(rules, phony_listed(rules));
    assert forall|k: int|
        0 <= k < rules.len() && (#[trigger] rules[k]).target != phony_target_name()
            && phony_listed(rules).contains(rules[k].target) implies exists|m: int|
        0 <= m < phony_pass(rules).len() && phony_pass(rules)[m].target == rules[k].target
            && phony_pass(rules)[m].is_phony by {
        let names = phony_listed(rules);
        let m = choose|m: int|
            0 <= m < phony_marked(rules, names).len() && phony_marked(rules, names)[m] == (RuleView {
                target: rules[k].target,
                dependencies: rules[k].dependencies,
                build_commands: rules[k].build_commands,
                is_phony: rules[k].is_phony || names.contains(rules[k].target),
            });
        assert(phony_pass(rules)[m].target == rules[k].target);
    }
}

} // verus!
