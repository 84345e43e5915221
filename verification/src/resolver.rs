//! The dependency resolver and scheduler.  Given a rule set, a root
//! target and a snapshot of modification times, it decides which rules
//! must run: a rule is stale when it is phony, when its target is
//! strictly older than a dependency, or when a dependency's own rule
//! was rebuilt.  Dependencies are resolved depth-first before their
//! dependents, each rule at most once, and the result is the ordered
//! plan of rules to run or to report up to date.

use vstd::prelude::*;
use crate::types::{FileView, RemakeFile, RemakeRule, RuleView};
use vstd::pervasive::VecAdditionalExecFns;
use vstd::string::StrSliceExecFns;
use vstd::string::StringExecFns;

verus! {

/// One name the build can see on disk, with its modification time.
/// A name with no entry is treated as absent, and absent names have
/// the earliest possible modification time.
#[derive(Debug, Clone, PartialEq)]
pub struct FsEntry {
    pub name: String,
    pub mtime: u64,
}

/// The mathematical value of a filesystem entry.
#[verifier::ext_equal]
pub struct FsEntryView {
    pub name: Seq<char>,
    pub mtime: u64,
}

impl View for FsEntry {
    type V = FsEntryView;

    open spec fn view(&self) -> FsEntryView {
        FsEntryView { name: self.name@, mtime: self.mtime }
    }
}

impl DeepView for FsEntry {
    type V = FsEntryView;

    open spec fn deep_view(&self) -> FsEntryView {
        self.view()
    }
}

/// One step of the plan: run a rule's commands, or report it up to date.
#[derive(Debug, Clone, Copy, PartialEq, Eq, Structural)]
pub enum BuildAction {
    /// The rule at this position of the rule set runs its commands.
    Run { rule: usize },
    /// The rule at this position is up to date and runs nothing.
    UpToDate { rule: usize },
}

/// Why the build cannot proceed.
#[derive(Debug, Clone, Copy, PartialEq, Eq, Structural)]
pub enum BuildError {
    /// No rule's target equals the requested root name.
    NoRuleByName,
    /// A dependency names no rule and no name on disk: the dependency
    /// at position `dep` of the rule at position `rule`.
    UnresolvedDependency { rule: usize, dep: usize },
}

/// Whether some entry carries the name.
pub open spec fn fs_exists(fs: Seq<FsEntryView>, name: Seq<char>) -> bool
    decreases fs.len(),
{
    if fs.len() == 0 {
        false
    } else if fs[0].name == name {
        true
    } else {
        fs_exists(fs.skip(1), name)
    }
}

/// The name's modification time: the first entry's time, or the
/// earliest possible time when the name is absent.
pub open spec fn fs_mtime(fs: Seq<FsEntryView>, name: Seq<char>) -> u64
    decreases fs.len(),
{
    if fs.len() == 0 {
        0u64
    } else if fs[0].name == name {
        fs[0].mtime
    } else {
        fs_mtime(fs.skip(1), name)
    }
}

/// The position of the first rule whose target is `name`, starting the
/// scan at `i`; `rules.len()` when no rule matches.
pub open spec fn rule_index_from(rules: Seq<RuleView>, name: Seq<char>, i: int) -> int
    decreases rules.len() - i,
{
    if i < 0 || i >= rules.len() {
        rules.len() as int
    } else if rules[i].target == name {
        i
    } else {
        rule_index_from(rules, name, i + 1)
    }
}

/// The position of the first rule whose target is `name`, or
/// `rules.len()` when no rule matches.
pub open spec fn rule_index(rules: Seq<RuleView>, name: Seq<char>) -> int {
    rule_index_from(rules, name, 0)
}

/// The resolver's running state: which rules were visited, which were
/// scheduled to run, the plan so far, and the first fatal error.
#[verifier::ext_equal]
pub struct PlanState {
    pub visited: Seq<bool>,
    pub executed: Seq<bool>,
    pub actions: Seq<BuildAction>,
    pub failure: Option<BuildError>,
}

/// The state before any rule is visited: nothing visited, nothing
/// executed, an empty plan and no error.
pub open spec fn init_plan_state(n: nat) -> PlanState {
    PlanState {
        visited: Seq::new(n, |k: int| false),
        executed: Seq::new(n, |k: int| false),
        actions: Seq::empty(),
        failure: None,
    }
}

/// One visit of the rule at position `i`: the rule is marked visited,
/// its dependencies are resolved depth-first, and the rule's action is
/// appended: it runs when it is phony or some dependency made it stale.
/// `fuel` bounds the visit nesting and never runs out when it starts at
/// least at the number of unvisited rules.
pub open spec fn spec_visit(
    rules: Seq<RuleView>,
    fs: Seq<FsEntryView>,
    st: PlanState,
    i: int,
    fuel: nat,
) -> PlanState
    decreases fuel, 1int, 0int,
{
    if st.failure is Some {
        st
    } else if fuel == 0 {
        st
    } else {
        let st1 = PlanState { visited: st.visited.update(i, true), ..st };
        let walked = spec_visit_deps(rules, fs, st1, i, 0, fuel);
        let st2 = walked.0;
        if st2.failure is Some {
            st2
        } else if rules[i].is_phony || walked.1 {
            PlanState {
                executed: st2.executed.update(i, true),
                actions: st2.actions.push(BuildAction::Run { rule: i as usize }),
                ..st2
            }
        } else {
            PlanState { actions: st2.actions.push(BuildAction::UpToDate { rule: i as usize }), ..st2 }
        }
    }
}

/// The walk over the dependencies of the rule at position `i`, from
/// position `d` on.  Each dependency naming an unvisited rule is
/// visited first; a dependency naming no rule and no name on disk is a
/// fatal error.  The second component tells whether some dependency
/// left the rule stale: the target strictly older than the dependency,
/// or the dependency's rule rebuilt.
pub open spec fn spec_visit_deps(
    rules: Seq<RuleView>,
    fs: Seq<FsEntryView>,
    st: PlanState,
    i: int,
    d: int,
    fuel: nat,
) -> (PlanState, bool)
    decreases fuel, 0int, rules[i].dependencies.len() - d,
{
    if st.failure is Some {
        (st, false)
    } else if fuel == 0 {
        (st, false)
    } else if d < 0 || d >= rules[i].dependencies.len() {
        (st, false)
    } else {
        let dep = rules[i].dependencies[d];
        let t = fs_mtime(fs, rules[i].target);
        let dt = fs_mtime(fs, dep);
        let j = rule_index(rules, dep);
        let st1 = if j < rules.len() && !st.visited[j] {
            spec_visit(rules, fs, st, j, (fuel - 1) as nat)
        } else {
            st
        };
        if st1.failure is Some {
            (st1, false)
        } else if j >= rules.len() && !fs_exists(fs, dep) {
            (
                PlanState {
                    failure: Some(
                        BuildError::UnresolvedDependency { rule: i as usize, dep: d as usize },
                    ),
                    ..st1
                },
                false,
            )
        } else {
            let this_stale = t < dt || (j < rules.len() && st1.executed[j]);
            let rest = spec_visit_deps(rules, fs, st1, i, d + 1, fuel);
            (rest.0, this_stale || rest.1)
        }
    }
}

/// The whole build plan for a root target, or the fatal error: no rule
/// by that name; a root rule without dependencies runs unconditionally;
/// any other root is resolved recursively.
pub open spec fn spec_process_rules(
    file: FileView,
    root: Seq<char>,
    fs: Seq<FsEntryView>,
) -> Result<Seq<BuildAction>, BuildError> {
    let rules = file.rules;
    let r = rule_index(rules, root);
    if r == rules.len() {
        Err(BuildError::NoRuleByName)
    } else if rules[r].dependencies.len() == 0 {
        Ok(seq![BuildAction::Run { rule: r as usize }])
    } else {
        let st = spec_visit(rules, fs, init_plan_state(rules.len()), r, rules.len() as nat);
        match st.failure {
            Some(e) => Err(e),
            None => Ok(st.actions),
        }
    }
}

/// The resolver's state as the executable code carries it.
pub struct BuildState {
    pub visited: Vec<bool>,
    pub executed: Vec<bool>,
    pub actions: Vec<BuildAction>,
    pub failure: Option<BuildError>,
}

impl View for BuildState {
    type V = PlanState;

    open spec fn view(&self) -> PlanState {
        PlanState {
            visited: self.visited@,
            executed: self.executed@,
            actions: self.actions@,
            failure: self.failure,
        }
    }
}

/// The position of the first rule whose target is `name`, or the
/// number of rules when no rule matches.
pub fn find_rule(rules: &Vec<RemakeRule>, name: &String) -> (r: usize)
    ensures
        r == rule_index(rules.deep_view(), name@),
        r <= rules@.len(),
{
    let ghost rv = rules.deep_view();
    let mut k: usize = 0;
    while k < rules.len()
        invariant
            rv == rules.deep_view(),
            rv.len() == rules@.len(),
            forall|j: int| 0 <= j < rv.len() ==> rv[j] == rules@[j]@,
            k <= rules.len(),
            rule_index(rv, name@) == rule_index_from(rv, name@, k as int),
        decreases rules.len() - k,
    {
        if rules[k].target.eq(name) {
            return k;
        }
        k += 1;
    }
    rules.len()
}

/// The name's modification time in the snapshot: the first entry's
/// time, or the earliest possible time when the name is absent.
pub fn mtime_of(fs: &Vec<FsEntry>, name: &String) -> (r: u64)
    ensures
        r == fs_mtime(fs.deep_view(), name@),
{
    let ghost fsv = fs.deep_view();
    let mut k: usize = 0;
    proof {
        assert(fsv.skip(0) =~= fsv);
    }
    while k < fs.len()
        invariant
            fsv == fs.deep_view(),
            fsv.len() == fs@.len(),
            forall|j: int| 0 <= j < fsv.len() ==> fsv[j] == fs@[j]@,
            k <= fs.len(),
            fs_mtime(fsv, name@) == fs_mtime(fsv.skip(k as int), name@),
        decreases fs.len() - k,
    {
        let ghost tail = fsv.skip(k as int);
        proof {
            assert(tail[0] == fsv[k as int]);
            assert(tail.skip(1) =~= fsv.skip(k + 1));
        }
        if fs[k].name.eq(name) {
            return fs[k].mtime;
        }
        k += 1;
    }
    proof {
        assert(fsv.skip(fsv.len() as int) =~= Seq::<FsEntryView>::empty());
    }
    0
}

/// Whether the snapshot carries the name at all.
pub fn exists_in(fs: &Vec<FsEntry>, name: &String) -> (r: bool)
    ensures
        r == fs_exists(fs.deep_view(), name@),
{
    let ghost fsv = fs.deep_view();
    let mut k: usize = 0;
    proof {
        assert(fsv.skip(0) =~= fsv);
    }
    while k < fs.len()
        invariant
            fsv == fs.deep_view(),
            fsv.len() == fs@.len(),
            forall|j: int| 0 <= j < fsv.len() ==> fsv[j] == fs@[j]@,
            k <= fs.len(),
            fs_exists(fsv, name@) == fs_exists(fsv.skip(k as int), name@),
        decreases fs.len() - k,
    {
        let ghost tail = fsv.skip(k as int);
        proof {
            assert(tail[0] == fsv[k as int]);
            assert(tail.skip(1) =~= fsv.skip(k + 1));
        }
        if fs[k].name.eq(name) {
            return true;
        }
        k += 1;
    }
    proof {
        assert(fsv.skip(fsv.len() as int) =~= Seq::<FsEntryView>::empty());
    }
    false
}

/// One visit of the rule at position `i`, exactly as `spec_visit`
/// describes it: dependencies resolved depth-first, then the rule's
/// own action appended.
pub fn process_rule(
    file: &RemakeFile,
    fs: &Vec<FsEntry>,
    i: usize,
    st: &mut BuildState,
    fuel: usize,
)
    requires
        i < file@.rules.len(),
        old(st).visited@.len() == file@.rules.len(),
        old(st).executed@.len() == file@.rules.len(),
    ensures
        final(st)@ == spec_visit(file@.rules, fs.deep_view(), old(st)@, i as int, fuel as nat),
        final(st).visited@.len() == old(st).visited@.len(),
        final(st).executed@.len() == old(st).executed@.len(),
    decreases fuel,
{
    let ghost rv = file@.rules;
    let ghost fsv = fs.deep_view();
    if st.failure.is_some() {
        return ;
    }
    if fuel == 0 {
        return ;
    }
    st.visited.set(i, true);
    let ghost st1 = st@;
    proof {
        assert(st1 =~= (PlanState { visited: old(st)@.visited.update(i as int, true), ..old(st)@ }));
    }
    let n_deps = file.rules[i].dependencies.len();
    let mut stale = false;
    let mut d: usize = 0;
    while d < n_deps
        invariant
            rv == file@.rules,
            fsv == fs.deep_view(),
            rv.len() == file.rules@.len(),
            forall|k: int| 0 <= k < rv.len() ==> rv[k] == file.rules@[k]@,
            i < rv.len(),
            n_deps == rv[i as int].dependencies.len(),
            fuel >= 1,
            st.visited@.len() == rv.len(),
            st.executed@.len() == rv.len(),
            old(st).visited@.len() == rv.len(),
            old(st).executed@.len() == rv.len(),
            old(st)@.failure is None,
            st1 == (PlanState { visited: old(st)@.visited.update(i as int, true), ..old(st)@ }),
            st@.failure is None,
            d <= n_deps,
            spec_visit_deps(rv, fsv, st1, i as int, 0, fuel as nat).0 == spec_visit_deps(
                rv,
                fsv,
                st@,
                i as int,
                d as int,
                fuel as nat,
            ).0,
            spec_visit_deps(rv, fsv, st1, i as int, 0, fuel as nat).1 == (stale
                || spec_visit_deps(rv, fsv, st@, i as int, d as int, fuel as nat).1),
        decreases n_deps - d,
    {
        let ghost st_before = st@;
        let dep = &file.rules[i].dependencies[d];
        let t = mtime_of(fs, &file.rules[i].target);
        let dt = mtime_of(fs, dep);
        let j = find_rule(&file.rules, dep);
        if j < file.rules.len() && !st.visited[j] {
            process_rule(file, fs, j, st, fuel - 1);
        }
        if st.failure.is_some() {
            proof {
                assert(st@ == spec_visit_deps(rv, fsv, st_before, i as int, d as int, fuel as nat).0);
                assert(st@ == spec_visit_deps(rv, fsv, st1, i as int, 0, fuel as nat).0);
                assert(st@ == spec_visit(rv, fsv, old(st)@, i as int, fuel as nat));
            }
            return ;
        }
        if j >= file.rules.len() && !exists_in(fs, dep) {
            st.failure = Some(BuildError::UnresolvedDependency { rule: i, dep: d });
            proof {
                assert(st@ =~= spec_visit_deps(rv, fsv, st_before, i as int, d as int, fuel as nat).0);
                assert(st@ == spec_visit_deps(rv, fsv, st1, i as int, 0, fuel as nat).0);
                assert(st@ == spec_visit(rv, fsv, old(st)@, i as int, fuel as nat));
            }
            return ;
        }
        let this_stale = t < dt || (j < file.rules.len() && st.executed[j]);
        stale = stale || this_stale;
        d += 1;
    }
    proof {
        assert(spec_visit_deps(rv, fsv, st@, i as int, n_deps as int, fuel as nat) == (st@, false));
    }
    if file.rules[i].is_phony || stale {
        st.executed.set(i, true);
        st.actions.push(BuildAction::Run { rule: i });
        proof {
            assert(st@ =~= spec_visit(rv, fsv, old(st)@, i as int, fuel as nat));
        }
    } else {
        st.actions.push(BuildAction::UpToDate { rule: i });
        proof {
            assert(st@ =~= spec_visit(rv, fsv, old(st)@, i as int, fuel as nat));
        }
    }
}

/// The whole build plan for a root target against a snapshot of
/// modification times: the rules to run and the rules to report up to
/// date, dependencies first; or the fatal error.  A root with no rule
/// is an error; a root rule without dependencies runs unconditionally.
pub fn process_rules(file: &RemakeFile, default_rule_name: &String, fs: &Vec<FsEntry>) -> (r:
    Result<Vec<BuildAction>, BuildError>)
    ensures
        (match r {
            Ok(plan) => spec_process_rules(file@, default_rule_name@, fs.deep_view()) == Ok::<
                Seq<BuildAction>,
                BuildError,
            >(plan@),
            Err(e) => spec_process_rules(file@, default_rule_name@, fs.deep_view()) == Err::<
                Seq<BuildAction>,
                BuildError,
            >(e),
        }),
{
    let r = find_rule(&file.rules, default_rule_name);
    if r == file.rules.len() {
        return Err(BuildError::NoRuleByName);
    }
    if file.rules[r].dependencies.len() == 0 {
        let mut plan: Vec<BuildAction> = Vec::new();
        plan.push(BuildAction::Run { rule: r });
        proof {
            assert(plan@ =~= seq![BuildAction::Run { rule: r }]);
        }
        return Ok(plan);
    }
    let n = file.rules.len();
    let mut visited: Vec<bool> = Vec::new();
    let mut executed: Vec<bool> = Vec::new();
    let mut k: usize = 0;
    while k < n
        invariant
            k <= n,
            visited@ =~= Seq::new(k as nat, |j: int| false),
            executed@ =~= Seq::new(k as nat, |j: int| false),
        decreases n - k,
    {
        visited.push(false);
        executed.push(false);
        proof {
            assert(visited@ =~= Seq::new((k + 1) as nat, |j: int| false));
            assert(executed@ =~= Seq::new((k + 1) as nat, |j: int| false));
        }
        k += 1;
    }
    let mut st = BuildState { visited, executed, actions: Vec::new(), failure: None };
    proof {
        assert(st@ =~= init_plan_state(file@.rules.len()));
    }
    process_rule(file, fs, r, &mut st, n);
    match st.failure {
        Some(e) => Err(e),
        None => Ok(st.actions),
    }
}


/// Whether the rule file is newer than the cache file, so that the
/// cached, fully expanded rule set cannot be reused and the file must
/// be parsed and expanded again.
pub fn cache_is_stale(rule_file_mtime: u64, cache_mtime: u64) -> (r: bool)
    ensures
        r == (rule_file_mtime > cache_mtime),
{
    rule_file_mtime > cache_mtime
}

/// Splits the quiet marker off one command line: a command beginning
/// with the marker runs with its echo suppressed, for that line only,
/// and the marker itself is not part of what runs.
pub fn strip_quiet_marker(command: &String) -> (r: (bool, String))
    ensures
        command@.len() > 0 && command@[0] == '@' ==> r.0 && r.1@ == command@.skip(1),
        !(command@.len() > 0 && command@[0] == '@') ==> !r.0 && r.1@ == command@,
{
    let n = command.as_str().unicode_len();
    if n > 0 && command.as_str().get_char(0) == '@' {
        let body = command.as_str().substring_char(1, n);
        proof {
            assert(body@ =~= command@.skip(1));
        }
        (true, String::from_str(body))
    } else {
        (false, command.clone())
    }
}

} // verus!
