//! The rule set: rules, wildcards (named macros) and the file that
//! groups them, together with the expansion passes that rewrite rules
//! before the build runs: wildcard substitution, automatic variables,
//! glob tokens, pattern-rule materialization and phony folding.

use vstd::prelude::*;
use crate::text::{contains_ch, contains_seq, spec_join_space, spec_replace, spec_split_ch};
use crate::text::{contains_char, contains_sub, join_spaces, replace_all, split_char};

verus! {

/// One build unit: a target, the names it depends on, and the command
/// lines that produce it.  `is_phony` marks a rule that is always
/// considered stale.
#[derive(Debug, Clone, PartialEq)]
pub struct RemakeRule {
    pub target: String,
    pub dependencies: Vec<String>,
    pub build_commands: Vec<String>,
    pub is_phony: bool,
}

/// A named macro: a symbol and the value list substituted for it.
#[derive(Debug, Clone, PartialEq)]
pub struct RemakeWildcard {
    pub symbol: String,
    pub values: Vec<String>,
}

/// The compiled rule file: rules in file order (the first rule is the
/// implicit default root) and the wildcard side table.
#[derive(Debug, Clone, PartialEq)]
pub struct RemakeFile {
    pub rules: Vec<RemakeRule>,
    pub wildcards: Vec<RemakeWildcard>,
}

/// The mathematical value of a rule.
#[verifier::ext_equal]
pub struct RuleView {
    pub target: Seq<char>,
    pub dependencies: Seq<Seq<char>>,
    pub build_commands: Seq<Seq<char>>,
    pub is_phony: bool,
}

/// The mathematical value of a wildcard.
#[verifier::ext_equal]
pub struct WildcardView {
    pub symbol: Seq<char>,
    pub values: Seq<Seq<char>>,
}

/// The mathematical value of a rule file.
#[verifier::ext_equal]
pub struct FileView {
    pub rules: Seq<RuleView>,
    pub wildcards: Seq<WildcardView>,
}

impl View for RemakeRule {
    type V = RuleView;

    open spec fn view(&self) -> RuleView {
        RuleView {
            target: self.target@,
            dependencies: self.dependencies.deep_view(),
            build_commands: self.build_commands.deep_view(),
            is_phony: self.is_phony,
        }
    }
}

impl DeepView for RemakeRule {
    type V = RuleView;

    open spec fn deep_view(&self) -> RuleView {
        self.view()
    }
}

impl View for RemakeWildcard {
    type V = WildcardView;

    open spec fn view(&self) -> WildcardView {
        WildcardView { symbol: self.symbol@, values: self.values.deep_view() }
    }
}

impl DeepView for RemakeWildcard {
    type V = WildcardView;

    open spec fn deep_view(&self) -> WildcardView {
        self.view()
    }
}

impl View for RemakeFile {
    type V = FileView;

    open spec fn view(&self) -> FileView {
        FileView { rules: self.rules.deep_view(), wildcards: self.wildcards.deep_view() }
    }
}

impl DeepView for RemakeFile {
    type V = FileView;

    open spec fn deep_view(&self) -> FileView {
        self.view()
    }
}

/// The text that refers to a wildcard inside a command, a dependency
/// or a target: the symbol preceded by a dollar sign.
pub open spec fn wildcard_ref(symbol: Seq<char>) -> Seq<char> {
    seq!['$'] + symbol
}

/// The command token that stands for the current rule's target.
pub open spec fn target_token() -> Seq<char> {
    seq!['$', '@']
}

/// The command token that stands for the current rule's dependency list.
pub open spec fn deps_token() -> Seq<char> {
    seq!['$', '^']
}

/// The text with every wildcard reference replaced by the wildcard's
/// joined values, wildcards applied in table order.
pub open spec fn expand_text(s: Seq<char>, ws: Seq<WildcardView>) -> Seq<char>
    decreases ws.len(),
{
    if ws.len() == 0 {
        s
    } else {
        expand_text(
            spec_replace(s, wildcard_ref(ws[0].symbol), spec_join_space(ws[0].values)),
            ws.skip(1),
        )
    }
}

/// The command with the automatic variables substituted: first the
/// target token, then the dependency-list token.
pub open spec fn auto_vars(c: Seq<char>, target: Seq<char>, deps_joined: Seq<char>) -> Seq<char> {
    spec_replace(spec_replace(c, target_token(), target), deps_token(), deps_joined)
}

/// A glob token with the glob characters stripped: the substring
/// filter matched against directory entries.
pub open spec fn glob_filter(tok: Seq<char>) -> Seq<char> {
    spec_replace(tok, seq!['*'], Seq::<char>::empty())
}

/// The directory entries whose name contains `filt`, in directory order.
pub open spec fn glob_matches(entries: Seq<Seq<char>>, filt: Seq<char>) -> Seq<Seq<char>>
    decreases entries.len(),
{
    if entries.len() == 0 {
        Seq::empty()
    } else if contains_seq(entries[0], filt) {
        seq![entries[0]] + glob_matches(entries.skip(1), filt)
    } else {
        glob_matches(entries.skip(1), filt)
    }
}

/// A command token after glob resolution: a token holding a glob
/// character becomes the space-joined list of matching entries, any
/// other token stays as it is.
pub open spec fn glob_token(tok: Seq<char>, entries: Seq<Seq<char>>) -> Seq<char> {
    if contains_ch(tok, '*') {
        spec_join_space(glob_matches(entries, glob_filter(tok)))
    } else {
        tok
    }
}

/// A command after glob resolution: when it holds a glob character it
/// is split on spaces, each token resolved, and the tokens re-joined;
/// otherwise it is left as it is.
pub open spec fn glob_resolve(c: Seq<char>, entries: Seq<Seq<char>>) -> Seq<char> {
    if contains_ch(c, '*') {
        spec_join_space(spec_split_ch(c, ' ').map_values(|t: Seq<char>| glob_token(t, entries)))
    } else {
        c
    }
}

/// A fully expanded command: wildcards, then automatic variables
/// (resolved against the already-expanded target and dependencies),
/// then glob tokens.
pub open spec fn expand_command(
    c: Seq<char>,
    ws: Seq<WildcardView>,
    target_x: Seq<char>,
    deps_joined: Seq<char>,
    entries: Seq<Seq<char>>,
) -> Seq<char> {
    glob_resolve(auto_vars(expand_text(c, ws), target_x, deps_joined), entries)
}

/// The dependency list after expansion: each name has its wildcards
/// substituted and is then re-split on spaces, so one wildcard that
/// expands to several names yields several dependencies.
pub open spec fn expand_deps(deps: Seq<Seq<char>>, ws: Seq<WildcardView>) -> Seq<Seq<char>>
    decreases deps.len(),
{
    if deps.len() == 0 {
        Seq::empty()
    } else {
        spec_split_ch(expand_text(deps[0], ws), ' ') + expand_deps(deps.skip(1), ws)
    }
}

/// A rule after the whole expansion pass.
pub open spec fn expanded_rule(
    r: RuleView,
    ws: Seq<WildcardView>,
    entries: Seq<Seq<char>>,
) -> RuleView {
    let t = expand_text(r.target, ws);
    let ds = expand_deps(r.dependencies, ws);
    RuleView {
        target: t,
        dependencies: ds,
        build_commands: r.build_commands.map_values(
            |c: Seq<char>| expand_command(c, ws, t, spec_join_space(ds), entries),
        ),
        is_phony: r.is_phony,
    }
}

/// Every rule of the set after the expansion pass.
pub open spec fn expanded_rules(
    rules: Seq<RuleView>,
    ws: Seq<WildcardView>,
    entries: Seq<Seq<char>>,
) -> Seq<RuleView> {
    rules.map_values(|r: RuleView| expanded_rule(r, ws, entries))
}

/// A pattern rule: its first dependency holds the placeholder.
pub open spec fn is_pattern_rule(r: RuleView) -> bool {
    r.dependencies.len() > 0 && contains_ch(r.dependencies[0], '%')
}

/// The literal remainder of a pattern rule's first dependency: the
/// dependency with the placeholder removed, matched as a substring
/// against directory entries.
pub open spec fn pattern_filter(r: RuleView) -> Seq<char> {
    spec_replace(r.dependencies[0], seq!['%'], Seq::<char>::empty())
}

/// The concrete rule a pattern rule yields for one matching entry:
/// the entry becomes the sole dependency, and a placeholder in the
/// target is replaced by the entry's stem (the entry with the literal
/// remainder removed).
pub open spec fn concretize(r: RuleView, entry: Seq<char>) -> RuleView {
    let stem = spec_replace(entry, pattern_filter(r), Seq::<char>::empty());
    RuleView {
        target: if contains_ch(r.target, '%') {
            spec_replace(r.target, seq!['%'], stem)
        } else {
            r.target
        },
        dependencies: seq![entry],
        build_commands: r.build_commands,
        is_phony: r.is_phony,
    }
}

/// One concrete rule per directory entry matching the pattern rule's
/// filter, in directory order.
pub open spec fn concrete_rules(r: RuleView, entries: Seq<Seq<char>>) -> Seq<RuleView>
    decreases entries.len(),
{
    if entries.len() == 0 {
        Seq::empty()
    } else if contains_seq(entries[0], pattern_filter(r)) {
        seq![concretize(r, entries[0])] + concrete_rules(r, entries.skip(1))
    } else {
        concrete_rules(r, entries.skip(1))
    }
}

/// The rule set after pattern-rule materialization: every pattern rule
/// is replaced, in place, by its concrete rules; other rules pass
/// through unchanged.
pub open spec fn placeholder_pass(rules: Seq<RuleView>, entries: Seq<Seq<char>>) -> Seq<RuleView>
    decreases rules.len(),
{
    if rules.len() == 0 {
        Seq::empty()
    } else {
        (if is_pattern_rule(rules[0]) {
            concrete_rules(rules[0], entries)
        } else {
            seq![rules[0]]
        }) + placeholder_pass(rules.skip(1), entries)
    }
}

/// A rule with no target, no dependencies and no commands; the phony
/// flag plays no part.
pub open spec fn rule_view_is_empty(r: RuleView) -> bool {
    r.target.len() == 0 && r.dependencies.len() == 0 && r.build_commands.len() == 0
}

/// The reserved pseudo-target whose dependencies name the phony rules.
pub open spec fn phony_target_name() -> Seq<char> {
    seq!['.', 'P', 'H', 'O', 'N', 'Y']
}

/// The names listed as dependencies of the phony pseudo-rules, in order.
pub open spec fn phony_listed(rules: Seq<RuleView>) -> Seq<Seq<char>>
    decreases rules.len(),
{
    if rules.len() == 0 {
        Seq::empty()
    } else {
        (if rules[0].target == phony_target_name() {
            rules[0].dependencies
        } else {
            Seq::<Seq<char>>::empty()
        }) + phony_listed(rules.skip(1))
    }
}

/// The rule set with every rule named in `names` marked phony and
/// every pseudo-rule removed.
pub open spec fn phony_marked(rules: Seq<RuleView>, names: Seq<Seq<char>>) -> Seq<RuleView>
    decreases rules.len(),
{
    if rules.len() == 0 {
        Seq::empty()
    } else {
        (if rules[0].target == phony_target_name() {
            Seq::<RuleView>::empty()
        } else {
            seq![
                RuleView {
                    target: rules[0].target,
                    dependencies: rules[0].dependencies,
                    build_commands: rules[0].build_commands,
                    is_phony: rules[0].is_phony || names.contains(rules[0].target),
                },
            ]
        }) + phony_marked(rules.skip(1), names)
    }
}

/// The phony normalization pass: rules named by a pseudo-rule become
/// phony, and the pseudo-rules themselves are removed.
pub open spec fn phony_pass(rules: Seq<RuleView>) -> Seq<RuleView> {
    phony_marked(rules, phony_listed(rules))
}

/// An exact copy of a vector of strings.
pub fn clone_strings(v: &Vec<String>) -> (r: Vec<String>)
    ensures
        r@ == v@,
{
    let mut r: Vec<String> = Vec::new();
    let mut i: usize = 0;
    while i < v.len()
        invariant
            i <= v.len(),
            r@ == v@.take(i as int),
        decreases v.len() - i,
    {
        r.push(v[i].clone());
        proof {
            assert(v@.take(i + 1) =~= v@.take(i as int).push(v@[i as int]));
        }
        i += 1;
    }
    proof {
        assert(v@.take(v@.len() as int) =~= v@);
    }
    r
}

impl RemakeRule {
    /// The empty rule: no target, no dependencies, no commands, not phony.
    pub fn new() -> (r: Self)
        ensures
            r@.target == Seq::<char>::empty(),
            r@.dependencies == Seq::<Seq<char>>::empty(),
            r@.build_commands == Seq::<Seq<char>>::empty(),
            r@.is_phony == false,
    {
        let r = Self {
            target: String::new(),
            dependencies: Vec::new(),
            build_commands: Vec::new(),
            is_phony: false,
        };
        proof {
            assert(r@.dependencies =~= Seq::<Seq<char>>::empty());
            assert(r@.build_commands =~= Seq::<Seq<char>>::empty());
        }
        r
    }

    /// Empties the target, dependencies and commands; the phony flag
    /// is kept as it was.
    pub fn clear(&mut self)
        ensures
            final(self)@.target == Seq::<char>::empty(),
            final(self)@.dependencies == Seq::<Seq<char>>::empty(),
            final(self)@.build_commands == Seq::<Seq<char>>::empty(),
            final(self)@.is_phony == old(self)@.is_phony,
    {
        self.target = String::new();
        self.dependencies = Vec::new();
        self.build_commands = Vec::new();
        proof {
            assert(self@.dependencies =~= Seq::<Seq<char>>::empty());
            assert(self@.build_commands =~= Seq::<Seq<char>>::empty());
        }
    }

    /// Whether target, dependencies and commands are all empty; the
    /// phony flag plays no part.
    pub fn is_empty(&self) -> (r: bool)
        ensures
            r == (self@.target.len() == 0 && self@.dependencies.len() == 0
                && self@.build_commands.len() == 0),
    {
        self.target.as_str().is_empty() && self.dependencies.is_empty()
            && self.build_commands.is_empty()
    }

    /// The dependency names joined with single spaces.
    pub fn dependencies_as_string(&self) -> (r: String)
        ensures
            r@ == spec_join_space(self@.dependencies),
    {
        join_spaces(&self.dependencies)
    }

    /// The directory entries whose name contains the pattern with its
    /// glob characters stripped, in directory order.
    pub fn get_all_matches_by_pattern(&self, pattern: &String, entries: &Vec<String>) -> (r: Vec<
        String,
    >)
        ensures
            r.deep_view() == glob_matches(entries.deep_view(), glob_filter(pattern@)),
    {
        let filt = replace_all(pattern.as_str(), "*", "");
        proof {
            reveal_strlit("*");
            reveal_strlit("");
            assert("*"@ =~= seq!['*']);
            assert(""@ =~= Seq::<char>::empty());
            assert(filt@ == glob_filter(pattern@));
        }
        collect_matches(filt.as_str(), entries)
    }

    /// The whole expansion pass on one rule: wildcards in the target,
    /// the dependencies and the commands; then the automatic variables
    /// and the glob tokens in the commands.  The expanded dependencies
    /// are re-split on spaces.  Returns a copy of the expanded rule.
    pub fn expand_wildcards(&mut self, wildcards: &[RemakeWildcard], entries: &Vec<String>) -> (r:
        Self)
        ensures
            final(self)@ == expanded_rule(old(self)@, wildcards.deep_view(), entries.deep_view()),
            r@ == final(self)@,
    {
        let ghost ws = wildcards.deep_view();
        let ghost entriesv = entries.deep_view();
        let ghost depsv = self.dependencies.deep_view();
        let ghost cmdsv = self.build_commands.deep_view();

        let new_target = apply_wildcards(self.target.as_str(), wildcards);

        let mut new_deps: Vec<String> = Vec::new();
        let mut i: usize = 0;
        proof {
            assert(depsv.skip(0) =~= depsv);
            assert(new_deps.deep_view() + expand_deps(depsv, ws) =~= expand_deps(depsv, ws));
        }
        while i < self.dependencies.len()
            invariant
                ws == wildcards.deep_view(),
                depsv == self.dependencies.deep_view(),
                depsv.len() == self.dependencies@.len(),
                forall|k: int| 0 <= k < depsv.len() ==> depsv[k] == self.dependencies@[k]@,
                i <= self.dependencies.len(),
                new_deps.deep_view() + expand_deps(depsv.skip(i as int), ws) == expand_deps(
                    depsv,
                    ws,
                ),
            decreases self.dependencies.len() - i,
        {
            let ghost tail = depsv.skip(i as int);
            proof {
                assert(tail[0] == depsv[i as int]);
                assert(tail.skip(1) =~= depsv.skip(i + 1));
            }
            let ghost before = new_deps.deep_view();
            let e = apply_wildcards(self.dependencies[i].as_str(), wildcards);
            let mut parts = split_char(e.as_str(), ' ');
            let ghost partsv = parts.deep_view();
            new_deps.append(&mut parts);
            proof {
                assert(new_deps.deep_view() =~= before + partsv);
                assert(before + partsv + expand_deps(depsv.skip(i + 1), ws) =~= before + (partsv
                    + expand_deps(depsv.skip(i + 1), ws)));
            }
            i += 1;
        }
        proof {
            assert(depsv.skip(depsv.len() as int) =~= Seq::<Seq<char>>::empty());
            assert(new_deps.deep_view() + Seq::<Seq<char>>::empty() =~= new_deps.deep_view());
            assert(new_deps.deep_view() == expand_deps(depsv, ws));
        }

        let deps_joined = join_spaces(&new_deps);
        let ghost tx = expand_text(old(self)@.target, ws);
        let ghost dj = spec_join_space(expand_deps(depsv, ws));

        let mut new_cmds: Vec<String> = Vec::new();
        let mut j: usize = 0;
        while j < self.build_commands.len()
            invariant
                ws == wildcards.deep_view(),
                entriesv == entries.deep_view(),
                cmdsv == self.build_commands.deep_view(),
                cmdsv.len() == self.build_commands@.len(),
                forall|k: int| 0 <= k < cmdsv.len() ==> cmdsv[k] == self.build_commands@[k]@,
                new_target@ == tx,
                deps_joined@ == dj,
                j <= self.build_commands.len(),
                new_cmds.deep_view().len() == j,
                forall|k: int|
                    0 <= k < j ==> new_cmds.deep_view()[k] == expand_command(
                        cmdsv[k],
                        ws,
                        tx,
                        dj,
                        entriesv,
                    ),
            decreases self.build_commands.len() - j,
        {
            let ghost before = new_cmds.deep_view();
            let c1 = apply_wildcards(self.build_commands[j].as_str(), wildcards);
            let c2 = replace_all(c1.as_str(), "$@", new_target.as_str());
            let c3 = replace_all(c2.as_str(), "$^", deps_joined.as_str());
            proof {
                reveal_strlit("$@");
                reveal_strlit("$^");
                assert("$@"@ =~= target_token());
                assert("$^"@ =~= deps_token());
                assert(c3@ == auto_vars(expand_text(cmdsv[j as int], ws), tx, dj));
            }
            let c4 = resolve_globs(c3.as_str(), entries);
            proof {
                assert(c4@ == expand_command(cmdsv[j as int], ws, tx, dj, entriesv));
            }
            new_cmds.push(c4);
            proof {
                assert(new_cmds.deep_view() =~= before.push(
                    expand_command(cmdsv[j as int], ws, tx, dj, entriesv),
                ));
            }
            j += 1;
        }

        self.target = new_target;
        self.dependencies = new_deps;
        self.build_commands = new_cmds;
        proof {
            assert(new_cmds.deep_view() =~= cmdsv.map_values(
                |c: Seq<char>| expand_command(c, ws, tx, dj, entriesv),
            ));
            assert(self@ =~= expanded_rule(old(self)@, ws, entriesv));
        }
        self.duplicate()
    }

    /// The concrete rules this pattern rule yields, one per directory
    /// entry matching its filter, in directory order.
    fn concrete_from_entries(&self, entries: &Vec<String>) -> (r: Vec<RemakeRule>)
        requires
            self@.dependencies.len() > 0,
        ensures
            r.deep_view() == concrete_rules(self@, entries.deep_view()),
    {
        let ghost selfv = self@;
        let ghost entriesv = entries.deep_view();
        let filt = replace_all(self.dependencies[0].as_str(), "%", "");
        proof {
            reveal_strlit("%");
            reveal_strlit("");
            assert("%"@ =~= seq!['%']);
            assert(""@ =~= Seq::<char>::empty());
            assert(filt@ == pattern_filter(selfv));
        }
        let target_has_placeholder = contains_char(self.target.as_str(), '%');
        let mut out: Vec<RemakeRule> = Vec::new();
        let mut j: usize = 0;
        proof {
            assert(entriesv.skip(0) =~= entriesv);
            assert(out.deep_view() + concrete_rules(selfv, entriesv) =~= concrete_rules(
                selfv,
                entriesv,
            ));
        }
        while j < entries.len()
            invariant
                selfv == self@,
                selfv.dependencies.len() > 0,
                entriesv == entries.deep_view(),
                entriesv.len() == entries@.len(),
                forall|k: int| 0 <= k < entriesv.len() ==> entriesv[k] == entries@[k]@,
                filt@ == pattern_filter(selfv),
                target_has_placeholder == contains_ch(selfv.target, '%'),
                j <= entries.len(),
                out.deep_view() + concrete_rules(selfv, entriesv.skip(j as int)) == concrete_rules(
                    selfv,
                    entriesv,
                ),
            decreases entries.len() - j,
        {
            let ghost tail = entriesv.skip(j as int);
            proof {
                assert(tail[0] == entriesv[j as int]);
                assert(tail.skip(1) =~= entriesv.skip(j + 1));
            }
            let ghost before = out.deep_view();
            if contains_sub(entries[j].as_str(), filt.as_str()) {
                let entry = entries[j].clone();
                let new_target = if target_has_placeholder {
                    let stem = replace_all(entry.as_str(), filt.as_str(), "");
                    proof {
                        reveal_strlit("");
                        assert(""@ =~= Seq::<char>::empty());
                    }
                    let t = replace_all(self.target.as_str(), "%", stem.as_str());
                    proof {
                        reveal_strlit("%");
                        assert("%"@ =~= seq!['%']);
                    }
                    t
                } else {
                    self.target.clone()
                };
                let mut deps: Vec<String> = Vec::new();
                deps.push(entry);
                let nr = RemakeRule {
                    target: new_target,
                    dependencies: deps,
                    build_commands: clone_strings(&self.build_commands),
                    is_phony: self.is_phony,
                };
                proof {
                    assert(nr@.dependencies =~= seq![entriesv[j as int]]);
                    assert(nr@ =~= concretize(selfv, entriesv[j as int]));
                }
                out.push(nr);
                proof {
                    assert(out.deep_view() =~= before + seq![concretize(selfv, entriesv[j as int])]);
                    assert(before + seq![concretize(selfv, entriesv[j as int])] + concrete_rules(
                        selfv,
                        entriesv.skip(j + 1),
                    ) =~= before + (seq![concretize(selfv, entriesv[j as int])] + concrete_rules(
                        selfv,
                        entriesv.skip(j + 1),
                    )));
                }
            }
            j += 1;
        }
        proof {
            assert(entriesv.skip(entriesv.len() as int) =~= Seq::<Seq<char>>::empty());
            assert(out.deep_view() + Seq::<RuleView>::empty() =~= out.deep_view());
        }
        out
    }

    /// An exact copy of the rule.
    pub fn duplicate(&self) -> (r: Self)
        ensures
            r@ == self@,
    {
        let r = Self {
            target: self.target.clone(),
            dependencies: clone_strings(&self.dependencies),
            build_commands: clone_strings(&self.build_commands),
            is_phony: self.is_phony,
        };
        proof {
            assert(r@ =~~= self@);
        }
        r
    }
}

/// The wildcard's reference text: a dollar sign followed by the symbol.
fn wildcard_token(w: &RemakeWildcard) -> (r: String)
    ensures
        r@ == wildcard_ref(w@.symbol),
{
    let mut t = String::from_str("$");
    proof {
        reveal_strlit("$");
        assert(t@ =~= seq!['$']);
    }
    t.append(w.symbol.as_str());
    proof {
        assert(t@ =~= wildcard_ref(w@.symbol));
    }
    t
}

/// The text with every wildcard reference replaced by the wildcard's
/// joined values, wildcards applied in table order.
pub fn apply_wildcards(s: &str, wildcards: &[RemakeWildcard]) -> (r: String)
    ensures
        r@ == expand_text(s@, wildcards.deep_view()),
{
    let ghost ws = wildcards.deep_view();
    let mut cur = String::from_str(s);
    let mut i: usize = 0;
    proof {
        assert(ws.skip(0) =~= ws);
    }
    while i < wildcards.len()
        invariant
            ws == wildcards.deep_view(),
            ws.len() == wildcards@.len(),
            forall|k: int| 0 <= k < ws.len() ==> ws[k] == wildcards@[k]@,
            i <= ws.len(),
            expand_text(cur@, ws.skip(i as int)) == expand_text(s@, ws),
        decreases ws.len() - i,
    {
        let w = vstd::slice::slice_index_get(wildcards, i);
        let pat = wildcard_token(w);
        let val = w.values_as_string();
        let next = replace_all(cur.as_str(), pat.as_str(), val.as_str());
        proof {
            assert(ws.skip(i as int)[0] == ws[i as int]);
            assert(ws.skip(i as int).skip(1) =~= ws.skip(i + 1));
        }
        cur = next;
        i += 1;
    }
    proof {
        assert(ws.skip(ws.len() as int) =~= Seq::<WildcardView>::empty());
    }
    cur
}

/// The directory entries whose name contains `filt`, in directory order.
fn collect_matches(filt: &str, entries: &Vec<String>) -> (r: Vec<String>)
    ensures
        r.deep_view() == glob_matches(entries.deep_view(), filt@),
{
    let ghost all = entries.deep_view();
    let mut out: Vec<String> = Vec::new();
    let mut i: usize = 0;
    proof {
        assert(all.skip(0) =~= all);
        assert(out.deep_view() + glob_matches(all, filt@) =~= glob_matches(all, filt@));
    }
    while i < entries.len()
        invariant
            all == entries.deep_view(),
            all.len() == entries@.len(),
            forall|k: int| 0 <= k < all.len() ==> all[k] == entries@[k]@,
            i <= entries.len(),
            out.deep_view() + glob_matches(all.skip(i as int), filt@) == glob_matches(all, filt@),
        decreases entries.len() - i,
    {
        let ghost tail = all.skip(i as int);
        proof {
            assert(tail[0] == all[i as int]);
            assert(tail.skip(1) =~= all.skip(i + 1));
        }
        let ghost before = out.deep_view();
        if contains_sub(entries[i].as_str(), filt) {
            out.push(entries[i].clone());
            proof {
                assert(out.deep_view() =~= before + seq![all[i as int]]);
                assert(before + seq![all[i as int]] + glob_matches(all.skip(i + 1), filt@)
                    =~= before + (seq![all[i as int]] + glob_matches(all.skip(i + 1), filt@)));
            }
        }
        i += 1;
    }
    proof {
        assert(all.skip(all.len() as int) =~= Seq::<Seq<char>>::empty());
        assert(out.deep_view() + Seq::<Seq<char>>::empty() =~= out.deep_view());
    }
    out
}

/// A command after glob resolution against the given directory entries.
pub fn resolve_globs(command: &str, entries: &Vec<String>) -> (r: String)
    ensures
        r@ == glob_resolve(command@, entries.deep_view()),
{
    let ghost entriesv = entries.deep_view();
    if !contains_char(command, '*') {
        return String::from_str(command);
    }
    let toks = split_char(command, ' ');
    let ghost toksv = toks.deep_view();
    let mut out_toks: Vec<String> = Vec::new();
    let mut i: usize = 0;
    while i < toks.len()
        invariant
            entriesv == entries.deep_view(),
            toksv == toks.deep_view(),
            toksv.len() == toks@.len(),
            forall|k: int| 0 <= k < toksv.len() ==> toksv[k] == toks@[k]@,
            i <= toks.len(),
            out_toks.deep_view().len() == i,
            forall|k: int|
                0 <= k < i ==> out_toks.deep_view()[k] == glob_token(toksv[k], entriesv),
        decreases toks.len() - i,
    {
        let tok = &toks[i];
        let ghost before = out_toks.deep_view();
        if contains_char(tok.as_str(), '*') {
            let filt = replace_all(tok.as_str(), "*", "");
            proof {
                reveal_strlit("*");
                reveal_strlit("");
                assert("*"@ =~= seq!['*']);
                assert(""@ =~= Seq::<char>::empty());
                assert(filt@ == glob_filter(toksv[i as int]));
            }
            let ms = collect_matches(filt.as_str(), entries);
            let joined = join_spaces(&ms);
            proof {
                assert(joined@ == glob_token(toksv[i as int], entriesv));
            }
            out_toks.push(joined);
            proof {
                assert(out_toks.deep_view() =~= before.push(glob_token(toksv[i as int], entriesv)));
            }
        } else {
            let kept = tok.clone();
            proof {
                assert(kept@ == glob_token(toksv[i as int], entriesv));
            }
            out_toks.push(kept);
            proof {
                assert(out_toks.deep_view() =~= before.push(glob_token(toksv[i as int], entriesv)));
            }
        }
        i += 1;
    }
    proof {
        assert(out_toks.deep_view() =~= toksv.map_values(
            |t: Seq<char>| glob_token(t, entriesv),
        ));
    }
    join_spaces(&out_toks)
}

impl RemakeWildcard {
    /// The empty wildcard: no symbol and no values.
    pub fn new() -> (r: Self)
        ensures
            r@.symbol == Seq::<char>::empty(),
            r@.values == Seq::<Seq<char>>::empty(),
    {
        let r = Self { symbol: String::new(), values: Vec::new() };
        proof {
            assert(r@.values =~= Seq::<Seq<char>>::empty());
        }
        r
    }

    /// Empties the symbol and the value list.
    pub fn clear(&mut self)
        ensures
            final(self)@.symbol == Seq::<char>::empty(),
            final(self)@.values == Seq::<Seq<char>>::empty(),
    {
        self.symbol = String::new();
        self.values = Vec::new();
        proof {
            assert(self@.values =~= Seq::<Seq<char>>::empty());
        }
    }

    /// The values joined with single spaces: the text substituted for
    /// the symbol.
    pub fn values_as_string(&self) -> (r: String)
        ensures
            r@ == spec_join_space(self@.values),
    {
        join_spaces(&self.values)
    }

    /// An exact copy of the wildcard.
    pub fn duplicate(&self) -> (r: Self)
        ensures
            r@ == self@,
    {
        let r = Self { symbol: self.symbol.clone(), values: clone_strings(&self.values) };
        proof {
            assert(r@ =~~= self@);
        }
        r
    }
}

/// Whether one of the strings equals `s`.
fn contains_string(v: &Vec<String>, s: &String) -> (r: bool)
    ensures
        r == v.deep_view().contains(s@),
{
    let mut i: usize = 0;
    while i < v.len()
        invariant
            i <= v.len(),
            forall|k: int| 0 <= k < i ==> v.deep_view()[k] != s@,
        decreases v.len() - i,
    {
        if s.eq(&v[i]) {
            assert(v.deep_view()[i as int] == s@);
            return true;
        }
        i += 1;
    }
    false
}

/// The pseudo-target's name as a string.
pub(crate) fn phony_name() -> (r: String)
    ensures
        r@ == phony_target_name(),
{
    let r = String::from_str(".PHONY");
    proof {
        reveal_strlit(".PHONY");
        assert(r@ =~= phony_target_name());
    }
    r
}

impl RemakeFile {
    /// Runs the expansion pass over every rule, against the wildcard
    /// table and the given directory entries.
    pub fn handle_wildcards(&mut self, entries: &Vec<String>)
        ensures
            final(self)@.rules == expanded_rules(
                old(self)@.rules,
                old(self)@.wildcards,
                entries.deep_view(),
            ),
            final(self)@.wildcards == old(self)@.wildcards,
    {
        let ghost rulesv = self.rules.deep_view();
        let ghost ws = self.wildcards.deep_view();
        let ghost entriesv = entries.deep_view();
        let mut new_rules: Vec<RemakeRule> = Vec::new();
        let mut i: usize = 0;
        while i < self.rules.len()
            invariant
                rulesv == self.rules.deep_view(),
                ws == self.wildcards.deep_view(),
                entriesv == entries.deep_view(),
                rulesv.len() == self.rules@.len(),
                forall|k: int| 0 <= k < rulesv.len() ==> rulesv[k] == self.rules@[k]@,
                i <= self.rules.len(),
                new_rules.deep_view().len() == i,
                forall|k: int|
                    0 <= k < i ==> new_rules.deep_view()[k] == expanded_rule(
                        rulesv[k],
                        ws,
                        entriesv,
                    ),
            decreases self.rules.len() - i,
        {
            let ghost before = new_rules.deep_view();
            let mut rule = self.rules[i].duplicate();
            let expanded = rule.expand_wildcards(self.wildcards.as_slice(), entries);
            new_rules.push(expanded);
            proof {
                assert(new_rules.deep_view() =~= before.push(
                    expanded_rule(rulesv[i as int], ws, entriesv),
                ));
            }
            i += 1;
        }
        self.rules = new_rules;
        proof {
            assert(self.rules.deep_view() =~= expanded_rules(rulesv, ws, entriesv));
        }
    }

    /// Pattern-rule materialization: every rule whose first dependency
    /// holds the placeholder is replaced by one concrete rule per
    /// matching directory entry; the placeholder rule itself is removed.
    pub fn create_new_rules_from_placeholders(&mut self, entries: &Vec<String>)
        ensures
            final(self)@.rules == placeholder_pass(old(self)@.rules, entries.deep_view()),
            final(self)@.wildcards == old(self)@.wildcards,
    {
        let ghost rulesv = self.rules.deep_view();
        let ghost entriesv = entries.deep_view();
        let mut new_rules: Vec<RemakeRule> = Vec::new();
        let mut i: usize = 0;
        proof {
            assert(rulesv.skip(0) =~= rulesv);
            assert(new_rules.deep_view() + placeholder_pass(rulesv, entriesv) =~= placeholder_pass(
                rulesv,
                entriesv,
            ));
        }
        while i < self.rules.len()
            invariant
                rulesv == self.rules.deep_view(),
                entriesv == entries.deep_view(),
                rulesv.len() == self.rules@.len(),
                forall|k: int| 0 <= k < rulesv.len() ==> rulesv[k] == self.rules@[k]@,
                i <= self.rules.len(),
                new_rules.deep_view() + placeholder_pass(rulesv.skip(i as int), entriesv)
                    == placeholder_pass(rulesv, entriesv),
            decreases self.rules.len() - i,
        {
            let ghost tail = rulesv.skip(i as int);
            proof {
                assert(tail[0] == rulesv[i as int]);
                assert(tail.skip(1) =~= rulesv.skip(i + 1));
            }
            let ghost before = new_rules.deep_view();
            let rule = &self.rules[i];
            let is_pattern = rule.dependencies.len() > 0 && contains_char(
                rule.dependencies[0].as_str(),
                '%',
            );
            if is_pattern {
                let mut concrete = rule.concrete_from_entries(entries);
                let ghost concv = concrete.deep_view();
                new_rules.append(&mut concrete);
                proof {
                    assert(new_rules.deep_view() =~= before + concv);
                    assert(before + concv + placeholder_pass(rulesv.skip(i + 1), entriesv)
                        =~= before + (concv + placeholder_pass(rulesv.skip(i + 1), entriesv)));
                }
            } else {
                let kept = rule.duplicate();
                new_rules.push(kept);
                proof {
                    assert(new_rules.deep_view() =~= before + seq![rulesv[i as int]]);
                    assert(before + seq![rulesv[i as int]] + placeholder_pass(
                        rulesv.skip(i + 1),
                        entriesv,
                    ) =~= before + (seq![rulesv[i as int]] + placeholder_pass(
                        rulesv.skip(i + 1),
                        entriesv,
                    )));
                }
            }
            i += 1;
        }
        self.rules = new_rules;
        proof {
            assert(rulesv.skip(rulesv.len() as int) =~= Seq::<RuleView>::empty());
            assert(self.rules.deep_view() + Seq::<RuleView>::empty() =~= self.rules.deep_view());
        }
    }

    /// Phony normalization: every name in a `.PHONY` rule's dependency
    /// list marks the like-named rule as phony (a name with no matching
    /// rule is ignored), and the `.PHONY` rules are removed.
    pub fn handle_phony_rules(&mut self)
        ensures
            final(self)@.rules == phony_pass(old(self)@.rules),
            final(self)@.wildcards == old(self)@.wildcards,
    {
        let ghost rulesv = self.rules.deep_view();
        let phony = phony_name();

        let mut names: Vec<String> = Vec::new();
        let mut i: usize = 0;
        proof {
            assert(rulesv.skip(0) =~= rulesv);
            assert(names.deep_view() + phony_listed(rulesv) =~= phony_listed(rulesv));
        }
        while i < self.rules.len()
            invariant
                rulesv == self.rules.deep_view(),
                rulesv.len() == self.rules@.len(),
                forall|k: int| 0 <= k < rulesv.len() ==> rulesv[k] == self.rules@[k]@,
                phony@ == phony_target_name(),
                i <= self.rules.len(),
                names.deep_view() + phony_listed(rulesv.skip(i as int)) == phony_listed(rulesv),
            decreases self.rules.len() - i,
        {
            let ghost tail = rulesv.skip(i as int);
            proof {
                assert(tail[0] == rulesv[i as int]);
                assert(tail.skip(1) =~= rulesv.skip(i + 1));
            }
            let ghost before = names.deep_view();
            if self.rules[i].target.eq(&phony) {
                let mut deps = clone_strings(&self.rules[i].dependencies);
                let ghost depsv = deps.deep_view();
                proof {
                    assert(depsv =~= rulesv[i as int].dependencies);
                }
                names.append(&mut deps);
                proof {
                    assert(names.deep_view() =~= before + depsv);
                    assert(before + depsv + phony_listed(rulesv.skip(i + 1)) =~= before + (depsv
                        + phony_listed(rulesv.skip(i + 1))));
                }
            }
            i += 1;
        }
        proof {
            assert(rulesv.skip(rulesv.len() as int) =~= Seq::<RuleView>::empty());
            assert(names.deep_view() + Seq::<Seq<char>>::empty() =~= names.deep_view());
            assert(names.deep_view() == phony_listed(rulesv));
        }

        let ghost namesv = names.deep_view();
        let mut new_rules: Vec<RemakeRule> = Vec::new();
        let mut j: usize = 0;
        proof {
            assert(new_rules.deep_view() + phony_marked(rulesv, namesv) =~= phony_marked(
                rulesv,
                namesv,
            ));
        }
        while j < self.rules.len()
            invariant
                rulesv == self.rules.deep_view(),
                rulesv.len() == self.rules@.len(),
                forall|k: int| 0 <= k < rulesv.len() ==> rulesv[k] == self.rules@[k]@,
                phony@ == phony_target_name(),
                namesv == names.deep_view(),
                j <= self.rules.len(),
                new_rules.deep_view() + phony_marked(rulesv.skip(j as int), namesv)
                    == phony_marked(rulesv, namesv),
            decreases self.rules.len() - j,
        {
            let ghost tail = rulesv.skip(j as int);
            proof {
                assert(tail[0] == rulesv[j as int]);
                assert(tail.skip(1) =~= rulesv.skip(j + 1));
            }
            let ghost before = new_rules.deep_view();
            if !self.rules[j].target.eq(&phony) {
                let mut kept = self.rules[j].duplicate();
                kept.is_phony = kept.is_phony || contains_string(&names, &kept.target);
                new_rules.push(kept);
                proof {
                    let marked = RuleView {
                        target: rulesv[j as int].target,
                        dependencies: rulesv[j as int].dependencies,
                        build_commands: rulesv[j as int].build_commands,
                        is_phony: rulesv[j as int].is_phony || namesv.contains(
                            rulesv[j as int].target,
                        ),
                    };
                    assert(new_rules.deep_view() =~= before + seq![marked]);
                    assert(before + seq![marked] + phony_marked(rulesv.skip(j + 1), namesv)
                        =~= before + (seq![marked] + phony_marked(rulesv.skip(j + 1), namesv)));
                }
            }
            j += 1;
        }
        self.rules = new_rules;
        proof {
            assert(rulesv.skip(rulesv.len() as int) =~= Seq::<RuleView>::empty());
            assert(self.rules.deep_view() + Seq::<RuleView>::empty() =~= self.rules.deep_view());
        }
    }
}

} // verus!
