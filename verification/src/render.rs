//! Re-serialization of a rule set into rule-file text: one assignment
//! line per wildcard, then each rule as a header line followed by its
//! tab-indented command lines.  Parsing such a text yields the same
//! rule set again (see the round-trip law), provided the names are
//! plain tokens: non-empty and free of newlines, tabs, spaces, colons
//! and equals signs.

use vstd::prelude::*;
use crate::text::{spec_join_more, spec_join_space};
use crate::text::{join_spaces, push_char};
use crate::types::{
    phony_target_name, FileView, RemakeFile, RuleView, WildcardView,
};
use vstd::string::StringExecFns;

verus! {

/// The one line a wildcard is written as.
pub open spec fn assignment_line(w: WildcardView) -> Seq<char> {
    w.symbol + seq![' ', '=', ' '] + spec_join_space(w.values)
}

/// The header line a rule is written as.
pub open spec fn header_line(r: RuleView) -> Seq<char> {
    r.target + seq![':'] + spec_join_more(r.dependencies)
}

/// The command lines of a rule: each command behind one tab.
pub open spec fn command_lines(cs: Seq<Seq<char>>) -> Seq<Seq<char>> {
    cs.map_values(|c: Seq<char>| seq!['\t'] + c)
}

/// All lines of one rule.
pub open spec fn rule_lines(r: RuleView) -> Seq<Seq<char>> {
    seq![header_line(r)] + command_lines(r.build_commands)
}

/// The assignment lines of the wildcard table, in table order.
pub open spec fn wildcard_lines(ws: Seq<WildcardView>) -> Seq<Seq<char>>
    decreases ws.len(),
{
    if ws.len() == 0 {
        Seq::empty()
    } else {
        seq![assignment_line(ws[0])] + wildcard_lines(ws.skip(1))
    }
}

/// The lines of all rules, in file order.
pub open spec fn rules_lines(rules: Seq<RuleView>) -> Seq<Seq<char>>
    decreases rules.len(),
{
    if rules.len() == 0 {
        Seq::empty()
    } else {
        rule_lines(rules[0]) + rules_lines(rules.skip(1))
    }
}

/// All lines of the file: the wildcards first, then the rules.
pub open spec fn render_lines(f: FileView) -> Seq<Seq<char>> {
    wildcard_lines(f.wildcards) + rules_lines(f.rules)
}

/// The lines as one text, each closed by a newline.
pub open spec fn join_lines(lines: Seq<Seq<char>>) -> Seq<char>
    decreases lines.len(),
{
    if lines.len() == 0 {
        Seq::empty()
    } else {
        lines[0] + seq!['\n'] + join_lines(lines.skip(1))
    }
}

/// The rule set re-serialized as rule-file text.
pub open spec fn spec_render(f: FileView) -> Seq<char> {
    join_lines(render_lines(f))
}

/// A name that survives the grammar unchanged: non-empty, and free of
/// newlines, tabs, spaces, colons and equals signs.
pub open spec fn plain_token(s: Seq<char>) -> bool {
    s.len() > 0 && forall|k: int|
        0 <= k < s.len() ==> s[k] != '\n' && s[k] != '\t' && s[k] != ' ' && s[k] != ':' && s[k]
            != '='
}

/// A command that fits on one line.
pub open spec fn plain_command(c: Seq<char>) -> bool {
    forall|k: int| 0 <= k < c.len() ==> c[k] != '\n'
}

/// A rule whose rendering parses back to itself: plain target and
/// dependencies, single-line commands, and a phony flag that agrees
/// with the reserved target name.
pub open spec fn renderable_rule(r: RuleView) -> bool {
    &&& plain_token(r.target)
    &&& forall|d: int| 0 <= d < r.dependencies.len() ==> plain_token(r.dependencies[d])
    &&& forall|c: int| 0 <= c < r.build_commands.len() ==> plain_command(r.build_commands[c])
    &&& r.is_phony == (r.target == phony_target_name())
}

/// A wildcard whose rendering parses back to itself.
pub open spec fn renderable_wildcard(w: WildcardView) -> bool {
    &&& plain_token(w.symbol)
    &&& forall|v: int| 0 <= v < w.values.len() ==> plain_token(w.values[v])
}

/// A rule set whose rendering parses back to itself: every rule and
/// wildcard renderable, and the wildcard symbols pairwise distinct.
pub open spec fn renderable(f: FileView) -> bool {
    &&& forall|k: int| 0 <= k < f.rules.len() ==> renderable_rule(f.rules[k])
    &&& forall|k: int| 0 <= k < f.wildcards.len() ==> renderable_wildcard(f.wildcards[k])
    &&& forall|a: int, b: int|
        0 <= a < b < f.wildcards.len() ==> f.wildcards[a].symbol != f.wildcards[b].symbol
}

/// The rule set written back as rule-file text.
pub fn render(file: &RemakeFile) -> (r: String)
    ensures
        r@ == spec_render(file@),
{
    let ghost wv = file@.wildcards;
    let ghost rv = file@.rules;
    let mut out = String::new();
    let mut i: usize = 0;
    proof {
        assert(wv.skip(0) =~= wv);
        assert(out@ + join_lines(render_lines(file@)) =~= join_lines(render_lines(file@)));
    }
    while i < file.wildcards.len()
        invariant
            wv == file@.wildcards,
            rv == file@.rules,
            wv.len() == file.wildcards@.len(),
            forall|k: int| 0 <= k < wv.len() ==> wv[k] == file.wildcards@[k]@,
            i <= wv.len(),
            out@ + join_lines(wildcard_lines(wv.skip(i as int)) + rules_lines(rv)) == spec_render(
                file@,
            ),
        decreases wv.len() - i,
    {
        let ghost rem = wildcard_lines(wv.skip(i as int)) + rules_lines(rv);
        proof {
            assert(wv.skip(i as int)[0] == wv[i as int]);
            assert(wv.skip(i as int).skip(1) =~= wv.skip(i + 1));
            assert(rem[0] == assignment_line(wv[i as int]));
            assert(rem.skip(1) =~= wildcard_lines(wv.skip(i + 1)) + rules_lines(rv));
        }
        let ghost before = out@;
        let w = &file.wildcards[i];
        out.append(w.symbol.as_str());
        out.append(" = ");
        let vals = join_spaces(&w.values);
        out.append(vals.as_str());
        push_char(&mut out, '\n');
        proof {
            reveal_strlit(" = ");
            assert(" = "@ =~= seq![' ', '=', ' ']);
            assert(out@ =~= before + assignment_line(wv[i as int]) + seq!['\n']);
            assert(out@ + join_lines(rem.skip(1)) =~= before + join_lines(rem));
        }
        i += 1;
    }
    proof {
        assert(wv.skip(wv.len() as int) =~= Seq::<WildcardView>::empty());
        assert(wildcard_lines(Seq::<WildcardView>::empty()) + rules_lines(rv) =~= rules_lines(rv));
    }
    let mut k: usize = 0;
    proof {
        assert(rv.skip(0) =~= rv);
    }
    while k < file.rules.len()
        invariant
            rv == file@.rules,
            rv.len() == file.rules@.len(),
            forall|m: int| 0 <= m < rv.len() ==> rv[m] == file.rules@[m]@,
            k <= rv.len(),
            out@ + join_lines(rules_lines(rv.skip(k as int))) == spec_render(file@),
        decreases rv.len() - k,
    {
        let ghost rem = rules_lines(rv.skip(k as int));
        proof {
            assert(rv.skip(k as int)[0] == rv[k as int]);
            assert(rv.skip(k as int).skip(1) =~= rv.skip(k + 1));
            assert(rem =~= rule_lines(rv[k as int]) + rules_lines(rv.skip(k + 1)));
            assert(rem[0] == header_line(rv[k as int]));
            assert(rem.skip(1) =~= command_lines(rv[k as int].build_commands) + rules_lines(
                rv.skip(k + 1),
            ));
        }
        let rule = &file.rules[k];
        let ghost depsv = rv[k as int].dependencies;
        let ghost cmdsv = rv[k as int].build_commands;

        let mut hdr = rule.target.clone();
        push_char(&mut hdr, ':');
        let mut d: usize = 0;
        proof {
            assert(depsv.skip(0) =~= depsv);
            assert(hdr@ =~= rv[k as int].target + seq![':']);
            assert(hdr@ + spec_join_more(depsv) =~= header_line(rv[k as int]));
        }
        while d < rule.dependencies.len()
            invariant
                depsv == rule@.dependencies,
                depsv.len() == rule.dependencies@.len(),
                forall|m: int| 0 <= m < depsv.len() ==> depsv[m] == rule.dependencies@[m]@,
                d <= depsv.len(),
                hdr@ + spec_join_more(depsv.skip(d as int)) == header_line(rv[k as int]),
                rv == file@.rules,
                k < rv.len(),
                depsv == rv[k as int].dependencies,
            decreases depsv.len() - d,
        {
            let ghost tail = depsv.skip(d as int);
            proof {
                assert(tail[0] == depsv[d as int]);
                assert(tail.skip(1) =~= depsv.skip(d + 1));
            }
            let ghost hbefore = hdr@;
            push_char(&mut hdr, ' ');
            hdr.append(rule.dependencies[d].as_str());
            proof {
                assert(hdr@ =~= hbefore + (seq![' '] + depsv[d as int]));
                assert(hbefore + (seq![' '] + depsv[d as int]) + spec_join_more(depsv.skip(d + 1))
                    =~= hbefore + spec_join_more(depsv.skip(d as int)));
            }
            d += 1;
        }
        proof {
            assert(depsv.skip(depsv.len() as int) =~= Seq::<Seq<char>>::empty());
            assert(hdr@ + Seq::<char>::empty() =~= hdr@);
            assert(hdr@ == header_line(rv[k as int]));
        }
        let ghost before = out@;
        out.append(hdr.as_str());
        push_char(&mut out, '\n');
        proof {
            assert(out@ + join_lines(rem.skip(1)) =~= before + join_lines(rem));
        }
        let mut c: usize = 0;
        proof {
            assert(cmdsv.skip(0) =~= cmdsv);
            assert(command_lines(cmdsv.skip(0)) =~= command_lines(cmdsv));
        }
        while c < rule.build_commands.len()
            invariant
                cmdsv == rule@.build_commands,
                cmdsv.len() == rule.build_commands@.len(),
                forall|m: int| 0 <= m < cmdsv.len() ==> cmdsv[m] == rule.build_commands@[m]@,
                c <= cmdsv.len(),
                rv == file@.rules,
                k < rv.len(),
                out@ + join_lines(
                    command_lines(cmdsv.skip(c as int)) + rules_lines(rv.skip(k + 1)),
                ) == spec_render(file@),
            decreases cmdsv.len() - c,
        {
            let ghost rem2 = command_lines(cmdsv.skip(c as int)) + rules_lines(rv.skip(k + 1));
            proof {
                assert(rem2[0] == seq!['\t'] + cmdsv[c as int]);
                assert(command_lines(cmdsv.skip(c as int)).skip(1) =~= command_lines(
                    cmdsv.skip(c + 1),
                ));
                assert(rem2.skip(1) =~= command_lines(cmdsv.skip(c + 1)) + rules_lines(
                    rv.skip(k + 1),
                ));
            }
            let ghost cbefore = out@;
            push_char(&mut out, '\t');
            out.append(rule.build_commands[c].as_str());
            push_char(&mut out, '\n');
            proof {
                assert(out@ =~= cbefore + (seq!['\t'] + cmdsv[c as int]) + seq!['\n']);
                assert(out@ + join_lines(rem2.skip(1)) =~= cbefore + join_lines(rem2));
            }
            c += 1;
        }
        proof {
            assert(cmdsv.skip(cmdsv.len() as int) =~= Seq::<Seq<char>>::empty());
            assert(command_lines(Seq::<Seq<char>>::empty()) + rules_lines(rv.skip(k + 1))
                =~= rules_lines(rv.skip(k + 1)));
        }
        k += 1;
    }
    proof {
        assert(rv.skip(rv.len() as int) =~= Seq::<RuleView>::empty());
        assert(join_lines(rules_lines(Seq::<RuleView>::empty())) =~= Seq::<char>::empty());
        assert(out@ + Seq::<char>::empty() =~= out@);
    }
    out
}

} // verus!
