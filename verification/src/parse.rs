//! The rule-file parser and assembler.  The text is split into lines;
//! a leading tab makes a command line, an equals sign before any colon
//! makes a wildcard assignment, and a line with exactly one colon makes
//! a target header.  Headers open a rule and commands attach to the
//! open rule; assignments accumulate into the wildcard table, last
//! assignment appending to the first-seen symbol.  Any other non-empty
//! line is a syntax error, and an error yields no partial rule set.

use vstd::prelude::*;
use crate::text::{
    count_ch, first_ch, nonempty_parts, spec_split_ch, trim_spaces,
};
use crate::text::{count_char, find_char, keep_nonempty, split_char, trim};
use crate::types::{
    phony_target_name, rule_view_is_empty, FileView, RemakeFile, RemakeRule, RemakeWildcard,
    RuleView, WildcardView,
};
use crate::types::phony_name;
use vstd::string::StrSliceExecFns;
use vstd::string::StringExecFns;

verus! {

/// Why a rule file was rejected.
#[derive(Debug, Clone, Copy, PartialEq, Eq, Structural)]
pub enum ParseError {
    /// A non-empty, non-indented line is neither an assignment nor a
    /// well-formed target header.
    MalformedLine,
    /// A command line appeared before any target header.
    OrphanCommandLine,
}

/// The assembler's running state: the emitted rules, the wildcard
/// table, and the still-open rule.
#[verifier::ext_equal]
pub struct ParseState {
    pub rules: Seq<RuleView>,
    pub wildcards: Seq<WildcardView>,
    pub current: RuleView,
}

/// The rule with every part empty.
pub open spec fn empty_rule_view() -> RuleView {
    RuleView {
        target: Seq::empty(),
        dependencies: Seq::empty(),
        build_commands: Seq::empty(),
        is_phony: false,
    }
}

/// The assembler's state before any line.
pub open spec fn init_parse_state() -> ParseState {
    ParseState { rules: Seq::empty(), wildcards: Seq::empty(), current: empty_rule_view() }
}

/// The wildcard table after one assignment: values append to the
/// first wildcard already carrying the symbol, or a new wildcard is
/// added at the end.
pub open spec fn add_wildcard(
    ws: Seq<WildcardView>,
    sym: Seq<char>,
    vals: Seq<Seq<char>>,
) -> Seq<WildcardView>
    decreases ws.len(),
{
    if ws.len() == 0 {
        seq![WildcardView { symbol: sym, values: vals }]
    } else if ws[0].symbol == sym {
        seq![WildcardView { symbol: sym, values: ws[0].values + vals }] + ws.skip(1)
    } else {
        seq![ws[0]] + add_wildcard(ws.skip(1), sym, vals)
    }
}

/// The assembler's step on one line.
pub open spec fn parse_line(st: ParseState, l: Seq<char>) -> Result<ParseState, ParseError> {
    if l.len() == 0 {
        Ok(st)
    } else if l[0] == '\t' {
        if st.current.target.len() == 0 {
            Err(ParseError::OrphanCommandLine)
        } else {
            Ok(
                ParseState {
                    current: RuleView {
                        build_commands: st.current.build_commands.push(l.skip(1)),
                        ..st.current
                    },
                    ..st
                },
            )
        }
    } else if first_ch(l, '=') < l.len() && first_ch(l, '=') < first_ch(l, ':') {
        let sym = trim_spaces(l.take(first_ch(l, '=')));
        let vals = nonempty_parts(spec_split_ch(l.skip(first_ch(l, '=') + 1), ' '));
        if sym.len() == 0 {
            Err(ParseError::MalformedLine)
        } else {
            Ok(ParseState { wildcards: add_wildcard(st.wildcards, sym, vals), ..st })
        }
    } else if count_ch(l, ':') == 1 {
        let tgt = trim_spaces(l.take(first_ch(l, ':')));
        let deps = nonempty_parts(spec_split_ch(l.skip(first_ch(l, ':') + 1), ' '));
        if tgt.len() == 0 {
            Err(ParseError::MalformedLine)
        } else {
            Ok(
                ParseState {
                    rules: if !rule_view_is_empty(st.current) {
                        st.rules.push(st.current)
                    } else {
                        st.rules
                    },
                    wildcards: st.wildcards,
                    current: RuleView {
                        target: tgt,
                        dependencies: deps,
                        build_commands: Seq::empty(),
                        is_phony: tgt == phony_target_name(),
                    },
                },
            )
        }
    } else {
        Err(ParseError::MalformedLine)
    }
}

/// The assembler's state after a sequence of lines, or the first error.
pub open spec fn parse_lines(st: ParseState, lines: Seq<Seq<char>>) -> Result<
    ParseState,
    ParseError,
>
    decreases lines.len(),
{
    if lines.len() == 0 {
        Ok(st)
    } else {
        match parse_line(st, lines[0]) {
            Ok(st2) => parse_lines(st2, lines.skip(1)),
            Err(e) => Err(e),
        }
    }
}

/// The rule file a text parses to: the assembled rules (the still-open
/// rule emitted last, unless empty) and the wildcard table; or the
/// first syntax error.
pub open spec fn spec_parse(s: Seq<char>) -> Result<FileView, ParseError> {
    match parse_lines(init_parse_state(), spec_split_ch(s, '\n')) {
        Ok(st) => Ok(
            FileView {
                rules: if !rule_view_is_empty(st.current) {
                    st.rules.push(st.current)
                } else {
                    st.rules
                },
                wildcards: st.wildcards,
            },
        ),
        Err(e) => Err(e),
    }
}

/// Appending to a symbol already in the table updates that entry in
/// place.
proof fn lemma_add_wildcard_found(
    ws: Seq<WildcardView>,
    sym: Seq<char>,
    vals: Seq<Seq<char>>,
    k: int,
)
    requires
        0 <= k < ws.len(),
        ws[k].symbol == sym,
        forall|j: int| 0 <= j < k ==> ws[j].symbol != sym,
    ensures
        add_wildcard(ws, sym, vals) == ws.update(
            k,
            WildcardView { symbol: sym, values: ws[k].values + vals },
        ),
    decreases ws.len(),
{
    let w = WildcardView { symbol: sym, values: ws[k].values + vals };
    if k == 0 {
        assert(seq![w] + ws.skip(1) =~= ws.update(0, w));
    } else {
        assert(forall|j: int| 0 <= j < k - 1 ==> ws.skip(1)[j] == ws[j + 1]);
        lemma_add_wildcard_found(ws.skip(1), sym, vals, k - 1);
        assert(ws.skip(1)[k - 1] == ws[k]);
        assert(seq![ws[0]] + ws.skip(1).update(k - 1, w) =~= ws.update(k, w));
    }
}

/// A symbol not yet in the table goes to the end.
pub(crate) proof fn lemma_add_wildcard_absent(ws: Seq<WildcardView>, sym: Seq<char>, vals: Seq<Seq<char>>)
    requires
        forall|j: int| 0 <= j < ws.len() ==> ws[j].symbol != sym,
    ensures
        add_wildcard(ws, sym, vals) == ws.push(WildcardView { symbol: sym, values: vals }),
    decreases ws.len(),
{
    let w = WildcardView { symbol: sym, values: vals };
    if ws.len() == 0 {
        assert(seq![w] =~= ws.push(w));
    } else {
        assert(forall|j: int| 0 <= j < ws.len() - 1 ==> ws.skip(1)[j] == ws[j + 1]);
        lemma_add_wildcard_absent(ws.skip(1), sym, vals);
        assert(seq![ws[0]] + ws.skip(1).push(w) =~= ws.push(w));
    }
}

/// One occurrence means the first occurrence lies inside the text.
proof fn lemma_count_first(s: Seq<char>, c: char)
    ensures
        count_ch(s, c) > 0 <==> first_ch(s, c) < s.len(),
        count_ch(s, c) >= 0,
        0 <= first_ch(s, c) <= s.len(),
    decreases s.len(),
{
    if s.len() > 0 {
        lemma_count_first(s.skip(1), c);
    }
}

/// Applies one assignment to the wildcard table.
fn push_wildcard(wildcards: &mut Vec<RemakeWildcard>, sym: String, vals: Vec<String>)
    ensures
        final(wildcards).deep_view() == add_wildcard(
            old(wildcards).deep_view(),
            sym@,
            vals.deep_view(),
        ),
{
    let ghost ws = wildcards.deep_view();
    let ghost symv = sym@;
    let ghost valsv = vals.deep_view();
    let mut k: usize = 0;
    while k < wildcards.len()
        invariant
            ws == wildcards.deep_view(),
            ws.len() == wildcards@.len(),
            ws == old(wildcards).deep_view(),
            forall|j: int| 0 <= j < ws.len() ==> ws[j] == wildcards@[j]@,
            symv == sym@,
            valsv == vals.deep_view(),
            k <= wildcards.len(),
            forall|j: int| 0 <= j < k ==> ws[j].symbol != symv,
        decreases wildcards.len() - k,
    {
        if wildcards[k].symbol.eq(&sym) {
            let ghost wsx = wildcards@;
            let mut w = wildcards.remove(k);
            let mut values = vals;
            let ghost oldvals = w.values.deep_view();
            let ghost oldseq = w.values@;
            let ghost addseq = values@;
            w.values.append(&mut values);
            proof {
                assert(w.values@ == oldseq + addseq);
                assert forall|j: int| 0 <= j < w.values.deep_view().len() implies #[trigger] w
                    .values.deep_view()[j] == (oldvals + valsv)[j] by {
                    if j < oldvals.len() {
                        assert(w.values@[j] == oldseq[j]);
                    } else {
                        assert(w.values@[j] == addseq[j - oldvals.len()]);
                    }
                }
                assert(w.values.deep_view() =~= oldvals + valsv);
            }
            wildcards.insert(k, w);
            proof {
                lemma_add_wildcard_found(ws, symv, valsv, k as int);
                let marked = WildcardView { symbol: symv, values: ws[k as int].values + valsv };
                assert(wildcards@ =~= wsx.update(k as int, w));
                assert(w@ =~= marked);
                assert forall|j: int| 0 <= j < wildcards.deep_view().len() implies #[trigger]
                    wildcards.deep_view()[j] == ws.update(k as int, marked)[j] by {
                    if j != k {
                        assert(wildcards@[j] == wsx[j]);
                    }
                }
                assert(wildcards.deep_view() =~= ws.update(k as int, marked));
            }
            return ;
        }
        k += 1;
    }
    let w = RemakeWildcard { symbol: sym, values: vals };
    proof {
        assert(w@ =~= WildcardView { symbol: symv, values: valsv });
    }
    wildcards.push(w);
    proof {
        lemma_add_wildcard_absent(ws, symv, valsv);
        assert(wildcards.deep_view() =~= ws.push(
            WildcardView { symbol: symv, values: valsv },
        ));
    }
}

/// Parses the full text of a rule file into a rule set.  All or
/// nothing: the first syntax error is returned and no partial rule
/// set is built.
pub fn parse(remake_file_contents: &str) -> (r: Result<RemakeFile, ParseError>)
    ensures
        (match r {
            Ok(f) => spec_parse(remake_file_contents@) == Ok::<FileView, ParseError>(f@),
            Err(e) => spec_parse(remake_file_contents@) == Err::<FileView, ParseError>(e),
        }),
{
    let lines = split_char(remake_file_contents, '\n');
    let ghost linesv = lines.deep_view();
    let mut rules: Vec<RemakeRule> = Vec::new();
    let mut wildcards: Vec<RemakeWildcard> = Vec::new();
    let mut current = RemakeRule::new();
    let phony = phony_name();
    let mut i: usize = 0;
    proof {
        assert(linesv.skip(0) =~= linesv);
        assert((ParseState {
            rules: rules.deep_view(),
            wildcards: wildcards.deep_view(),
            current: current@,
        }) =~= init_parse_state());
    }
    while i < lines.len()
        invariant
            linesv == lines.deep_view(),
            linesv == spec_split_ch(remake_file_contents@, '\n'),
            linesv.len() == lines@.len(),
            forall|k: int| 0 <= k < linesv.len() ==> linesv[k] == lines@[k]@,
            phony@ == phony_target_name(),
            i <= lines.len(),
            parse_lines(init_parse_state(), linesv) == parse_lines(
                (ParseState {
                    rules: rules.deep_view(),
                    wildcards: wildcards.deep_view(),
                    current: current@,
                }),
                linesv.skip(i as int),
            ),
        decreases lines.len() - i,
    {
        let ghost st = ParseState {
            rules: rules.deep_view(),
            wildcards: wildcards.deep_view(),
            current: current@,
        };
        let ghost lv = linesv[i as int];
        proof {
            assert(linesv.skip(i as int)[0] == lv);
            assert(linesv.skip(i as int).skip(1) =~= linesv.skip(i + 1));
        }
        let line = &lines[i];
        let n_l = line.as_str().unicode_len();
        if n_l == 0 {
            // an empty line is skipped
        } else if line.as_str().get_char(0) == '\t' {
            if current.target.as_str().is_empty() {
                proof {
                    assert(parse_line(st, lv) == Err::<ParseState, ParseError>(
                        ParseError::OrphanCommandLine,
                    ));
                }
                return Err(ParseError::OrphanCommandLine);
            }
            let text = line.as_str().substring_char(1, n_l);
            let ghost oldcur = current@;
            current.build_commands.push(String::from_str(text));
            proof {
                assert(text@ =~= lv.skip(1));
                assert(current@ =~= (RuleView {
                    build_commands: oldcur.build_commands.push(lv.skip(1)),
                    ..oldcur
                }));
                assert((ParseState {
                    rules: rules.deep_view(),
                    wildcards: wildcards.deep_view(),
                    current: current@,
                }) =~= parse_line(st, lv)->Ok_0);
            }
        } else {
            let eq_idx = find_char(line.as_str(), '=');
            let colon_idx = find_char(line.as_str(), ':');
            if eq_idx < n_l && eq_idx < colon_idx {
                let head = line.as_str().substring_char(0, eq_idx);
                let sym = trim(head);
                proof {
                    assert(head@ =~= lv.take(first_ch(lv, '=')));
                }
                let rest = line.as_str().substring_char(eq_idx + 1, n_l);
                proof {
                    assert(rest@ =~= lv.skip(first_ch(lv, '=') + 1));
                }
                let parts = split_char(rest, ' ');
                let vals = keep_nonempty(&parts);
                if sym.as_str().is_empty() {
                    proof {
                        assert(parse_line(st, lv) == Err::<ParseState, ParseError>(
                            ParseError::MalformedLine,
                        ));
                    }
                    return Err(ParseError::MalformedLine);
                }
                push_wildcard(&mut wildcards, sym, vals);
                proof {
                    assert((ParseState {
                        rules: rules.deep_view(),
                        wildcards: wildcards.deep_view(),
                        current: current@,
                    }) =~= parse_line(st, lv)->Ok_0);
                }
            } else {
                let colon_cnt = count_char(line.as_str(), ':');
                if colon_cnt == 1 {
                    proof {
                        lemma_count_first(lv, ':');
                    }
                    let head = line.as_str().substring_char(0, colon_idx);
                    let target = trim(head);
                    proof {
                        assert(head@ =~= lv.take(first_ch(lv, ':')));
                    }
                    let rest = line.as_str().substring_char(colon_idx + 1, n_l);
                    proof {
                        assert(rest@ =~= lv.skip(first_ch(lv, ':') + 1));
                    }
                    let parts = split_char(rest, ' ');
                    let deps = keep_nonempty(&parts);
                    if target.as_str().is_empty() {
                        proof {
                            assert(parse_line(st, lv) == Err::<ParseState, ParseError>(
                                ParseError::MalformedLine,
                            ));
                        }
                        return Err(ParseError::MalformedLine);
                    }
                    if !current.is_empty() {
                        let prev = current.duplicate();
                        rules.push(prev);
                        proof {
                            assert(rules.deep_view() =~= st.rules.push(st.current));
                        }
                    }
                    let is_phony = target.eq(&phony);
                    current = RemakeRule {
                        target,
                        dependencies: deps,
                        build_commands: Vec::new(),
                        is_phony,
                    };
                    proof {
                        assert(current@.build_commands =~= Seq::<Seq<char>>::empty());
                        assert((ParseState {
                            rules: rules.deep_view(),
                            wildcards: wildcards.deep_view(),
                            current: current@,
                        }) =~= parse_line(st, lv)->Ok_0);
                    }
                } else {
                    proof {
                        assert(parse_line(st, lv) == Err::<ParseState, ParseError>(
                            ParseError::MalformedLine,
                        ));
                    }
                    return Err(ParseError::MalformedLine);
                }
            }
        }
        i += 1;
    }
    proof {
        assert(linesv.skip(linesv.len() as int) =~= Seq::<Seq<char>>::empty());
    }
    if !current.is_empty() {
        rules.push(current);
    }
    let f = RemakeFile { rules, wildcards };
    proof {
        assert(f@ =~= spec_parse(remake_file_contents@)->Ok_0);
    }
    Ok(f)
}

} // verus!
