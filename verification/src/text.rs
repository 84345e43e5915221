//! Character-level text operations: substring search, replacement,
//! joining and splitting on a separator, and trimming spaces.  Every
//! operation is specified over `Seq<char>` views.

use vstd::prelude::*;
use vstd::string::StrSliceExecFns;
use vstd::string::StringExecFns;

verus! {

/// `pat` occurs in `s` starting at position `i`.
pub open spec fn match_at(s: Seq<char>, pat: Seq<char>, i: int) -> bool {
    0 <= i && i + pat.len() <= s.len() && s.subrange(i, i + pat.len() as int) == pat
}

/// `pat` occurs somewhere in `s`.
pub open spec fn contains_seq(s: Seq<char>, pat: Seq<char>) -> bool {
    exists|i: int| match_at(s, pat, i)
}

/// The character `c` occurs in `s`.
pub open spec fn contains_ch(s: Seq<char>, c: char) -> bool {
    exists|i: int| 0 <= i < s.len() && s[i] == c
}

/// Leftmost, non-overlapping replacement of `from` by `to`, as
/// `str::replace` performs it.  An empty `from` leaves `s` unchanged.
pub open spec fn spec_replace(s: Seq<char>, from: Seq<char>, to: Seq<char>) -> Seq<char>
    decreases s.len(),
{
    if s.len() == 0 {
        s
    } else if from.len() > 0 && match_at(s, from, 0) {
        to + spec_replace(s.skip(from.len() as int), from, to)
    } else {
        seq![s[0]] + spec_replace(s.skip(1), from, to)
    }
}

/// The parts joined with a single space between consecutive parts.
pub open spec fn spec_join_space(parts: Seq<Seq<char>>) -> Seq<char>
    decreases parts.len(),
{
    if parts.len() == 0 {
        Seq::empty()
    } else {
        parts[0] + spec_join_more(parts.skip(1))
    }
}

/// The tail of a join: every part preceded by one space.
pub open spec fn spec_join_more(parts: Seq<Seq<char>>) -> Seq<char>
    decreases parts.len(),
{
    if parts.len() == 0 {
        Seq::empty()
    } else {
        seq![' '] + parts[0] + spec_join_more(parts.skip(1))
    }
}

/// Split on the character `c`, keeping empty parts, as `str::split`
/// does: the result always has at least one part, and splitting the
/// empty text gives one empty part.
pub open spec fn spec_split_ch(s: Seq<char>, c: char) -> Seq<Seq<char>>
    decreases s.len(),
{
    if s.len() == 0 {
        seq![Seq::<char>::empty()]
    } else if s[0] == c {
        seq![Seq::<char>::empty()] + spec_split_ch(s.skip(1), c)
    } else {
        let rest = spec_split_ch(s.skip(1), c);
        seq![seq![s[0]] + rest[0]] + rest.skip(1)
    }
}

/// The non-empty parts, in order.
pub open spec fn nonempty_parts(parts: Seq<Seq<char>>) -> Seq<Seq<char>>
    decreases parts.len(),
{
    if parts.len() == 0 {
        Seq::empty()
    } else if parts[0].len() == 0 {
        nonempty_parts(parts.skip(1))
    } else {
        seq![parts[0]] + nonempty_parts(parts.skip(1))
    }
}

/// The position of the first occurrence of `c` in `s`, or `s.len()`
/// when `c` does not occur.
pub open spec fn first_ch(s: Seq<char>, c: char) -> int
    decreases s.len(),
{
    if s.len() == 0 {
        0
    } else if s[0] == c {
        0
    } else {
        1 + first_ch(s.skip(1), c)
    }
}

/// How many times `c` occurs in `s`.
pub open spec fn count_ch(s: Seq<char>, c: char) -> int
    decreases s.len(),
{
    if s.len() == 0 {
        0int
    } else {
        (if s[0] == c {
            1int
        } else {
            0int
        }) + count_ch(s.skip(1), c)
    }
}

/// `s` without its leading spaces.
pub open spec fn drop_leading_spaces(s: Seq<char>) -> Seq<char>
    decreases s.len(),
{
    if s.len() > 0 && s[0] == ' ' {
        drop_leading_spaces(s.skip(1))
    } else {
        s
    }
}

/// `s` without its trailing spaces.
pub open spec fn drop_trailing_spaces(s: Seq<char>) -> Seq<char>
    decreases s.len(),
{
    if s.len() > 0 && s[s.len() - 1] == ' ' {
        drop_trailing_spaces(s.take(s.len() - 1))
    } else {
        s
    }
}

/// `s` without leading and trailing spaces.
pub open spec fn trim_spaces(s: Seq<char>) -> Seq<char> {
    drop_trailing_spaces(drop_leading_spaces(s))
}

/// Where the first occurrence lies and what stands before it.
pub proof fn lemma_first_ch_props(s: Seq<char>, c: char)
    ensures
        0 <= first_ch(s, c) <= s.len(),
        first_ch(s, c) < s.len() ==> s[first_ch(s, c)] == c,
        forall|k: int| 0 <= k < first_ch(s, c) ==> s[k] != c,
        contains_ch(s, c) <==> first_ch(s, c) < s.len(),
    decreases s.len(),
{
    if s.len() > 0 && s[0] != c {
        lemma_first_ch_props(s.skip(1), c);
        assert forall|k: int| 0 <= k < first_ch(s, c) implies s[k] != c by {
            if k > 0 {
                assert(s.skip(1)[k - 1] == s[k]);
            }
        }
        if contains_ch(s, c) {
            let i = choose|i: int| 0 <= i < s.len() && s[i] == c;
            assert(s.skip(1)[i - 1] == c);
        }
        if contains_ch(s.skip(1), c) {
            let i = choose|i: int| 0 <= i < s.skip(1).len() && s.skip(1)[i] == c;
            assert(s[i + 1] == c);
        }
    }
}

/// The first occurrence in a concatenation: in the left part when it
/// has one, past it otherwise.
pub proof fn lemma_first_ch_concat(a: Seq<char>, b: Seq<char>, c: char)
    ensures
        contains_ch(a, c) ==> first_ch(a + b, c) == first_ch(a, c),
        !contains_ch(a, c) ==> first_ch(a + b, c) == a.len() + first_ch(b, c),
    decreases a.len(),
{
    lemma_first_ch_props(a, c);
    if a.len() == 0 {
        assert(a + b =~= b);
    } else {
        assert((a + b)[0] == a[0]);
        if a[0] == c {
        } else {
            assert((a + b).skip(1) =~= a.skip(1) + b);
            lemma_first_ch_concat(a.skip(1), b, c);
            lemma_first_ch_props(a.skip(1), c);
            if contains_ch(a, c) {
                let i = choose|i: int| 0 <= i < a.len() && a[i] == c;
                assert(a.skip(1)[i - 1] == c);
            }
            if contains_ch(a.skip(1), c) {
                let i = choose|i: int| 0 <= i < a.skip(1).len() && a.skip(1)[i] == c;
                assert(a[i + 1] == c);
            }
        }
    }
}

/// A text free of a character holds zero occurrences of it.
pub proof fn lemma_count_ch_zero(s: Seq<char>, c: char)
    requires
        forall|k: int| 0 <= k < s.len() ==> s[k] != c,
    ensures
        count_ch(s, c) == 0,
    decreases s.len(),
{
    if s.len() > 0 {
        assert(forall|k: int| 0 <= k < s.skip(1).len() ==> s.skip(1)[k] == s[k + 1]);
        lemma_count_ch_zero(s.skip(1), c);
    }
}

/// Occurrences add up across a concatenation.
pub proof fn lemma_count_ch_concat(a: Seq<char>, b: Seq<char>, c: char)
    ensures
        count_ch(a + b, c) == count_ch(a, c) + count_ch(b, c),
    decreases a.len(),
{
    if a.len() == 0 {
        assert(a + b =~= b);
    } else {
        assert((a + b)[0] == a[0]);
        assert((a + b).skip(1) =~= a.skip(1) + b);
        lemma_count_ch_concat(a.skip(1), b, c);
    }
}

/// Splitting around one separator: the separator-free left part comes
/// out whole, and the rest splits on its own.
pub proof fn lemma_split_prefix(a: Seq<char>, b: Seq<char>, c: char)
    requires
        forall|k: int| 0 <= k < a.len() ==> a[k] != c,
    ensures
        spec_split_ch(a + seq![c] + b, c) == seq![a] + spec_split_ch(b, c),
    decreases a.len(),
{
    let s = a + seq![c] + b;
    if a.len() == 0 {
        assert(s =~= seq![c] + b);
        assert(s[0] == c);
        assert(s.skip(1) =~= b);
        assert(spec_split_ch(s, c) == seq![Seq::<char>::empty()] + spec_split_ch(b, c));
        assert(seq![Seq::<char>::empty()] + spec_split_ch(b, c) =~~= seq![a] + spec_split_ch(b, c));
    } else {
        assert(s[0] == a[0]);
        assert(s.skip(1) =~= a.skip(1) + seq![c] + b);
        assert(forall|k: int| 0 <= k < a.skip(1).len() ==> a.skip(1)[k] == a[k + 1]);
        lemma_split_prefix(a.skip(1), b, c);
        let rest = spec_split_ch(s.skip(1), c);
        assert(rest == seq![a.skip(1)] + spec_split_ch(b, c));
        assert(rest[0] == a.skip(1));
        assert(rest.skip(1) =~= spec_split_ch(b, c));
        assert(seq![s[0]] + rest[0] =~= a);
        assert(spec_split_ch(s, c) =~= seq![a] + spec_split_ch(b, c));
    }
}

/// A text without the separator splits into itself alone.
pub proof fn lemma_split_no_sep(s: Seq<char>, c: char)
    requires
        forall|k: int| 0 <= k < s.len() ==> s[k] != c,
    ensures
        spec_split_ch(s, c) == seq![s],
    decreases s.len(),
{
    if s.len() == 0 {
        assert(spec_split_ch(s, c) == seq![Seq::<char>::empty()]);
        assert(seq![Seq::<char>::empty()] =~~= seq![s]);
    } else {
        assert(forall|k: int| 0 <= k < s.skip(1).len() ==> s.skip(1)[k] == s[k + 1]);
        lemma_split_no_sep(s.skip(1), c);
        let rest = spec_split_ch(s.skip(1), c);
        assert(rest[0] == s.skip(1));
        assert(rest.skip(1) =~= Seq::<Seq<char>>::empty());
        assert(seq![s[0]] + s.skip(1) =~= s);
        assert(spec_split_ch(s, c) =~= seq![s]);
    }
}

/// The space-joined parts, split on spaces with empty parts dropped,
/// give the parts back, provided each part is non-empty and space-free.
pub proof fn lemma_split_join_space(parts: Seq<Seq<char>>)
    requires
        forall|p: int|
            0 <= p < parts.len() ==> parts[p].len() > 0 && forall|k: int|
                0 <= k < parts[p].len() ==> parts[p][k] != ' ',
    ensures
        nonempty_parts(spec_split_ch(spec_join_space(parts), ' ')) == parts,
    decreases parts.len(),
{
    if parts.len() == 0 {
        assert(spec_join_space(parts) =~= Seq::<char>::empty());
        let sp = spec_split_ch(spec_join_space(parts), ' ');
        assert(sp == seq![Seq::<char>::empty()]);
        assert(sp.skip(1) =~= Seq::<Seq<char>>::empty());
        assert(nonempty_parts(sp) == nonempty_parts(sp.skip(1)));
        assert(nonempty_parts(Seq::<Seq<char>>::empty()) == Seq::<Seq<char>>::empty());
        assert(nonempty_parts(sp) =~= parts);
    } else if parts.len() == 1 {
        assert(spec_join_more(parts.skip(1)) =~= Seq::<char>::empty());
        assert(spec_join_space(parts) =~= parts[0]);
        assert(forall|k: int| 0 <= k < parts[0].len() ==> parts[0][k] != ' ');
        lemma_split_no_sep(parts[0], ' ');
        let sp = spec_split_ch(spec_join_space(parts), ' ');
        assert(sp == seq![parts[0]]);
        assert(sp[0] == parts[0]);
        assert(sp.skip(1) =~= Seq::<Seq<char>>::empty());
        assert(nonempty_parts(sp) == seq![parts[0]] + nonempty_parts(sp.skip(1)));
        assert(nonempty_parts(Seq::<Seq<char>>::empty()) == Seq::<Seq<char>>::empty());
        assert(nonempty_parts(sp) =~= parts);
    } else {
        let tail = parts.skip(1);
        assert(forall|p: int| 0 <= p < tail.len() ==> tail[p] == parts[p + 1]);
        assert(tail.len() > 0);
        assert(spec_join_more(tail) =~= seq![' '] + spec_join_space(tail));
        assert(spec_join_space(parts) =~= parts[0] + seq![' '] + spec_join_space(tail));
        assert(forall|k: int| 0 <= k < parts[0].len() ==> parts[0][k] != ' ');
        lemma_split_prefix(parts[0], spec_join_space(tail), ' ');
        lemma_split_join_space(tail);
        let sp = spec_split_ch(spec_join_space(parts), ' ');
        assert(sp == seq![parts[0]] + spec_split_ch(spec_join_space(tail), ' '));
        assert(sp[0] == parts[0]);
        assert(sp.len() > 0 && sp[0].len() > 0);
        assert(sp.skip(1) =~= spec_split_ch(spec_join_space(tail), ' '));
        assert(nonempty_parts(sp) == seq![parts[0]] + nonempty_parts(sp.skip(1)));
        assert(nonempty_parts(sp.skip(1)) == tail);
        assert(nonempty_parts(sp) =~= parts);
    }
}

/// The space-prefixed join of parts, split on spaces with empty parts
/// dropped, gives the parts back.
pub proof fn lemma_split_join_more(parts: Seq<Seq<char>>)
    requires
        forall|p: int|
            0 <= p < parts.len() ==> parts[p].len() > 0 && forall|k: int|
                0 <= k < parts[p].len() ==> parts[p][k] != ' ',
    ensures
        nonempty_parts(spec_split_ch(spec_join_more(parts), ' ')) == parts,
{
    if parts.len() == 0 {
        assert(spec_join_more(parts) =~= Seq::<char>::empty());
        let sp = spec_split_ch(spec_join_more(parts), ' ');
        assert(sp == seq![Seq::<char>::empty()]);
        assert(sp.skip(1) =~= Seq::<Seq<char>>::empty());
        assert(nonempty_parts(sp) == nonempty_parts(sp.skip(1)));
        assert(nonempty_parts(Seq::<Seq<char>>::empty()) == Seq::<Seq<char>>::empty());
        assert(nonempty_parts(sp) =~= parts);
    } else {
        assert(spec_join_more(parts) =~= seq![' '] + spec_join_space(parts));
        let s = spec_join_more(parts);
        assert(s[0] == ' ');
        assert(s.skip(1) =~= spec_join_space(parts));
        let sp = spec_split_ch(s, ' ');
        assert(sp == seq![Seq::<char>::empty()] + spec_split_ch(spec_join_space(parts), ' '));
        assert(sp[0].len() == 0);
        assert(sp.skip(1) =~= spec_split_ch(spec_join_space(parts), ' '));
        lemma_split_join_space(parts);
        assert(nonempty_parts(sp) == nonempty_parts(sp.skip(1)));
        assert(nonempty_parts(sp) =~= parts);
    }
}

/// Trimming leaves a space-free text alone.
pub proof fn lemma_trim_plain(s: Seq<char>)
    requires
        forall|k: int| 0 <= k < s.len() ==> s[k] != ' ',
    ensures
        trim_spaces(s) == s,
{
    assert(drop_leading_spaces(s) == s);
    assert(drop_trailing_spaces(s) == s);
}

/// Trimming strips one trailing space off a space-free text.
pub proof fn lemma_trim_token_space(s: Seq<char>)
    requires
        forall|k: int| 0 <= k < s.len() ==> s[k] != ' ',
    ensures
        trim_spaces(s + seq![' ']) == s,
{
    let t = s + seq![' '];
    if s.len() == 0 {
        assert(t =~= seq![' ']);
        assert(t.skip(1) =~= Seq::<char>::empty());
        assert(drop_leading_spaces(t) == drop_leading_spaces(t.skip(1)));
        assert(drop_leading_spaces(Seq::<char>::empty()) == Seq::<char>::empty());
        assert(drop_trailing_spaces(Seq::<char>::empty()) == Seq::<char>::empty());
        assert(trim_spaces(t) =~= s);
    } else {
        assert(t[0] == s[0]);
        assert(drop_leading_spaces(t) == t);
        assert(t[t.len() - 1] == ' ');
        assert(t.take(t.len() - 1) =~= s);
        assert(drop_trailing_spaces(s) == s);
    }
}

/// A join holds no character that neither a part nor a space holds.
pub proof fn lemma_join_space_free(parts: Seq<Seq<char>>, c: char)
    requires
        c != ' ',
        forall|p: int| #![trigger parts[p]]
            0 <= p < parts.len() ==> forall|k: int|
                0 <= k < parts[p].len() ==> (#[trigger] parts[p][k]) != c,
    ensures
        forall|k: int| 0 <= k < spec_join_space(parts).len() ==> spec_join_space(parts)[k] != c,
        forall|k: int| 0 <= k < spec_join_more(parts).len() ==> spec_join_more(parts)[k] != c,
    decreases parts.len(),
{
    if parts.len() > 0 {
        let tail = parts.skip(1);
        assert(forall|p: int| 0 <= p < tail.len() ==> tail[p] == parts[p + 1]);
        lemma_join_space_free(tail, c);
        assert(spec_join_space(parts) == parts[0] + spec_join_more(tail));
        assert(spec_join_more(parts) == seq![' '] + parts[0] + spec_join_more(tail));
        assert forall|k: int|
            0 <= k < spec_join_space(parts).len() implies spec_join_space(parts)[k] != c by {
            if k < parts[0].len() {
                assert(spec_join_space(parts)[k] == parts[0][k]);
            } else {
                assert(spec_join_space(parts)[k] == spec_join_more(tail)[k - parts[0].len()]);
            }
        }
        assert forall|k: int|
            0 <= k < spec_join_more(parts).len() implies spec_join_more(parts)[k] != c by {
            if k == 0 {
            } else if k < 1 + parts[0].len() {
                assert(spec_join_more(parts)[k] == parts[0][k - 1]);
            } else {
                assert(spec_join_more(parts)[k] == spec_join_more(tail)[k - 1 - parts[0].len()]);
            }
        }
    }
}

/// Relies on std's `String::push`: appends the given character at the
/// end of the string.
#[verifier::external_body]
pub(crate) fn push_char(s: &mut String, c: char)
    ensures
        final(s)@ == old(s)@.push(c),
{
    s.push(c);
}

/// Whether `pat` occurs in `s` at position `i`.
fn matches_at(s: &str, pat: &str, i: usize, n: usize, m: usize) -> (r: bool)
    requires
        n == s@.len(),
        m == pat@.len(),
        i <= n,
        m <= n - i,
    ensures
        r == match_at(s@, pat@, i as int),
{
    let mut j: usize = 0;
    while j < m
        invariant
            n == s@.len(),
            m == pat@.len(),
            i <= n,
            m <= n - i,
            j <= m,
            forall|k: int| 0 <= k < j ==> s@[i + k] == pat@[k],
        decreases m - j,
    {
        if s.get_char(i + j) != pat.get_char(j) {
            assert(s@.subrange(i as int, i + m as int)[j as int] != pat@[j as int]);
            return false;
        }
        j += 1;
    }
    assert(s@.subrange(i as int, i + m as int) =~= pat@);
    true
}

/// The text with every occurrence of `from` replaced by `to`,
/// leftmost first and without overlap.
pub fn replace_all(s: &str, from: &str, to: &str) -> (r: String)
    ensures
        r@ == spec_replace(s@, from@, to@),
{
    let n = s.unicode_len();
    let m = from.unicode_len();
    let mut out = String::new();
    let mut i: usize = 0;
    proof {
        assert(s@.skip(0) =~= s@);
        assert(out@ + spec_replace(s@, from@, to@) =~= spec_replace(s@, from@, to@));
    }
    while i < n
        invariant
            n == s@.len(),
            m == from@.len(),
            i <= n,
            out@ + spec_replace(s@.skip(i as int), from@, to@) == spec_replace(s@, from@, to@),
        decreases n - i,
    {
        let ghost tail = s@.skip(i as int);
        if m > 0 && m <= n - i && matches_at(s, from, i, n, m) {
            proof {
                assert(tail.subrange(0, m as int) =~= s@.subrange(i as int, i + m as int));
                assert(match_at(tail, from@, 0));
                assert(tail.skip(m as int) =~= s@.skip(i + m as int));
            }
            out.append(to);
            i += m;
        } else {
            proof {
                if m > 0 && m <= n - i {
                    assert(!match_at(s@, from@, i as int));
                    assert(tail.subrange(0, m as int) =~= s@.subrange(i as int, i + m as int));
                    assert(!match_at(tail, from@, 0));
                } else {
                    assert(!(from@.len() > 0 && match_at(tail, from@, 0)));
                }
                assert(tail.skip(1) =~= s@.skip(i + 1));
                assert(seq![tail[0]] =~= seq![s@[i as int]]);
            }
            let c = s.get_char(i);
            push_char(&mut out, c);
            proof {
                assert(out@ == (out@.drop_last() + seq![s@[i as int]]));
                assert(out@ + spec_replace(s@.skip(i + 1), from@, to@) == spec_replace(
                    s@,
                    from@,
                    to@,
                ));
            }
            i += 1;
        }
    }
    proof {
        assert(s@.skip(n as int) =~= Seq::<char>::empty());
        assert(out@ + Seq::<char>::empty() =~= out@);
    }
    out
}

/// Whether the character `c` occurs in the text.
pub fn contains_char(s: &str, c: char) -> (r: bool)
    ensures
        r == contains_ch(s@, c),
{
    let n = s.unicode_len();
    let mut i: usize = 0;
    while i < n
        invariant
            n == s@.len(),
            i <= n,
            forall|k: int| 0 <= k < i ==> s@[k] != c,
        decreases n - i,
    {
        if s.get_char(i) == c {
            return true;
        }
        i += 1;
    }
    false
}

/// Whether `pat` occurs in `s` as a contiguous run of characters.
pub fn contains_sub(s: &str, pat: &str) -> (r: bool)
    ensures
        r == contains_seq(s@, pat@),
{
    let n = s.unicode_len();
    let m = pat.unicode_len();
    if m > n {
        proof {
            assert(forall|i: int| !match_at(s@, pat@, i));
        }
        return false;
    }
    if m == 0 {
        proof {
            assert(s@.subrange(0, 0) =~= pat@);
            assert(match_at(s@, pat@, 0));
        }
        return true;
    }
    let mut i: usize = 0;
    while i <= n - m
        invariant
            n == s@.len(),
            m == pat@.len(),
            0 < m <= n,
            i <= n - m + 1,
            forall|k: int| 0 <= k < i ==> !match_at(s@, pat@, k),
        decreases n - i,
    {
        if matches_at(s, pat, i, n, m) {
            return true;
        }
        i += 1;
    }
    proof {
        assert(forall|k: int| match_at(s@, pat@, k) ==> 0 <= k <= n - m);
    }
    false
}

/// The parts joined with a single space between consecutive parts.
pub fn join_spaces(parts: &Vec<String>) -> (r: String)
    ensures
        r@ == spec_join_space(parts.deep_view()),
{
    let ghost all = parts.deep_view();
    let mut out = String::new();
    let mut i: usize = 0;
    while i < parts.len()
        invariant
            all == parts.deep_view(),
            all.len() == parts@.len(),
            forall|k: int| 0 <= k < all.len() ==> all[k] == parts@[k]@,
            i <= parts.len(),
            i == 0 ==> out@ == Seq::<char>::empty(),
            i > 0 ==> out@ + spec_join_more(all.skip(i as int)) == spec_join_space(all),
        decreases parts.len() - i,
    {
        proof {
            assert(all.skip(i as int)[0] == all[i as int]);
            assert(all.skip(i as int).skip(1) =~= all.skip(i + 1));
        }
        if i > 0 {
            push_char(&mut out, ' ');
        }
        let part = &parts[i];
        out.append(part.as_str());
        i += 1;
    }
    proof {
        if all.len() == 0 {
            assert(out@ =~= spec_join_space(all));
        } else {
            assert(all.skip(all.len() as int) =~= Seq::<Seq<char>>::empty());
            assert(out@ + Seq::<char>::empty() =~= out@);
        }
    }
    out
}

/// The parts of the text split on the character `c`, empty parts kept.
pub fn split_char(s: &str, c: char) -> (r: Vec<String>)
    ensures
        r.deep_view() == spec_split_ch(s@, c),
        r.len() > 0,
{
    let n = s.unicode_len();
    let mut out: Vec<String> = Vec::new();
    out.push(String::new());
    proof {
        assert(s@.skip(n as int) =~= Seq::<char>::empty());
        assert(out.deep_view() =~= spec_split_ch(s@.skip(n as int), c));
    }
    let mut i = n;
    while i > 0
        invariant
            n == s@.len(),
            i <= n,
            out.len() > 0,
            out.deep_view() == spec_split_ch(s@.skip(i as int), c),
        decreases i,
    {
        i -= 1;
        let ghost tail = s@.skip(i as int);
        proof {
            assert(tail[0] == s@[i as int]);
            assert(tail.skip(1) =~= s@.skip(i + 1));
        }
        let ch = s.get_char(i);
        if ch == c {
            let ghost before = out.deep_view();
            out.insert(0, String::new());
            proof {
                assert(out.deep_view() =~= seq![Seq::<char>::empty()] + before);
            }
        } else {
            let ghost before = out.deep_view();
            let mut t = String::new();
            push_char(&mut t, ch);
            t.append(out[0].as_str());
            let _ = out.remove(0);
            out.insert(0, t);
            proof {
                assert(out.deep_view() =~= seq![seq![s@[i as int]] + before[0]] + before.skip(1));
            }
        }
    }
    proof {
        assert(s@.skip(0) =~= s@);
    }
    out
}

/// The non-empty strings of `parts`, in order.
pub fn keep_nonempty(parts: &Vec<String>) -> (r: Vec<String>)
    ensures
        r.deep_view() == nonempty_parts(parts.deep_view()),
{
    let ghost all = parts.deep_view();
    let mut out: Vec<String> = Vec::new();
    let mut i: usize = 0;
    proof {
        assert(all.skip(0) =~= all);
        assert(out.deep_view() + nonempty_parts(all) =~= nonempty_parts(all));
    }
    while i < parts.len()
        invariant
            all == parts.deep_view(),
            all.len() == parts@.len(),
            forall|k: int| 0 <= k < all.len() ==> all[k] == parts@[k]@,
            i <= parts.len(),
            out.deep_view() + nonempty_parts(all.skip(i as int)) == nonempty_parts(all),
        decreases parts.len() - i,
    {
        let ghost tail = all.skip(i as int);
        proof {
            assert(tail[0] == all[i as int]);
            assert(tail.skip(1) =~= all.skip(i + 1));
        }
        let ghost before = out.deep_view();
        let part = &parts[i];
        if !part.as_str().is_empty() {
            out.push(part.clone());
            proof {
                assert(out.deep_view() =~= before + seq![all[i as int]]);
                assert(before + seq![all[i as int]] + nonempty_parts(all.skip(i + 1))
                    =~= before + (seq![all[i as int]] + nonempty_parts(all.skip(i + 1))));
            }
        }
        i += 1;
    }
    proof {
        assert(all.skip(all.len() as int) =~= Seq::<Seq<char>>::empty());
        assert(out.deep_view() + Seq::<Seq<char>>::empty() =~= out.deep_view());
    }
    out
}

/// The position of the first occurrence of `c`, or the length when
/// `c` does not occur.
pub fn find_char(s: &str, c: char) -> (r: usize)
    ensures
        r == first_ch(s@, c),
        r <= s@.len(),
{
    let n = s.unicode_len();
    let mut i: usize = 0;
    proof {
        assert(s@.skip(0) =~= s@);
    }
    while i < n
        invariant
            n == s@.len(),
            i <= n,
            first_ch(s@, c) == i + first_ch(s@.skip(i as int), c),
        decreases n - i,
    {
        let ghost tail = s@.skip(i as int);
        proof {
            assert(tail[0] == s@[i as int]);
            assert(tail.skip(1) =~= s@.skip(i + 1));
        }
        if s.get_char(i) == c {
            return i;
        }
        i += 1;
    }
    proof {
        assert(s@.skip(n as int) =~= Seq::<char>::empty());
    }
    n
}

/// How many times `c` occurs in the text.
pub fn count_char(s: &str, c: char) -> (r: usize)
    ensures
        r == count_ch(s@, c),
{
    let n = s.unicode_len();
    let mut cnt: usize = 0;
    let mut i: usize = 0;
    proof {
        assert(s@.skip(0) =~= s@);
    }
    while i < n
        invariant
            n == s@.len(),
            i <= n,
            cnt <= i,
            cnt + count_ch(s@.skip(i as int), c) == count_ch(s@, c),
        decreases n - i,
    {
        let ghost tail = s@.skip(i as int);
        proof {
            assert(tail[0] == s@[i as int]);
            assert(tail.skip(1) =~= s@.skip(i + 1));
        }
        if s.get_char(i) == c {
            cnt += 1;
        }
        i += 1;
    }
    proof {
        assert(s@.skip(n as int) =~= Seq::<char>::empty());
    }
    cnt
}

/// The text without leading and trailing spaces.
pub fn trim(s: &str) -> (r: String)
    ensures
        r@ == trim_spaces(s@),
{
    let n = s.unicode_len();
    let mut a: usize = 0;
    proof {
        assert(s@.skip(0) =~= s@);
    }
    while a < n && s.get_char(a) == ' '
        invariant
            n == s@.len(),
            a <= n,
            drop_leading_spaces(s@) == drop_leading_spaces(s@.skip(a as int)),
        decreases n - a,
    {
        proof {
            assert(s@.skip(a as int)[0] == s@[a as int]);
            assert(s@.skip(a as int).skip(1) =~= s@.skip(a + 1));
        }
        a += 1;
    }
    proof {
        if a < n {
            assert(s@.skip(a as int)[0] == s@[a as int]);
        }
        assert(drop_leading_spaces(s@) == s@.skip(a as int));
    }
    let mut b: usize = n;
    while b > a && s.get_char(b - 1) == ' '
        invariant
            n == s@.len(),
            a <= b <= n,
            drop_leading_spaces(s@) == s@.skip(a as int),
            a < n ==> s@[a as int] != ' ',
            trim_spaces(s@) == drop_trailing_spaces(s@.subrange(a as int, b as int)),
        decreases b,
    {
        let ghost mid = s@.subrange(a as int, b as int);
        proof {
            assert(mid[mid.len() - 1] == s@[b - 1]);
            assert(mid.take(mid.len() - 1) =~= s@.subrange(a as int, b - 1));
        }
        b -= 1;
    }
    proof {
        let mid = s@.subrange(a as int, b as int);
        if b > a {
            assert(mid[mid.len() - 1] == s@[b - 1]);
            assert(drop_trailing_spaces(mid) == mid);
        } else {
            assert(mid =~= Seq::<char>::empty());
        }
        assert(trim_spaces(s@) == s@.subrange(a as int, b as int));
    }
    let mut out = String::new();
    let mut i = a;
    while i < b
        invariant
            n == s@.len(),
            a <= i <= b <= n,
            out@ == s@.subrange(a as int, i as int),
        decreases b - i,
    {
        let c = s.get_char(i);
        push_char(&mut out, c);
        proof {
            assert(s@.subrange(a as int, i + 1) =~= s@.subrange(a as int, i as int).push(
                s@[i as int],
            ));
        }
        i += 1;
    }
    out
}

} // verus!
