//! Text primitives over sequences of characters.
//!
//! Every string of the analysis is reasoned about through its view, a
//! `Seq<char>`. This module states the handful of string operations the
//! analysis relies on as spec functions and provides verified executable
//! counterparts.

use vstd::prelude::*;
use vstd::string::*;

verus! {

/// `pat` occurs in `s` starting at index `i`.
pub open spec fn occurs_at(s: Seq<char>, pat: Seq<char>, i: int) -> bool {
    &&& 0 <= i
    &&& i + pat.len() <= s.len()
    &&& s.subrange(i, i + pat.len()) =~= pat
}

/// `s` begins with `pat`.
pub open spec fn has_prefix(s: Seq<char>, pat: Seq<char>) -> bool {
    occurs_at(s, pat, 0)
}

/// `s` ends with `pat`.
pub open spec fn has_suffix(s: Seq<char>, pat: Seq<char>) -> bool {
    occurs_at(s, pat, s.len() - pat.len())
}

/// `pat` occurs somewhere in `s`.
pub open spec fn contains(s: Seq<char>, pat: Seq<char>) -> bool {
    exists|i: int| occurs_at(s, pat, i)
}

/// No occurrence of `pat` in `s` starts at an index in `[lo, hi)`.
pub open spec fn no_occurrence_in(s: Seq<char>, pat: Seq<char>, lo: int, hi: int) -> bool {
    forall|k: int| lo <= k < hi ==> !occurs_at(s, pat, k)
}

/// The index of the first occurrence of the character `c` in `s`, if any.
pub open spec fn index_of_char(s: Seq<char>, c: char) -> Option<int>
    decreases s.len(),
{
    if s.len() == 0 {
        None
    } else if s[0] == c {
        Some(0)
    } else {
        match index_of_char(s.drop_first(), c) {
            Some(i) => Some(i + 1),
            None => None,
        }
    }
}

/// Every non-overlapping occurrence of `from` in `s`, scanning from the left,
/// replaced by `to`. An empty `from` matches before every character and at
/// the end.
pub open spec fn replace_all(s: Seq<char>, from: Seq<char>, to: Seq<char>) -> Seq<char>
    decreases s.len(),
{
    if s.len() == 0 {
        if from.len() == 0 {
            to
        } else {
            s
        }
    } else if from.len() == 0 {
        to + seq![s[0]] + replace_all(s.drop_first(), from, to)
    } else if occurs_at(s, from, 0) {
        to + replace_all(s.skip(from.len() as int), from, to)
    } else {
        seq![s[0]] + replace_all(s.drop_first(), from, to)
    }
}

/// Characters with the Unicode `White_Space` property.
pub open spec fn is_whitespace(c: char) -> bool {
    let n = c as u32;
    ||| 0x09 <= n <= 0x0D
    ||| n == 0x20
    ||| n == 0x85
    ||| n == 0xA0
    ||| n == 0x1680
    ||| 0x2000 <= n <= 0x200A
    ||| n == 0x2028
    ||| n == 0x2029
    ||| n == 0x202F
    ||| n == 0x205F
    ||| n == 0x3000
}

/// `s` without its leading whitespace.
pub open spec fn trim_start(s: Seq<char>) -> Seq<char>
    decreases s.len(),
{
    if s.len() > 0 && is_whitespace(s[0]) {
        trim_start(s.drop_first())
    } else {
        s
    }
}

/// Strict lexicographic order by code point.
pub open spec fn lex_lt(a: Seq<char>, b: Seq<char>) -> bool
    decreases a.len(),
{
    if b.len() == 0 {
        false
    } else if a.len() == 0 {
        true
    } else if a[0] != b[0] {
        (a[0] as int) < (b[0] as int)
    } else {
        lex_lt(a.drop_first(), b.drop_first())
    }
}

/// No text sorts before itself.
pub proof fn lemma_lex_lt_irreflexive(a: Seq<char>)
    ensures
        !lex_lt(a, a),
    decreases a.len(),
{
    if a.len() > 0 {
        lemma_lex_lt_irreflexive(a.drop_first());
    }
}

/// Of two different texts one sorts before the other.
pub proof fn lemma_lex_lt_total(a: Seq<char>, b: Seq<char>)
    ensures
        a == b || lex_lt(a, b) || lex_lt(b, a),
    decreases a.len(),
{
    if a.len() == 0 || b.len() == 0 {
        if a.len() == 0 && b.len() == 0 {
            assert(a =~= b);
        }
    } else if a[0] == b[0] {
        lemma_lex_lt_total(a.drop_first(), b.drop_first());
        if a.drop_first() == b.drop_first() {
            assert(a =~= seq![a[0]] + a.drop_first());
            assert(b =~= seq![b[0]] + b.drop_first());
        }
    }
}

/// What sorts before a text sorts before all that the text sorts before.
pub proof fn lemma_lex_lt_transitive(a: Seq<char>, b: Seq<char>, c: Seq<char>)
    requires
        lex_lt(a, b),
        lex_lt(b, c),
    ensures
        lex_lt(a, c),
    decreases a.len(),
{
    if a.len() > 0 && b.len() > 0 && c.len() > 0 {
        if a[0] == b[0] && b[0] == c[0] {
            lemma_lex_lt_transitive(a.drop_first(), b.drop_first(), c.drop_first());
        }
    }
}

/// Skipping a stretch without occurrences leaves that stretch unchanged.
pub proof fn lemma_replace_all_skips_gap(
    s: Seq<char>,
    from: Seq<char>,
    to: Seq<char>,
    lo: int,
    hi: int,
)
    requires
        from.len() > 0,
        0 <= lo <= hi <= s.len(),
        no_occurrence_in(s, from, lo, hi),
    ensures
        replace_all(s.skip(lo), from, to) == s.subrange(lo, hi) + replace_all(
            s.skip(hi),
            from,
            to,
        ),
    decreases hi - lo,
{
    if lo == hi {
        assert(s.subrange(lo, hi) + replace_all(s.skip(hi), from, to) =~= replace_all(
            s.skip(hi),
            from,
            to,
        ));
    } else {
        let t = s.skip(lo);
        assert(!occurs_at(s, from, lo));
        assert(!occurs_at(t, from, 0)) by {
            if occurs_at(t, from, 0) {
                assert(t.subrange(0, from.len() as int) =~= s.subrange(lo, lo + from.len()));
            }
        }
        assert(t.drop_first() =~= s.skip(lo + 1));
        lemma_replace_all_skips_gap(s, from, to, lo + 1, hi);
        assert(seq![t[0]] + s.subrange(lo + 1, hi) =~= s.subrange(lo, hi));
        assert(seq![t[0]] + (s.subrange(lo + 1, hi) + replace_all(s.skip(hi), from, to))
            =~= s.subrange(lo, hi) + replace_all(s.skip(hi), from, to));
    }
}

/// A text in which the pattern does not occur is left as it is.
pub proof fn lemma_replace_all_absent(s: Seq<char>, from: Seq<char>, to: Seq<char>)
    requires
        from.len() > 0,
        !contains(s, from),
    ensures
        replace_all(s, from, to) == s,
{
    lemma_replace_all_skips_gap(s, from, to, 0, s.len() as int);
    assert(s.skip(0) =~= s);
    assert(s.skip(s.len() as int) =~= Seq::<char>::empty());
    assert(s.subrange(0, s.len() as int) + Seq::<char>::empty() =~= s);
}

/// The characters of a string, in order.
pub fn chars_of(s: &str) -> (v: Vec<char>)
    ensures
        v@ == s@,
{
    let mut v: Vec<char> = Vec::new();
    for c in it: s.chars()
        invariant
            v@ == it.seq().take(it.index() as int),
            it.seq() == s@,
    {
        v.push(c);
    }
    v
}

/// Whether two string slices hold the same characters.
pub fn str_eq(a: &str, b: &str) -> (r: bool)
    ensures
        r == (a@ == b@),
{
    let x = String::from_str(a);
    let y = String::from_str(b);
    x == y
}

/// Whether `pat` occurs in `s` at index `i`.
pub fn matches_at(s: &Vec<char>, pat: &Vec<char>, i: usize) -> (r: bool)
    ensures
        r == occurs_at(s@, pat@, i as int),
{
    if i > s.len() || pat.len() > s.len() - i {
        return false;
    }
    let mut k: usize = 0;
    while k < pat.len()
        invariant
            i + pat.len() <= s.len(),
            k <= pat.len(),
            forall|j: int| 0 <= j < k ==> s@[i + j] == pat@[j],
        decreases pat.len() - k,
    {
        if s[i + k] != pat[k] {
            proof {
                let sub = s@.subrange(i as int, i + pat.len());
                assert(sub[k as int] == s@[i + k]);
            }
            return false;
        }
        k += 1;
    }
    assert(s@.subrange(i as int, i + pat.len()) =~= pat@);
    true
}

/// The smallest index at or after `start` at which `pat` occurs in `s`.
pub fn find_from(s: &Vec<char>, pat: &Vec<char>, start: usize) -> (r: Option<usize>)
    ensures
        match r {
            Some(i) => start <= i && occurs_at(s@, pat@, i as int) && no_occurrence_in(
                s@,
                pat@,
                start as int,
                i as int,
            ),
            None => forall|k: int| start <= k ==> !occurs_at(s@, pat@, k),
        },
{
    if start > s.len() {
        return None;
    }
    let mut i: usize = start;
    while i < s.len()
        invariant
            start <= i <= s.len(),
            no_occurrence_in(s@, pat@, start as int, i as int),
        decreases s.len() - i,
    {
        if matches_at(s, pat, i) {
            return Some(i);
        }
        i += 1;
    }
    if matches_at(s, pat, i) {
        Some(i)
    } else {
        None
    }
}

/// Whether `pat` occurs in `s`.
pub fn contains_str(s: &str, pat: &str) -> (r: bool)
    ensures
        r == contains(s@, pat@),
{
    let sc = chars_of(s);
    let pc = chars_of(pat);
    find_from(&sc, &pc, 0).is_some()
}

/// Whether `s` ends with `pat`.
pub fn ends_with(s: &str, pat: &str) -> (r: bool)
    ensures
        r == has_suffix(s@, pat@),
{
    let sc = chars_of(s);
    let pc = chars_of(pat);
    if pc.len() > sc.len() {
        false
    } else {
        matches_at(&sc, &pc, sc.len() - pc.len())
    }
}

/// Whether `c` is a whitespace character.
pub fn is_space(c: char) -> (r: bool)
    ensures
        r == is_whitespace(c),
{
    let n: u32 = c as u32;
    (0x09 <= n && n <= 0x0D) || n == 0x20 || n == 0x85 || n == 0xA0 || n == 0x1680 || (0x2000 <= n
        && n <= 0x200A) || n == 0x2028 || n == 0x2029 || n == 0x202F || n == 0x205F || n == 0x3000
}

/// Whether `s`, once its leading whitespace is removed, begins with `pat`.
pub fn trimmed_starts_with(s: &str, pat: &str) -> (r: bool)
    ensures
        r == has_prefix(trim_start(s@), pat@),
{
    let sc = chars_of(s);
    let pc = chars_of(pat);
    let mut i: usize = 0;
    assert(sc@.skip(0) =~= sc@);
    while i < sc.len() && is_space(sc[i])
        invariant
            i <= sc.len(),
            trim_start(sc@) == trim_start(sc@.skip(i as int)),
        decreases sc.len() - i,
    {
        proof {
            let t = sc@.skip(i as int);
            assert(t[0] == sc@[i as int]);
            assert(t.drop_first() =~= sc@.skip(i + 1));
        }
        i += 1;
    }
    proof {
        let t = sc@.skip(i as int);
        if i < sc.len() {
            assert(t[0] == sc@[i as int]);
        }
        assert(trim_start(t) == t);
        if occurs_at(sc@, pc@, i as int) {
            assert(t.subrange(0, pc@.len() as int) =~= sc@.subrange(i as int, i + pc@.len()));
        }
        if occurs_at(t, pc@, 0) {
            assert(t.subrange(0, pc@.len() as int) =~= sc@.subrange(i as int, i + pc@.len()));
        }
    }
    matches_at(&sc, &pc, i)
}

/// The index of the first occurrence of `c` in `s`, if any.
pub fn find_char(s: &Vec<char>, c: char) -> (r: Option<usize>)
    ensures
        match r {
            Some(i) => index_of_char(s@, c) == Some(i as int) && i < s.len() && s@[i as int] == c,
            None => index_of_char(s@, c) is None,
        },
{
    let mut i: usize = 0;
    assert(s@.skip(0) =~= s@);
    while i < s.len()
        invariant
            i <= s.len(),
            index_of_char(s@, c) == match index_of_char(s@.skip(i as int), c) {
                Some(k) => Some(k + i),
                None => None,
            },
        decreases s.len() - i,
    {
        proof {
            let t = s@.skip(i as int);
            assert(t[0] == s@[i as int]);
            assert(t.drop_first() =~= s@.skip(i + 1));
        }
        if s[i] == c {
            return Some(i);
        }
        i += 1;
    }
    None
}

/// `s` with every occurrence of `from` replaced by `to`.
pub fn replace(s: &str, from: &str, to: &str) -> (r: String)
    ensures
        r@ == replace_all(s@, from@, to@),
{
    let sc = chars_of(s);
    let fc = chars_of(from);
    let n = sc.len();
    let mut out = String::new();
    if fc.len() == 0 {
        let mut i: usize = 0;
        assert(s@.skip(0) =~= s@);
        assert(out@ + replace_all(s@, from@, to@) =~= replace_all(s@, from@, to@));
        while i < n
            invariant
                n == sc@.len(),
                sc@ == s@,
                fc@ == from@,
                fc@.len() == 0,
                i <= n,
                out@ + replace_all(s@.skip(i as int), from@, to@) == replace_all(s@, from@, to@),
            decreases n - i,
        {
            proof {
                let t = s@.skip(i as int);
                assert(t.drop_first() =~= s@.skip(i + 1));
                assert(s@.subrange(i as int, i + 1) =~= seq![t[0]]);
                assert((out@ + to@ + s@.subrange(i as int, i + 1)) + replace_all(
                    s@.skip(i + 1),
                    from@,
                    to@,
                ) =~= out@ + (to@ + seq![t[0]] + replace_all(t.drop_first(), from@, to@)));
            }
            out.append(to);
            out.append(s.substring_char(i, i + 1));
            i += 1;
        }
        assert(s@.skip(n as int) =~= Seq::<char>::empty());
        out.append(to);
        return out;
    }
    let mut run: usize = 0;
    let mut i: usize = 0;
    assert(s@.skip(0) =~= s@);
    assert(out@ + replace_all(s@, from@, to@) =~= replace_all(s@, from@, to@));
    while i < n
        invariant
            n == sc@.len(),
            sc@ == s@,
            fc@ == from@,
            fc@.len() > 0,
            run <= i <= n,
            no_occurrence_in(s@, from@, run as int, i as int),
            out@ + replace_all(s@.skip(run as int), from@, to@) == replace_all(s@, from@, to@),
        decreases n - i,
    {
        if matches_at(&sc, &fc, i) {
            proof {
                lemma_replace_all_skips_gap(s@, from@, to@, run as int, i as int);
                let t = s@.skip(i as int);
                assert(t.subrange(0, from@.len() as int) =~= s@.subrange(
                    i as int,
                    i + from@.len(),
                ));
                assert(occurs_at(t, from@, 0));
                assert(t.skip(from@.len() as int) =~= s@.skip(i + from@.len()));
                assert((out@ + s@.subrange(run as int, i as int) + to@) + replace_all(
                    s@.skip(i + from@.len()),
                    from@,
                    to@,
                ) =~= out@ + (s@.subrange(run as int, i as int) + (to@ + replace_all(
                    t.skip(from@.len() as int),
                    from@,
                    to@,
                ))));
            }
            out.append(s.substring_char(run, i));
            out.append(to);
            i += fc.len();
            run = i;
        } else {
            i += 1;
        }
    }
    proof {
        lemma_replace_all_skips_gap(s@, from@, to@, run as int, n as int);
        assert(s@.skip(n as int) =~= Seq::<char>::empty());
        assert(out@ + s@.subrange(run as int, n as int) =~= out@ + (s@.subrange(
            run as int,
            n as int,
        ) + Seq::<char>::empty()));
    }
    out.append(s.substring_char(run, n));
    out
}

/// Whether `a` sorts strictly before `b`.
pub fn str_lt(a: &str, b: &str) -> (r: bool)
    ensures
        r == lex_lt(a@, b@),
{
    let ac = chars_of(a);
    let bc = chars_of(b);
    let mut i: usize = 0;
    assert(a@.skip(0) =~= a@);
    assert(b@.skip(0) =~= b@);
    while i < ac.len() && i < bc.len()
        invariant
            i <= ac.len(),
            i <= bc.len(),
            ac@ == a@,
            bc@ == b@,
            lex_lt(a@, b@) == lex_lt(a@.skip(i as int), b@.skip(i as int)),
        decreases ac.len() - i,
    {
        proof {
            let x = a@.skip(i as int);
            let y = b@.skip(i as int);
            assert(x[0] == a@[i as int]);
            assert(y[0] == b@[i as int]);
            assert(x.drop_first() =~= a@.skip(i + 1));
            assert(y.drop_first() =~= b@.skip(i + 1));
        }
        if ac[i] != bc[i] {
            return ac[i] < bc[i];
        }
        i += 1;
    }
    i < bc.len()
}

} // verus!
