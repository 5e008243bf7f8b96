//! Text substitution: the scan-and-replace primitive that rendering,
//! templating and SQL-value escaping are built on.
//!
//! `replaced` is the mathematical meaning of a single left-to-right,
//! non-overlapping replacement pass; `replace_all` is its executable form.
//! A placeholder for a variable key spells `{{ key }}`.

use vstd::prelude::*;

verus! {

/// The pattern occurs in `s` starting at position `i`.
pub open spec fn match_at(s: Seq<char>, pat: Seq<char>, i: int) -> bool {
    0 <= i && i + pat.len() <= s.len() && s.subrange(i, i + pat.len() as int) == pat
}

/// The pattern occurs somewhere in `s`.
pub open spec fn has_sub(s: Seq<char>, pat: Seq<char>) -> bool {
    exists|i: int| match_at(s, pat, i)
}

/// One left-to-right pass over `s`, replacing each non-overlapping
/// occurrence of `pat` with `rep`. An empty pattern replaces nothing.
pub open spec fn replaced(s: Seq<char>, pat: Seq<char>, rep: Seq<char>) -> Seq<char>
    decreases s.len(),
{
    if pat.len() == 0 || s.len() < pat.len() {
        s
    } else if s.subrange(0, pat.len() as int) == pat {
        rep + replaced(s.skip(pat.len() as int), pat, rep)
    } else {
        seq![s[0]] + replaced(s.skip(1), pat, rep)
    }
}

/// No curly brace occurs in `s`.
pub open spec fn brace_free(s: Seq<char>) -> bool {
    forall|i: int| 0 <= i < s.len() ==> s[i] != '{' && s[i] != '}'
}

/// No opening curly brace occurs in `s`.
pub open spec fn no_open_brace(s: Seq<char>) -> bool {
    forall|i: int| 0 <= i < s.len() ==> s[i] != '{'
}

/// `p` is a prefix of `s`.
pub open spec fn is_prefix(p: Seq<char>, s: Seq<char>) -> bool {
    p.len() <= s.len() && s.subrange(0, p.len() as int) == p
}

/// The three characters that open a placeholder.
pub open spec fn open_marker() -> Seq<char> {
    seq!['{', '{', ' ']
}

/// The three characters that close a placeholder.
pub open spec fn close_marker() -> Seq<char> {
    seq![' ', '}', '}']
}

/// The placeholder text that stands for the variable `key`. Placeholders
/// are recognized and emitted in exactly this spelling — one space on
/// each side of the key, nothing looser.
pub open spec fn placeholder(key: Seq<char>) -> Seq<char> {
    open_marker() + key + close_marker()
}

/// Whether `pat` occurs in `s` at position `i`, decided by character.
pub fn matches_at(s: &str, pat: &str, i: usize) -> (r: bool)
    requires
        i + pat@.len() <= s@.len(),
        i + pat@.len() <= usize::MAX,
    ensures
        r == match_at(s@, pat@, i as int),
{
    let m = pat.unicode_len();
    let mut j: usize = 0;
    while j < m
        invariant
            0 <= j <= m,
            m == pat@.len(),
            i + m <= s@.len(),
            i + m <= usize::MAX,
            forall|q: int| 0 <= q < j ==> s@[i + q] == pat@[q],
        decreases m - j,
    {
        if s.get_char(i + j) != pat.get_char(j) {
            assert(s@.subrange(i as int, i + m as int)[j as int] != pat@[j as int]);
            return false;
        }
        j += 1;
    }
    assert(s@.subrange(i as int, i + m as int) =~= pat@);
    true
}

/// Replaces every occurrence of `pat` in `s` with `rep`, scanning left to
/// right without rescanning replaced text, exactly as `replaced` describes.
pub fn replace_all(s: &str, pat: &str, rep: &str) -> (res: String)
    ensures
        res@ == replaced(s@, pat@, rep@),
{
    let n = s.unicode_len();
    let m = pat.unicode_len();
    if m == 0 {
        return s.to_owned();
    }
    let mut out = String::new();
    let mut i: usize = 0;
    proof {
        assert(s@.skip(0) =~= s@);
    }
    while i < n
        invariant
            0 <= i <= n,
            n == s@.len(),
            m == pat@.len(),
            m > 0,
            out@ + replaced(s@.skip(i as int), pat@, rep@) == replaced(s@, pat@, rep@),
        decreases n - i,
    {
        let ghost tail = s@.skip(i as int);
        if n - i >= m && matches_at(s, pat, i) {
            proof {
                assert(tail.subrange(0, m as int) =~= s@.subrange(i as int, i + m as int));
                assert(tail.skip(m as int) =~= s@.skip(i + m as int));
                assert(replaced(tail, pat@, rep@) == rep@ + replaced(
                    s@.skip(i + m as int),
                    pat@,
                    rep@,
                ));
            }
            out.append(rep);
            i += m;
            proof {
                assert(out@ + replaced(s@.skip(i as int), pat@, rep@) == replaced(
                    s@,
                    pat@,
                    rep@,
                ));
            }
        } else {
            proof {
                if tail.len() >= m {
                    assert(!match_at(s@, pat@, i as int));
                    assert(tail.subrange(0, m as int) =~= s@.subrange(i as int, i + m as int));
                    assert(replaced(tail, pat@, rep@) == seq![tail[0]] + replaced(
                        tail.skip(1),
                        pat@,
                        rep@,
                    ));
                } else {
                    assert(replaced(tail, pat@, rep@) == tail);
                    assert(tail =~= seq![tail[0]] + tail.skip(1));
                    assert(replaced(tail.skip(1), pat@, rep@) == tail.skip(1));
                }
                assert(tail.skip(1) =~= s@.skip(i + 1));
                assert(seq![tail[0]] =~= s@.subrange(i as int, i + 1));
            }
            let c = s.substring_char(i, i + 1);
            out.append(c);
            i += 1;
        }
    }
    proof {
        assert(s@.skip(n as int) =~= Seq::<char>::empty());
        assert(replaced(s@.skip(n as int), pat@, rep@) =~= Seq::<char>::empty());
        assert(out@ =~= out@ + Seq::<char>::empty());
    }
    out
}

/// Whether two string slices hold the same characters.
pub fn str_eq(a: &str, b: &str) -> (r: bool)
    ensures
        r == (a@ == b@),
{
    let n = a.unicode_len();
    if n != b.unicode_len() {
        return false;
    }
    let mut i: usize = 0;
    while i < n
        invariant
            0 <= i <= n,
            n == a@.len() == b@.len(),
            forall|q: int| 0 <= q < i ==> a@[q] == b@[q],
        decreases n - i,
    {
        if a.get_char(i) != b.get_char(i) {
            return false;
        }
        i += 1;
    }
    proof {
        assert(a@ =~= b@);
    }
    true
}

/// Builds the placeholder text `{{ key }}` for a variable key.
pub fn placeholder_of(key: &str) -> (res: String)
    ensures
        res@ == placeholder(key@),
{
    let mut out = String::from_str("{{ ");
    out.append(key);
    out.append(" }}");
    proof {
        reveal_strlit("{{ ");
        reveal_strlit(" }}");
        assert("{{ "@ =~= seq!['{', '{', ' ']);
        assert(" }}"@ =~= seq![' ', '}', '}']);
        assert(out@ =~= placeholder(key@));
    }
    out
}

/// Doubles every single quote in `s`, the escaping SQL string literals need.
pub fn escape_sql_quotes(s: &str) -> (res: String)
    ensures
        res@ == replaced(s@, "'"@, "''"@),
{
    replace_all(s, "'", "''")
}

} // verus!
