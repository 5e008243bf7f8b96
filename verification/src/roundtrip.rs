//! The round-trip law: rendering undoes templating.
//!
//! Templating rewrites literal values into `{{ key }}` placeholders one
//! pair at a time, longer values first; rendering is one scan that strips
//! each placeholder of the result exactly once. Under natural
//! well-formedness of the table — keys distinct and brace-free, values
//! brace-free, no value occurring inside another pair's placeholder text —
//! and for content without opening braces, rendering the templated content
//! is the identity. Content that already holds `{{`, or values that
//! collide with placeholder text, genuinely break the law (templating
//! `"{{ u }}"` itself, say, renders back to the key's value), so those
//! inputs are excluded here.
//!
//! The proof tracks the shape of every intermediate string: an
//! interleaving of brace-free stretches and placeholder blocks of the
//! pairs substituted so far. Each templating step preserves that shape and
//! leaves the rendering of the whole unchanged, because the scan turns the
//! new blocks back into exactly the value they replaced.

use vstd::prelude::*;

use crate::text::{
    brace_free, close_marker, has_sub, is_prefix, match_at, no_open_brace, open_marker,
    placeholder, replaced,
};
use crate::vars::{
    find_close, lemma_find_close_props, lemma_lookup_first, lookup_value, render_once,
    template_from,
};

verus! {

/// The variable table is fit for round-tripping: keys and values hold no
/// braces, keys are pairwise distinct, and no value occurs inside the
/// placeholder text of a different pair.
pub open spec fn wf_pairs(ps: Seq<(Seq<char>, Seq<char>)>) -> bool {
    &&& forall|j: int| 0 <= j < ps.len() ==> brace_free(#[trigger] ps[j].0)
    &&& forall|j: int| 0 <= j < ps.len() ==> brace_free(#[trigger] ps[j].1)
    &&& forall|i: int, j: int|
        0 <= i < ps.len() && 0 <= j < ps.len() && i != j ==> ps[i].0 != ps[j].0
    &&& forall|i: int, j: int|
        0 <= i < ps.len() && 0 <= j < ps.len() && i != j ==> !has_sub(
            placeholder(ps[i].0),
            ps[j].1,
        )
}

/// `s` interleaves brace-free characters with placeholder blocks of the
/// first `k` pairs.
pub open spec fn shaped(s: Seq<char>, ps: Seq<(Seq<char>, Seq<char>)>, k: int) -> bool
    decreases s.len(),
{
    if s.len() == 0 {
        true
    } else if s[0] != '{' {
        shaped(s.skip(1), ps, k)
    } else {
        exists|j: int|
            0 <= j < k <= ps.len() && #[trigger] is_prefix(placeholder(ps[j].0), s) && shaped(
                s.skip(placeholder(ps[j].0).len() as int),
                ps,
                k,
            )
    }
}

/// The characters of a placeholder, spelled out position by position.
proof fn lemma_placeholder_chars(k: Seq<char>)
    ensures
        placeholder(k).len() == k.len() + 6,
        placeholder(k)[0] == '{',
        placeholder(k)[1] == '{',
        placeholder(k)[2] == ' ',
        forall|t: int| 0 <= t < k.len() ==> placeholder(k)[3 + t] == k[t],
        placeholder(k)[k.len() as int + 3] == ' ',
        placeholder(k)[k.len() as int + 4] == '}',
        placeholder(k)[k.len() as int + 5] == '}',
{
    let ph = placeholder(k);
    assert(ph.len() == k.len() + 6);
    assert(forall|t: int| 0 <= t < k.len() ==> ph[3 + t] == k[t]);
}

/// A match shifted across a dropped prefix is still a match.
proof fn lemma_match_shift(s: Seq<char>, pat: Seq<char>, d: int, q: int)
    requires
        0 <= d <= q,
        d <= s.len(),
    ensures
        match_at(s, pat, q) == match_at(s.skip(d), pat, q - d),
{
    if q + pat.len() <= s.len() {
        assert(s.skip(d).subrange(q - d, q - d + pat.len() as int) =~= s.subrange(
            q,
            q + pat.len() as int,
        ));
    }
}

/// A string without opening braces is shaped, whatever `k`.
proof fn lemma_chars_shaped(s: Seq<char>, ps: Seq<(Seq<char>, Seq<char>)>, k: int)
    requires
        no_open_brace(s),
    ensures
        shaped(s, ps, k),
    decreases s.len(),
{
    if s.len() > 0 {
        lemma_chars_shaped(s.skip(1), ps, k);
    }
}

/// Replacement distributes over a concatenation whose left part the pattern
/// never touches.
proof fn lemma_replaced_concat(x: Seq<char>, y: Seq<char>, pat: Seq<char>, rep: Seq<char>)
    requires
        pat.len() > 0,
        forall|q: int| 0 <= q < x.len() ==> !match_at(x + y, pat, q),
    ensures
        replaced(x + y, pat, rep) == x + replaced(y, pat, rep),
    decreases x.len(),
{
    let s = x + y;
    if x.len() == 0 {
        assert(s =~= y);
        assert(x + replaced(y, pat, rep) =~= replaced(y, pat, rep));
    } else if s.len() < pat.len() {
        assert(replaced(s, pat, rep) == s);
        assert(y.len() < pat.len());
        assert(replaced(y, pat, rep) == y);
    } else {
        assert(!match_at(s, pat, 0));
        assert(s.subrange(0, pat.len() as int) != pat);
        let x1 = x.skip(1);
        assert(s.skip(1) =~= x1 + y);
        assert forall|q: int| 0 <= q < x1.len() implies !match_at(x1 + y, pat, q) by {
            lemma_match_shift(s, pat, 1, q + 1);
            assert(!match_at(s, pat, q + 1));
        }
        lemma_replaced_concat(x1, y, pat, rep);
        assert(replaced(s, pat, rep) == seq![s[0]] + replaced(s.skip(1), pat, rep));
        assert(seq![s[0]] + (x1 + replaced(y, pat, rep)) =~= x + replaced(y, pat, rep));
    }
}

/// Dropping brace-free characters off the front keeps a string shaped.
proof fn lemma_shaped_skip_chars(s: Seq<char>, ps: Seq<(Seq<char>, Seq<char>)>, k: int, m: int)
    requires
        shaped(s, ps, k),
        0 <= m <= s.len(),
        forall|i: int| 0 <= i < m ==> s[i] != '{',
    ensures
        shaped(s.skip(m), ps, k),
    decreases m,
{
    if m == 0 {
        assert(s.skip(0) =~= s);
    } else {
        assert(shaped(s.skip(1), ps, k));
        assert(forall|i: int| 0 <= i < m - 1 ==> s.skip(1)[i] != '{');
        lemma_shaped_skip_chars(s.skip(1), ps, k, m - 1);
        assert(s.skip(1).skip(m - 1) =~= s.skip(m));
    }
}

/// A shape over the first `k` pairs is also a shape over more pairs.
proof fn lemma_shaped_mono(s: Seq<char>, ps: Seq<(Seq<char>, Seq<char>)>, k: int, k2: int)
    requires
        shaped(s, ps, k),
        k <= k2 <= ps.len(),
    ensures
        shaped(s, ps, k2),
    decreases s.len(),
{
    if s.len() == 0 {
    } else if s[0] != '{' {
        lemma_shaped_mono(s.skip(1), ps, k, k2);
    } else {
        let jp = choose|jp: int|
            0 <= jp < k <= ps.len() && #[trigger] is_prefix(placeholder(ps[jp].0), s) && shaped(
                s.skip(placeholder(ps[jp].0).len() as int),
                ps,
                k,
            );
        lemma_shaped_mono(s.skip(placeholder(ps[jp].0).len() as int), ps, k, k2);
        assert(0 <= jp < k2 <= ps.len() && is_prefix(placeholder(ps[jp].0), s) && shaped(
            s.skip(placeholder(ps[jp].0).len() as int),
            ps,
            k2,
        ));
    }
}

/// Substituting pair `k` of a table into a string shaped from the first `k`
/// pairs yields a string shaped from the first `k + 1`.
proof fn lemma_template_step_shaped(s: Seq<char>, ps: Seq<(Seq<char>, Seq<char>)>, k: int)
    requires
        wf_pairs(ps),
        shaped(s, ps, k),
        0 <= k < ps.len(),
    ensures
        shaped(replaced(s, ps[k].1, placeholder(ps[k].0)), ps, k + 1),
    decreases s.len(),
{
    let v = ps[k].1;
    let ph = placeholder(ps[k].0);
    let t = replaced(s, v, ph);
    lemma_placeholder_chars(ps[k].0);
    if v.len() == 0 || s.len() < v.len() {
        assert(t == s);
        lemma_shaped_mono(s, ps, k, k + 1);
    } else if s.subrange(0, v.len() as int) == v {
        let m = v.len() as int;
        assert(forall|i: int| 0 <= i < m ==> s[i] == s.subrange(0, m)[i]);
        lemma_shaped_skip_chars(s, ps, k, m);
        lemma_template_step_shaped(s.skip(m), ps, k);
        assert(t == ph + replaced(s.skip(m), v, ph));
        assert(is_prefix(ph, t)) by {
            assert(t.subrange(0, ph.len() as int) =~= ph);
        }
        assert(t.skip(ph.len() as int) =~= replaced(s.skip(m), v, ph));
        assert(0 <= k < k + 1 <= ps.len() && is_prefix(placeholder(ps[k].0), t) && shaped(
            t.skip(placeholder(ps[k].0).len() as int),
            ps,
            k + 1,
        ));
        assert(t[0] == '{');
    } else if s[0] != '{' {
        assert(t == seq![s[0]] + replaced(s.skip(1), v, ph));
        lemma_template_step_shaped(s.skip(1), ps, k);
        assert(t[0] == s[0]);
        assert(t.skip(1) =~= replaced(s.skip(1), v, ph));
    } else {
        let jp = choose|jp: int|
            0 <= jp < k <= ps.len() && #[trigger] is_prefix(placeholder(ps[jp].0), s) && shaped(
                s.skip(placeholder(ps[jp].0).len() as int),
                ps,
                k,
            );
        let php = placeholder(ps[jp].0);
        lemma_placeholder_chars(ps[jp].0);
        let bl = php.len() as int;
        let rest = s.skip(bl);
        assert(php + rest =~= s);
        assert forall|q: int| 0 <= q < bl implies !match_at(php + rest, ps[k].1, q) by {
            lemma_no_value_match_in_block(s, ps, k, jp, q);
        }
        lemma_replaced_concat(php, rest, v, ph);
        assert(t == php + replaced(rest, v, ph));
        lemma_template_step_shaped(rest, ps, k);
        assert(is_prefix(php, t)) by {
            assert(t.subrange(0, bl) =~= php);
        }
        assert(t.skip(bl) =~= replaced(rest, v, ph));
        assert(0 <= jp < k + 1 <= ps.len() && is_prefix(placeholder(ps[jp].0), t) && shaped(
            t.skip(placeholder(ps[jp].0).len() as int),
            ps,
            k + 1,
        ));
        assert(t[0] == php[0]);
    }
}

/// The value of pair `k` cannot match inside the leading placeholder block
/// of a shaped string.
proof fn lemma_no_value_match_in_block(
    s: Seq<char>,
    ps: Seq<(Seq<char>, Seq<char>)>,
    k: int,
    jp: int,
    q: int,
)
    requires
        wf_pairs(ps),
        0 <= jp < ps.len(),
        0 <= k < ps.len(),
        jp != k,
        is_prefix(placeholder(ps[jp].0), s),
        0 <= q < placeholder(ps[jp].0).len(),
        ps[k].1.len() > 0,
    ensures
        !match_at(s, ps[k].1, q),
{
    let v = ps[k].1;
    let php = placeholder(ps[jp].0);
    let bl = php.len() as int;
    lemma_placeholder_chars(ps[jp].0);
    if match_at(s, v, q) {
        assert(forall|t: int| 0 <= t < v.len() ==> s.subrange(q, q + v.len() as int)[t] == #[trigger] s[q + t]);
        assert(forall|t: int| 0 <= t < bl ==> s.subrange(0, bl)[t] == #[trigger] s[t]);
        if q + v.len() <= bl {
            assert(match_at(php, v, q)) by {
                assert(php.subrange(q, q + v.len() as int) =~= s.subrange(
                    q,
                    q + v.len() as int,
                ));
            }
            assert(!has_sub(placeholder(ps[jp].0), ps[k].1));
            assert(false);
        } else {
            // the match would cover the closing brace of the block
            assert(s[bl - 1] == php[bl - 1]);
            assert(php[bl - 1] == '}');
            assert(v[bl - 1 - q] == '}');
            assert(false);
        }
    }
}

/// The rendering scan copies a stretch without opening braces verbatim.
proof fn lemma_render_once_chars(x: Seq<char>, y: Seq<char>, ps: Seq<(Seq<char>, Seq<char>)>)
    requires
        forall|i: int| 0 <= i < x.len() ==> x[i] != '{',
    ensures
        render_once(x + y, ps) == x + render_once(y, ps),
    decreases x.len(),
{
    let s = x + y;
    if x.len() == 0 {
        assert(s =~= y);
        assert(x + render_once(y, ps) =~= render_once(y, ps));
    } else {
        assert(s[0] == x[0]);
        assert(!is_prefix(open_marker(), s)) by {
            if is_prefix(open_marker(), s) {
                assert(s.subrange(0, 3)[0] == s[0]);
                assert(open_marker()[0] == '{');
            }
        }
        assert(render_once(s, ps) == seq![s[0]] + render_once(s.skip(1), ps));
        assert(s.skip(1) =~= x.skip(1) + y);
        lemma_render_once_chars(x.skip(1), y, ps);
        assert(seq![s[0]] + (x.skip(1) + render_once(y, ps)) =~= x + render_once(y, ps));
    }
}

/// Rendering text without opening braces changes nothing.
proof fn lemma_render_once_id(s: Seq<char>, ps: Seq<(Seq<char>, Seq<char>)>)
    requires
        no_open_brace(s),
    ensures
        render_once(s, ps) == s,
{
    lemma_render_once_chars(s, Seq::empty(), ps);
    assert(s + Seq::<char>::empty() =~= s);
    assert(render_once(Seq::<char>::empty(), ps) == Seq::<char>::empty());
    assert(s + Seq::<char>::empty() =~= s);
}

/// In a brace-free key followed by a closing marker, the first closing
/// marker is the one after the key.
proof fn lemma_close_at_key_end(key: Seq<char>, tail: Seq<char>)
    requires
        brace_free(key),
    ensures
        find_close(key + close_marker() + tail) == key.len(),
{
    let s = key + close_marker() + tail;
    lemma_find_close_props(s);
    assert(close_marker()[0] == ' ' && close_marker()[1] == '}' && close_marker()[2] == '}');
    assert(match_at(s, close_marker(), key.len() as int)) by {
        assert(s.subrange(key.len() as int, key.len() as int + 3) =~= close_marker());
    }
    assert forall|q: int| 0 <= q < key.len() implies !match_at(s, close_marker(), q) by {
        if match_at(s, close_marker(), q) {
            assert(s.subrange(q, q + 3)[1] == s[q + 1]);
            assert(s[q + 1] == '}');
            if q + 1 < key.len() {
                assert(s[q + 1] == key[q + 1]);
            } else {
                assert(q + 1 == key.len());
                assert(s[q + 1] == close_marker()[0]);
            }
            assert(false);
        }
    }
    let r = find_close(s);
    if r < 0 {
        assert(!match_at(s, close_marker(), key.len() as int));
        assert(false);
    }
    if r < key.len() {
        assert(false);
    }
    if r > key.len() {
        assert(!match_at(s, close_marker(), key.len() as int));
        assert(false);
    }
}

/// The rendering scan strips one leading placeholder block: it reads the
/// key, finds it in the table, inserts the value and carries on after the
/// block.
proof fn lemma_render_once_block(ps: Seq<(Seq<char>, Seq<char>)>, j: int, rest: Seq<char>)
    requires
        wf_pairs(ps),
        0 <= j < ps.len(),
    ensures
        render_once(placeholder(ps[j].0) + rest, ps) == ps[j].1 + render_once(rest, ps),
{
    let key = ps[j].0;
    let s = placeholder(key) + rest;
    lemma_placeholder_chars(key);
    assert(is_prefix(open_marker(), s)) by {
        assert(s.subrange(0, 3) =~= open_marker());
    }
    let body = s.skip(3);
    assert(body =~= key + close_marker() + rest) by {
        assert(forall|t: int|
            0 <= t < body.len() ==> body[t] == #[trigger] s[3 + t]);
    }
    lemma_close_at_key_end(key, rest);
    let e = find_close(body);
    assert(e == key.len());
    assert(e + 3 <= body.len());
    assert(body.subrange(0, e) =~= key);
    assert(forall|q: int| 0 <= q < j ==> ps[q].0 != key);
    lemma_lookup_first(ps, key, j);
    assert(body.skip(e + 3) =~= rest);
}

/// One templating step never changes what the whole string renders to: the
/// scan turns each fresh block straight back into the value it replaced.
proof fn lemma_render_once_template_step(s: Seq<char>, ps: Seq<(Seq<char>, Seq<char>)>, k: int)
    requires
        wf_pairs(ps),
        shaped(s, ps, k),
        0 <= k < ps.len(),
    ensures
        render_once(replaced(s, ps[k].1, placeholder(ps[k].0)), ps) == render_once(s, ps),
    decreases s.len(),
{
    let v = ps[k].1;
    let ph = placeholder(ps[k].0);
    let t = replaced(s, v, ph);
    lemma_placeholder_chars(ps[k].0);
    if v.len() == 0 || s.len() < v.len() {
        assert(t == s);
    } else if s.subrange(0, v.len() as int) == v {
        let m = v.len() as int;
        assert(forall|i: int| 0 <= i < m ==> s[i] == s.subrange(0, m)[i]);
        lemma_shaped_skip_chars(s, ps, k, m);
        lemma_render_once_template_step(s.skip(m), ps, k);
        let tr = replaced(s.skip(m), v, ph);
        assert(t == ph + tr);
        lemma_render_once_block(ps, k, tr);
        assert(s =~= v + s.skip(m));
        lemma_render_once_chars(v, s.skip(m), ps);
    } else if s[0] != '{' {
        assert(t == seq![s[0]] + replaced(s.skip(1), v, ph));
        lemma_render_once_template_step(s.skip(1), ps, k);
        assert(forall|i: int| 0 <= i < 1 ==> seq![s[0]][i] != '{');
        lemma_render_once_chars(seq![s[0]], replaced(s.skip(1), v, ph), ps);
        lemma_render_once_chars(seq![s[0]], s.skip(1), ps);
        assert(seq![s[0]] + s.skip(1) =~= s);
    } else {
        let jp = choose|jp: int|
            0 <= jp < k <= ps.len() && #[trigger] is_prefix(placeholder(ps[jp].0), s) && shaped(
                s.skip(placeholder(ps[jp].0).len() as int),
                ps,
                k,
            );
        let php = placeholder(ps[jp].0);
        lemma_placeholder_chars(ps[jp].0);
        let bl = php.len() as int;
        let rest = s.skip(bl);
        assert(php + rest =~= s);
        assert forall|q: int| 0 <= q < bl implies !match_at(php + rest, ps[k].1, q) by {
            lemma_no_value_match_in_block(s, ps, k, jp, q);
        }
        lemma_replaced_concat(php, rest, v, ph);
        let tr = replaced(rest, v, ph);
        assert(t == php + tr);
        lemma_render_once_template_step(rest, ps, k);
        lemma_render_once_block(ps, jp, tr);
        lemma_render_once_block(ps, jp, rest);
    }
}

/// Rendering undoes every templating step from `k` on, on any string
/// shaped from the first `k` pairs.
proof fn lemma_round_trip_from(s: Seq<char>, ps: Seq<(Seq<char>, Seq<char>)>, k: int)
    requires
        wf_pairs(ps),
        shaped(s, ps, k),
        0 <= k <= ps.len(),
    ensures
        render_once(template_from(s, ps, k), ps) == render_once(s, ps),
    decreases ps.len() - k,
{
    if k == ps.len() {
    } else {
        let s1 = replaced(s, ps[k].1, placeholder(ps[k].0));
        lemma_template_step_shaped(s, ps, k);
        lemma_round_trip_from(s1, ps, k + 1);
        lemma_render_once_template_step(s, ps, k);
    }
}

/// THE ROUND-TRIP LAW. For every content string without an opening brace
/// and every well-formed variable table, rendering the templated content
/// with the same table gives the content back: substituting longer values
/// first, no replaced value can corrupt another pair's placeholder, and
/// the single rendering scan strips each inserted block exactly once.
pub proof fn lemma_render_inverts_template(c: Seq<char>, ps: Seq<(Seq<char>, Seq<char>)>)
    requires
        wf_pairs(ps),
        no_open_brace(c),
    ensures
        render_once(template_from(c, ps, 0), ps) == c,
{
    lemma_chars_shaped(c, ps, 0);
    lemma_round_trip_from(c, ps, 0);
    lemma_render_once_id(c, ps);
}

} // verus!
