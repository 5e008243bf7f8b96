//! The variable table and the two substitution passes driven by it.
//!
//! A `VarTable` is an ordered mapping of unique string keys to string values,
//! kept sorted so that longer values come first. Rendering is one scan of
//! the content that expands each `{{ key }}` placeholder to its value,
//! never rescanning what it inserted; templating is the inverse, one
//! replacement pass per pair. Substituting longer values first keeps one
//! value that is a substring of another from corrupting a freshly written
//! placeholder.

use vstd::prelude::*;

use crate::text::{
    close_marker, is_prefix, match_at, matches_at, open_marker, placeholder, placeholder_of,
    replace_all, replaced, str_eq,
};

verus! {

/// One variable: a key and the literal value it stands for.
pub struct VarPair {
    pub key: String,
    pub value: String,
}

impl View for VarPair {
    type V = (Seq<char>, Seq<char>);

    open spec fn view(&self) -> (Seq<char>, Seq<char>) {
        (self.key@, self.value@)
    }
}

/// Some pair in `ps` carries the key `k`.
pub open spec fn contains_key(ps: Seq<(Seq<char>, Seq<char>)>, k: Seq<char>) -> bool {
    exists|i: int| 0 <= i < ps.len() && ps[i].0 == k
}

/// The position where a value of length `vlen` belongs: just before the
/// first pair whose value is strictly shorter.
pub open spec fn insert_pos(ps: Seq<(Seq<char>, Seq<char>)>, vlen: nat) -> int
    decreases ps.len(),
{
    if ps.len() == 0 {
        0
    } else if ps[0].1.len() < vlen {
        0
    } else {
        1 + insert_pos(ps.drop_first(), vlen)
    }
}

proof fn lemma_insert_pos(ps: Seq<(Seq<char>, Seq<char>)>, vlen: nat)
    ensures
        0 <= insert_pos(ps, vlen) <= ps.len(),
        forall|q: int| 0 <= q < insert_pos(ps, vlen) ==> ps[q].1.len() >= vlen,
        insert_pos(ps, vlen) < ps.len() ==> ps[insert_pos(ps, vlen)].1.len() < vlen,
    decreases ps.len(),
{
    if ps.len() == 0 {
    } else if ps[0].1.len() < vlen {
    } else {
        lemma_insert_pos(ps.drop_first(), vlen);
        assert(forall|q: int|
            1 <= q < insert_pos(ps, vlen) ==> ps[q] == ps.drop_first()[q - 1]);
    }
}

/// The ordered variable table: unique keys, longer values first.
pub struct VarTable {
    pairs: Vec<VarPair>,
}

impl View for VarTable {
    type V = Seq<(Seq<char>, Seq<char>)>;

    closed spec fn view(&self) -> Seq<(Seq<char>, Seq<char>)> {
        self.pairs@.map_values(|p: VarPair| p@)
    }
}

impl VarTable {
    /// Values never grow along the table, and keys never repeat.
    pub open spec fn wf(&self) -> bool {
        &&& forall|i: int, j: int|
            0 <= i < j < self@.len() ==> self@[i].1.len() >= self@[j].1.len()
        &&& forall|i: int, j: int| 0 <= i < j < self@.len() ==> self@[i].0 != self@[j].0
    }

    /// An empty table.
    pub fn new() -> (res: VarTable)
        ensures
            res.wf(),
            res@ == Seq::<(Seq<char>, Seq<char>)>::empty(),
    {
        let res = VarTable { pairs: Vec::new() };
        proof {
            assert(res@ =~= Seq::<(Seq<char>, Seq<char>)>::empty());
        }
        res
    }

    /// How many variables the table holds.
    pub fn len(&self) -> (n: usize)
        ensures
            n == self@.len(),
    {
        self.pairs.len()
    }

    /// Whether some pair carries this key.
    pub fn has_key(&self, key: &str) -> (r: bool)
        ensures
            r == contains_key(self@, key@),
    {
        let n = self.pairs.len();
        let mut i: usize = 0;
        while i < n
            invariant
                0 <= i <= n,
                n == self@.len(),
                forall|q: int| 0 <= q < i ==> self@[q].0 != key@,
            decreases n - i,
        {
            if str_eq(self.pairs[i].key.as_str(), key) {
                assert(self@[i as int].0 == key@);
                return true;
            }
            i += 1;
        }
        false
    }

    /// Adds a variable, keeping the table sorted longest-value-first; a key
    /// that is already present leaves the table unchanged.
    pub fn insert(&mut self, key: String, value: String) -> (added: bool)
        requires
            old(self).wf(),
        ensures
            final(self).wf(),
            added == !contains_key(old(self)@, key@),
            added ==> final(self)@ == old(self)@.insert(
                insert_pos(old(self)@, value@.len()),
                (key@, value@),
            ),
            !added ==> final(self)@ == old(self)@,
    {
        if self.has_key(key.as_str()) {
            return false;
        }
        let vlen = value.as_str().unicode_len();
        let n = self.pairs.len();
        let mut i: usize = 0;
        while i < n && self.pairs[i].value.as_str().unicode_len() >= vlen
            invariant
                0 <= i <= n,
                n == self@.len(),
                vlen == value@.len(),
                forall|q: int| 0 <= q < i ==> self@[q].1.len() >= vlen,
            decreases n - i,
        {
            i += 1;
        }
        proof {
            lemma_insert_pos(self@, value@.len());
            let p = insert_pos(self@, value@.len());
            assert(i == p) by {
                if i < p {
                    assert(self@[i as int].1.len() >= vlen);
                    assert(false);
                } else if p < i {
                    assert(self@[p].1.len() >= vlen);
                    assert(false);
                }
            }
        }
        let ghost before = self@;
        let ghost pos = i as int;
        self.pairs.insert(i, VarPair { key, value });
        proof {
            assert(self@ =~= before.insert(pos, (key@, value@)));
            assert forall|a: int, b: int|
                0 <= a < b < self@.len() implies self@[a].1.len() >= self@[b].1.len() by {
                lemma_insert_pos(before, value@.len());
            }
            assert forall|a: int, b: int|
                0 <= a < b < self@.len() implies self@[a].0 != self@[b].0 by {
                if a != pos && b != pos {
                    let a0 = if a < pos { a } else { a - 1 };
                    let b0 = if b < pos { b } else { b - 1 };
                    assert(self@[a] == before[a0]);
                    assert(self@[b] == before[b0]);
                } else if a == pos {
                    assert(self@[b] == before[b - 1]);
                    assert(!contains_key(before, key@));
                } else {
                    assert(self@[a] == before[a]);
                    assert(!contains_key(before, key@));
                }
            }
        }
        true
    }

    /// The key of the pair at a position.
    pub fn key_at(&self, i: usize) -> (res: &String)
        requires
            i < self@.len(),
        ensures
            res@ == self@[i as int].0,
    {
        &self.pairs[i].key
    }

    /// The value of the pair at a position.
    pub fn value_at(&self, i: usize) -> (res: &String)
        requires
            i < self@.len(),
        ensures
            res@ == self@[i as int].1,
    {
        &self.pairs[i].value
    }

    /// The value stored under a key, if any.
    pub fn get(&self, key: &str) -> (res: Option<&String>)
        ensures
            match res {
                Some(v) => lookup_value(self@, key@) == Some(v@),
                None => lookup_value(self@, key@) is None,
            },
    {
        let n = self.pairs.len();
        let mut i: usize = 0;
        while i < n
            invariant
                0 <= i <= n,
                n == self@.len(),
                forall|q: int| 0 <= q < i ==> self@[q].0 != key@,
            decreases n - i,
        {
            if str_eq(self.pairs[i].key.as_str(), key) {
                proof {
                    assert(self@[i as int].0 == key@);
                    lemma_lookup_first(self@, key@, i as int);
                }
                return Some(&self.pairs[i].value);
            }
            i += 1;
        }
        proof {
            lemma_lookup_absent(self@, key@);
        }
        None
    }
}

/// The value of the first pair carrying key `k`, if any pair does.
pub open spec fn lookup_value(
    ps: Seq<(Seq<char>, Seq<char>)>,
    k: Seq<char>,
) -> Option<Seq<char>>
    decreases ps.len(),
{
    if ps.len() == 0 {
        None
    } else if ps[0].0 == k {
        Some(ps[0].1)
    } else {
        lookup_value(ps.drop_first(), k)
    }
}

/// Looking a key up finds the first pair that carries it.
pub proof fn lemma_lookup_first(ps: Seq<(Seq<char>, Seq<char>)>, k: Seq<char>, i: int)
    requires
        0 <= i < ps.len(),
        ps[i].0 == k,
        forall|q: int| 0 <= q < i ==> ps[q].0 != k,
    ensures
        lookup_value(ps, k) == Some(ps[i].1),
    decreases i,
{
    if i > 0 {
        assert(forall|q: int| 0 <= q < i - 1 ==> ps.drop_first()[q] == ps[q + 1]);
        lemma_lookup_first(ps.drop_first(), k, i - 1);
    }
}

proof fn lemma_lookup_absent(ps: Seq<(Seq<char>, Seq<char>)>, k: Seq<char>)
    requires
        forall|q: int| 0 <= q < ps.len() ==> ps[q].0 != k,
    ensures
        lookup_value(ps, k) is None,
    decreases ps.len(),
{
    if ps.len() > 0 {
        assert(forall|q: int| 0 <= q < ps.len() - 1 ==> ps.drop_first()[q] == ps[q + 1]);
        lemma_lookup_absent(ps.drop_first(), k);
    }
}

/// The meaning of templating: one replacement pass per pair, in table order
/// from `k` on, turning each literal value into its placeholder.
pub open spec fn template_from(
    s: Seq<char>,
    ps: Seq<(Seq<char>, Seq<char>)>,
    k: int,
) -> Seq<char>
    decreases ps.len() - k,
{
    if !(0 <= k < ps.len()) {
        s
    } else {
        template_from(replaced(s, ps[k].1, placeholder(ps[k].0)), ps, k + 1)
    }
}

/// The position of the first closing marker ` }}` in `s`, or a negative
/// value when there is none.
pub open spec fn find_close(s: Seq<char>) -> int
    decreases s.len(),
{
    if s.len() < 3 {
        -1
    } else if s.subrange(0, 3) == close_marker() {
        0
    } else if find_close(s.skip(1)) < 0 {
        -1
    } else {
        1 + find_close(s.skip(1))
    }
}

/// What `find_close` finds is the first closing marker, if any.
pub proof fn lemma_find_close_props(s: Seq<char>)
    ensures
        find_close(s) >= 0 ==> find_close(s) + 3 <= s.len() && match_at(
            s,
            close_marker(),
            find_close(s),
        ) && forall|q: int| 0 <= q < find_close(s) ==> !match_at(s, close_marker(), q),
        find_close(s) < 0 ==> forall|q: int| !match_at(s, close_marker(), q),
    decreases s.len(),
{
    if s.len() < 3 {
    } else if s.subrange(0, 3) == close_marker() {
    } else {
        lemma_find_close_props(s.skip(1));
        assert(!match_at(s, close_marker(), 0));
        let r1 = find_close(s.skip(1));
        if r1 >= 0 {
            assert(match_at(s, close_marker(), r1 + 1)) by {
                assert(s.subrange(r1 + 1, r1 + 4) =~= s.skip(1).subrange(r1, r1 + 3));
            }
            assert forall|q: int| 0 <= q < r1 + 1 implies !match_at(s, close_marker(), q) by {
                if q > 0 && match_at(s, close_marker(), q) {
                    assert(s.skip(1).subrange(q - 1, q + 2) =~= s.subrange(q, q + 3));
                    assert(match_at(s.skip(1), close_marker(), q - 1));
                }
            }
        } else {
            assert forall|q: int| !match_at(s, close_marker(), q) by {
                if 0 < q && match_at(s, close_marker(), q) {
                    assert(s.skip(1).subrange(q - 1, q + 2) =~= s.subrange(q, q + 3));
                    assert(match_at(s.skip(1), close_marker(), q - 1));
                }
            }
        }
    }
}

/// The meaning of rendering: ONE left-to-right scan of the content. At
/// `{{ ` the scanner reads the key up to the first ` }}`; a placeholder
/// whose key the table holds is replaced by that key's value, which is
/// never rescanned, and the scan continues after the placeholder. A
/// placeholder with an unknown key, or an opening that never closes, is
/// passed through character by character — unknown keys are left
/// untouched, never an error.
pub open spec fn render_once(s: Seq<char>, ps: Seq<(Seq<char>, Seq<char>)>) -> Seq<char>
    decreases s.len(),
{
    if s.len() == 0 {
        s
    } else if !is_prefix(open_marker(), s) {
        seq![s[0]] + render_once(s.skip(1), ps)
    } else {
        let body = s.skip(3);
        let e = find_close(body);
        if 0 <= e && e + 3 <= body.len() && lookup_value(ps, body.subrange(0, e)) is Some {
            lookup_value(ps, body.subrange(0, e))->Some_0 + render_once(body.skip(e + 3), ps)
        } else {
            seq![s[0]] + render_once(s.skip(1), ps)
        }
    }
}

/// Finds the first closing marker at or after `start`, if any.
fn scan_close(s: &str, start: usize) -> (res: Option<usize>)
    requires
        start <= s@.len(),
    ensures
        match res {
            Some(j) => start <= j && j + 3 <= s@.len() && match_at(s@, close_marker(), j as int)
                && forall|q: int| start <= q < j ==> !match_at(s@, close_marker(), q),
            None => forall|q: int| q >= start ==> !match_at(s@, close_marker(), q),
        },
{
    proof {
        reveal_strlit(" }}");
        assert(" }}"@ =~= close_marker());
    }
    let n = s.unicode_len();
    let mut j = start;
    while n - j >= 3
        invariant
            start <= j <= n,
            n == s@.len(),
            forall|q: int| start <= q < j ==> !match_at(s@, close_marker(), q),
            " }}"@ == close_marker(),
        decreases n - j,
    {
        if matches_at(s, " }}", j) {
            return Some(j);
        }
        j += 1;
    }
    proof {
        assert forall|q: int| q >= start implies !match_at(s@, close_marker(), q) by {
            if q >= j {
                assert(q + 3 > s@.len());
            }
        }
    }
    None
}

/// Expands every `{{ key }}` placeholder in `content` whose key the table
/// holds, in one left-to-right scan: each placeholder of the original
/// content is replaced once, and inserted values are never rescanned.
/// Placeholders must be spelled exactly `{{ key }}`, with one space on
/// each side of the key; unknown keys are left untouched.
pub fn render_text(content: &str, vars: &VarTable) -> (res: String)
    ensures
        res@ == render_once(content@, vars@),
{
    let n = content.unicode_len();
    let mut out = String::new();
    let mut i: usize = 0;
    proof {
        reveal_strlit("{{ ");
        assert("{{ "@ =~= open_marker());
        assert(content@.skip(0) =~= content@);
    }
    while i < n
        invariant
            0 <= i <= n,
            n == content@.len(),
            "{{ "@ == open_marker(),
            out@ + render_once(content@.skip(i as int), vars@) == render_once(
                content@,
                vars@,
            ),
        decreases n - i,
    {
        let ghost tail = content@.skip(i as int);
        let mut substituted = false;
        if n - i >= 3 && matches_at(content, "{{ ", i) {
            proof {
                assert(is_prefix(open_marker(), tail)) by {
                    assert(tail.subrange(0, 3) =~= content@.subrange(i as int, i + 3));
                }
                assert(tail.skip(3) =~= content@.skip(i + 3));
                lemma_find_close_props(tail.skip(3));
            }
            if let Some(close) = scan_close(content, i + 3) {
                proof {
                    let body = tail.skip(3);
                    let d = close - (i + 3);
                    assert(match_at(body, close_marker(), d as int)) by {
                        assert(body.subrange(d as int, d + 3) =~= content@.subrange(
                            close as int,
                            close + 3,
                        ));
                    }
                    assert forall|q: int| 0 <= q < d implies !match_at(
                        body,
                        close_marker(),
                        q,
                    ) by {
                        if match_at(body, close_marker(), q) {
                            assert(content@.subrange(i + 3 + q, i + 3 + q + 3)
                                =~= body.subrange(q, q + 3));
                            assert(match_at(content@, close_marker(), i + 3 + q));
                        }
                    }
                    assert(find_close(body) == d as int);
                    assert(body.subrange(0, d as int) =~= content@.subrange(
                        i + 3,
                        close as int,
                    ));
                }
                let key = content.substring_char(i + 3, close);
                if let Some(v) = vars.get(key) {
                    out.append(v.as_str());
                    proof {
                        let body = tail.skip(3);
                        let d = close - (i + 3);
                        assert(render_once(tail, vars@) == v@ + render_once(
                            body.skip(d as int + 3),
                            vars@,
                        ));
                        assert(body.skip(d as int + 3) =~= content@.skip(close + 3));
                    }
                    i = close + 3;
                    substituted = true;
                }
            }
        }
        if !substituted {
            proof {
                // the spec scanner steps one character on every path here
                if tail.len() >= 3 && is_prefix(open_marker(), tail) {
                    assert(match_at(content@, open_marker(), i as int)) by {
                        assert(content@.subrange(i as int, i + 3) =~= tail.subrange(0, 3));
                    }
                    let body = tail.skip(3);
                    assert(body =~= content@.skip(i + 3));
                    if find_close(body) >= 0 {
                        let d = find_close(body);
                        lemma_find_close_props(body);
                        assert(match_at(content@, close_marker(), i + 3 + d)) by {
                            assert(content@.subrange(i + 3 + d, i + 3 + d + 3)
                                =~= body.subrange(d, d + 3));
                        }
                    }
                }
                assert(render_once(tail, vars@) == seq![tail[0]] + render_once(
                    tail.skip(1),
                    vars@,
                ));
                assert(seq![tail[0]] =~= content@.subrange(i as int, i + 1));
                assert(tail.skip(1) =~= content@.skip(i + 1));
            }
            let c = content.substring_char(i, i + 1);
            out.append(c);
            i += 1;
        }
    }
    proof {
        assert(content@.skip(n as int) =~= Seq::<char>::empty());
        assert(out@ =~= out@ + Seq::<char>::empty());
    }
    out
}

/// Replaces every literal occurrence of a variable's value in `content`
/// with its `{{ key }}` placeholder, longer values first. A pair whose
/// value is empty never matches and substitutes nothing.
pub fn template_text(content: &str, vars: &VarTable) -> (res: String)
    ensures
        res@ == template_from(content@, vars@, 0),
{
    let n = vars.len();
    let mut k: usize = 0;
    let mut cur = content.to_owned();
    while k < n
        invariant
            0 <= k <= n,
            n == vars@.len(),
            template_from(content@, vars@, 0) == template_from(cur@, vars@, k as int),
        decreases n - k,
    {
        let ph = placeholder_of(vars.key_at(k).as_str());
        cur = replace_all(cur.as_str(), vars.value_at(k).as_str(), ph.as_str());
        k += 1;
    }
    cur
}

} // verus!
