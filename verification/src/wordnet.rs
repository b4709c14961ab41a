//! The storage and index engine: an in-memory store of synsets with
//! secondary indices for ILI, sense key, case-folded lemma forms and
//! per-version legacy identifiers, answering point lookups and bounded
//! ascending prefix scans.
use crate::keys::WNKey;
use crate::model::{DeepClone, Sense, Synset, SynsetV};
use crate::text::{is_prefix, lemma_lex_lt_trans, lemma_lex_trichotomy, lex_le, lex_lt, lower_of,
    str_eq, str_lex_le, str_lex_lt, str_lowercase, str_starts_with};
use vstd::prelude::*;

verus! {

/// The failures the loader, the fusion passes and the storage engine can
/// report. "Not found" is never an error: lookups signal it with `None`.
#[derive(Clone, Debug)]
pub enum WordNetLoadError {
    /// A file or stream could not be read.
    Io(String),
    /// The markup itself was malformed.
    Xml(String),
    /// Structurally valid markup missing a semantically required attribute
    /// or element.
    Schema(&'static str),
    /// A malformed synset identifier string.
    BadKey(String),
    /// A storage backend failure, distinct from "not found".
    Storage(String),
    /// A record could not be encoded or decoded at the storage boundary.
    Serialization(String),
}

/// The value under the first occurrence of a string key.
pub open spec fn assoc_s<V>(s: Seq<(Seq<char>, V)>, k: Seq<char>) -> Option<V>
    decreases s.len(),
{
    if s.len() == 0 {
        None
    } else if s[0].0 == k {
        Some(s[0].1)
    } else {
        assoc_s(s.drop_first(), k)
    }
}

/// The value under a packed key.
pub open spec fn assoc_k<V>(s: Seq<(WNKey, V)>, k: WNKey) -> Option<V>
    decreases s.len(),
{
    if s.len() == 0 {
        None
    } else if s[0].0 == k {
        Some(s[0].1)
    } else {
        assoc_k(s.drop_first(), k)
    }
}

/// Replaces the first binding of `k` in place, or appends one.
pub open spec fn put_s<V>(s: Seq<(Seq<char>, V)>, k: Seq<char>, v: V) -> Seq<(Seq<char>, V)>
    decreases s.len(),
{
    if s.len() == 0 {
        seq![(k, v)]
    } else if s[0].0 == k {
        seq![(k, v)] + s.drop_first()
    } else {
        seq![s[0]] + put_s(s.drop_first(), k, v)
    }
}

/// Replaces the first binding of a packed key in place, or appends one.
pub open spec fn put_k<V>(s: Seq<(WNKey, V)>, k: WNKey, v: V) -> Seq<(WNKey, V)>
    decreases s.len(),
{
    if s.len() == 0 {
        seq![(k, v)]
    } else if s[0].0 == k {
        seq![(k, v)] + s.drop_first()
    } else {
        seq![s[0]] + put_k(s.drop_first(), k, v)
    }
}

/// After a put, the put key holds the new value.
pub proof fn lemma_put_s_hit<V>(s: Seq<(Seq<char>, V)>, k: Seq<char>, v: V)
    ensures
        assoc_s(put_s(s, k, v), k) == Some(v),
    decreases s.len(),
{
    let p = put_s(s, k, v);
    if s.len() == 0 {
        assert(p[0] == (k, v));
    } else if s[0].0 == k {
        assert(p[0] == (k, v));
    } else {
        lemma_put_s_hit(s.drop_first(), k, v);
        assert(p[0] == s[0]);
        assert(p.drop_first() =~= put_s(s.drop_first(), k, v));
    }
}

/// After a put, every other key is unchanged.
pub proof fn lemma_put_s_miss<V>(s: Seq<(Seq<char>, V)>, k: Seq<char>, v: V, k2: Seq<char>)
    requires
        k2 != k,
    ensures
        assoc_s(put_s(s, k, v), k2) == assoc_s(s, k2),
    decreases s.len(),
{
    let p = put_s(s, k, v);
    if s.len() == 0 {
        assert(p[0] == (k, v));
        assert(p.drop_first() =~= s);
    } else if s[0].0 == k {
        assert(p[0] == (k, v));
        assert(p.drop_first() =~= s.drop_first());
    } else {
        lemma_put_s_miss(s.drop_first(), k, v, k2);
        assert(p[0] == s[0]);
        assert(p.drop_first() =~= put_s(s.drop_first(), k, v));
    }
}

/// After a put under a packed key, that key holds the new value.
pub proof fn lemma_put_k_hit<V>(s: Seq<(WNKey, V)>, k: WNKey, v: V)
    ensures
        assoc_k(put_k(s, k, v), k) == Some(v),
    decreases s.len(),
{
    let p = put_k(s, k, v);
    if s.len() == 0 {
        assert(p[0] == (k, v));
    } else if s[0].0 == k {
        assert(p[0] == (k, v));
    } else {
        lemma_put_k_hit(s.drop_first(), k, v);
        assert(p[0] == s[0]);
        assert(p.drop_first() =~= put_k(s.drop_first(), k, v));
    }
}

/// After a put under a packed key, every other key is unchanged.
pub proof fn lemma_put_k_miss<V>(s: Seq<(WNKey, V)>, k: WNKey, v: V, k2: WNKey)
    requires
        k2 != k,
    ensures
        assoc_k(put_k(s, k, v), k2) == assoc_k(s, k2),
    decreases s.len(),
{
    let p = put_k(s, k, v);
    if s.len() == 0 {
        assert(p[0] == (k, v));
        assert(p.drop_first() =~= s);
    } else if s[0].0 == k {
        assert(p[0] == (k, v));
        assert(p.drop_first() =~= s.drop_first());
    } else {
        lemma_put_k_miss(s.drop_first(), k, v, k2);
        assert(p[0] == s[0]);
        assert(p.drop_first() =~= put_k(s.drop_first(), k, v));
    }
}

/// One row of the lemma index: the written lemma, its case-folded form, the
/// language, and the owning synset.
pub struct LemmaRow {
    pub lemma: String,
    pub form: String,
    pub language: String,
    pub synset: WNKey,
}

#[verifier::ext_equal]
pub struct LemmaRowV {
    pub lemma: Seq<char>,
    pub form: Seq<char>,
    pub language: Seq<char>,
    pub synset: WNKey,
}

impl DeepView for LemmaRow {
    type V = LemmaRowV;

    open spec fn deep_view(&self) -> LemmaRowV {
        LemmaRowV {
            lemma: self.lemma@,
            form: self.form@,
            language: self.language@,
            synset: self.synset,
        }
    }
}

/// The whole store, at the specification level.
#[verifier::ext_equal]
pub struct StoreV {
    pub synsets: Seq<(WNKey, SynsetV)>,
    pub by_ili: Seq<(Seq<char>, WNKey)>,
    pub by_sense_key: Seq<(Seq<char>, WNKey)>,
    pub lemma_rows: Seq<LemmaRowV>,
    pub old_rows: Seq<(Seq<char>, Seq<(Seq<char>, WNKey)>)>,
}

/// An empty store.
pub open spec fn empty_store() -> StoreV {
    StoreV {
        synsets: Seq::empty(),
        by_ili: Seq::empty(),
        by_sense_key: Seq::empty(),
        lemma_rows: Seq::empty(),
        old_rows: Seq::empty(),
    }
}

/// Finds the first binding of a string key; the bindings before it carry
/// other keys.
pub(crate) fn map_find_s<V: DeepView>(v: &Vec<(String, V)>, k: &str) -> (r: Option<usize>)
    ensures
        r matches Some(i) ==> 0 <= i < v.len() && v.deep_view()[i as int].0 == k@ && assoc_s(
            v.deep_view(),
            k@,
        ) == Some(v.deep_view()[i as int].1),
        r is None ==> assoc_s(v.deep_view(), k@) is None,
{
    let mut i: usize = 0;
    proof {
        assert(v.deep_view().skip(0) =~= v.deep_view());
    }
    while i < v.len()
        invariant
            i <= v.len(),
            assoc_s(v.deep_view(), k@) == assoc_s(v.deep_view().skip(i as int), k@),
        decreases v.len() - i,
    {
        proof {
            assert(v.deep_view().skip(i as int)[0] == v.deep_view()[i as int]);
            assert(v.deep_view()[i as int].0 == v@[i as int].0@);
        }
        if str_eq(v[i].0.as_str(), k) {
            return Some(i);
        }
        proof {
            assert(v.deep_view().skip(i as int).drop_first() =~= v.deep_view().skip(i + 1));
        }
        i += 1;
    }
    proof {
        assert(v.deep_view().skip(i as int).len() == 0);
    }
    None
}

/// Replaces or appends a binding of a string key.
pub(crate) fn map_put_s<V: DeepView>(v: &mut Vec<(String, V)>, k: String, value: V)
    ensures
        final(v).deep_view() == put_s(old(v).deep_view(), k@, value.deep_view()),
{
    let mut i: usize = 0;
    proof {
        assert(old(v).deep_view().skip(0) =~= old(v).deep_view());
        assert(old(v).deep_view().take(0) + put_s(old(v).deep_view(), k@, value.deep_view())
            =~= put_s(old(v).deep_view(), k@, value.deep_view()));
    }
    while i < v.len()
        invariant
            i <= v.len(),
            *v == *old(v),
            put_s(old(v).deep_view(), k@, value.deep_view()) == old(v).deep_view().take(i as int)
                + put_s(old(v).deep_view().skip(i as int), k@, value.deep_view()),
        decreases v.len() - i,
    {
        proof {
            assert(v.deep_view().skip(i as int)[0] == v.deep_view()[i as int]);
            assert(v.deep_view()[i as int].0 == v@[i as int].0@);
        }
        if str_eq(v[i].0.as_str(), k.as_str()) {
            let ghost pre = v.deep_view();
            let _ = v.remove(i);
            v.insert(i, (k, value));
            proof {
                assert(put_s(pre.skip(i as int), k@, value.deep_view()) == seq![
                    (k@, value.deep_view()),
                ] + pre.skip(i as int).drop_first());
                assert(pre.skip(i as int).drop_first() =~= pre.skip(i + 1));
                assert(v.deep_view() =~= pre.take(i as int) + (seq![(k@, value.deep_view())]
                    + pre.skip(i + 1)));
            }
            return ;
        }
        proof {
            let pre = v.deep_view();
            assert(pre.skip(i as int).drop_first() =~= pre.skip(i + 1));
            assert(put_s(pre.skip(i as int), k@, value.deep_view()) == seq![pre[i as int]]
                + put_s(pre.skip(i + 1), k@, value.deep_view()));
            assert(pre.take(i as int) + (seq![pre[i as int]] + put_s(
                pre.skip(i + 1),
                k@,
                value.deep_view(),
            )) =~= pre.take(i + 1) + put_s(pre.skip(i + 1), k@, value.deep_view()));
        }
        i += 1;
    }
    let ghost pre = v.deep_view();
    v.push((k, value));
    proof {
        assert(pre.skip(pre.len() as int).len() == 0);
        assert(put_s(pre.skip(pre.len() as int), k@, value.deep_view()) == seq![
            (k@, value.deep_view()),
        ]);
        assert(pre.take(pre.len() as int) =~= pre);
        assert(v.deep_view() =~= pre.take(pre.len() as int) + put_s(
            pre.skip(pre.len() as int),
            k@,
            value.deep_view(),
        ));
    }
}

/// Finds the first binding of a packed key.
pub(crate) fn map_find_k<V: DeepView>(v: &Vec<(WNKey, V)>, k: &WNKey) -> (r: Option<usize>)
    ensures
        r matches Some(i) ==> 0 <= i < v.len() && v.deep_view()[i as int].0 == *k && assoc_k(
            v.deep_view(),
            *k,
        ) == Some(v.deep_view()[i as int].1),
        r is None ==> assoc_k(v.deep_view(), *k) is None,
{
    let mut i: usize = 0;
    proof {
        assert(v.deep_view().skip(0) =~= v.deep_view());
    }
    while i < v.len()
        invariant
            i <= v.len(),
            assoc_k(v.deep_view(), *k) == assoc_k(v.deep_view().skip(i as int), *k),
        decreases v.len() - i,
    {
        proof {
            assert(v.deep_view().skip(i as int)[0] == v.deep_view()[i as int]);
            assert(v.deep_view()[i as int].0 == v@[i as int].0);
        }
        if v[i].0.key_eq(k) {
            return Some(i);
        }
        proof {
            assert(v.deep_view().skip(i as int).drop_first() =~= v.deep_view().skip(i + 1));
        }
        i += 1;
    }
    proof {
        assert(v.deep_view().skip(i as int).len() == 0);
    }
    None
}

/// Replaces or appends a binding of a packed key.
pub(crate) fn map_put_k<V: DeepView>(v: &mut Vec<(WNKey, V)>, k: WNKey, value: V)
    ensures
        final(v).deep_view() == put_k(old(v).deep_view(), k, value.deep_view()),
{
    let mut i: usize = 0;
    proof {
        assert(old(v).deep_view().skip(0) =~= old(v).deep_view());
        assert(old(v).deep_view().take(0) + put_k(old(v).deep_view(), k, value.deep_view())
            =~= put_k(old(v).deep_view(), k, value.deep_view()));
    }
    while i < v.len()
        invariant
            i <= v.len(),
            *v == *old(v),
            put_k(old(v).deep_view(), k, value.deep_view()) == old(v).deep_view().take(i as int)
                + put_k(old(v).deep_view().skip(i as int), k, value.deep_view()),
        decreases v.len() - i,
    {
        proof {
            assert(v.deep_view().skip(i as int)[0] == v.deep_view()[i as int]);
            assert(v.deep_view()[i as int].0 == v@[i as int].0);
        }
        if v[i].0.key_eq(&k) {
            let ghost pre = v.deep_view();
            let _ = v.remove(i);
            v.insert(i, (k, value));
            proof {
                assert(put_k(pre.skip(i as int), k, value.deep_view()) == seq![
                    (k, value.deep_view()),
                ] + pre.skip(i as int).drop_first());
                assert(pre.skip(i as int).drop_first() =~= pre.skip(i + 1));
                assert(v.deep_view() =~= pre.take(i as int) + (seq![(k, value.deep_view())]
                    + pre.skip(i + 1)));
            }
            return ;
        }
        proof {
            let pre = v.deep_view();
            assert(pre.skip(i as int).drop_first() =~= pre.skip(i + 1));
            assert(put_k(pre.skip(i as int), k, value.deep_view()) == seq![pre[i as int]] + put_k(
                pre.skip(i + 1),
                k,
                value.deep_view(),
            ));
            assert(pre.take(i as int) + (seq![pre[i as int]] + put_k(
                pre.skip(i + 1),
                k,
                value.deep_view(),
            )) =~= pre.take(i + 1) + put_k(pre.skip(i + 1), k, value.deep_view()));
        }
        i += 1;
    }
    let ghost pre = v.deep_view();
    v.push((k, value));
    proof {
        assert(pre.skip(pre.len() as int).len() == 0);
        assert(put_k(pre.skip(pre.len() as int), k, value.deep_view()) == seq![
            (k, value.deep_view()),
        ]);
        assert(pre.take(pre.len() as int) =~= pre);
        assert(v.deep_view() =~= pre.take(pre.len() as int) + put_k(
            pre.skip(pre.len() as int),
            k,
            value.deep_view(),
        ));
    }
}

/// `x` lies at or above the scan bound (strictly above it, once the scan has
/// passed the bound).
pub open spec fn s_ok(bound: Seq<char>, strict: bool, x: Seq<char>) -> bool {
    if strict {
        lex_lt(bound, x)
    } else {
        lex_le(bound, x)
    }
}

/// The least string at or above the bound, if any.
pub open spec fn smin(s: Seq<Seq<char>>, bound: Seq<char>, strict: bool) -> Option<Seq<char>>
    decreases s.len(),
{
    if s.len() == 0 {
        None
    } else {
        let rest = smin(s.drop_first(), bound, strict);
        if !s_ok(bound, strict, s[0]) {
            rest
        } else {
            match rest {
                None => Some(s[0]),
                Some(m) => if lex_le(s[0], m) {
                    Some(s[0])
                } else {
                    Some(m)
                },
            }
        }
    }
}

/// Up to `limit` distinct strings of `s` at or above the bound, ascending.
pub open spec fn sscan(s: Seq<Seq<char>>, bound: Seq<char>, strict: bool, limit: nat) -> Seq<
    Seq<char>,
>
    decreases limit,
{
    if limit == 0 {
        Seq::empty()
    } else {
        match smin(s, bound, strict) {
            None => Seq::empty(),
            Some(m) => seq![m] + sscan(s, m, true, (limit - 1) as nat),
        }
    }
}

/// What the least element above a bound satisfies.
pub proof fn lemma_smin(s: Seq<Seq<char>>, bound: Seq<char>, strict: bool)
    ensures
        smin(s, bound, strict) is None ==> forall|j: int|
            0 <= j < s.len() ==> !s_ok(bound, strict, #[trigger] s[j]),
        smin(s, bound, strict) matches Some(m) ==> s.contains(m) && s_ok(bound, strict, m)
            && forall|j: int|
            0 <= j < s.len() && s_ok(bound, strict, #[trigger] s[j]) ==> lex_le(m, s[j]),
    decreases s.len(),
{
    if s.len() > 0 {
        lemma_smin(s.drop_first(), bound, strict);
        let rest = smin(s.drop_first(), bound, strict);
        assert(s.drop_first().len() == s.len() - 1);
        assert(forall|j: int| 1 <= j < s.len() ==> #[trigger] s[j] == s.drop_first()[j - 1]);
        match smin(s, bound, strict) {
            None => {
            },
            Some(m) => {
                if m == s[0] {
                    assert(s.contains(m)) by {
                        assert(s[0] == m);
                    }
                } else {
                    assert(s.drop_first().contains(m));
                    let w = choose|w: int|
                        0 <= w < s.drop_first().len() && s.drop_first()[w] == m;
                    assert(s[w + 1] == m);
                    assert(s.contains(m));
                }
                assert forall|j: int|
                    0 <= j < s.len() && s_ok(bound, strict, #[trigger] s[j]) implies lex_le(
                    m,
                    s[j],
                ) by {
                    if j == 0 {
                        if s_ok(bound, strict, s[0]) {
                            match rest {
                                None => {
                                },
                                Some(m2) => {
                                    if !lex_le(s[0], m2) {
                                        lemma_lex_trichotomy(s[0], m2);
                                    }
                                },
                            }
                        }
                    } else {
                        assert(s[j] == s.drop_first()[j - 1]);
                        match rest {
                            None => {
                            },
                            Some(m2) => {
                                assert(lex_le(m2, s[j]));
                                if m == s[0] {
                                    lemma_lex_le_trans(s[0], m2, s[j]);
                                }
                            },
                        }
                    }
                }
            },
        }
    }
}

/// Reflexive lexicographic order is transitive.
pub proof fn lemma_lex_le_trans(a: Seq<char>, b: Seq<char>, c: Seq<char>)
    requires
        lex_le(a, b),
        lex_le(b, c),
    ensures
        lex_le(a, c),
{
    if a != b && b != c {
        lemma_lex_lt_trans(a, b, c);
    }
}

/// What a bounded ascending scan returns: at most `limit` values, each one a
/// table entry at or above the bound, in strictly ascending order.
pub proof fn lemma_sscan(s: Seq<Seq<char>>, bound: Seq<char>, strict: bool, limit: nat)
    ensures
        sscan(s, bound, strict, limit).len() <= limit,
        forall|i: int|
            0 <= i < sscan(s, bound, strict, limit).len() ==> s.contains(
                #[trigger] sscan(s, bound, strict, limit)[i],
            ) && s_ok(bound, strict, sscan(s, bound, strict, limit)[i]),
        forall|i: int, j: int|
            0 <= i < j < sscan(s, bound, strict, limit).len() ==> lex_lt(
                #[trigger] sscan(s, bound, strict, limit)[i],
                #[trigger] sscan(s, bound, strict, limit)[j],
            ),
    decreases limit,
{
    if limit > 0 {
        match smin(s, bound, strict) {
            None => {
            },
            Some(m) => {
                lemma_smin(s, bound, strict);
                lemma_sscan(s, m, true, (limit - 1) as nat);
                let r = sscan(s, bound, strict, limit);
                let rest = sscan(s, m, true, (limit - 1) as nat);
                assert(r == seq![m] + rest);
                assert(r[0] == m);
                assert(forall|i: int| 1 <= i < r.len() ==> #[trigger] r[i] == rest[i - 1]);
                assert forall|i: int|
                    0 <= i < r.len() implies s.contains(#[trigger] r[i]) && s_ok(
                    bound,
                    strict,
                    r[i],
                ) by {
                    if i > 0 {
                        assert(lex_lt(m, r[i]));
                        if strict {
                            lemma_lex_lt_trans(bound, m, r[i]);
                        } else {
                            if bound != m {
                                lemma_lex_lt_trans(bound, m, r[i]);
                            }
                        }
                    }
                }
                assert forall|i: int, j: int| 0 <= i < j < r.len() implies lex_lt(
                    #[trigger] r[i],
                    #[trigger] r[j],
                ) by {
                    if i > 0 {
                        assert(lex_lt(rest[i - 1], rest[j - 1]));
                    } else {
                        assert(lex_lt(m, rest[j - 1]));
                    }
                }
            },
        }
    }
}

/// The least string of the table at or above the bound, as an index.
fn smin_exec(values: &Vec<String>, bound: &str, strict: bool) -> (r: Option<usize>)
    ensures
        r matches Some(i) ==> 0 <= i < values.len() && smin(values.deep_view(), bound@, strict)
            == Some(values.deep_view()[i as int]),
        r is None ==> smin(values.deep_view(), bound@, strict) is None,
{
    let ghost dv = values.deep_view();
    let mut best: Option<usize> = None;
    let mut i: usize = values.len();
    proof {
        assert(dv.skip(values.len() as int).len() == 0);
    }
    while i > 0
        invariant
            i <= values.len(),
            dv == values.deep_view(),
            match best {
                None => smin(dv.skip(i as int), bound@, strict) is None,
                Some(b) => i <= b < values.len() && smin(dv.skip(i as int), bound@, strict)
                    == Some(dv[b as int]),
            },
        decreases i,
    {
        i -= 1;
        proof {
            assert(dv.skip(i as int)[0] == dv[i as int]);
            assert(dv[i as int] == values@[i as int]@);
            assert(dv.skip(i as int).drop_first() =~= dv.skip(i + 1));
        }
        let ok = if strict {
            str_lex_lt(bound, values[i].as_str())
        } else {
            str_lex_le(bound, values[i].as_str())
        };
        if ok {
            best = match best {
                None => Some(i),
                Some(b) => {
                    proof {
                        assert(dv[b as int] == values@[b as int]@);
                    }
                    if str_lex_le(values[i].as_str(), values[b].as_str()) {
                        Some(i)
                    } else {
                        Some(b)
                    }
                },
            };
        }
    }
    proof {
        assert(dv.skip(0) =~= dv);
    }
    best
}

/// Up to `limit` distinct table entries at or above the seed, ascending.
fn scan_strings(values: &Vec<String>, seed: &str, limit: usize) -> (r: Vec<String>)
    ensures
        r.deep_view() == sscan(values.deep_view(), seed@, false, limit as nat),
{
    let ghost dv = values.deep_view();
    let mut out: Vec<String> = Vec::new();
    let mut bound = String::from_str(seed);
    let mut strict = false;
    proof {
        assert(out.deep_view() =~= Seq::<Seq<char>>::empty());
    }
    while out.len() < limit
        invariant
            dv == values.deep_view(),
            out.len() <= limit,
            sscan(dv, seed@, false, limit as nat) == out.deep_view() + sscan(
                dv,
                bound@,
                strict,
                (limit - out.len()) as nat,
            ),
        decreases limit - out.len(),
    {
        match smin_exec(values, bound.as_str(), strict) {
            None => {
                proof {
                    assert(sscan(dv, bound@, strict, (limit - out.len()) as nat)
                        =~= Seq::<Seq<char>>::empty());
                    assert(out.deep_view() + sscan(dv, bound@, strict, (limit - out.len()) as nat)
                        =~= out.deep_view());
                }
                return out;
            },
            Some(i) => {
                let ghost pre = out.deep_view();
                let ghost rem = (limit - out.len()) as nat;
                let m = values[i].deep_clone();
                out.push(values[i].deep_clone());
                proof {
                    assert(sscan(dv, bound@, strict, rem) == seq![m@] + sscan(
                        dv,
                        m@,
                        true,
                        (rem - 1) as nat,
                    ));
                    assert(out.deep_view() =~= pre + seq![m@]);
                    assert(pre + (seq![m@] + sscan(dv, m@, true, (rem - 1) as nat)) =~= (pre
                        + seq![m@]) + sscan(dv, m@, true, (rem - 1) as nat));
                }
                bound = m;
                strict = true;
            },
        }
    }
    proof {
        assert(sscan(dv, bound@, strict, 0) =~= Seq::<Seq<char>>::empty());
        assert(out.deep_view() + sscan(dv, bound@, strict, 0) =~= out.deep_view());
    }
    out
}

/// The packed-key analogue of `s_ok`.
pub open spec fn k_ok(bound: WNKey, strict: bool, x: WNKey) -> bool {
    if strict {
        bound.spec_lt(x)
    } else {
        bound.spec_lt(x) || bound == x
    }
}

/// The least packed key at or above the bound, if any.
pub open spec fn kmin(s: Seq<WNKey>, bound: WNKey, strict: bool) -> Option<WNKey>
    decreases s.len(),
{
    if s.len() == 0 {
        None
    } else {
        let rest = kmin(s.drop_first(), bound, strict);
        if !k_ok(bound, strict, s[0]) {
            rest
        } else {
            match rest {
                None => Some(s[0]),
                Some(m) => if s[0].spec_lt(m) || s[0] == m {
                    Some(s[0])
                } else {
                    Some(m)
                },
            }
        }
    }
}

/// Up to `limit` distinct packed keys at or above the bound, ascending.
pub open spec fn kscan(s: Seq<WNKey>, bound: WNKey, strict: bool, limit: nat) -> Seq<WNKey>
    decreases limit,
{
    if limit == 0 {
        Seq::empty()
    } else {
        match kmin(s, bound, strict) {
            None => Seq::empty(),
            Some(m) => seq![m] + kscan(s, m, true, (limit - 1) as nat),
        }
    }
}

/// What the least key above a bound satisfies.
pub proof fn lemma_kmin(s: Seq<WNKey>, bound: WNKey, strict: bool)
    ensures
        kmin(s, bound, strict) matches Some(m) ==> s.contains(m) && k_ok(bound, strict, m),
    decreases s.len(),
{
    if s.len() > 0 {
        lemma_kmin(s.drop_first(), bound, strict);
        match kmin(s, bound, strict) {
            None => {
            },
            Some(m) => {
                if m != s[0] {
                    assert(s.drop_first().contains(m));
                    let w = choose|w: int|
                        0 <= w < s.drop_first().len() && s.drop_first()[w] == m;
                    assert(s[w + 1] == m);
                } else {
                    assert(s[0] == m);
                }
            },
        }
    }
}

/// A bounded key scan stays within the table, the bound and the limit, in
/// strictly ascending order.
pub proof fn lemma_kscan(s: Seq<WNKey>, bound: WNKey, strict: bool, limit: nat)
    ensures
        kscan(s, bound, strict, limit).len() <= limit,
        forall|i: int|
            0 <= i < kscan(s, bound, strict, limit).len() ==> s.contains(
                #[trigger] kscan(s, bound, strict, limit)[i],
            ) && k_ok(bound, strict, kscan(s, bound, strict, limit)[i]),
        forall|i: int, j: int|
            0 <= i < j < kscan(s, bound, strict, limit).len() ==> (
            #[trigger] kscan(s, bound, strict, limit)[i]).spec_lt(
                #[trigger] kscan(s, bound, strict, limit)[j],
            ),
    decreases limit,
{
    if limit > 0 {
        match kmin(s, bound, strict) {
            None => {
            },
            Some(m) => {
                lemma_kmin(s, bound, strict);
                lemma_kscan(s, m, true, (limit - 1) as nat);
                let r = kscan(s, bound, strict, limit);
                let rest = kscan(s, m, true, (limit - 1) as nat);
                assert(r == seq![m] + rest);
                assert(r[0] == m);
                assert(forall|i: int| 1 <= i < r.len() ==> #[trigger] r[i] == rest[i - 1]);
            },
        }
    }
}

/// The least key of the table at or above the bound, as an index.
fn kmin_exec(values: &Vec<WNKey>, bound: &WNKey, strict: bool) -> (r: Option<usize>)
    ensures
        r matches Some(i) ==> 0 <= i < values.len() && kmin(values@, *bound, strict) == Some(
            values@[i as int],
        ),
        r is None ==> kmin(values@, *bound, strict) is None,
{
    let ghost dv = values@;
    let mut best: Option<usize> = None;
    let mut i: usize = values.len();
    proof {
        assert(dv.skip(values.len() as int).len() == 0);
    }
    while i > 0
        invariant
            i <= values.len(),
            dv == values@,
            match best {
                None => kmin(dv.skip(i as int), *bound, strict) is None,
                Some(b) => i <= b < values.len() && kmin(dv.skip(i as int), *bound, strict)
                    == Some(dv[b as int]),
            },
        decreases i,
    {
        i -= 1;
        proof {
            assert(dv.skip(i as int)[0] == dv[i as int]);
            assert(dv.skip(i as int).drop_first() =~= dv.skip(i + 1));
        }
        let ok = if strict {
            bound.lt(&values[i])
        } else {
            bound.lt(&values[i]) || bound.key_eq(&values[i])
        };
        if ok {
            best = match best {
                None => Some(i),
                Some(b) => {
                    if values[i].lt(&values[b]) || values[i].key_eq(&values[b]) {
                        Some(i)
                    } else {
                        Some(b)
                    }
                },
            };
        }
    }
    proof {
        assert(dv.skip(0) =~= dv);
    }
    best
}

/// Up to `limit` distinct keys at or above the bound, ascending.
fn kscan_exec(values: &Vec<WNKey>, seed: &WNKey, limit: usize) -> (r: Vec<WNKey>)
    ensures
        r@ == kscan(values@, *seed, false, limit as nat),
{
    let ghost dv = values@;
    let mut out: Vec<WNKey> = Vec::new();
    let mut bound = *seed;
    let mut strict = false;
    while out.len() < limit
        invariant
            dv == values@,
            out.len() <= limit,
            kscan(dv, *seed, false, limit as nat) == out@ + kscan(
                dv,
                bound,
                strict,
                (limit - out.len()) as nat,
            ),
        decreases limit - out.len(),
    {
        match kmin_exec(values, &bound, strict) {
            None => {
                proof {
                    assert(kscan(dv, bound, strict, (limit - out.len()) as nat)
                        =~= Seq::<WNKey>::empty());
                    assert(out@ + kscan(dv, bound, strict, (limit - out.len()) as nat) =~= out@);
                }
                return out;
            },
            Some(i) => {
                let ghost pre = out@;
                let ghost rem = (limit - out.len()) as nat;
                let m = values[i];
                out.push(m);
                proof {
                    assert(kscan(dv, bound, strict, rem) == seq![m] + kscan(
                        dv,
                        m,
                        true,
                        (rem - 1) as nat,
                    ));
                    assert(out@ =~= pre + seq![m]);
                    assert(pre + (seq![m] + kscan(dv, m, true, (rem - 1) as nat)) =~= (pre
                        + seq![m]) + kscan(dv, m, true, (rem - 1) as nat));
                }
                bound = m;
                strict = true;
            },
        }
    }
    proof {
        assert(kscan(dv, bound, strict, 0) =~= Seq::<WNKey>::empty());
        assert(out@ + kscan(dv, bound, strict, 0) =~= out@);
    }
    out
}

/// Sense-key index entries contributed by a synset's senses, folded in from
/// the left.
pub open spec fn sense_keys_upd(
    m: Seq<(Seq<char>, WNKey)>,
    senses: Seq<crate::model::SenseV>,
    k: WNKey,
) -> Seq<(Seq<char>, WNKey)>
    decreases senses.len(),
{
    if senses.len() == 0 {
        m
    } else {
        let m2 = match senses[0].sense_key {
            Some(sk) => put_s(m, sk, k),
            None => m,
        };
        sense_keys_upd(m2, senses.drop_first(), k)
    }
}

/// The rows a sense's alternate written forms contribute to the lemma index.
pub open spec fn form_rows(s: crate::model::SenseV, k: WNKey, forms: Seq<Seq<char>>) -> Seq<
    LemmaRowV,
>
    decreases forms.len(),
{
    if forms.len() == 0 {
        Seq::empty()
    } else {
        form_rows(s, k, forms.drop_last()).push(
            LemmaRowV {
                lemma: s.lemma,
                form: lower_of(forms.last()),
                language: s.language,
                synset: k,
            },
        )
    }
}

/// All rows a sense contributes: the case-folded lemma itself, then its
/// alternate forms.
pub open spec fn rows_of_sense(s: crate::model::SenseV, k: WNKey) -> Seq<LemmaRowV> {
    seq![
        LemmaRowV { lemma: s.lemma, form: lower_of(s.lemma), language: s.language, synset: k },
    ] + form_rows(s, k, s.forms)
}

/// The lemma-index rows of a whole sense list.
pub open spec fn rows_of_senses(senses: Seq<crate::model::SenseV>, k: WNKey) -> Seq<LemmaRowV>
    decreases senses.len(),
{
    if senses.len() == 0 {
        Seq::empty()
    } else {
        rows_of_senses(senses.drop_last(), k) + rows_of_sense(senses.last(), k)
    }
}

/// What inserting one synset does to the store: the record is put under its
/// key and every index learns about it.
pub open spec fn insert_synset_spec(st: StoreV, k: WNKey, sv: SynsetV) -> StoreV {
    StoreV {
        synsets: put_k(st.synsets, k, sv),
        by_ili: put_s(st.by_ili, sv.ili, k),
        by_sense_key: sense_keys_upd(st.by_sense_key, sv.lemmas, k),
        lemma_rows: st.lemma_rows + rows_of_senses(sv.lemmas, k),
        old_rows: st.old_rows,
    }
}

/// A bulk insert is the synsets inserted one by one, in order.
pub open spec fn set_synsets_spec(st: StoreV, values: Seq<(WNKey, SynsetV)>) -> StoreV
    decreases values.len(),
{
    if values.len() == 0 {
        st
    } else {
        set_synsets_spec(insert_synset_spec(st, values[0].0, values[0].1), values.drop_first())
    }
}

/// What replacing one stored record does: no index changes.
pub open spec fn update_synset_spec(st: StoreV, k: WNKey, sv: SynsetV) -> StoreV {
    StoreV { synsets: put_k(st.synsets, k, sv), ..st }
}

/// Attaching one typed link: a missing synset is skipped, and a link already
/// present is not attached twice.
pub open spec fn add_link_spec(
    st: StoreV,
    k: WNKey,
    lt: crate::links::LinkType,
    target: Seq<char>,
) -> StoreV {
    match assoc_k(st.synsets, k) {
        None => st,
        Some(sv) => {
            let lv = crate::links::LinkV { link_type: lt, target: target };
            if sv.links.contains(lv) {
                st
            } else {
                StoreV {
                    synsets: put_k(st.synsets, k, SynsetV { links: sv.links.push(lv), ..sv }),
                    ..st
                }
            }
        },
    }
}

/// Attaching a batch of links of one type, in order.
pub open spec fn insert_links_spec(
    st: StoreV,
    lt: crate::links::LinkType,
    values: Seq<(WNKey, Seq<char>)>,
) -> StoreV
    decreases values.len(),
{
    if values.len() == 0 {
        st
    } else {
        insert_links_spec(add_link_spec(st, values[0].0, lt, values[0].1), lt, values.drop_first())
    }
}

/// The legacy ids already recorded on a synset under one version name.
pub open spec fn old_keys_list(sv: SynsetV, index: Seq<char>) -> Seq<Seq<char>> {
    match assoc_s(sv.old_keys, index) {
        None => Seq::empty(),
        Some(l) => l,
    }
}

/// Recording one legacy id on its synset: a missing synset is skipped and an
/// id already recorded is not appended again.
pub open spec fn add_old_key_spec(st: StoreV, index: Seq<char>, old_id: Seq<char>, k: WNKey) -> StoreV {
    match assoc_k(st.synsets, k) {
        None => st,
        Some(sv) => {
            let l = old_keys_list(sv, index);
            if l.contains(old_id) {
                st
            } else {
                StoreV {
                    synsets: put_k(
                        st.synsets,
                        k,
                        SynsetV { old_keys: put_s(sv.old_keys, index, l.push(old_id)), ..sv },
                    ),
                    ..st
                }
            }
        },
    }
}

/// The per-version legacy index, empty when that version was never loaded.
pub open spec fn old_index_of(st: StoreV, index: Seq<char>) -> Seq<(Seq<char>, WNKey)> {
    match assoc_s(st.old_rows, index) {
        None => Seq::empty(),
        Some(m) => m,
    }
}

/// Recording one legacy id in the per-version index: last write wins.
pub open spec fn put_old_row_spec(st: StoreV, index: Seq<char>, old_id: Seq<char>, k: WNKey) -> StoreV {
    StoreV {
        old_rows: put_s(st.old_rows, index, put_s(old_index_of(st, index), old_id, k)),
        ..st
    }
}

/// One crosswalk pair: the synset learns its legacy id, and the version's
/// index learns the reverse mapping.
pub open spec fn set_old_id_step(st: StoreV, index: Seq<char>, old_id: Seq<char>, k: WNKey) -> StoreV {
    put_old_row_spec(add_old_key_spec(st, index, old_id, k), index, old_id, k)
}

/// A whole crosswalk table, pair by pair, in order.
pub open spec fn set_old_ids_spec(
    st: StoreV,
    index: Seq<char>,
    values: Seq<(Seq<char>, WNKey)>,
) -> StoreV
    decreases values.len(),
{
    if values.len() == 0 {
        st
    } else {
        set_old_ids_spec(
            set_old_id_step(st, index, values[0].0, values[0].1),
            index,
            values.drop_first(),
        )
    }
}

impl DeepClone for LemmaRow {
    fn deep_clone(&self) -> (r: Self)
        ensures
            r.deep_view() == self.deep_view(),
    {
        let r = LemmaRow {
            lemma: self.lemma.deep_clone(),
            form: self.form.deep_clone(),
            language: self.language.deep_clone(),
            synset: self.synset,
        };
        proof {
            assert(r.deep_view() =~= self.deep_view());
        }
        r
    }
}

/// Whether a link list already carries a (type, target) pair.
pub(crate) fn links_contains(v: &Vec<crate::links::Link>, lt: crate::links::LinkType, target: &str) -> (r:
    bool)
    ensures
        r == v.deep_view().contains(crate::links::LinkV { link_type: lt, target: target@ }),
{
    let ghost lv = crate::links::LinkV { link_type: lt, target: target@ };
    let mut i: usize = 0;
    while i < v.len()
        invariant
            i <= v.len(),
            forall|j: int| 0 <= j < i ==> v.deep_view()[j] != lv,
        decreases v.len() - i,
    {
        proof {
            assert(v.deep_view()[i as int] == v@[i as int].deep_view());
        }
        if v[i].link_type == lt && str_eq(v[i].target.as_str(), target) {
            proof {
                assert(v.deep_view()[i as int] =~= lv);
                assert(v.deep_view().contains(lv));
            }
            return true;
        }
        i += 1;
    }
    proof {
        if v.deep_view().contains(lv) {
            let w = choose|w: int| 0 <= w < v.deep_view().len() && v.deep_view()[w] == lv;
            assert(v.deep_view()[w] != lv);
        }
    }
    false
}

/// Whether a string list contains a value.
pub(crate) fn string_vec_contains(v: &Vec<String>, x: &str) -> (r: bool)
    ensures
        r == v.deep_view().contains(x@),
{
    let mut i: usize = 0;
    while i < v.len()
        invariant
            i <= v.len(),
            forall|j: int| 0 <= j < i ==> v.deep_view()[j] != x@,
        decreases v.len() - i,
    {
        proof {
            assert(v.deep_view()[i as int] == v@[i as int]@);
        }
        if str_eq(v[i].as_str(), x) {
            proof {
                assert(v.deep_view().contains(x@));
            }
            return true;
        }
        i += 1;
    }
    proof {
        if v.deep_view().contains(x@) {
            let w = choose|w: int| 0 <= w < v.deep_view().len() && v.deep_view()[w] == x@;
            assert(v.deep_view()[w] != x@);
        }
    }
    false
}

/// Whether a key list contains a key.
pub(crate) fn key_vec_contains(v: &Vec<WNKey>, x: &WNKey) -> (r: bool)
    ensures
        r == v@.contains(*x),
{
    let mut i: usize = 0;
    while i < v.len()
        invariant
            i <= v.len(),
            forall|j: int| 0 <= j < i ==> v@[j] != *x,
        decreases v.len() - i,
    {
        if v[i].key_eq(x) {
            proof {
                assert(v@.contains(*x));
            }
            return true;
        }
        i += 1;
    }
    proof {
        if v@.contains(*x) {
            let w = choose|w: int| 0 <= w < v@.len() && v@[w] == *x;
            assert(v@[w] != *x);
        }
    }
    false
}

/// The mutable side of the engine: it accumulates the graph while the loader
/// and the fusion passes run, and hands a finished read-only store over.
pub struct WordNetBuilder {
    synsets: Vec<(WNKey, Synset)>,
    by_ili: Vec<(String, WNKey)>,
    by_sense_key: Vec<(String, WNKey)>,
    lemma_rows: Vec<LemmaRow>,
    old_rows: Vec<(String, Vec<(String, WNKey)>)>,
}

impl View for WordNetBuilder {
    type V = StoreV;

    closed spec fn view(&self) -> StoreV {
        StoreV {
            synsets: self.synsets.deep_view(),
            by_ili: self.by_ili.deep_view(),
            by_sense_key: self.by_sense_key.deep_view(),
            lemma_rows: self.lemma_rows.deep_view(),
            old_rows: self.old_rows.deep_view(),
        }
    }
}

/// The read-only store the serving layer queries.
pub struct WordNet {
    synsets: Vec<(WNKey, Synset)>,
    by_ili: Vec<(String, WNKey)>,
    by_sense_key: Vec<(String, WNKey)>,
    lemma_rows: Vec<LemmaRow>,
    old_rows: Vec<(String, Vec<(String, WNKey)>)>,
}

impl View for WordNet {
    type V = StoreV;

    closed spec fn view(&self) -> StoreV {
        StoreV {
            synsets: self.synsets.deep_view(),
            by_ili: self.by_ili.deep_view(),
            by_sense_key: self.by_sense_key.deep_view(),
            lemma_rows: self.lemma_rows.deep_view(),
            old_rows: self.old_rows.deep_view(),
        }
    }
}

impl WordNetBuilder {
    /// An empty builder.
    pub fn new() -> (r: Result<WordNetBuilder, WordNetLoadError>)
        ensures
            r matches Ok(b) && b@ == empty_store(),
    {
        let b = WordNetBuilder {
            synsets: Vec::new(),
            by_ili: Vec::new(),
            by_sense_key: Vec::new(),
            lemma_rows: Vec::new(),
            old_rows: Vec::new(),
        };
        proof {
            assert(b@ =~~= empty_store());
        }
        Ok(b)
    }

    /// Inserts one synset and indexes its ILI, sense keys and lemma forms.
    fn insert_synset(&mut self, key: WNKey, synset: Synset)
        ensures
            final(self)@ == insert_synset_spec(old(self)@, key, synset.deep_view()),
    {
        let ghost st0 = old(self)@;
        let ghost sv = synset.deep_view();
        map_put_s(&mut self.by_ili, synset.ili.deep_clone(), key);
        let ghost senses = sv.lemmas;
        let mut i: usize = 0;
        let ghost sk0 = self.by_sense_key.deep_view();
        let ghost rows0 = self.lemma_rows.deep_view();
        proof {
            assert(senses.skip(0) =~= senses);
            assert(senses.take(0) =~= Seq::<crate::model::SenseV>::empty());
            assert(rows0 + rows_of_senses(senses.take(0), key) =~= rows0);
        }
        while i < synset.lemmas.len()
            invariant
                i <= synset.lemmas.len(),
                senses == synset.deep_view().lemmas,
                sv == synset.deep_view(),
                senses.len() == synset.lemmas.len(),
                sense_keys_upd(sk0, senses, key) == sense_keys_upd(
                    self.by_sense_key.deep_view(),
                    senses.skip(i as int),
                    key,
                ),
                self.lemma_rows.deep_view() == rows0 + rows_of_senses(senses.take(i as int), key),
                self.by_ili.deep_view() == put_s(st0.by_ili, sv.ili, key),
                self.synsets == old(self).synsets,
                self.old_rows == old(self).old_rows,
            decreases synset.lemmas.len() - i,
        {
            let sense = &synset.lemmas[i];
            proof {
                assert(senses[i as int] == synset.lemmas@[i as int].deep_view());
                assert(senses.skip(i as int)[0] == senses[i as int]);
                assert(senses.skip(i as int).drop_first() =~= senses.skip(i + 1));
            }
            match &sense.sense_key {
                Some(sk) => {
                    map_put_s(&mut self.by_sense_key, sk.deep_clone(), key);
                },
                None => {
                },
            }
            let ghost rows_pre = self.lemma_rows.deep_view();
            self.lemma_rows.push(
                LemmaRow {
                    lemma: sense.lemma.deep_clone(),
                    form: str_lowercase(sense.lemma.as_str()),
                    language: sense.language.deep_clone(),
                    synset: key,
                },
            );
            proof {
                assert(self.lemma_rows.deep_view() =~= rows_pre + seq![
                    LemmaRowV {
                        lemma: senses[i as int].lemma,
                        form: lower_of(senses[i as int].lemma),
                        language: senses[i as int].language,
                        synset: key,
                    },
                ]);
                assert(senses[i as int].forms.take(0) =~= Seq::<Seq<char>>::empty());
            }
            let ghost rows_mid = self.lemma_rows.deep_view();
            let mut j: usize = 0;
            while j < sense.forms.len()
                invariant
                    j <= sense.forms.len(),
                    senses == synset.deep_view().lemmas,
                    i < senses.len(),
                    sense == &synset.lemmas[i as int],
                    senses[i as int] == synset.lemmas@[i as int].deep_view(),
                    sense.forms@.len() == senses[i as int].forms.len(),
                    self.lemma_rows.deep_view() == rows_mid + form_rows(
                        senses[i as int],
                        key,
                        senses[i as int].forms.take(j as int),
                    ),
                    self.by_ili.deep_view() == put_s(st0.by_ili, sv.ili, key),
                    self.synsets == old(self).synsets,
                    self.old_rows == old(self).old_rows,
                    sense_keys_upd(sk0, senses, key) == sense_keys_upd(
                        self.by_sense_key.deep_view(),
                        senses.skip(i + 1),
                        key,
                    ),
                decreases sense.forms.len() - j,
            {
                let ghost rows_pre2 = self.lemma_rows.deep_view();
                self.lemma_rows.push(
                    LemmaRow {
                        lemma: sense.lemma.deep_clone(),
                        form: str_lowercase(sense.forms[j].as_str()),
                        language: sense.language.deep_clone(),
                        synset: key,
                    },
                );
                proof {
                    let fs = senses[i as int].forms;
                    assert(fs[j as int] == sense.forms@[j as int]@);
                    assert(fs.take(j + 1).drop_last() =~= fs.take(j as int));
                    assert(fs.take(j + 1).last() == fs[j as int]);
                    assert(self.lemma_rows.deep_view() =~= rows_pre2 + seq![
                        LemmaRowV {
                            lemma: senses[i as int].lemma,
                            form: lower_of(fs[j as int]),
                            language: senses[i as int].language,
                            synset: key,
                        },
                    ]);
                    assert(rows_mid + form_rows(senses[i as int], key, fs.take(j + 1))
                        =~= self.lemma_rows.deep_view());
                }
                j += 1;
            }
            proof {
                let fs = senses[i as int].forms;
                assert(fs.take(fs.len() as int) =~= fs);
                assert(senses.take(i + 1).drop_last() =~= senses.take(i as int));
                assert(senses.take(i + 1).last() == senses[i as int]);
                assert(rows_mid + form_rows(senses[i as int], key, fs) =~= rows0 + (
                rows_of_senses(senses.take(i as int), key) + rows_of_sense(
                    senses[i as int],
                    key,
                )));
            }
            i += 1;
        }
        proof {
            assert(senses.take(senses.len() as int) =~= senses);
            assert(senses.skip(senses.len() as int).len() == 0);
        }
        map_put_k(&mut self.synsets, key, synset);
        proof {
            assert(self@ =~~= insert_synset_spec(st0, key, sv));
        }
    }

    /// Bulk-inserts the loader's synsets, indexing each one.
    pub fn set_synsets(&mut self, values: Vec<(WNKey, Synset)>) -> (r: Result<
        (),
        WordNetLoadError,
    >)
        ensures
            r is Ok,
            final(self)@ == set_synsets_spec(old(self)@, values.deep_view()),
    {
        let ghost target = set_synsets_spec(old(self)@, values.deep_view());
        let mut vals = values;
        while vals.len() > 0
            invariant
                target == set_synsets_spec(self@, vals.deep_view()),
            decreases vals.len(),
        {
            let ghost pre = vals.deep_view();
            let (k, s) = vals.remove(0);
            proof {
                assert(vals.deep_view() =~= pre.drop_first());
                assert(pre[0] == (k, s.deep_view()));
            }
            self.insert_synset(k, s);
        }
        proof {
            assert(vals.deep_view().len() == 0);
        }
        Ok(())
    }

    /// Writes the store out again; the in-memory backend has nothing to do.
    pub fn recommit_synsets(&mut self) -> (r: Result<(), WordNetLoadError>)
        ensures
            r is Ok,
            final(self)@ == old(self)@,
    {
        Ok(())
    }

    /// Replaces one stored record in place, leaving every index alone.
    pub fn update_synset(&mut self, key: WNKey, synset: Synset) -> (r: Result<
        (),
        WordNetLoadError,
    >)
        ensures
            r is Ok,
            final(self)@ == update_synset_spec(old(self)@, key, synset.deep_view()),
    {
        let ghost sv = synset.deep_view();
        map_put_k(&mut self.synsets, key, synset);
        proof {
            assert(self@ =~~= update_synset_spec(old(self)@, key, sv));
        }
        Ok(())
    }

    /// Attaches a batch of typed links to the synsets that exist, skipping
    /// pairs already attached.
    pub fn insert_links(
        &mut self,
        link_type: crate::links::LinkType,
        values: Vec<(WNKey, String)>,
    ) -> (r: Result<(), WordNetLoadError>)
        ensures
            r is Ok,
            final(self)@ == insert_links_spec(old(self)@, link_type, values.deep_view()),
    {
        let ghost target = insert_links_spec(old(self)@, link_type, values.deep_view());
        let mut vals = values;
        while vals.len() > 0
            invariant
                target == insert_links_spec(self@, link_type, vals.deep_view()),
            decreases vals.len(),
        {
            let ghost pre = vals.deep_view();
            let (key, link_target) = vals.remove(0);
            proof {
                assert(vals.deep_view() =~= pre.drop_first());
                assert(pre[0] == (key, link_target@));
            }
            let ghost st_pre = self@;
            match map_find_k(&self.synsets, &key) {
                None => {
                    proof {
                        assert(add_link_spec(st_pre, key, link_type, link_target@) =~~= st_pre);
                    }
                },
                Some(i) => {
                    proof {
                        assert(self.synsets.deep_view()[i as int].1 == self.synsets@[
                            i as int].1.deep_view());
                    }
                    let mut ss = self.synsets[i].1.deep_clone();
                    if !links_contains(&ss.links, link_type, link_target.as_str()) {
                        let ghost sv = ss.deep_view();
                        ss.links.push(
                            crate::links::Link { link_type, target: link_target },
                        );
                        proof {
                            assert(ss.deep_view() =~= SynsetV {
                                links: sv.links.push(
                                    crate::links::LinkV {
                                        link_type,
                                        target: pre[0].1,
                                    },
                                ),
                                ..sv
                            });
                        }
                        map_put_k(&mut self.synsets, key, ss);
                        proof {
                            assert(self@ =~~= add_link_spec(st_pre, key, link_type, pre[0].1));
                        }
                    } else {
                        proof {
                            assert(add_link_spec(st_pre, key, link_type, pre[0].1) =~~= st_pre);
                        }
                    }
                },
            }
        }
        proof {
            assert(vals.deep_view().len() == 0);
        }
        Ok(())
    }

    /// Records a crosswalk table: each legacy id goes onto its synset, once,
    /// and into the version's reverse index.
    pub fn set_old_ids(&mut self, index: &str, values: Vec<(String, WNKey)>) -> (r: Result<
        (),
        WordNetLoadError,
    >)
        ensures
            r is Ok,
            final(self)@ == set_old_ids_spec(old(self)@, index@, values.deep_view()),
    {
        let ghost target = set_old_ids_spec(old(self)@, index@, values.deep_view());
        let mut vals = values;
        while vals.len() > 0
            invariant
                target == set_old_ids_spec(self@, index@, vals.deep_view()),
            decreases vals.len(),
        {
            let ghost pre = vals.deep_view();
            let (old_id, new_key) = vals.remove(0);
            proof {
                assert(vals.deep_view() =~= pre.drop_first());
                assert(pre[0] == (old_id@, new_key));
            }
            let ghost st_pre = self@;
            match map_find_k(&self.synsets, &new_key) {
                None => {
                    proof {
                        assert(add_old_key_spec(st_pre, index@, old_id@, new_key) =~~= st_pre);
                    }
                },
                Some(i) => {
                    proof {
                        assert(self.synsets.deep_view()[i as int].1 == self.synsets@[
                            i as int].1.deep_view());
                    }
                    let mut ss = self.synsets[i].1.deep_clone();
                    let cur: Vec<String> = match map_find_s(&ss.old_keys, index) {
                        Some(j) => {
                            proof {
                                assert(ss.old_keys.deep_view()[j as int].1 == ss.old_keys@[
                                    j as int].1.deep_view());
                            }
                            ss.old_keys[j].1.deep_clone()
                        },
                        None => Vec::new(),
                    };
                    proof {
                        assert(cur.deep_view() =~= old_keys_list(ss.deep_view(), index@));
                    }
                    if !string_vec_contains(&cur, old_id.as_str()) {
                        let ghost sv = ss.deep_view();
                        let mut cur2 = cur;
                        cur2.push(old_id.deep_clone());
                        proof {
                            assert(cur2.deep_view() =~= old_keys_list(sv, index@).push(old_id@));
                        }
                        map_put_s(&mut ss.old_keys, String::from_str(index), cur2);
                        proof {
                            assert(ss.deep_view() =~= SynsetV {
                                old_keys: put_s(
                                    sv.old_keys,
                                    index@,
                                    old_keys_list(sv, index@).push(old_id@),
                                ),
                                ..sv
                            });
                        }
                        map_put_k(&mut self.synsets, new_key, ss);
                        proof {
                            assert(self@ =~~= add_old_key_spec(st_pre, index@, pre[0].0, new_key));
                        }
                    } else {
                        proof {
                            assert(add_old_key_spec(st_pre, index@, pre[0].0, new_key)
                                =~~= st_pre);
                        }
                    }
                },
            }
            let ghost st_mid = self@;
            let inner: Vec<(String, WNKey)> = match map_find_s(&self.old_rows, index) {
                Some(j) => {
                    proof {
                        assert(self.old_rows.deep_view()[j as int].1 == self.old_rows@[
                            j as int].1.deep_view());
                    }
                    self.old_rows[j].1.deep_clone()
                },
                None => Vec::new(),
            };
            proof {
                assert(inner.deep_view() =~= old_index_of(st_mid, index@));
            }
            let mut inner2 = inner;
            map_put_s(&mut inner2, old_id, new_key);
            map_put_s(&mut self.old_rows, String::from_str(index), inner2);
            proof {
                assert(self@ =~~= put_old_row_spec(st_mid, index@, pre[0].0, new_key));
            }
        }
        proof {
            assert(vals.deep_view().len() == 0);
        }
        Ok(())
    }

    /// The synset id owning an ILI, if that ILI was loaded.
    pub fn get_id_by_ili(&self, ili: &str) -> (r: Result<Option<WNKey>, WordNetLoadError>)
        ensures
            r matches Ok(o) && o == assoc_s(self@.by_ili, ili@),
    {
        match map_find_s(&self.by_ili, ili) {
            Some(i) => Ok(Some(self.by_ili[i].1)),
            None => Ok(None),
        }
    }

    /// The synset id owning a sense key, if any.
    pub fn get_id_by_sense_key(&self, sense_key: &str) -> (r: Result<
        Option<WNKey>,
        WordNetLoadError,
    >)
        ensures
            r matches Ok(o) && o == assoc_s(self@.by_sense_key, sense_key@),
    {
        match map_find_s(&self.by_sense_key, sense_key) {
            Some(i) => Ok(Some(self.by_sense_key[i].1)),
            None => Ok(None),
        }
    }

    /// The stored synset under a key, if any.
    pub fn get_synset(&self, id: &WNKey) -> (r: Result<Option<Synset>, WordNetLoadError>)
        ensures
            r matches Ok(o) && o.deep_view() == assoc_k(self@.synsets, *id),
    {
        match map_find_k(&self.synsets, id) {
            Some(i) => {
                proof {
                    assert(self.synsets.deep_view()[i as int].1 == self.synsets@[
                        i as int].1.deep_view());
                }
                Ok(Some(self.synsets[i].1.deep_clone()))
            },
            None => Ok(None),
        }
    }

    /// Whether a legacy version of this name was ever loaded.
    pub fn has_legacy_index(&self, index: &str) -> (r: bool)
        ensures
            r == (assoc_s(self@.old_rows, index@) is Some),
    {
        match map_find_s(&self.old_rows, index) {
            Some(_) => true,
            None => false,
        }
    }

    /// The current id recorded for a legacy id of the named version.
    pub fn get_id_by_old_id(&self, index: &str, key: &str) -> (r: Result<
        Option<WNKey>,
        WordNetLoadError,
    >)
        ensures
            r matches Ok(o) && o == assoc_s(old_index_of(self@, index@), key@),
    {
        match map_find_s(&self.old_rows, index) {
            Some(i) => {
                proof {
                    assert(self.old_rows.deep_view()[i as int].1 == self.old_rows@[
                        i as int].1.deep_view());
                }
                match map_find_s(&self.old_rows[i].1, key) {
                    Some(j) => Ok(Some(self.old_rows[i].1[j].1)),
                    None => Ok(None),
                }
            },
            None => Ok(None),
        }
    }

    /// The current id recorded for a third-edition legacy id.
    pub fn get_id_by_pwn30(&self, key: &str) -> (r: Result<Option<WNKey>, WordNetLoadError>)
        ensures
            r matches Ok(o) && o == assoc_s(old_index_of(self@, "pwn30"@), key@),
    {
        self.get_id_by_old_id("pwn30", key)
    }

    /// The current id recorded for a second-edition legacy id.
    pub fn get_id_by_pwn20(&self, key: &str) -> (r: Result<Option<WNKey>, WordNetLoadError>)
        ensures
            r matches Ok(o) && o == assoc_s(old_index_of(self@, "pwn20"@), key@),
    {
        self.get_id_by_old_id("pwn20", key)
    }

    /// Hands the finished store over to the read path.
    pub fn finalize(&mut self) -> (r: Result<WordNet, WordNetLoadError>)
        ensures
            final(self)@ == old(self)@,
            r matches Ok(w) && w@ == old(self)@,
    {
        let w = WordNet {
            synsets: self.synsets.deep_clone(),
            by_ili: self.by_ili.deep_clone(),
            by_sense_key: self.by_sense_key.deep_clone(),
            lemma_rows: self.lemma_rows.deep_clone(),
            old_rows: self.old_rows.deep_clone(),
        };
        proof {
            assert(w@ =~~= old(self)@);
        }
        Ok(w)
    }
}

/// The keys of the rows that carry a lemma in a language, in row order,
/// duplicates kept.
pub open spec fn keys_for_lemma(rows: Seq<LemmaRowV>, lemma: Seq<char>, lang: Seq<char>) -> Seq<
    WNKey,
>
    decreases rows.len(),
{
    if rows.len() == 0 {
        Seq::empty()
    } else {
        let r = keys_for_lemma(rows.drop_last(), lemma, lang);
        if rows.last().lemma == lemma && rows.last().language == lang {
            r.push(rows.last().synset)
        } else {
            r
        }
    }
}

/// The keys with later duplicates removed, keeping first occurrences.
pub open spec fn dedup_keys(s: Seq<WNKey>) -> Seq<WNKey>
    decreases s.len(),
{
    if s.len() == 0 {
        Seq::empty()
    } else if s.drop_last().contains(s.last()) {
        dedup_keys(s.drop_last())
    } else {
        dedup_keys(s.drop_last()).push(s.last())
    }
}

/// Removing duplicates keeps exactly the values that were there.
pub proof fn lemma_dedup_contains(s: Seq<WNKey>, x: WNKey)
    ensures
        dedup_keys(s).contains(x) == s.contains(x),
    decreases s.len(),
{
    if s.len() > 0 {
        let dl = s.drop_last();
        lemma_dedup_contains(dl, x);
        // s.contains(x) holds exactly when dl contains x or x is the last.
        if s.contains(x) {
            let w = choose|w: int| 0 <= w < s.len() && s[w] == x;
            if w < s.len() - 1 {
                assert(dl[w] == x);
                assert(dl.contains(x));
            } else {
                assert(x == s.last());
            }
        }
        if dl.contains(x) {
            let w = choose|w: int| 0 <= w < dl.len() && dl[w] == x;
            assert(s[w] == x);
            assert(s.contains(x));
        }
        if x == s.last() {
            assert(s[s.len() - 1] == x);
            assert(s.contains(x));
        }
        if dl.contains(s.last()) {
            assert(dedup_keys(s) == dedup_keys(dl));
        } else {
            let d = dedup_keys(dl).push(s.last());
            assert(dedup_keys(s) == d);
            // d contains x exactly when dedup of the front does, or x is the
            // last element.
            if dedup_keys(dl).contains(x) {
                let w = choose|w: int|
                    0 <= w < dedup_keys(dl).len() && dedup_keys(dl)[w] == x;
                assert(d[w] == x);
                assert(d.contains(x));
            }
            if x == s.last() {
                assert(d[d.len() - 1] == x);
                assert(d.contains(x));
            }
            if d.contains(x) {
                let w = choose|w: int| 0 <= w < d.len() && d[w] == x;
                if w < d.len() - 1 {
                    assert(dedup_keys(dl)[w] == x);
                    assert(dedup_keys(dl).contains(x));
                } else {
                    assert(x == s.last());
                }
            }
        }
    }
}

/// The stored synsets under a list of keys, skipping keys that are not
/// there.
pub open spec fn synsets_for(st: StoreV, keys: Seq<WNKey>) -> Seq<SynsetV>
    decreases keys.len(),
{
    if keys.len() == 0 {
        Seq::empty()
    } else {
        let r = synsets_for(st, keys.drop_last());
        match assoc_k(st.synsets, keys.last()) {
            None => r,
            Some(sv) => r.push(sv),
        }
    }
}

/// The synsets that carry a lemma in a language: one per distinct owning
/// synset, in the order the lemma index lists them.
pub open spec fn store_get_by_lemma(st: StoreV, lemma: Seq<char>, lang: Seq<char>) -> Seq<SynsetV> {
    synsets_for(st, dedup_keys(keys_for_lemma(st.lemma_rows, lemma, lang)))
}

/// The synset owning an ILI, if any.
pub open spec fn store_get_by_ili(st: StoreV, ili: Seq<char>) -> Option<SynsetV> {
    match assoc_s(st.by_ili, ili) {
        None => None,
        Some(k) => assoc_k(st.synsets, k),
    }
}

/// The synset owning a sense key, if any.
pub open spec fn store_get_by_sense_key(st: StoreV, sk: Seq<char>) -> Option<SynsetV> {
    match assoc_s(st.by_sense_key, sk) {
        None => None,
        Some(k) => assoc_k(st.synsets, k),
    }
}

/// The synset recorded for a legacy id of a version, if any.
pub open spec fn store_get_by_old_id(st: StoreV, index: Seq<char>, id: Seq<char>) -> Option<
    SynsetV,
> {
    match assoc_s(old_index_of(st, index), id) {
        None => None,
        Some(k) => assoc_k(st.synsets, k),
    }
}

/// All stored keys, in store order.
pub open spec fn keys_of(s: Seq<(WNKey, SynsetV)>) -> Seq<WNKey> {
    Seq::new(s.len(), |i: int| s[i].0)
}

/// The string keys of an index, in index order.
pub open spec fn skeys<V>(s: Seq<(Seq<char>, V)>) -> Seq<Seq<char>> {
    Seq::new(s.len(), |i: int| s[i].0)
}

/// The case-folded forms of the rows that serve a language and begin with
/// the seed, in row order.
pub open spec fn candidate_forms(rows: Seq<LemmaRowV>, seed: Seq<char>, lang: Seq<char>) -> Seq<
    Seq<char>,
>
    decreases rows.len(),
{
    if rows.len() == 0 {
        Seq::empty()
    } else {
        let r = candidate_forms(rows.drop_last(), seed, lang);
        if rows.last().language == lang && is_prefix(seed, rows.last().form) {
            r.push(rows.last().form)
        } else {
            r
        }
    }
}

/// The lemma of the first row that carries a form in a language; empty when
/// no row does.
pub open spec fn first_lemma_for(rows: Seq<LemmaRowV>, form: Seq<char>, lang: Seq<char>) -> Seq<
    char,
>
    decreases rows.len(),
{
    if rows.len() == 0 {
        Seq::empty()
    } else if rows[0].form == form && rows[0].language == lang {
        rows[0].lemma
    } else {
        first_lemma_for(rows.drop_first(), form, lang)
    }
}

/// What a bounded lemma scan returns: the lemma of the first row carrying
/// each of the up-to-`limit` ascending distinct case-folded forms at or
/// above the folded seed.
pub open spec fn store_list_by_lemma(
    st: StoreV,
    lemma: Seq<char>,
    lang: Seq<char>,
    limit: nat,
) -> Seq<Seq<char>> {
    let seed = lower_of(lemma);
    let forms = sscan(candidate_forms(st.lemma_rows, seed, lang), seed, false, limit);
    Seq::new(forms.len(), |i: int| first_lemma_for(st.lemma_rows, forms[i], lang))
}

impl WordNet {
    /// An empty store; the loaders fill a real one.
    pub fn new() -> (r: WordNet)
        ensures
            r@ == empty_store(),
    {
        let r = WordNet {
            synsets: Vec::new(),
            by_ili: Vec::new(),
            by_sense_key: Vec::new(),
            lemma_rows: Vec::new(),
            old_rows: Vec::new(),
        };
        proof {
            assert(r@ =~~= empty_store());
        }
        r
    }

    /// Every stored synset key, in store order.
    pub fn get_synset_ids(&self) -> (r: Result<Vec<WNKey>, WordNetLoadError>)
        ensures
            r matches Ok(v) && v@ == keys_of(self@.synsets),
    {
        let mut out: Vec<WNKey> = Vec::new();
        let mut i: usize = 0;
        while i < self.synsets.len()
            invariant
                i <= self.synsets.len(),
                out@.len() == i,
                forall|j: int| 0 <= j < i ==> out@[j] == self@.synsets[j].0,
            decreases self.synsets.len() - i,
        {
            proof {
                assert(self@.synsets[i as int].0 == self.synsets@[i as int].0);
            }
            out.push(self.synsets[i].0);
            i += 1;
        }
        proof {
            assert(out@ =~= keys_of(self@.synsets));
        }
        Ok(out)
    }

    /// The stored synset under a key, if any.
    pub fn get_synset(&self, key: &WNKey) -> (r: Result<Option<Synset>, WordNetLoadError>)
        ensures
            r matches Ok(o) && o.deep_view() == assoc_k(self@.synsets, *key),
    {
        match map_find_k(&self.synsets, key) {
            Some(i) => {
                proof {
                    assert(self.synsets.deep_view()[i as int].1 == self.synsets@[
                        i as int].1.deep_view());
                }
                Ok(Some(self.synsets[i].1.deep_clone()))
            },
            None => Ok(None),
        }
    }

    /// All synsets that carry this lemma in this language, one per synset.
    pub fn get_by_lemma(&self, lemma: &str, lang: &str) -> (r: Result<
        Vec<Synset>,
        WordNetLoadError,
    >)
        ensures
            r matches Ok(v) && v.deep_view() == store_get_by_lemma(self@, lemma@, lang@),
    {
        let ghost rows = self@.lemma_rows;
        let mut keys: Vec<WNKey> = Vec::new();
        let mut i: usize = 0;
        proof {
            assert(rows.take(0) =~= Seq::<LemmaRowV>::empty());
            assert(keys@ =~= dedup_keys(keys_for_lemma(rows.take(0), lemma@, lang@)));
        }
        while i < self.lemma_rows.len()
            invariant
                i <= self.lemma_rows.len(),
                rows == self@.lemma_rows,
                rows.len() == self.lemma_rows.len(),
                keys@ == dedup_keys(keys_for_lemma(rows.take(i as int), lemma@, lang@)),
            decreases self.lemma_rows.len() - i,
        {
            let row = &self.lemma_rows[i];
            proof {
                assert(rows[i as int] == self.lemma_rows@[i as int].deep_view());
                assert(rows.take(i + 1).drop_last() =~= rows.take(i as int));
                assert(rows.take(i + 1).last() == rows[i as int]);
            }
            if str_eq(row.lemma.as_str(), lemma) && str_eq(row.language.as_str(), lang) {
                let ghost kseq = keys_for_lemma(rows.take(i as int), lemma@, lang@);
                proof {
                    assert(keys_for_lemma(rows.take(i + 1), lemma@, lang@) == kseq.push(
                        rows[i as int].synset,
                    ));
                    assert(kseq.push(rows[i as int].synset).drop_last() =~= kseq);
                    lemma_dedup_contains(kseq, rows[i as int].synset);
                }
                if !key_vec_contains(&keys, &row.synset) {
                    keys.push(row.synset);
                }
            }
            i += 1;
        }
        proof {
            assert(rows.take(rows.len() as int) =~= rows);
        }
        let ghost dkeys = keys@;
        let mut out: Vec<Synset> = Vec::new();
        let mut j: usize = 0;
        proof {
            assert(dkeys.take(0) =~= Seq::<WNKey>::empty());
            assert(out.deep_view() =~= synsets_for(self@, dkeys.take(0)));
        }
        while j < keys.len()
            invariant
                j <= keys.len(),
                dkeys == keys@,
                keys@.len() == keys.len(),
                out.deep_view() == synsets_for(self@, dkeys.take(j as int)),
                self@.synsets == self.synsets.deep_view(),
            decreases keys.len() - j,
        {
            proof {
                assert(dkeys.take(j + 1).drop_last() =~= dkeys.take(j as int));
                assert(dkeys.take(j + 1).last() == dkeys[j as int]);
            }
            let ghost out_pre = out.deep_view();
            match map_find_k(&self.synsets, &keys[j]) {
                Some(i2) => {
                    proof {
                        assert(self.synsets.deep_view()[i2 as int].1 == self.synsets@[
                            i2 as int].1.deep_view());
                    }
                    out.push(self.synsets[i2].1.deep_clone());
                    proof {
                        assert(out.deep_view() =~= out_pre.push(
                            assoc_k(self@.synsets, dkeys[j as int]).unwrap(),
                        ));
                    }
                },
                None => {
                },
            }
            j += 1;
        }
        proof {
            assert(dkeys.take(dkeys.len() as int) =~= dkeys);
        }
        Ok(out)
    }

    /// The synset owning an ILI, if any.
    pub fn get_by_ili(&self, ili: &str) -> (r: Result<Option<Synset>, WordNetLoadError>)
        ensures
            r matches Ok(o) && o.deep_view() == store_get_by_ili(self@, ili@),
    {
        match map_find_s(&self.by_ili, ili) {
            Some(i) => self.get_synset(&self.by_ili[i].1),
            None => Ok(None),
        }
    }

    /// The synset owning a sense key, if any.
    pub fn get_by_sense_key(&self, sense_key: &str) -> (r: Result<
        Option<Synset>,
        WordNetLoadError,
    >)
        ensures
            r matches Ok(o) && o.deep_view() == store_get_by_sense_key(self@, sense_key@),
    {
        match map_find_s(&self.by_sense_key, sense_key) {
            Some(i) => self.get_synset(&self.by_sense_key[i].1),
            None => Ok(None),
        }
    }

    /// The synset recorded for a legacy id of the named version, if any.
    pub fn get_by_old_id(&self, index: &str, id: &str) -> (r: Result<
        Option<Synset>,
        WordNetLoadError,
    >)
        ensures
            r matches Ok(o) && o.deep_view() == store_get_by_old_id(self@, index@, id@),
    {
        match map_find_s(&self.old_rows, index) {
            Some(i) => {
                proof {
                    assert(self.old_rows.deep_view()[i as int].1 == self.old_rows@[
                        i as int].1.deep_view());
                }
                match map_find_s(&self.old_rows[i].1, id) {
                    Some(j) => self.get_synset(&self.old_rows[i].1[j].1),
                    None => Ok(None),
                }
            },
            None => Ok(None),
        }
    }

    /// Whether a legacy version of this name was ever loaded.
    pub fn has_legacy_index(&self, index: &str) -> (r: bool)
        ensures
            r == (assoc_s(self@.old_rows, index@) is Some),
    {
        match map_find_s(&self.old_rows, index) {
            Some(_) => true,
            None => false,
        }
    }

    /// Up to `limit` stored keys at or after `key`, ascending.
    pub fn list_by_id(&self, key: &WNKey, limit: u32) -> (r: Result<Vec<WNKey>, WordNetLoadError>)
        ensures
            r matches Ok(v) && v@ == kscan(keys_of(self@.synsets), *key, false, limit as nat),
    {
        let mut ids: Vec<WNKey> = Vec::new();
        let mut i: usize = 0;
        while i < self.synsets.len()
            invariant
                i <= self.synsets.len(),
                ids@.len() == i,
                forall|j: int| 0 <= j < i ==> ids@[j] == self@.synsets[j].0,
            decreases self.synsets.len() - i,
        {
            proof {
                assert(self@.synsets[i as int].0 == self.synsets@[i as int].0);
            }
            ids.push(self.synsets[i].0);
            i += 1;
        }
        proof {
            assert(ids@ =~= keys_of(self@.synsets));
        }
        Ok(kscan_exec(&ids, key, limit as usize))
    }

    /// Up to `limit` known ILIs at or after the seed, ascending.
    pub fn list_by_ili(&self, ili: &String, limit: u32) -> (r: Result<Vec<String>, WordNetLoadError>)
        ensures
            r matches Ok(v) && v.deep_view() == sscan(
                skeys(self@.by_ili),
                ili@,
                false,
                limit as nat,
            ),
    {
        let mut names: Vec<String> = Vec::new();
        let mut i: usize = 0;
        while i < self.by_ili.len()
            invariant
                i <= self.by_ili.len(),
                names.deep_view().len() == i,
                forall|j: int| 0 <= j < i ==> names.deep_view()[j] == self@.by_ili[j].0,
            decreases self.by_ili.len() - i,
        {
            let ghost pre = names.deep_view();
            proof {
                assert(self@.by_ili[i as int].0 == self.by_ili@[i as int].0@);
            }
            names.push(self.by_ili[i].0.deep_clone());
            proof {
                assert(names.deep_view() =~= pre.push(self@.by_ili[i as int].0));
            }
            i += 1;
        }
        proof {
            assert(names.deep_view() =~= skeys(self@.by_ili));
        }
        Ok(scan_strings(&names, ili.as_str(), limit as usize))
    }

    /// Up to `limit` known sense keys at or after the seed, ascending.
    pub fn list_by_sense_key(&self, sense_key: &String, limit: u32) -> (r: Result<
        Vec<String>,
        WordNetLoadError,
    >)
        ensures
            r matches Ok(v) && v.deep_view() == sscan(
                skeys(self@.by_sense_key),
                sense_key@,
                false,
                limit as nat,
            ),
    {
        let mut names: Vec<String> = Vec::new();
        let mut i: usize = 0;
        while i < self.by_sense_key.len()
            invariant
                i <= self.by_sense_key.len(),
                names.deep_view().len() == i,
                forall|j: int| 0 <= j < i ==> names.deep_view()[j] == self@.by_sense_key[j].0,
            decreases self.by_sense_key.len() - i,
        {
            let ghost pre = names.deep_view();
            proof {
                assert(self@.by_sense_key[i as int].0 == self.by_sense_key@[i as int].0@);
            }
            names.push(self.by_sense_key[i].0.deep_clone());
            proof {
                assert(names.deep_view() =~= pre.push(self@.by_sense_key[i as int].0));
            }
            i += 1;
        }
        proof {
            assert(names.deep_view() =~= skeys(self@.by_sense_key));
        }
        Ok(scan_strings(&names, sense_key.as_str(), limit as usize))
    }

    /// Up to `limit` legacy ids of a version at or after the seed,
    /// ascending.
    pub fn list_by_old_id(&self, index: &str, key: &str, limit: u32) -> (r: Result<
        Vec<String>,
        WordNetLoadError,
    >)
        ensures
            r matches Ok(v) && v.deep_view() == sscan(
                skeys(old_index_of(self@, index@)),
                key@,
                false,
                limit as nat,
            ),
    {
        let ghost inner_dv = old_index_of(self@, index@);
        let mut names: Vec<String> = Vec::new();
        match map_find_s(&self.old_rows, index) {
            Some(i) => {
                proof {
                    assert(self.old_rows.deep_view()[i as int].1 == self.old_rows@[
                        i as int].1.deep_view());
                }
                let inner = &self.old_rows[i].1;
                let mut j: usize = 0;
                while j < inner.len()
                    invariant
                        j <= inner.len(),
                        inner.deep_view() == inner_dv,
                        inner.len() == inner_dv.len(),
                        names.deep_view().len() == j,
                        forall|w: int| 0 <= w < j ==> names.deep_view()[w] == inner_dv[w].0,
                    decreases inner.len() - j,
                {
                    let ghost pre = names.deep_view();
                    proof {
                        assert(inner_dv[j as int].0 == inner@[j as int].0@);
                    }
                    names.push(inner[j].0.deep_clone());
                    proof {
                        assert(names.deep_view() =~= pre.push(inner_dv[j as int].0));
                    }
                    j += 1;
                }
            },
            None => {
                proof {
                    assert(inner_dv.len() == 0);
                }
            },
        }
        proof {
            assert(names.deep_view() =~= skeys(inner_dv));
        }
        Ok(scan_strings(&names, key, limit as usize))
    }

    /// Up to `limit` lemmas whose case-folded forms begin with the
    /// case-folded seed, served in ascending form order.
    pub fn list_by_lemma(&self, lemma: &String, language: &str, limit: u32) -> (r: Result<
        Vec<String>,
        WordNetLoadError,
    >)
        ensures
            r matches Ok(v) && v.deep_view() == store_list_by_lemma(
                self@,
                lemma@,
                language@,
                limit as nat,
            ),
    {
        let ghost rows = self@.lemma_rows;
        let seed = str_lowercase(lemma.as_str());
        let mut cands: Vec<String> = Vec::new();
        let mut i: usize = 0;
        proof {
            assert(rows.take(0) =~= Seq::<LemmaRowV>::empty());
            assert(cands.deep_view() =~= candidate_forms(rows.take(0), seed@, language@));
        }
        while i < self.lemma_rows.len()
            invariant
                i <= self.lemma_rows.len(),
                rows == self@.lemma_rows,
                rows.len() == self.lemma_rows.len(),
                seed@ == lower_of(lemma@),
                cands.deep_view() == candidate_forms(rows.take(i as int), seed@, language@),
            decreases self.lemma_rows.len() - i,
        {
            let row = &self.lemma_rows[i];
            proof {
                assert(rows[i as int] == self.lemma_rows@[i as int].deep_view());
                assert(rows.take(i + 1).drop_last() =~= rows.take(i as int));
                assert(rows.take(i + 1).last() == rows[i as int]);
            }
            let ghost pre = cands.deep_view();
            if str_eq(row.language.as_str(), language) && str_starts_with(
                row.form.as_str(),
                seed.as_str(),
            ) {
                cands.push(row.form.deep_clone());
                proof {
                    assert(cands.deep_view() =~= pre.push(rows[i as int].form));
                }
            }
            i += 1;
        }
        proof {
            assert(rows.take(rows.len() as int) =~= rows);
        }
        let forms = scan_strings(&cands, seed.as_str(), limit as usize);
        let ghost forms_dv = forms.deep_view();
        let mut out: Vec<String> = Vec::new();
        let mut j: usize = 0;
        while j < forms.len()
            invariant
                j <= forms.len(),
                forms.deep_view() == forms_dv,
                forms.len() == forms_dv.len(),
                rows == self@.lemma_rows,
                rows.len() == self.lemma_rows.len(),
                out.deep_view().len() == j,
                forall|w: int|
                    0 <= w < j ==> out.deep_view()[w] == first_lemma_for(
                        rows,
                        forms_dv[w],
                        language@,
                    ),
            decreases forms.len() - j,
        {
            let form = &forms[j];
            proof {
                assert(forms_dv[j as int] == forms@[j as int]@);
            }
            let mut w: usize = 0;
            let mut found: Option<usize> = None;
            proof {
                assert(rows.skip(0) =~= rows);
            }
            while w < self.lemma_rows.len()
                invariant
                    w <= self.lemma_rows.len(),
                    rows == self@.lemma_rows,
                    rows.len() == self.lemma_rows.len(),
                    found is None,
                    forms_dv[j as int] == forms@[j as int]@,
                    j < forms.len(),
                    first_lemma_for(rows, forms_dv[j as int], language@) == first_lemma_for(
                        rows.skip(w as int),
                        forms_dv[j as int],
                        language@,
                    ),
                decreases self.lemma_rows.len() - w,
            {
                let row = &self.lemma_rows[w];
                proof {
                    assert(rows.skip(w as int)[0] == rows[w as int]);
                    assert(rows[w as int] == self.lemma_rows@[w as int].deep_view());
                    assert(rows.skip(w as int).drop_first() =~= rows.skip(w + 1));
                }
                if str_eq(row.form.as_str(), form.as_str()) && str_eq(
                    row.language.as_str(),
                    language,
                ) {
                    found = Some(w);
                    break ;
                }
                w += 1;
            }
            let ghost pre = out.deep_view();
            match found {
                Some(w2) => {
                    out.push(self.lemma_rows[w2].lemma.deep_clone());
                },
                None => {
                    proof {
                        assert(rows.skip(rows.len() as int).len() == 0);
                    }
                    out.push(String::new());
                },
            }
            proof {
                assert(out.deep_view() =~= pre.push(
                    first_lemma_for(rows, forms_dv[j as int], language@),
                ));
            }
            j += 1;
        }
        proof {
            assert(out.deep_view() =~= store_list_by_lemma(self@, lemma@, language@, limit as nat));
        }
        Ok(out)
    }
}

/// A value an association list holds is one of its entries.
pub proof fn lemma_assoc_s_contains<V>(s: Seq<(Seq<char>, V)>, k: Seq<char>)
    ensures
        assoc_s(s, k) matches Some(v) ==> s.contains((k, v)),
    decreases s.len(),
{
    if s.len() > 0 {
        if s[0].0 == k {
            assert(s[0] == (k, s[0].1));
        } else {
            lemma_assoc_s_contains(s.drop_first(), k);
            match assoc_s(s, k) {
                Some(v) => {
                    assert(s.drop_first().contains((k, v)));
                    let w = choose|w: int|
                        0 <= w < s.drop_first().len() && s.drop_first()[w] == (k, v);
                    assert(s[w + 1] == (k, v));
                },
                None => {
                },
            }
        }
    }
}

/// A value an association list holds under a packed key is one of its
/// entries.
pub proof fn lemma_assoc_k_contains<V>(s: Seq<(WNKey, V)>, k: WNKey)
    ensures
        assoc_k(s, k) matches Some(v) ==> s.contains((k, v)),
    decreases s.len(),
{
    if s.len() > 0 {
        if s[0].0 == k {
            assert(s[0] == (k, s[0].1));
        } else {
            lemma_assoc_k_contains(s.drop_first(), k);
            match assoc_k(s, k) {
                Some(v) => {
                    assert(s.drop_first().contains((k, v)));
                    let w = choose|w: int|
                        0 <= w < s.drop_first().len() && s.drop_first()[w] == (k, v);
                    assert(s[w + 1] == (k, v));
                },
                None => {
                },
            }
        }
    }
}

/// Every entry of a put is the new binding or one of the old entries.
pub proof fn lemma_put_s_elems<V>(s: Seq<(Seq<char>, V)>, k: Seq<char>, v: V)
    ensures
        forall|i: int|
            0 <= i < put_s(s, k, v).len() ==> #[trigger] put_s(s, k, v)[i] == (k, v)
                || s.contains(put_s(s, k, v)[i]),
    decreases s.len(),
{
    let p = put_s(s, k, v);
    if s.len() == 0 {
    } else if s[0].0 == k {
        assert forall|i: int| 0 <= i < p.len() implies #[trigger] p[i] == (k, v) || s.contains(
            p[i],
        ) by {
            if i > 0 {
                assert(p[i] == s.drop_first()[i - 1]);
                assert(p[i] == s[i]);
                assert(s.contains(p[i]));
            }
        }
    } else {
        lemma_put_s_elems(s.drop_first(), k, v);
        let q = put_s(s.drop_first(), k, v);
        assert forall|i: int| 0 <= i < p.len() implies #[trigger] p[i] == (k, v) || s.contains(
            p[i],
        ) by {
            if i == 0 {
                assert(p[0] == s[0]);
                assert(s.contains(p[0]));
            } else {
                assert(p[i] == q[i - 1]);
                if q[i - 1] != (k, v) {
                    assert(s.drop_first().contains(q[i - 1]));
                    let w = choose|w: int|
                        0 <= w < s.drop_first().len() && s.drop_first()[w] == q[i - 1];
                    assert(s[w + 1] == q[i - 1]);
                    assert(s.contains(p[i]));
                }
            }
        }
    }
}

/// Every entry of a put under a packed key is the new binding or one of the
/// old entries.
pub proof fn lemma_put_k_elems<V>(s: Seq<(WNKey, V)>, k: WNKey, v: V)
    ensures
        forall|i: int|
            0 <= i < put_k(s, k, v).len() ==> #[trigger] put_k(s, k, v)[i] == (k, v)
                || s.contains(put_k(s, k, v)[i]),
    decreases s.len(),
{
    let p = put_k(s, k, v);
    if s.len() == 0 {
    } else if s[0].0 == k {
        assert forall|i: int| 0 <= i < p.len() implies #[trigger] p[i] == (k, v) || s.contains(
            p[i],
        ) by {
            if i > 0 {
                assert(p[i] == s.drop_first()[i - 1]);
                assert(p[i] == s[i]);
                assert(s.contains(p[i]));
            }
        }
    } else {
        lemma_put_k_elems(s.drop_first(), k, v);
        let q = put_k(s.drop_first(), k, v);
        assert forall|i: int| 0 <= i < p.len() implies #[trigger] p[i] == (k, v) || s.contains(
            p[i],
        ) by {
            if i == 0 {
                assert(p[0] == s[0]);
                assert(s.contains(p[0]));
            } else {
                assert(p[i] == q[i - 1]);
                if q[i - 1] != (k, v) {
                    assert(s.drop_first().contains(q[i - 1]));
                    let w = choose|w: int|
                        0 <= w < s.drop_first().len() && s.drop_first()[w] == q[i - 1];
                    assert(s[w + 1] == q[i - 1]);
                    assert(s.contains(p[i]));
                }
            }
        }
    }
}

/// No string occurs twice.
pub open spec fn distinct_strs(s: Seq<Seq<char>>) -> bool {
    forall|i: int, j: int| 0 <= i < j < s.len() ==> s[i] != s[j]
}

/// Every per-version legacy-id list of every stored synset is free of
/// duplicates.
pub open spec fn no_dup_old_keys(st: StoreV) -> bool {
    forall|i: int, j: int|
        0 <= i < st.synsets.len() && 0 <= j < st.synsets[i].1.old_keys.len()
            ==> distinct_strs(#[trigger] st.synsets[i].1.old_keys[j].1)
}

/// One crosswalk pair keeps every legacy-id list free of duplicates.
proof fn lemma_old_id_step_no_dup(st: StoreV, index: Seq<char>, old_id: Seq<char>, k: WNKey)
    requires
        no_dup_old_keys(st),
    ensures
        no_dup_old_keys(set_old_id_step(st, index, old_id, k)),
{
    let st2 = add_old_key_spec(st, index, old_id, k);
    assert(set_old_id_step(st, index, old_id, k).synsets == st2.synsets);
    match assoc_k(st.synsets, k) {
        None => {
        },
        Some(sv) => {
            lemma_assoc_k_contains(st.synsets, k);
            let widx = choose|w: int|
                0 <= w < st.synsets.len() && st.synsets[w] == (k, sv);
            assert(st.synsets.contains((k, sv)));
            let l = old_keys_list(sv, index);
            if !l.contains(old_id) {
                // the synset's old lists are distinct, so the pushed list is
                // distinct too
                assert(distinct_strs(l)) by {
                    match assoc_s(sv.old_keys, index) {
                        Some(l2) => {
                            lemma_assoc_s_contains(sv.old_keys, index);
                            let w2 = choose|w2: int|
                                0 <= w2 < sv.old_keys.len() && sv.old_keys[w2] == (index, l2);
                            assert(st.synsets[widx].1.old_keys[w2].1 == l2);
                        },
                        None => {
                        },
                    }
                }
                let nl = l.push(old_id);
                assert(distinct_strs(nl)) by {
                    assert forall|i: int, j: int| 0 <= i < j < nl.len() implies nl[i] != nl[j] by {
                        if j == nl.len() - 1 {
                            assert(nl[j] == old_id);
                            assert(nl[i] == l[i]);
                            if l[i] == old_id {
                                assert(l.contains(old_id));
                            }
                        } else {
                            assert(nl[i] == l[i] && nl[j] == l[j]);
                        }
                    }
                }
                let sv2 = SynsetV { old_keys: put_s(sv.old_keys, index, nl), ..sv };
                lemma_put_s_elems(sv.old_keys, index, nl);
                assert forall|j: int| 0 <= j < sv2.old_keys.len() implies distinct_strs(
                    #[trigger] sv2.old_keys[j].1,
                ) by {
                    if sv2.old_keys[j] != (index, nl) {
                        assert(sv.old_keys.contains(sv2.old_keys[j]));
                        let w3 = choose|w3: int|
                            0 <= w3 < sv.old_keys.len() && sv.old_keys[w3] == sv2.old_keys[j];
                        assert(st.synsets[widx].1.old_keys[w3].1 == sv2.old_keys[j].1);
                    }
                }
                lemma_put_k_elems(st.synsets, k, sv2);
                assert forall|i: int, j: int|
                    0 <= i < st2.synsets.len() && 0 <= j < st2.synsets[i].1.old_keys.len() implies
                    distinct_strs(#[trigger] st2.synsets[i].1.old_keys[j].1) by {
                    if st2.synsets[i] != (k, sv2) {
                        assert(st.synsets.contains(st2.synsets[i]));
                        let w4 = choose|w4: int|
                            0 <= w4 < st.synsets.len() && st.synsets[w4] == st2.synsets[i];
                        assert(st.synsets[w4].1.old_keys[j].1 == st2.synsets[i].1.old_keys[j].1);
                    }
                }
            }
        },
    }
}

/// Law: however often crosswalk tables are loaded — once, or again over the
/// same rows — no synset's per-version legacy-id list ever holds a
/// duplicate entry.
pub proof fn lemma_set_old_ids_no_duplicates(
    st: StoreV,
    index: Seq<char>,
    values: Seq<(Seq<char>, WNKey)>,
)
    requires
        no_dup_old_keys(st),
    ensures
        no_dup_old_keys(set_old_ids_spec(st, index, values)),
    decreases values.len(),
{
    if values.len() > 0 {
        lemma_old_id_step_no_dup(st, index, values[0].0, values[0].1);
        lemma_set_old_ids_no_duplicates(
            set_old_id_step(st, index, values[0].0, values[0].1),
            index,
            values.drop_first(),
        );
    }
}

/// An empty store has no legacy-id lists at all.
pub proof fn lemma_empty_store_no_dup()
    ensures
        no_dup_old_keys(empty_store()),
{
}

/// Inserting a synset that carries no legacy ids yet keeps every legacy-id
/// list free of duplicates.
proof fn lemma_insert_synset_no_dup(st: StoreV, k: WNKey, sv: SynsetV)
    requires
        no_dup_old_keys(st),
        sv.old_keys.len() == 0,
    ensures
        no_dup_old_keys(insert_synset_spec(st, k, sv)),
{
    let st2 = insert_synset_spec(st, k, sv);
    lemma_put_k_elems(st.synsets, k, sv);
    assert forall|i: int, j: int|
        0 <= i < st2.synsets.len() && 0 <= j < st2.synsets[i].1.old_keys.len() implies
        distinct_strs(#[trigger] st2.synsets[i].1.old_keys[j].1) by {
        if st2.synsets[i] != (k, sv) {
            assert(st.synsets.contains(st2.synsets[i]));
            let w = choose|w: int| 0 <= w < st.synsets.len() && st.synsets[w] == st2.synsets[i];
            assert(st.synsets[w].1.old_keys[j].1 == st2.synsets[i].1.old_keys[j].1);
        }
    }
}

/// Law: a bulk insert of synsets that carry no legacy ids yet — as the
/// loader publishes them — keeps every legacy-id list free of duplicates,
/// so the crosswalk law's premise holds of every loaded store.
pub proof fn lemma_set_synsets_no_dup(st: StoreV, values: Seq<(WNKey, SynsetV)>)
    requires
        no_dup_old_keys(st),
        forall|i: int| 0 <= i < values.len() ==> (#[trigger] values[i]).1.old_keys.len() == 0,
    ensures
        no_dup_old_keys(set_synsets_spec(st, values)),
    decreases values.len(),
{
    if values.len() > 0 {
        lemma_insert_synset_no_dup(st, values[0].0, values[0].1);
        assert(forall|i: int|
            0 <= i < values.drop_first().len() ==> (#[trigger] values.drop_first()[i]).1.old_keys.len()
                == 0);
        lemma_set_synsets_no_dup(
            insert_synset_spec(st, values[0].0, values[0].1),
            values.drop_first(),
        );
    }
}

/// Every case-folded form the candidate filter keeps begins with the seed.
proof fn lemma_candidate_forms_prefix(rows: Seq<LemmaRowV>, seed: Seq<char>, lang: Seq<char>)
    ensures
        forall|i: int|
            0 <= i < candidate_forms(rows, seed, lang).len() ==> is_prefix(
                seed,
                #[trigger] candidate_forms(rows, seed, lang)[i],
            ),
    decreases rows.len(),
{
    if rows.len() > 0 {
        lemma_candidate_forms_prefix(rows.drop_last(), seed, lang);
        let r = candidate_forms(rows, seed, lang);
        let rl = candidate_forms(rows.drop_last(), seed, lang);
        assert forall|i: int| 0 <= i < r.len() implies is_prefix(seed, #[trigger] r[i]) by {
            if rows.last().language == lang && is_prefix(seed, rows.last().form) {
                if i < r.len() - 1 {
                    assert(r[i] == rl[i]);
                }
            } else {
                assert(r[i] == rl[i]);
            }
        }
    }
}

/// Law: a bounded lemma scan yields at most `limit` lemmas; the distinct
/// case-folded forms that witness them all begin with the case-folded seed,
/// are at or after it, and ascend strictly — so the listing is ordered and
/// stable, and repeated calls on an unmodified store return the same list.
pub proof fn lemma_scan_prefix_law(st: StoreV, lemma: Seq<char>, lang: Seq<char>, limit: nat)
    ensures
        store_list_by_lemma(st, lemma, lang, limit).len() <= limit,
        ({
            let seed = lower_of(lemma);
            let forms = sscan(candidate_forms(st.lemma_rows, seed, lang), seed, false, limit);
            &&& store_list_by_lemma(st, lemma, lang, limit).len() == forms.len()
            &&& forall|i: int|
                0 <= i < forms.len() ==> is_prefix(seed, #[trigger] forms[i]) && lex_le(
                    seed,
                    forms[i],
                )
            &&& forall|i: int, j: int|
                0 <= i < j < forms.len() ==> lex_lt(#[trigger] forms[i], #[trigger] forms[j])
        }),
{
    let seed = lower_of(lemma);
    let cands = candidate_forms(st.lemma_rows, seed, lang);
    let forms = sscan(cands, seed, false, limit);
    lemma_sscan(cands, seed, false, limit);
    lemma_candidate_forms_prefix(st.lemma_rows, seed, lang);
    assert forall|i: int| 0 <= i < forms.len() implies is_prefix(seed, #[trigger] forms[i])
        && lex_le(seed, forms[i]) by {
        assert(cands.contains(forms[i]));
        let w = choose|w: int| 0 <= w < cands.len() && cands[w] == forms[i];
        assert(is_prefix(seed, cands[w]));
        assert(s_ok(seed, false, forms[i]));
    }
}

} // verus!

