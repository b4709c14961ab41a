//! The streaming LMF loader: a state machine over the document's event
//! sequence that reconstructs the entry/sense/synset graph, resolving
//! forward and backward references across element boundaries, and the
//! enrichment passes that read crosswalk and translation tables.
use crate::keys::WNKey;
use crate::model::{DeepClone, PartOfSpeech, Pronunciation, Relation, RelationV, Sense, SenseV,
    Synset, SynsetV, pos_of_letter};
use crate::text::{find_ch, is_prefix, lower_of, replace_all, str_eq, str_find_char, str_replace,
    str_starts_with, str_split, split_on};
use crate::wordnet::{WordNet, WordNetBuilder, WordNetLoadError, assoc_s, put_s};
use crate::xml_events::{XmlTok, parse_xml, xml_events_of, xml_wf};
use vstd::prelude::*;

verus! {

/// The value under the first occurrence of a pair key.
pub open spec fn assoc_p<V>(
    s: Seq<((Seq<char>, Seq<char>), V)>,
    k: (Seq<char>, Seq<char>),
) -> Option<V>
    decreases s.len(),
{
    if s.len() == 0 {
        None
    } else if s[0].0 == k {
        Some(s[0].1)
    } else {
        assoc_p(s.drop_first(), k)
    }
}

/// Replaces the first binding of a pair key in place, or appends one.
pub open spec fn put_p<V>(
    s: Seq<((Seq<char>, Seq<char>), V)>,
    k: (Seq<char>, Seq<char>),
    v: V,
) -> Seq<((Seq<char>, Seq<char>), V)>
    decreases s.len(),
{
    if s.len() == 0 {
        seq![(k, v)]
    } else if s[0].0 == k {
        seq![(k, v)] + s.drop_first()
    } else {
        seq![s[0]] + put_p(s.drop_first(), k, v)
    }
}

/// Drops the first binding of a pair key, if any.
pub open spec fn remove_p<V>(
    s: Seq<((Seq<char>, Seq<char>), V)>,
    k: (Seq<char>, Seq<char>),
) -> Seq<((Seq<char>, Seq<char>), V)>
    decreases s.len(),
{
    if s.len() == 0 {
        s
    } else if s[0].0 == k {
        s.drop_first()
    } else {
        seq![s[0]] + remove_p(s.drop_first(), k)
    }
}

/// Finds the first binding of a pair key.
fn map_find_p<V: DeepView>(v: &Vec<((String, String), V)>, k0: &str, k1: &str) -> (r: Option<
    usize,
>)
    ensures
        r matches Some(i) ==> 0 <= i < v.len() && v.deep_view()[i as int].0 == (k0@, k1@)
            && assoc_p(v.deep_view(), (k0@, k1@)) == Some(v.deep_view()[i as int].1),
        r is None ==> assoc_p(v.deep_view(), (k0@, k1@)) is None,
{
    let mut i: usize = 0;
    proof {
        assert(v.deep_view().skip(0) =~= v.deep_view());
    }
    while i < v.len()
        invariant
            i <= v.len(),
            assoc_p(v.deep_view(), (k0@, k1@)) == assoc_p(
                v.deep_view().skip(i as int),
                (k0@, k1@),
            ),
        decreases v.len() - i,
    {
        proof {
            assert(v.deep_view().skip(i as int)[0] == v.deep_view()[i as int]);
            assert(v.deep_view()[i as int].0 == (v@[i as int].0.0@, v@[i as int].0.1@));
        }
        if str_eq(v[i].0.0.as_str(), k0) && str_eq(v[i].0.1.as_str(), k1) {
            proof {
                assert(v.deep_view()[i as int].0 =~= (k0@, k1@));
            }
            return Some(i);
        }
        proof {
            assert(v.deep_view().skip(i as int).drop_first() =~= v.deep_view().skip(i + 1));
        }
        i += 1;
    }
    proof {
        assert(v.deep_view().skip(i as int).len() == 0);
    }
    None
}

/// Replaces or appends a binding of a pair key.
fn map_put_p<V: DeepView>(v: &mut Vec<((String, String), V)>, k: (String, String), value: V)
    ensures
        final(v).deep_view() == put_p(old(v).deep_view(), (k.0@, k.1@), value.deep_view()),
{
    let ghost kk = (k.0@, k.1@);
    let mut i: usize = 0;
    proof {
        assert(old(v).deep_view().skip(0) =~= old(v).deep_view());
        assert(old(v).deep_view().take(0) + put_p(old(v).deep_view(), kk, value.deep_view())
            =~= put_p(old(v).deep_view(), kk, value.deep_view()));
    }
    while i < v.len()
        invariant
            i <= v.len(),
            *v == *old(v),
            kk == (k.0@, k.1@),
            put_p(old(v).deep_view(), kk, value.deep_view()) == old(v).deep_view().take(i as int)
                + put_p(old(v).deep_view().skip(i as int), kk, value.deep_view()),
        decreases v.len() - i,
    {
        proof {
            assert(v.deep_view().skip(i as int)[0] == v.deep_view()[i as int]);
            assert(v.deep_view()[i as int].0 == (v@[i as int].0.0@, v@[i as int].0.1@));
        }
        if str_eq(v[i].0.0.as_str(), k.0.as_str()) && str_eq(v[i].0.1.as_str(), k.1.as_str()) {
            let ghost pre = v.deep_view();
            proof {
                assert(pre[i as int].0 =~= kk);
            }
            let _ = v.remove(i);
            v.insert(i, (k, value));
            proof {
                assert(put_p(pre.skip(i as int), kk, value.deep_view()) == seq![
                    (kk, value.deep_view()),
                ] + pre.skip(i as int).drop_first());
                assert(pre.skip(i as int).drop_first() =~= pre.skip(i + 1));
                assert(v.deep_view() =~= pre.take(i as int) + (seq![(kk, value.deep_view())]
                    + pre.skip(i + 1)));
            }
            return ;
        }
        proof {
            let pre = v.deep_view();
            assert(pre[i as int].0 != kk);
            assert(pre.skip(i as int).drop_first() =~= pre.skip(i + 1));
            assert(put_p(pre.skip(i as int), kk, value.deep_view()) == seq![pre[i as int]] + put_p(
                pre.skip(i + 1),
                kk,
                value.deep_view(),
            ));
            assert(pre.take(i as int) + (seq![pre[i as int]] + put_p(
                pre.skip(i + 1),
                kk,
                value.deep_view(),
            )) =~= pre.take(i + 1) + put_p(pre.skip(i + 1), kk, value.deep_view()));
        }
        i += 1;
    }
    let ghost pre = v.deep_view();
    v.push((k, value));
    proof {
        assert(pre.skip(pre.len() as int).len() == 0);
        assert(put_p(pre.skip(pre.len() as int), kk, value.deep_view()) == seq![
            (kk, value.deep_view()),
        ]);
        assert(pre.take(pre.len() as int) =~= pre);
        assert(v.deep_view() =~= pre.take(pre.len() as int) + put_p(
            pre.skip(pre.len() as int),
            kk,
            value.deep_view(),
        ));
    }
}

/// Drops the first binding of a pair key, if any.
fn map_remove_p<V: DeepView>(v: &mut Vec<((String, String), V)>, k0: &str, k1: &str)
    ensures
        final(v).deep_view() == remove_p(old(v).deep_view(), (k0@, k1@)),
{
    let ghost kk = (k0@, k1@);
    let mut i: usize = 0;
    proof {
        assert(old(v).deep_view().skip(0) =~= old(v).deep_view());
        assert(old(v).deep_view().take(0) + remove_p(old(v).deep_view(), kk) =~= remove_p(
            old(v).deep_view(),
            kk,
        ));
    }
    while i < v.len()
        invariant
            i <= v.len(),
            *v == *old(v),
            kk == (k0@, k1@),
            remove_p(old(v).deep_view(), kk) == old(v).deep_view().take(i as int) + remove_p(
                old(v).deep_view().skip(i as int),
                kk,
            ),
        decreases v.len() - i,
    {
        proof {
            assert(v.deep_view().skip(i as int)[0] == v.deep_view()[i as int]);
            assert(v.deep_view()[i as int].0 == (v@[i as int].0.0@, v@[i as int].0.1@));
        }
        if str_eq(v[i].0.0.as_str(), k0) && str_eq(v[i].0.1.as_str(), k1) {
            let ghost pre = v.deep_view();
            proof {
                assert(pre[i as int].0 =~= kk);
            }
            let _ = v.remove(i);
            proof {
                assert(remove_p(pre.skip(i as int), kk) == pre.skip(i as int).drop_first());
                assert(pre.skip(i as int).drop_first() =~= pre.skip(i + 1));
                assert(v.deep_view() =~= pre.take(i as int) + pre.skip(i + 1));
            }
            return ;
        }
        proof {
            let pre = v.deep_view();
            assert(pre[i as int].0 != kk);
            assert(pre.skip(i as int).drop_first() =~= pre.skip(i + 1));
            assert(remove_p(pre.skip(i as int), kk) == seq![pre[i as int]] + remove_p(
                pre.skip(i + 1),
                kk,
            ));
            assert(pre.take(i as int) + (seq![pre[i as int]] + remove_p(pre.skip(i + 1), kk))
                =~= pre.take(i + 1) + remove_p(pre.skip(i + 1), kk));
        }
        i += 1;
    }
    proof {
        let pre = v.deep_view();
        assert(pre.skip(pre.len() as int).len() == 0);
        assert(remove_p(pre.skip(pre.len() as int), kk) =~= pre.skip(pre.len() as int));
        assert(pre.take(pre.len() as int) + pre.skip(pre.len() as int) =~= pre);
    }
}

/// The value of the first attribute with a local name, if any.
pub open spec fn attr_of(attrs: Seq<(Seq<char>, Seq<char>)>, name: Seq<char>) -> Option<Seq<char>>
    decreases attrs.len(),
{
    if attrs.len() == 0 {
        None
    } else if attrs[0].0 == name {
        Some(attrs[0].1)
    } else {
        attr_of(attrs.drop_first(), name)
    }
}

/// Finds an attribute by local name.
pub fn attr_value(attrs: &Vec<(String, String)>, name: &str) -> (r: Option<String>)
    ensures
        r.deep_view() == attr_of(attrs.deep_view(), name@),
{
    let mut i: usize = 0;
    proof {
        assert(attrs.deep_view().skip(0) =~= attrs.deep_view());
    }
    while i < attrs.len()
        invariant
            i <= attrs.len(),
            attr_of(attrs.deep_view(), name@) == attr_of(
                attrs.deep_view().skip(i as int),
                name@,
            ),
        decreases attrs.len() - i,
    {
        proof {
            assert(attrs.deep_view().skip(i as int)[0] == attrs.deep_view()[i as int]);
            assert(attrs.deep_view()[i as int] == (attrs@[i as int].0@, attrs@[i as int].1@));
        }
        if str_eq(attrs[i].0.as_str(), name) {
            return Some(attrs[i].1.deep_clone());
        }
        proof {
            assert(attrs.deep_view().skip(i as int).drop_first() =~= attrs.deep_view().skip(
                i + 1,
            ));
        }
        i += 1;
    }
    proof {
        assert(attrs.deep_view().skip(i as int).len() == 0);
    }
    None
}

/// A synset reference with the legacy edition prefix stripped: both the bare
/// ten-character form and the prefixed form name the same synset.
pub open spec fn clean_id_spec(s: Seq<char>) -> Seq<char> {
    if is_prefix("wn31-"@, s) {
        s.skip(5)
    } else {
        s
    }
}

/// Strips the legacy edition prefix from a synset reference.
pub fn clean_id(s: &str) -> (r: String)
    ensures
        r@ == clean_id_spec(s@),
{
    proof {
        reveal_strlit("wn31-");
    }
    if str_starts_with(s, "wn31-") {
        let tail = s.substring_char(5, s.unicode_len());
        proof {
            assert(tail@ =~= s@.skip(5));
        }
        String::from_str(tail)
    } else {
        String::from_str(s)
    }
}

/// A sense key recovered from an encoded sense identifier: everything after
/// the first dash, with the five escape sequences folded back.
pub open spec fn unmap_sense_key_spec(s: Seq<char>) -> Seq<char> {
    if find_ch(s, '-') < s.len() {
        let tail = s.skip(find_ch(s, '-') + 1);
        replace_all(
            replace_all(
                replace_all(
                    replace_all(replace_all(tail, "__"@, "%"@), "-ap-"@, "'"@),
                    "-sl-"@,
                    "/"@,
                ),
                "-ex-"@,
                "!"@,
            ),
            "-cm-"@,
            ","@,
        )
    } else {
        Seq::empty()
    }
}

/// Recovers a sense key from an encoded sense identifier.
pub fn unmap_sense_key(sk: &str) -> (r: String)
    ensures
        r@ == unmap_sense_key_spec(sk@),
{
    proof {
        reveal_strlit("__");
        reveal_strlit("%");
        reveal_strlit("-ap-");
        reveal_strlit("'");
        reveal_strlit("-sl-");
        reveal_strlit("/");
        reveal_strlit("-ex-");
        reveal_strlit("!");
        reveal_strlit("-cm-");
        reveal_strlit(",");
    }
    match str_find_char(sk, '-') {
        Some(i) => {
            let len = sk.unicode_len();
            let tail = sk.substring_char(i + 1, len);
            proof {
                assert(tail@ =~= sk@.skip(find_ch(sk@, '-') + 1));
            }
            let a = str_replace(tail, "__", "%");
            let b = str_replace(a.as_str(), "-ap-", "'");
            let c = str_replace(b.as_str(), "-sl-", "/");
            let d = str_replace(c.as_str(), "-ex-", "!");
            str_replace(d.as_str(), "-cm-", ",")
        },
        None => String::new(),
    }
}

/// Why a load was abandoned: the markup broke the schema, or a synset
/// identifier was malformed.
pub enum LoadFault {
    Schema,
    Key,
}

/// The scratch state the loader threads through the event stream: one field
/// per cross-element reference the format forces it to remember.
pub struct LoadState {
    /// The id of the lexical entry being read.
    pub lexical_entry_id: Option<String>,
    /// The written form of the current entry's lemma.
    pub entry_lemma: Option<String>,
    /// entry id -> (synset id -> explicit or unmapped sense key).
    pub sense_keys: Vec<(String, Vec<(String, String)>)>,
    /// entry id -> lemma.
    pub entry_id_to_lemma: Vec<(String, String)>,
    /// synset id -> the (entry id, language) pairs whose senses point at it.
    pub synset_to_entry: Vec<(String, Vec<(String, String)>)>,
    /// sense id -> lemma of its entry.
    pub sense_to_lemma: Vec<(String, String)>,
    /// sense id -> synset id it points at.
    pub sense_to_synset: Vec<(String, String)>,
    /// entry id -> alternate written forms.
    pub entry_id_to_forms: Vec<(String, Vec<String>)>,
    /// (lemma, synset id) -> the sense id that joined them.
    pub entry_synset_to_sense: Vec<((String, String), String)>,
    /// entry id or sense id -> subcategorization frames declared for it.
    pub subcats: Vec<(String, Vec<String>)>,
    /// (lemma, synset id) -> frame references named by a sense.
    pub subcat_refs: Vec<((String, String), Vec<String>)>,
    /// The synset the current sense points at.
    pub synset: Option<String>,
    /// The id of the synset element being read.
    pub synset_id: Option<String>,
    /// The current synset's interlingual index, part of speech and subject.
    pub synset_ili_pos_subject: Option<(String, String, String)>,
    pub in_def: bool,
    pub definition: Option<String>,
    pub in_example: bool,
    pub examples: Vec<String>,
    /// The assembled synsets, by cleaned id.
    pub synsets: Vec<(String, Synset)>,
    /// owning synset id -> relations gathered so far.
    pub relations: Vec<(String, Vec<Relation>)>,
    /// The lexicon's language.
    pub language: String,
    /// (lemma, synset id) -> rank from the sense id's two-digit suffix.
    pub lemma_orders: Vec<((String, String), u32)>,
    /// The dialect tag of the pronunciation being read.
    pub variety: Option<String>,
    pub in_pron: bool,
    /// The pronunciations of the current entry.
    pub pronunciations: Vec<Pronunciation>,
    /// entry id -> its pronunciations.
    pub entry_id_to_prons: Vec<(String, Vec<Pronunciation>)>,
}

/// The loader state at the specification level.
#[verifier::ext_equal]
pub struct LoadStateV {
    pub lexical_entry_id: Option<Seq<char>>,
    pub entry_lemma: Option<Seq<char>>,
    pub sense_keys: Seq<(Seq<char>, Seq<(Seq<char>, Seq<char>)>)>,
    pub entry_id_to_lemma: Seq<(Seq<char>, Seq<char>)>,
    pub synset_to_entry: Seq<(Seq<char>, Seq<(Seq<char>, Seq<char>)>)>,
    pub sense_to_lemma: Seq<(Seq<char>, Seq<char>)>,
    pub sense_to_synset: Seq<(Seq<char>, Seq<char>)>,
    pub entry_id_to_forms: Seq<(Seq<char>, Seq<Seq<char>>)>,
    pub entry_synset_to_sense: Seq<((Seq<char>, Seq<char>), Seq<char>)>,
    pub subcats: Seq<(Seq<char>, Seq<Seq<char>>)>,
    pub subcat_refs: Seq<((Seq<char>, Seq<char>), Seq<Seq<char>>)>,
    pub synset: Option<Seq<char>>,
    pub synset_id: Option<Seq<char>>,
    pub synset_ili_pos_subject: Option<(Seq<char>, Seq<char>, Seq<char>)>,
    pub in_def: bool,
    pub definition: Option<Seq<char>>,
    pub in_example: bool,
    pub examples: Seq<Seq<char>>,
    pub synsets: Seq<(Seq<char>, SynsetV)>,
    pub relations: Seq<(Seq<char>, Seq<RelationV>)>,
    pub language: Seq<char>,
    pub lemma_orders: Seq<((Seq<char>, Seq<char>), u32)>,
    pub variety: Option<Seq<char>>,
    pub in_pron: bool,
    pub pronunciations: Seq<crate::model::PronunciationV>,
    pub entry_id_to_prons: Seq<(Seq<char>, Seq<crate::model::PronunciationV>)>,
}

impl DeepView for LoadState {
    type V = LoadStateV;

    open spec fn deep_view(&self) -> LoadStateV {
        LoadStateV {
            lexical_entry_id: self.lexical_entry_id.deep_view(),
            entry_lemma: self.entry_lemma.deep_view(),
            sense_keys: self.sense_keys.deep_view(),
            entry_id_to_lemma: self.entry_id_to_lemma.deep_view(),
            synset_to_entry: self.synset_to_entry.deep_view(),
            sense_to_lemma: self.sense_to_lemma.deep_view(),
            sense_to_synset: self.sense_to_synset.deep_view(),
            entry_id_to_forms: self.entry_id_to_forms.deep_view(),
            entry_synset_to_sense: self.entry_synset_to_sense.deep_view(),
            subcats: self.subcats.deep_view(),
            subcat_refs: self.subcat_refs.deep_view(),
            synset: self.synset.deep_view(),
            synset_id: self.synset_id.deep_view(),
            synset_ili_pos_subject: self.synset_ili_pos_subject.deep_view(),
            in_def: self.in_def,
            definition: self.definition.deep_view(),
            in_example: self.in_example,
            examples: self.examples.deep_view(),
            synsets: self.synsets.deep_view(),
            relations: self.relations.deep_view(),
            language: self.language@,
            lemma_orders: self.lemma_orders.deep_view(),
            variety: self.variety.deep_view(),
            in_pron: self.in_pron,
            pronunciations: self.pronunciations.deep_view(),
            entry_id_to_prons: self.entry_id_to_prons.deep_view(),
        }
    }
}

/// The state before the first event: everything empty, English as the
/// default language.
pub open spec fn init_state() -> LoadStateV {
    LoadStateV {
        lexical_entry_id: None,
        entry_lemma: None,
        sense_keys: Seq::empty(),
        entry_id_to_lemma: Seq::empty(),
        synset_to_entry: Seq::empty(),
        sense_to_lemma: Seq::empty(),
        sense_to_synset: Seq::empty(),
        entry_id_to_forms: Seq::empty(),
        entry_synset_to_sense: Seq::empty(),
        subcats: Seq::empty(),
        subcat_refs: Seq::empty(),
        synset: None,
        synset_id: None,
        synset_ili_pos_subject: None,
        in_def: false,
        definition: None,
        in_example: false,
        examples: Seq::empty(),
        synsets: Seq::empty(),
        relations: Seq::empty(),
        language: "en"@,
        lemma_orders: Seq::empty(),
        variety: None,
        in_pron: false,
        pronunciations: Seq::empty(),
        entry_id_to_prons: Seq::empty(),
    }
}

fn new_load_state() -> (r: LoadState)
    ensures
        r.deep_view() == init_state(),
{
    let r = LoadState {
        lexical_entry_id: None,
        entry_lemma: None,
        sense_keys: Vec::new(),
        entry_id_to_lemma: Vec::new(),
        synset_to_entry: Vec::new(),
        sense_to_lemma: Vec::new(),
        sense_to_synset: Vec::new(),
        entry_id_to_forms: Vec::new(),
        entry_synset_to_sense: Vec::new(),
        subcats: Vec::new(),
        subcat_refs: Vec::new(),
        synset: None,
        synset_id: None,
        synset_ili_pos_subject: None,
        in_def: false,
        definition: None,
        in_example: false,
        examples: Vec::new(),
        synsets: Vec::new(),
        relations: Vec::new(),
        language: String::from_str("en"),
        lemma_orders: Vec::new(),
        variety: None,
        in_pron: false,
        pronunciations: Vec::new(),
        entry_id_to_prons: Vec::new(),
    };
    proof {
        assert(r.deep_view() =~~= init_state());
    }
    r
}

/// The entry-number disambiguator read from the last character of an entry
/// id.
pub open spec fn entry_no_spec(id: Seq<char>) -> u32 {
    if id.len() == 0 {
        0
    } else if id.last() == '1' {
        1
    } else if id.last() == '2' {
        2
    } else if id.last() == '3' {
        3
    } else if id.last() == '4' {
        4
    } else {
        0
    }
}

fn entry_no_of(id: &str) -> (r: u32)
    ensures
        r == entry_no_spec(id@),
{
    let len = id.unicode_len();
    if len == 0 {
        return 0;
    }
    let c = id.get_char(len - 1);
    if c == '1' {
        1
    } else if c == '2' {
        2
    } else if c == '3' {
        3
    } else if c == '4' {
        4
    } else {
        0
    }
}

/// The rank a two-digit suffix gives a sense id, if it carries one.
pub open spec fn two_digit_suffix(sid: Seq<char>) -> Option<u32> {
    if sid.len() > 2 && crate::keys::is_digit(sid[sid.len() - 2]) && crate::keys::is_digit(
        sid.last(),
    ) {
        Some(
            (10 * crate::keys::digit_val(sid[sid.len() - 2]) + crate::keys::digit_val(
                sid.last(),
            )) as u32,
        )
    } else {
        None
    }
}

fn two_digit_suffix_of(sid: &str) -> (r: Option<u32>)
    ensures
        r == two_digit_suffix(sid@),
{
    let len = sid.unicode_len();
    if len <= 2 {
        return None;
    }
    let hi = crate::keys::digit_value(sid.get_char(len - 2));
    let lo = crate::keys::digit_value(sid.get_char(len - 1));
    match (hi, lo) {
        (Some(h), Some(l)) => Some(10 * h + l),
        _ => None,
    }
}

/// The rank senses are ordered by: the suffix-derived importance, or a low
/// default.
pub open spec fn rank_spec(s: SenseV) -> int {
    match s.importance {
        Some(x) => x as int,
        None => 100,
    }
}

fn rank_of(s: &Sense) -> (r: u32)
    ensures
        r as int == rank_spec(s.deep_view()),
{
    match s.importance {
        Some(x) => x,
        None => 100,
    }
}

/// Stable insertion of a sense behind every sense of equal or lower rank.
pub open spec fn insert_by_rank(s: Seq<SenseV>, x: SenseV) -> Seq<SenseV>
    decreases s.len(),
{
    if s.len() == 0 {
        seq![x]
    } else if rank_spec(s.last()) <= rank_spec(x) {
        s.push(x)
    } else {
        insert_by_rank(s.drop_last(), x).push(s.last())
    }
}

/// The senses of a synset in importance order: a stable insertion sort.
pub open spec fn sort_senses(s: Seq<SenseV>) -> Seq<SenseV>
    decreases s.len(),
{
    if s.len() == 0 {
        Seq::empty()
    } else {
        insert_by_rank(sort_senses(s.drop_last()), s.last())
    }
}

/// Where the stable insertion lands: directly behind the rightmost sense of
/// equal or lower rank.
proof fn lemma_insert_by_rank_at(s: Seq<SenseV>, x: SenseV, pos: int)
    requires
        0 <= pos <= s.len(),
        forall|w: int| pos <= w < s.len() ==> rank_spec(#[trigger] s[w]) > rank_spec(x),
        pos > 0 ==> rank_spec(s[pos - 1]) <= rank_spec(x),
    ensures
        insert_by_rank(s, x) == s.take(pos) + seq![x] + s.skip(pos),
    decreases s.len(),
{
    if s.len() == 0 {
        assert(insert_by_rank(s, x) =~= s.take(pos) + seq![x] + s.skip(pos));
    } else if rank_spec(s.last()) <= rank_spec(x) {
        assert(pos == s.len());
        assert(insert_by_rank(s, x) == s.push(x));
        assert(s.take(pos) =~= s);
        assert(s.skip(pos).len() == 0);
        assert(s.push(x) =~= s.take(pos) + seq![x] + s.skip(pos));
    } else {
        assert(pos < s.len());
        let dl = s.drop_last();
        assert(forall|w: int| pos <= w < dl.len() ==> #[trigger] dl[w] == s[w]);
        lemma_insert_by_rank_at(dl, x, pos);
        assert(insert_by_rank(s, x) == insert_by_rank(dl, x).push(s.last()));
        assert(insert_by_rank(dl, x) == dl.take(pos) + seq![x] + dl.skip(pos));
        assert(dl.take(pos) =~= s.take(pos));
        assert((dl.take(pos) + seq![x] + dl.skip(pos)).push(s.last()) =~= s.take(pos) + seq![x]
            + s.skip(pos));
    }
}

/// Appends a value to the list a string key holds, starting one if needed.
pub open spec fn add_to_list_s(
    m: Seq<(Seq<char>, Seq<Seq<char>>)>,
    k: Seq<char>,
    x: Seq<char>,
) -> Seq<(Seq<char>, Seq<Seq<char>>)> {
    let cur = match assoc_s(m, k) {
        Some(l) => l,
        None => Seq::empty(),
    };
    put_s(m, k, cur.push(x))
}

/// Appends a pair to the pair list a string key holds.
pub open spec fn add_to_pairs_s(
    m: Seq<(Seq<char>, Seq<(Seq<char>, Seq<char>)>)>,
    k: Seq<char>,
    x: (Seq<char>, Seq<char>),
) -> Seq<(Seq<char>, Seq<(Seq<char>, Seq<char>)>)> {
    let cur = match assoc_s(m, k) {
        Some(l) => l,
        None => Seq::empty(),
    };
    put_s(m, k, cur.push(x))
}

/// Appends a relation to the list an owning synset or sense holds.
pub open spec fn add_to_rels(
    m: Seq<(Seq<char>, Seq<RelationV>)>,
    k: Seq<char>,
    r: RelationV,
) -> Seq<(Seq<char>, Seq<RelationV>)> {
    let cur = match assoc_s(m, k) {
        Some(l) => l,
        None => Seq::empty(),
    };
    put_s(m, k, cur.push(r))
}

/// Records a sense key for one (entry, synset) pairing.
pub open spec fn set_sense_key(
    m: Seq<(Seq<char>, Seq<(Seq<char>, Seq<char>)>)>,
    entry_id: Seq<char>,
    target: Seq<char>,
    keyval: Seq<char>,
) -> Seq<(Seq<char>, Seq<(Seq<char>, Seq<char>)>)> {
    let cur = match assoc_s(m, entry_id) {
        Some(l) => l,
        None => Seq::empty(),
    };
    put_s(m, entry_id, put_s(cur, target, keyval))
}

/// Attaches one frame to every sense id of a space-separated list.
pub open spec fn add_subcats_list(
    m: Seq<(Seq<char>, Seq<Seq<char>>)>,
    sids: Seq<Seq<char>>,
    subcat: Seq<char>,
) -> Seq<(Seq<char>, Seq<Seq<char>>)>
    decreases sids.len(),
{
    if sids.len() == 0 {
        m
    } else {
        add_subcats_list(add_to_list_s(m, sids[0], subcat), sids.drop_first(), subcat)
    }
}

/// Attaches a back-referenced frame to a sense that names its id.
pub open spec fn add_frame_sense(s: SenseV, id: Seq<char>, frame: Seq<char>) -> SenseV {
    if s.subcat_refs.contains(id) {
        SenseV { subcats: s.subcats.push(frame), ..s }
    } else {
        s
    }
}

/// Attaches a back-referenced frame within one synset.
pub open spec fn add_frame_synset(sv: SynsetV, id: Seq<char>, frame: Seq<char>) -> SynsetV {
    SynsetV {
        lemmas: Seq::new(sv.lemmas.len(), |j: int| add_frame_sense(sv.lemmas[j], id, frame)),
        ..sv
    }
}

/// Attaches a top-level frame declaration to every assembled sense that
/// back-references its id.
pub open spec fn add_frame_all(
    synsets: Seq<(Seq<char>, SynsetV)>,
    id: Seq<char>,
    frame: Seq<char>,
) -> Seq<(Seq<char>, SynsetV)> {
    Seq::new(synsets.len(), |i: int| (synsets[i].0, add_frame_synset(synsets[i].1, id, frame)))
}

/// One sense of the synset being assembled, resolved from the scratch maps:
/// lemma and forms of its entry, explicit or unmapped sense key, frames from
/// the entry and from its sense id, pending frame references, suffix rank
/// and pronunciations.
pub open spec fn build_sense_spec(
    st: LoadStateV,
    ssid: Seq<char>,
    entry_id: Seq<char>,
    lang: Seq<char>,
    refs: Seq<((Seq<char>, Seq<char>), Seq<Seq<char>>)>,
) -> SenseV {
    let lemma = match assoc_s(st.entry_id_to_lemma, entry_id) {
        Some(l) => l,
        None => Seq::empty(),
    };
    let subcats1 = match assoc_s(st.subcats, entry_id) {
        Some(l) => l,
        None => Seq::empty(),
    };
    let subcats2 = match assoc_p(st.entry_synset_to_sense, (lemma, ssid)) {
        Some(sid) => match assoc_s(st.subcats, sid) {
            Some(l) => l,
            None => Seq::empty(),
        },
        None => Seq::empty(),
    };
    SenseV {
        lemma: lemma,
        language: lang,
        forms: match assoc_s(st.entry_id_to_forms, entry_id) {
            Some(l) => l,
            None => Seq::empty(),
        },
        sense_key: match assoc_s(st.sense_keys, entry_id) {
            Some(m) => assoc_s(m, ssid),
            None => None,
        },
        subcats: subcats1 + subcats2,
        subcat_refs: match assoc_p(refs, (lemma, ssid)) {
            Some(l) => l,
            None => Seq::empty(),
        },
        importance: assoc_p(st.lemma_orders, (lemma, ssid)),
        pronunciations: match assoc_s(st.entry_id_to_prons, entry_id) {
            Some(l) => l,
            None => Seq::empty(),
        },
        entry_no: entry_no_spec(entry_id),
    }
}

/// The lemma a sense carries when built: needed to consume its frame
/// references.
pub open spec fn sense_lemma_of(st: LoadStateV, entry_id: Seq<char>) -> Seq<char> {
    match assoc_s(st.entry_id_to_lemma, entry_id) {
        Some(l) => l,
        None => Seq::empty(),
    }
}

/// Builds the senses of a synset in association order, consuming each
/// sense's pending frame references as the source does.
pub open spec fn build_senses_spec(
    st: LoadStateV,
    ssid: Seq<char>,
    entries: Seq<(Seq<char>, Seq<char>)>,
    refs: Seq<((Seq<char>, Seq<char>), Seq<Seq<char>>)>,
) -> (Seq<SenseV>, Seq<((Seq<char>, Seq<char>), Seq<Seq<char>>)>)
    decreases entries.len(),
{
    if entries.len() == 0 {
        (Seq::empty(), refs)
    } else {
        let s0 = build_sense_spec(st, ssid, entries[0].0, entries[0].1, refs);
        let refs1 = remove_p(refs, (sense_lemma_of(st, entries[0].0), ssid));
        let (rest, refs2) = build_senses_spec(st, ssid, entries.drop_first(), refs1);
        (seq![s0] + rest, refs2)
    }
}

/// Resolves the gathered relations of a synset: sense-level edges get their
/// target word and owning synset; an unknown target sense id breaks the
/// schema.
pub open spec fn resolve_rels_spec(st: LoadStateV, raw: Seq<RelationV>) -> Result<
    Seq<RelationV>,
    LoadFault,
>
    decreases raw.len(),
{
    if raw.len() == 0 {
        Ok(Seq::empty())
    } else {
        let r0 = raw[0];
        let first: Result<RelationV, LoadFault> = if r0.src_word is Some {
            match assoc_s(st.sense_to_lemma, r0.target) {
                None => Err(LoadFault::Schema),
                Some(w) => match assoc_s(st.sense_to_synset, r0.target) {
                    None => Err(LoadFault::Schema),
                    Some(ss2) => Ok(
                        RelationV {
                            src_word: r0.src_word,
                            trg_word: Some(w),
                            rel_type: r0.rel_type,
                            target: ss2,
                        },
                    ),
                },
            }
        } else {
            Ok(r0)
        };
        match first {
            Err(f) => Err(f),
            Ok(rv) => match resolve_rels_spec(st, raw.drop_first()) {
                Err(f) => Err(f),
                Ok(rest) => Ok(seq![rv] + rest),
            },
        }
    }
}

/// Law: a synset's senses come one from each of the associations recorded
/// for its own id, in association order — a sense never carries another
/// entry's lemma, language or entry number, so synsets that share a lemma
/// cannot contaminate each other.
pub proof fn lemma_senses_attributed(
    st: LoadStateV,
    ssid: Seq<char>,
    entries: Seq<(Seq<char>, Seq<char>)>,
    refs: Seq<((Seq<char>, Seq<char>), Seq<Seq<char>>)>,
)
    ensures
        build_senses_spec(st, ssid, entries, refs).0.len() == entries.len(),
        forall|i: int|
            0 <= i < entries.len() ==> (#[trigger] build_senses_spec(st, ssid, entries, refs).0[i]).lemma
                == sense_lemma_of(st, entries[i].0),
        forall|i: int|
            0 <= i < entries.len() ==> (#[trigger] build_senses_spec(st, ssid, entries, refs).0[i]).language
                == entries[i].1,
        forall|i: int|
            0 <= i < entries.len() ==> (#[trigger] build_senses_spec(st, ssid, entries, refs).0[i]).entry_no
                == entry_no_spec(entries[i].0),
    decreases entries.len(),
{
    if entries.len() > 0 {
        let refs1 = remove_p(refs, (sense_lemma_of(st, entries[0].0), ssid));
        lemma_senses_attributed(st, ssid, entries.drop_first(), refs1);
        let ss = build_senses_spec(st, ssid, entries, refs).0;
        let rest = build_senses_spec(st, ssid, entries.drop_first(), refs1).0;
        assert(ss == seq![build_sense_spec(st, ssid, entries[0].0, entries[0].1, refs)] + rest);
        assert(ss[0] == build_sense_spec(st, ssid, entries[0].0, entries[0].1, refs));
        assert forall|i: int| 1 <= i < entries.len() implies #[trigger] ss[i] == rest[i - 1]
            && entries[i] == entries.drop_first()[i - 1] by {
        }
    }
}

/// Stable insertion keeps the length and the senses themselves.
proof fn lemma_insert_by_rank_multiset(s: Seq<SenseV>, x: SenseV)
    ensures
        insert_by_rank(s, x).len() == s.len() + 1,
        insert_by_rank(s, x).to_multiset() == s.push(x).to_multiset(),
    decreases s.len(),
{
    broadcast use vstd::seq_lib::group_to_multiset_ensures;

    if s.len() == 0 {
        assert(insert_by_rank(s, x) =~= s.push(x));
    } else if rank_spec(s.last()) <= rank_spec(x) {
    } else {
        lemma_insert_by_rank_multiset(s.drop_last(), x);
        assert(insert_by_rank(s, x) == insert_by_rank(s.drop_last(), x).push(s.last()));
        assert(s.drop_last().push(x).push(s.last()).to_multiset() =~= s.push(x).to_multiset())
            by {
            assert(s.drop_last().push(s.last()) =~= s);
            assert(s.drop_last().push(x).push(s.last()).to_multiset()
                == s.drop_last().to_multiset().insert(x).insert(s.last()));
            assert(s.push(x).to_multiset() == s.drop_last().to_multiset().insert(
                s.last(),
            ).insert(x));
        }
    }
}

/// Law: ordering a synset's senses by importance neither adds, drops nor
/// alters a sense — the sorted list holds exactly the built senses.
pub proof fn lemma_sort_senses_multiset(s: Seq<SenseV>)
    ensures
        sort_senses(s).len() == s.len(),
        sort_senses(s).to_multiset() == s.to_multiset(),
    decreases s.len(),
{
    broadcast use vstd::seq_lib::group_to_multiset_ensures;

    if s.len() > 0 {
        lemma_sort_senses_multiset(s.drop_last());
        lemma_insert_by_rank_multiset(sort_senses(s.drop_last()), s.last());
        assert(sort_senses(s.drop_last()).push(s.last()).to_multiset() == sort_senses(
            s.drop_last(),
        ).to_multiset().insert(s.last()));
        assert(s.drop_last().push(s.last()) =~= s);
        assert(s.to_multiset() == s.drop_last().to_multiset().insert(s.last()));
    }
}

/// Law: relation resolution keeps every edge in place and touches only the
/// words and the target — a sense-level edge (one carrying its source word)
/// gets the target sense's lemma as its target word and the synset owning
/// that sense as its target, while a synset-level edge comes through
/// unchanged, its words absent as they were.
pub proof fn lemma_relations_resolved(st: LoadStateV, raw: Seq<RelationV>)
    ensures
        resolve_rels_spec(st, raw) matches Ok(rs) ==> rs.len() == raw.len(),
        resolve_rels_spec(st, raw) matches Ok(rs) ==> forall|i: int|
            0 <= i < raw.len() ==> #[trigger] rs[i] == (if raw[i].src_word is Some {
                RelationV {
                    src_word: raw[i].src_word,
                    trg_word: Some(assoc_s(st.sense_to_lemma, raw[i].target)->Some_0),
                    rel_type: raw[i].rel_type,
                    target: assoc_s(st.sense_to_synset, raw[i].target)->Some_0,
                }
            } else {
                raw[i]
            }),
    decreases raw.len(),
{
    if raw.len() > 0 {
        lemma_relations_resolved(st, raw.drop_first());
        match resolve_rels_spec(st, raw) {
            Err(_) => {
            },
            Ok(rs) => {
                let rest = resolve_rels_spec(st, raw.drop_first())->Ok_0;
                assert(rs.drop_first() =~= rest);
                assert forall|i: int| 1 <= i < raw.len() implies #[trigger] rs[i] == rest[i - 1]
                    && raw[i] == raw.drop_first()[i - 1] by {
                }
            },
        }
    }
}

/// Assembles the synset that just ended: its senses collected, sorted by
/// importance, relations resolved, identifier parsed, and the per-synset
/// scratch state cleared. Missing parts break the schema; a malformed
/// identifier is a bad key.
pub open spec fn assemble_spec(st: LoadStateV) -> Result<LoadStateV, LoadFault> {
    match st.definition {
        None => Err(LoadFault::Schema),
        Some(defn) => match st.synset_id {
            None => Err(LoadFault::Schema),
            Some(ssid) => match st.synset_ili_pos_subject {
                None => Err(LoadFault::Schema),
                Some(ipo) => match pos_of_letter(ipo.1) {
                    None => Err(LoadFault::Schema),
                    Some(pos) => match WNKey::spec_parse(ssid) {
                        None => Err(LoadFault::Key),
                        Some(key) => {
                            let entries = match assoc_s(st.synset_to_entry, ssid) {
                                Some(e) => e,
                                None => Seq::empty(),
                            };
                            let (senses, refs2) = build_senses_spec(
                                st,
                                ssid,
                                entries,
                                st.subcat_refs,
                            );
                            let raw = match assoc_s(st.relations, ssid) {
                                Some(r) => r,
                                None => Seq::empty(),
                            };
                            match resolve_rels_spec(st, raw) {
                                Err(f) => Err(f),
                                Ok(rels) => {
                                    let sv = SynsetV {
                                        definition: defn,
                                        examples: st.examples,
                                        lemmas: sort_senses(senses),
                                        id: key,
                                        ili: ipo.0,
                                        pos: pos,
                                        subject: ipo.2,
                                        relations: rels,
                                        old_keys: Seq::empty(),
                                        gloss: None,
                                        foreign: Seq::empty(),
                                        links: Seq::empty(),
                                    };
                                    Ok(
                                        LoadStateV {
                                            synsets: put_s(st.synsets, ssid, sv),
                                            subcat_refs: refs2,
                                            synset_id: None,
                                            definition: None,
                                            examples: Seq::empty(),
                                            ..st
                                        },
                                    )
                                },
                            }
                        },
                    },
                },
            },
        },
    }
}

/// What one element start does to the state; `Err` aborts the load.
pub open spec fn start_spec(
    st: LoadStateV,
    name: Seq<char>,
    attrs: Seq<(Seq<char>, Seq<char>)>,
) -> Result<LoadStateV, LoadFault> {
    if name == "Lexicon"@ {
        match attr_of(attrs, "language"@) {
            Some(l) => Ok(LoadStateV { language: l, ..st }),
            None => Err(LoadFault::Schema),
        }
    } else if name == "LexicalEntry"@ {
        match attr_of(attrs, "id"@) {
            Some(id) => Ok(LoadStateV { lexical_entry_id: Some(id), ..st }),
            None => Err(LoadFault::Schema),
        }
    } else if name == "Lemma"@ {
        match st.lexical_entry_id {
            None => Err(LoadFault::Schema),
            Some(entry_id) => match attr_of(attrs, "writtenForm"@) {
                None => Err(LoadFault::Schema),
                Some(lemma) => Ok(
                    LoadStateV {
                        entry_lemma: Some(lemma),
                        entry_id_to_lemma: put_s(st.entry_id_to_lemma, entry_id, lemma),
                        ..st
                    },
                ),
            },
        }
    } else if name == "Form"@ {
        match attr_of(attrs, "writtenForm"@) {
            None => Ok(st),
            Some(f) => match st.lexical_entry_id {
                None => Err(LoadFault::Schema),
                Some(entry_id) => Ok(
                    LoadStateV {
                        entry_id_to_forms: add_to_list_s(st.entry_id_to_forms, entry_id, f),
                        ..st
                    },
                ),
            },
        }
    } else if name == "Sense"@ {
        match st.lexical_entry_id {
            None => Err(LoadFault::Schema),
            Some(entry_id) => match attr_of(attrs, "synset"@) {
                None => Err(LoadFault::Schema),
                Some(raw_target) => {
                    let target = clean_id_spec(raw_target);
                    match attr_of(attrs, "id"@) {
                        None => Err(LoadFault::Schema),
                        Some(sense_id) => {
                            let sk1 = match attr_of(attrs, "identifier"@) {
                                Some(ident) => set_sense_key(
                                    st.sense_keys,
                                    entry_id,
                                    target,
                                    ident,
                                ),
                                None => if crate::text::contains_seq(sense_id, "__"@) {
                                    set_sense_key(
                                        st.sense_keys,
                                        entry_id,
                                        target,
                                        unmap_sense_key_spec(sense_id),
                                    )
                                } else {
                                    st.sense_keys
                                },
                            };
                            match st.entry_lemma {
                                None => Err(LoadFault::Schema),
                                Some(word) => {
                                    let refs = match attr_of(attrs, "subcat"@) {
                                        Some(scs) => put_p(
                                            st.subcat_refs,
                                            (word, target),
                                            split_on(scs, ' '),
                                        ),
                                        None => st.subcat_refs,
                                    };
                                    let orders = match two_digit_suffix(sense_id) {
                                        Some(n) => put_p(st.lemma_orders, (word, target), n),
                                        None => st.lemma_orders,
                                    };
                                    Ok(
                                        LoadStateV {
                                            sense_keys: sk1,
                                            synset: Some(target),
                                            synset_to_entry: add_to_pairs_s(
                                                st.synset_to_entry,
                                                target,
                                                (entry_id, st.language),
                                            ),
                                            subcat_refs: refs,
                                            sense_to_lemma: put_s(
                                                st.sense_to_lemma,
                                                sense_id,
                                                word,
                                            ),
                                            sense_to_synset: put_s(
                                                st.sense_to_synset,
                                                sense_id,
                                                target,
                                            ),
                                            lemma_orders: orders,
                                            entry_synset_to_sense: put_p(
                                                st.entry_synset_to_sense,
                                                (word, target),
                                                sense_id,
                                            ),
                                            ..st
                                        },
                                    )
                                },
                            }
                        },
                    }
                },
            },
        }
    } else if name == "SenseRelation"@ {
        match attr_of(attrs, "relType"@) {
            None => Err(LoadFault::Schema),
            Some(typ) => match attr_of(attrs, "target"@) {
                None => Err(LoadFault::Schema),
                Some(targ) => match st.synset {
                    None => Err(LoadFault::Schema),
                    Some(ss) => match st.entry_lemma {
                        None => Err(LoadFault::Schema),
                        Some(word) => Ok(
                            LoadStateV {
                                relations: add_to_rels(
                                    st.relations,
                                    ss,
                                    RelationV {
                                        src_word: Some(word),
                                        trg_word: None,
                                        rel_type: typ,
                                        target: targ,
                                    },
                                ),
                                ..st
                            },
                        ),
                    },
                },
            },
        }
    } else if name == "SyntacticBehaviour"@ {
        match st.lexical_entry_id {
            Some(lid) => match attr_of(attrs, "subcategorizationFrame"@) {
                None => Err(LoadFault::Schema),
                Some(subcat) => match attr_of(attrs, "senses"@) {
                    Some(sense_list) => Ok(
                        LoadStateV {
                            subcats: add_subcats_list(
                                st.subcats,
                                split_on(sense_list, ' '),
                                subcat,
                            ),
                            ..st
                        },
                    ),
                    None => Ok(
                        LoadStateV { subcats: add_to_list_s(st.subcats, lid, subcat), ..st },
                    ),
                },
            },
            None => match attr_of(attrs, "id"@) {
                None => Err(LoadFault::Schema),
                Some(id) => match attr_of(attrs, "subcategorizationFrame"@) {
                    None => Err(LoadFault::Schema),
                    Some(subcat) => Ok(
                        LoadStateV { synsets: add_frame_all(st.synsets, id, subcat), ..st },
                    ),
                },
            },
        }
    } else if name == "Synset"@ {
        match attr_of(attrs, "id"@) {
            None => Err(LoadFault::Schema),
            Some(raw_id) => match attr_of(attrs, "ili"@) {
                None => Err(LoadFault::Schema),
                Some(ili) => match attr_of(attrs, "partOfSpeech"@) {
                    None => Err(LoadFault::Schema),
                    Some(pos) => match attr_of(attrs, "lexfile"@) {
                        None => Err(LoadFault::Schema),
                        Some(subject) => Ok(
                            LoadStateV {
                                synset_id: Some(clean_id_spec(raw_id)),
                                synset_ili_pos_subject: Some((ili, pos, subject)),
                                ..st
                            },
                        ),
                    },
                },
            },
        }
    } else if name == "Definition"@ {
        Ok(LoadStateV { in_def: true, ..st })
    } else if name == "Example"@ {
        Ok(LoadStateV { in_example: true, ..st })
    } else if name == "SynsetRelation"@ {
        match attr_of(attrs, "relType"@) {
            None => Err(LoadFault::Schema),
            Some(typ) => match attr_of(attrs, "target"@) {
                None => Err(LoadFault::Schema),
                Some(raw_targ) => match st.synset_id {
                    None => Err(LoadFault::Schema),
                    Some(ss) => Ok(
                        LoadStateV {
                            relations: add_to_rels(
                                st.relations,
                                ss,
                                RelationV {
                                    src_word: None,
                                    trg_word: None,
                                    rel_type: typ,
                                    target: clean_id_spec(raw_targ),
                                },
                            ),
                            ..st
                        },
                    ),
                },
            },
        }
    } else if name == "Pronunciation"@ {
        Ok(LoadStateV { variety: attr_of(attrs, "variety"@), in_pron: true, ..st })
    } else {
        Ok(st)
    }
}

/// What one element end does to the state.
pub open spec fn end_spec(st: LoadStateV, name: Seq<char>) -> Result<LoadStateV, LoadFault> {
    if name == "LexicalEntry"@ {
        let prons = match st.lexical_entry_id {
            Some(eid) => put_s(st.entry_id_to_prons, eid, st.pronunciations),
            None => st.entry_id_to_prons,
        };
        Ok(
            LoadStateV {
                entry_id_to_prons: prons,
                pronunciations: Seq::empty(),
                lexical_entry_id: None,
                entry_lemma: None,
                ..st
            },
        )
    } else if name == "Sense"@ {
        Ok(LoadStateV { synset: None, ..st })
    } else if name == "Synset"@ {
        assemble_spec(st)
    } else if name == "Definition"@ {
        Ok(LoadStateV { in_def: false, ..st })
    } else if name == "Example"@ {
        Ok(LoadStateV { in_example: false, ..st })
    } else if name == "Pronunciation"@ {
        Ok(LoadStateV { variety: None, in_pron: false, ..st })
    } else {
        Ok(st)
    }
}

/// What character data does to the state: it fills whichever of definition,
/// example or pronunciation is open.
pub open spec fn text_spec(st: LoadStateV, s: Seq<char>) -> LoadStateV {
    if st.in_def {
        LoadStateV { definition: Some(s), ..st }
    } else if st.in_example {
        LoadStateV { examples: st.examples.push(s), ..st }
    } else if st.in_pron {
        LoadStateV {
            variety: None,
            pronunciations: st.pronunciations.push(
                crate::model::PronunciationV { value: s, variety: st.variety },
            ),
            ..st
        }
    } else {
        st
    }
}

/// What one event does to the state.
pub open spec fn step_spec(st: LoadStateV, ev: XmlTok) -> Result<LoadStateV, LoadFault> {
    match ev {
        XmlTok::Start { name, attrs } => start_spec(st, name@, attrs.deep_view()),
        XmlTok::End { name } => end_spec(st, name@),
        XmlTok::Text { text } => Ok(text_spec(st, text@)),
        XmlTok::Skip => Ok(st),
    }
}

/// The state after a whole event sequence, or the first fault.
pub open spec fn run_spec(evs: Seq<XmlTok>) -> Result<LoadStateV, LoadFault>
    decreases evs.len(),
{
    if evs.len() == 0 {
        Ok(init_state())
    } else {
        match run_spec(evs.drop_last()) {
            Err(f) => Err(f),
            Ok(st) => step_spec(st, evs.last()),
        }
    }
}

/// The loader's product: each assembled synset under its parsed key, in
/// assembly order.
pub open spec fn result_pairs(synsets: Seq<(Seq<char>, SynsetV)>) -> Seq<(WNKey, SynsetV)> {
    Seq::new(synsets.len(), |i: int| (synsets[i].1.id, synsets[i].1))
}

/// No assembled synset carries a legacy id yet: the crosswalk passes run
/// only after the loader.
pub open spec fn no_old_keys_yet(synsets: Seq<(Seq<char>, SynsetV)>) -> bool {
    forall|i: int| 0 <= i < synsets.len() ==> (#[trigger] synsets[i]).1.old_keys.len() == 0
}

/// A put of a synset without legacy ids keeps the whole map without them.
proof fn lemma_put_s_no_old_keys(s: Seq<(Seq<char>, SynsetV)>, k: Seq<char>, sv: SynsetV)
    requires
        no_old_keys_yet(s),
        sv.old_keys.len() == 0,
    ensures
        no_old_keys_yet(put_s(s, k, sv)),
{
    crate::wordnet::lemma_put_s_elems(s, k, sv);
    let p = put_s(s, k, sv);
    assert forall|i: int| 0 <= i < p.len() implies (#[trigger] p[i]).1.old_keys.len() == 0 by {
        if p[i] != (k, sv) {
            assert(s.contains(p[i]));
            let w = choose|w: int| 0 <= w < s.len() && s[w] == p[i];
            assert(s[w].1.old_keys.len() == 0);
        }
    }
}

/// Assembly publishes a synset with no legacy ids.
proof fn lemma_assemble_no_old_keys(st: LoadStateV)
    requires
        no_old_keys_yet(st.synsets),
    ensures
        assemble_spec(st) matches Ok(st2) ==> no_old_keys_yet(st2.synsets),
{
    match st.definition {
        None => {
        },
        Some(defn) => match st.synset_id {
            None => {
            },
            Some(ssid) => match st.synset_ili_pos_subject {
                None => {
                },
                Some(ipo) => match pos_of_letter(ipo.1) {
                    None => {
                    },
                    Some(pos) => match WNKey::spec_parse(ssid) {
                        None => {
                        },
                        Some(key) => {
                            let entries = match assoc_s(st.synset_to_entry, ssid) {
                                Some(e) => e,
                                None => Seq::empty(),
                            };
                            let (senses, refs2) = build_senses_spec(
                                st,
                                ssid,
                                entries,
                                st.subcat_refs,
                            );
                            let raw = match assoc_s(st.relations, ssid) {
                                Some(r) => r,
                                None => Seq::empty(),
                            };
                            match resolve_rels_spec(st, raw) {
                                Err(_) => {
                                },
                                Ok(rels) => {
                                    let sv = SynsetV {
                                        definition: defn,
                                        examples: st.examples,
                                        lemmas: sort_senses(senses),
                                        id: key,
                                        ili: ipo.0,
                                        pos: pos,
                                        subject: ipo.2,
                                        relations: rels,
                                        old_keys: Seq::empty(),
                                        gloss: None,
                                        foreign: Seq::empty(),
                                        links: Seq::empty(),
                                    };
                                    assert(assemble_spec(st)->Ok_0.synsets == put_s(
                                        st.synsets,
                                        ssid,
                                        sv,
                                    ));
                                    lemma_put_s_no_old_keys(st.synsets, ssid, sv);
                                },
                            }
                        },
                    },
                },
            },
        },
    }
}

/// No event gives an assembled synset a legacy id.
proof fn lemma_step_no_old_keys(st: LoadStateV, ev: XmlTok)
    requires
        no_old_keys_yet(st.synsets),
    ensures
        step_spec(st, ev) matches Ok(st2) ==> no_old_keys_yet(st2.synsets),
{
    match ev {
        XmlTok::Start { name, attrs } => {
            let adv = attrs.deep_view();
            if name@ == "SyntacticBehaviour"@ && st.lexical_entry_id is None {
                match attr_of(adv, "id"@) {
                    None => {
                    },
                    Some(id) => match attr_of(adv, "subcategorizationFrame"@) {
                        None => {
                        },
                        Some(frame) => {
                            let s2 = add_frame_all(st.synsets, id, frame);
                            assert forall|i: int| 0 <= i < s2.len() implies (
                            #[trigger] s2[i]).1.old_keys.len() == 0 by {
                                assert(s2[i].1.old_keys == st.synsets[i].1.old_keys);
                            }
                        },
                    },
                }
            }
        },
        XmlTok::End { name } => {
            if name@ == "Synset"@ {
                lemma_assemble_no_old_keys(st);
            }
        },
        _ => {
        },
    }
}

/// Whatever the loader runs over, the state it ends in holds synsets with
/// no legacy ids yet.
proof fn lemma_run_no_old_keys(evs: Seq<XmlTok>)
    ensures
        run_spec(evs) matches Ok(st) ==> no_old_keys_yet(st.synsets),
    decreases evs.len(),
{
    if evs.len() > 0 {
        lemma_run_no_old_keys(evs.drop_last());
        match run_spec(evs.drop_last()) {
            Err(_) => {
            },
            Ok(st) => {
                lemma_step_no_old_keys(st, evs.last());
            },
        }
    }
}

/// Law: every store the loader publishes starts with empty legacy-id lists,
/// so the crosswalk law's premise — duplicate-free lists — holds of every
/// loaded store, and crosswalk loading, once or repeated, never duplicates
/// a legacy id.
pub proof fn lemma_loaded_store_no_dup(evs: Seq<XmlTok>)
    requires
        run_spec(evs) is Ok,
    ensures
        crate::wordnet::no_dup_old_keys(
            crate::wordnet::set_synsets_spec(
                crate::wordnet::empty_store(),
                result_pairs(run_spec(evs)->Ok_0.synsets),
            ),
        ),
{
    lemma_run_no_old_keys(evs);
    let pairs = result_pairs(run_spec(evs)->Ok_0.synsets);
    assert(forall|i: int| 0 <= i < pairs.len() ==> (#[trigger] pairs[i]).1.old_keys.len() == 0);
    crate::wordnet::lemma_empty_store_no_dup();
    crate::wordnet::lemma_set_synsets_no_dup(crate::wordnet::empty_store(), pairs);
}

/// Appends one value to the list a string key holds.
pub(crate) fn vec_add_to_list(v: &mut Vec<(String, Vec<String>)>, k: String, x: String)
    ensures
        final(v).deep_view() == add_to_list_s(old(v).deep_view(), k@, x@),
{
    let ghost xv = x@;
    let mut cur: Vec<String> = match crate::wordnet::map_find_s(v, k.as_str()) {
        Some(i) => {
            proof {
                assert(v.deep_view()[i as int].1 == v@[i as int].1.deep_view());
            }
            v[i].1.deep_clone()
        },
        None => Vec::new(),
    };
    proof {
        assert(cur.deep_view() =~= (match assoc_s(old(v).deep_view(), k@) {
            Some(l) => l,
            None => Seq::empty(),
        }));
    }
    let ghost cv = cur.deep_view();
    cur.push(x);
    proof {
        assert(cur.deep_view() =~= cv.push(xv));
    }
    crate::wordnet::map_put_s(v, k, cur);
}

/// Appends one pair to the pair list a string key holds.
fn vec_add_to_pairs(v: &mut Vec<(String, Vec<(String, String)>)>, k: String, x: (String, String))
    ensures
        final(v).deep_view() == add_to_pairs_s(old(v).deep_view(), k@, (x.0@, x.1@)),
{
    let ghost xv = (x.0@, x.1@);
    let mut cur: Vec<(String, String)> = match crate::wordnet::map_find_s(v, k.as_str()) {
        Some(i) => {
            proof {
                assert(v.deep_view()[i as int].1 == v@[i as int].1.deep_view());
            }
            v[i].1.deep_clone()
        },
        None => Vec::new(),
    };
    proof {
        assert(cur.deep_view() =~= (match assoc_s(old(v).deep_view(), k@) {
            Some(l) => l,
            None => Seq::empty(),
        }));
    }
    let ghost cv = cur.deep_view();
    cur.push(x);
    proof {
        assert(cur.deep_view() =~= cv.push(xv));
    }
    crate::wordnet::map_put_s(v, k, cur);
}

/// Appends one relation to the list an owning synset or sense holds.
fn vec_add_to_rels(v: &mut Vec<(String, Vec<Relation>)>, k: String, x: Relation)
    ensures
        final(v).deep_view() == add_to_rels(old(v).deep_view(), k@, x.deep_view()),
{
    let ghost xv = x.deep_view();
    let mut cur: Vec<Relation> = match crate::wordnet::map_find_s(v, k.as_str()) {
        Some(i) => {
            proof {
                assert(v.deep_view()[i as int].1 == v@[i as int].1.deep_view());
            }
            v[i].1.deep_clone()
        },
        None => Vec::new(),
    };
    proof {
        assert(cur.deep_view() =~= (match assoc_s(old(v).deep_view(), k@) {
            Some(l) => l,
            None => Seq::empty(),
        }));
    }
    let ghost cv = cur.deep_view();
    cur.push(x);
    proof {
        assert(cur.deep_view() =~= cv.push(xv));
    }
    crate::wordnet::map_put_s(v, k, cur);
}

/// Records a sense key for one (entry, synset) pairing.
fn vec_set_sense_key(
    v: &mut Vec<(String, Vec<(String, String)>)>,
    entry_id: String,
    target: String,
    keyval: String,
)
    ensures
        final(v).deep_view() == set_sense_key(old(v).deep_view(), entry_id@, target@, keyval@),
{
    let ghost tv = target@;
    let ghost kv = keyval@;
    let mut cur: Vec<(String, String)> = match crate::wordnet::map_find_s(v, entry_id.as_str()) {
        Some(i) => {
            proof {
                assert(v.deep_view()[i as int].1 == v@[i as int].1.deep_view());
            }
            v[i].1.deep_clone()
        },
        None => Vec::new(),
    };
    proof {
        assert(cur.deep_view() =~= (match assoc_s(old(v).deep_view(), entry_id@) {
            Some(l) => l,
            None => Seq::empty(),
        }));
    }
    crate::wordnet::map_put_s(&mut cur, target, keyval);
    crate::wordnet::map_put_s(v, entry_id, cur);
}

/// Attaches a top-level frame declaration to every sense that names its id.
fn apply_frame_refs(synsets: &mut Vec<(String, Synset)>, id: &str, frame: &str)
    ensures
        final(synsets).deep_view() == add_frame_all(old(synsets).deep_view(), id@, frame@),
{
    let ghost target = add_frame_all(old(synsets).deep_view(), id@, frame@);
    let mut i: usize = 0;
    while i < synsets.len()
        invariant
            i <= synsets.len(),
            synsets.len() == old(synsets).len(),
            target == add_frame_all(old(synsets).deep_view(), id@, frame@),
            target.len() == old(synsets).len(),
            forall|w: int| 0 <= w < i ==> synsets.deep_view()[w] == #[trigger] target[w],
            forall|w: int|
                i <= w < synsets.len() ==> synsets.deep_view()[w] == #[trigger] old(
                    synsets,
                ).deep_view()[w],
        decreases synsets.len() - i,
    {
        let ghost pre = synsets.deep_view();
        let ghost svv = pre[i as int].1;
        let pair = synsets.remove(i);
        let (sid, mut ss) = pair;
        proof {
            assert(pre[i as int] == (sid@, ss.deep_view()));
        }
        let mut j: usize = 0;
        while j < ss.lemmas.len()
            invariant
                j <= ss.lemmas.len(),
                ss.lemmas.len() == svv.lemmas.len(),
                ss.definition@ == svv.definition,
                ss.examples.deep_view() == svv.examples,
                ss.id == svv.id,
                ss.ili@ == svv.ili,
                ss.pos == svv.pos,
                ss.subject@ == svv.subject,
                ss.relations.deep_view() == svv.relations,
                ss.old_keys.deep_view() == svv.old_keys,
                ss.gloss.deep_view() == svv.gloss,
                ss.foreign.deep_view() == svv.foreign,
                ss.links.deep_view() == svv.links,
                forall|w: int|
                    0 <= w < j ==> ss.lemmas.deep_view()[w] == add_frame_sense(
                        #[trigger] svv.lemmas[w],
                        id@,
                        frame@,
                    ),
                forall|w: int|
                    j <= w < ss.lemmas.len() ==> ss.lemmas.deep_view()[w] == #[trigger] svv.lemmas[w],
            decreases ss.lemmas.len() - j,
        {
            let ghost lpre = ss.lemmas.deep_view();
            proof {
                assert(ss.lemmas.deep_view()[j as int] == ss.lemmas@[j as int].deep_view());
            }
            if crate::wordnet::string_vec_contains(&ss.lemmas[j].subcat_refs, id) {
                let mut sense = ss.lemmas.remove(j);
                let ghost sv0 = sense.deep_view();
                sense.subcats.push(String::from_str(frame));
                proof {
                    assert(sense.deep_view() =~~= SenseV {
                        subcats: sv0.subcats.push(frame@),
                        ..sv0
                    });
                }
                ss.lemmas.insert(j, sense);
                proof {
                    assert forall|w: int| 0 <= w < ss.lemmas.len() implies ss.lemmas.deep_view()[w]
                        == (if w == j {
                        add_frame_sense(svv.lemmas[w], id@, frame@)
                    } else {
                        lpre[w]
                    }) by {
                        assert(ss.lemmas.deep_view()[w] == ss.lemmas@[w].deep_view());
                    }
                }
            } else {
                proof {
                    assert(add_frame_sense(svv.lemmas[j as int], id@, frame@) == svv.lemmas[
                        j as int]);
                }
            }
            j += 1;
        }
        proof {
            assert(ss.deep_view() =~~= add_frame_synset(svv, id@, frame@)) by {
                assert(ss.lemmas.deep_view() =~= add_frame_synset(svv, id@, frame@).lemmas);
            }
        }
        synsets.insert(i, (sid, ss));
        proof {
            assert forall|w: int| 0 <= w < synsets.deep_view().len() implies synsets.deep_view()[w]
                == (if w == i {
                target[i as int]
            } else {
                pre[w]
            }) by {
                assert(synsets.deep_view()[w] == synsets@[w].deep_view());
            }
            assert(target[i as int] == (pre[i as int].0, add_frame_synset(svv, id@, frame@)));
        }
        i += 1;
    }
    proof {
        assert(synsets.deep_view() =~= target);
    }
}

/// Builds one sense from the scratch maps.
fn build_sense(state: &LoadState, ssid: &str, entry_id: &str, lang: &str) -> (r: Sense)
    ensures
        r.deep_view() == build_sense_spec(
            state.deep_view(),
            ssid@,
            entry_id@,
            lang@,
            state.deep_view().subcat_refs,
        ),
{
    let ghost st0 = state.deep_view();
    let lemma: String = match crate::wordnet::map_find_s(&state.entry_id_to_lemma, entry_id) {
        Some(j) => {
            proof {
                assert(state.entry_id_to_lemma.deep_view()[j as int].1
                    == state.entry_id_to_lemma@[j as int].1@);
            }
            state.entry_id_to_lemma[j].1.deep_clone()
        },
        None => String::new(),
    };
    let subcats1: Vec<String> = match crate::wordnet::map_find_s(&state.subcats, entry_id) {
        Some(j) => {
            proof {
                assert(state.subcats.deep_view()[j as int].1 == state.subcats@[
                    j as int].1.deep_view());
            }
            state.subcats[j].1.deep_clone()
        },
        None => Vec::new(),
    };
    let subcats2: Vec<String> = match map_find_p(
        &state.entry_synset_to_sense,
        lemma.as_str(),
        ssid,
    ) {
        Some(j) => {
            proof {
                assert(state.entry_synset_to_sense.deep_view()[j as int].1
                    == state.entry_synset_to_sense@[j as int].1@);
            }
            let sid = &state.entry_synset_to_sense[j].1;
            match crate::wordnet::map_find_s(&state.subcats, sid.as_str()) {
                Some(w) => {
                    proof {
                        assert(state.subcats.deep_view()[w as int].1 == state.subcats@[
                            w as int].1.deep_view());
                    }
                    state.subcats[w].1.deep_clone()
                },
                None => Vec::new(),
            }
        },
        None => Vec::new(),
    };
    let mut subcats = subcats1;
    let ghost s1v = subcats.deep_view();
    let mut extra = subcats2;
    let ghost s2v = extra.deep_view();
    subcats.append(&mut extra);
    proof {
        assert(subcats.deep_view() =~= s1v + s2v);
    }
    let forms: Vec<String> = match crate::wordnet::map_find_s(&state.entry_id_to_forms, entry_id) {
        Some(j) => {
            proof {
                assert(state.entry_id_to_forms.deep_view()[j as int].1 == state.entry_id_to_forms@[
                    j as int].1.deep_view());
            }
            state.entry_id_to_forms[j].1.deep_clone()
        },
        None => Vec::new(),
    };
    let sense_key: Option<String> = match crate::wordnet::map_find_s(&state.sense_keys, entry_id) {
        Some(j) => {
            proof {
                assert(state.sense_keys.deep_view()[j as int].1 == state.sense_keys@[
                    j as int].1.deep_view());
            }
            let inner = &state.sense_keys[j].1;
            match crate::wordnet::map_find_s(inner, ssid) {
                Some(w) => {
                    proof {
                        assert(inner.deep_view()[w as int].1 == inner@[w as int].1@);
                    }
                    Some(inner[w].1.deep_clone())
                },
                None => None,
            }
        },
        None => None,
    };
    let subcat_refs: Vec<String> = match map_find_p(&state.subcat_refs, lemma.as_str(), ssid) {
        Some(j) => {
            proof {
                assert(state.subcat_refs.deep_view()[j as int].1 == state.subcat_refs@[
                    j as int].1.deep_view());
            }
            state.subcat_refs[j].1.deep_clone()
        },
        None => Vec::new(),
    };
    let importance: Option<u32> = match map_find_p(&state.lemma_orders, lemma.as_str(), ssid) {
        Some(j) => Some(state.lemma_orders[j].1),
        None => None,
    };
    let pronunciations: Vec<Pronunciation> = match crate::wordnet::map_find_s(
        &state.entry_id_to_prons,
        entry_id,
    ) {
        Some(j) => {
            proof {
                assert(state.entry_id_to_prons.deep_view()[j as int].1 == state.entry_id_to_prons@[
                    j as int].1.deep_view());
            }
            state.entry_id_to_prons[j].1.deep_clone()
        },
        None => Vec::new(),
    };
    let entry_no = entry_no_of(entry_id);
    let r = Sense {
        lemma,
        language: String::from_str(lang),
        forms,
        sense_key,
        subcats,
        subcat_refs,
        importance,
        pronunciations,
        entry_no,
    };
    proof {
        assert(r.deep_view() =~~= build_sense_spec(st0, ssid@, entry_id@, lang@, st0.subcat_refs));
    }
    r
}

/// Assembles the synset that just ended and clears the per-synset scratch
/// state.
#[verifier::rlimit(60)]
fn assemble(state: &mut LoadState) -> (r: Result<(), WordNetLoadError>)
    ensures
        r is Ok <==> assemble_spec(old(state).deep_view()) is Ok,
        assemble_spec(old(state).deep_view()) matches Ok(st2) ==> final(state).deep_view() == st2,
        r matches Err(e) ==> (assemble_spec(old(state).deep_view()) matches Err(f) && (f
            == LoadFault::Schema ==> e is Schema) && (f == LoadFault::Key ==> e is BadKey)),
{
    let ghost st0 = old(state).deep_view();
    let defn = match &state.definition {
        Some(d) => d.deep_clone(),
        None => {
            return Err(WordNetLoadError::Schema("Synset without definition"));
        },
    };
    let ssid = match &state.synset_id {
        Some(x) => x.deep_clone(),
        None => {
            return Err(WordNetLoadError::Schema("Synset without id"));
        },
    };
    let (ili, pos_s, subject) = match &state.synset_ili_pos_subject {
        Some(t) => (t.0.deep_clone(), t.1.deep_clone(), t.2.deep_clone()),
        None => {
            return Err(WordNetLoadError::Schema("Synset attributes not set"));
        },
    };
    let pos = match PartOfSpeech::from_str(pos_s.as_str()) {
        Ok(p) => p,
        Err(e) => {
            return Err(e);
        },
    };
    let key = match WNKey::parse(ssid.as_str()) {
        Ok(k) => k,
        Err(e) => {
            return Err(e);
        },
    };
    let entries: Vec<(String, String)> = match crate::wordnet::map_find_s(
        &state.synset_to_entry,
        ssid.as_str(),
    ) {
        Some(i) => {
            proof {
                assert(state.synset_to_entry.deep_view()[i as int].1 == state.synset_to_entry@[
                    i as int].1.deep_view());
            }
            state.synset_to_entry[i].1.deep_clone()
        },
        None => Vec::new(),
    };
    let ghost entries_dv = entries.deep_view();
    proof {
        assert(entries_dv =~= (match assoc_s(st0.synset_to_entry, ssid@) {
            Some(e) => e,
            None => Seq::<(Seq<char>, Seq<char>)>::empty(),
        }));
    }
    // build the senses, consuming pending frame references as the source
    // format requires
    let mut senses: Vec<Sense> = Vec::new();
    let mut i: usize = 0;
    proof {
        assert(entries_dv.skip(0) =~= entries_dv);
        assert(senses.deep_view() =~= Seq::<SenseV>::empty());
        assert(Seq::<SenseV>::empty() + build_senses_spec(
            st0,
            ssid@,
            entries_dv,
            st0.subcat_refs,
        ).0 =~= build_senses_spec(st0, ssid@, entries_dv, st0.subcat_refs).0);
    }
    while i < entries.len()
        invariant
            i <= entries.len(),
            entries_dv == entries.deep_view(),
            entries.len() == entries_dv.len(),
            ssid@ == st0.synset_id.unwrap(),
            state.lexical_entry_id == old(state).lexical_entry_id,
            state.entry_lemma == old(state).entry_lemma,
            state.sense_keys == old(state).sense_keys,
            state.entry_id_to_lemma == old(state).entry_id_to_lemma,
            state.synset_to_entry == old(state).synset_to_entry,
            state.sense_to_lemma == old(state).sense_to_lemma,
            state.sense_to_synset == old(state).sense_to_synset,
            state.entry_id_to_forms == old(state).entry_id_to_forms,
            state.entry_synset_to_sense == old(state).entry_synset_to_sense,
            state.subcats == old(state).subcats,
            state.synset == old(state).synset,
            state.synset_id == old(state).synset_id,
            state.synset_ili_pos_subject == old(state).synset_ili_pos_subject,
            state.in_def == old(state).in_def,
            state.definition == old(state).definition,
            state.in_example == old(state).in_example,
            state.examples == old(state).examples,
            state.synsets == old(state).synsets,
            state.relations == old(state).relations,
            state.language == old(state).language,
            state.lemma_orders == old(state).lemma_orders,
            state.variety == old(state).variety,
            state.in_pron == old(state).in_pron,
            state.pronunciations == old(state).pronunciations,
            state.entry_id_to_prons == old(state).entry_id_to_prons,
            build_senses_spec(st0, ssid@, entries_dv, st0.subcat_refs).0 == senses.deep_view()
                + build_senses_spec(
                st0,
                ssid@,
                entries_dv.skip(i as int),
                state.subcat_refs.deep_view(),
            ).0,
            build_senses_spec(st0, ssid@, entries_dv, st0.subcat_refs).1 == build_senses_spec(
                st0,
                ssid@,
                entries_dv.skip(i as int),
                state.subcat_refs.deep_view(),
            ).1,
        decreases entries.len() - i,
    {
        let ghost refs_now = state.subcat_refs.deep_view();
        proof {
            assert(entries_dv.skip(i as int)[0] == entries_dv[i as int]);
            assert(entries_dv[i as int] == (entries@[i as int].0@, entries@[i as int].1@));
            assert(entries_dv.skip(i as int).drop_first() =~= entries_dv.skip(i + 1));
        }
        let eid = &entries[i].0;
        let lang = &entries[i].1;
        // the sense reads the pending references before they are consumed,
        // and the partially assembled state matches the scratch state on
        // every field the builder reads
        let ghost st_now = state.deep_view();
        proof {
            assert(st_now.entry_id_to_lemma == st0.entry_id_to_lemma);
            assert(st_now.subcats == st0.subcats);
            assert(st_now.entry_synset_to_sense == st0.entry_synset_to_sense);
            assert(st_now.entry_id_to_forms == st0.entry_id_to_forms);
            assert(st_now.sense_keys == st0.sense_keys);
            assert(st_now.lemma_orders == st0.lemma_orders);
            assert(st_now.entry_id_to_prons == st0.entry_id_to_prons);
            assert(build_sense_spec(st_now, ssid@, eid@, lang@, st_now.subcat_refs)
                =~~= build_sense_spec(st0, ssid@, eid@, lang@, refs_now));
        }
        let sense = build_sense(state, ssid.as_str(), eid.as_str(), lang.as_str());
        let lemma: String = match crate::wordnet::map_find_s(
            &state.entry_id_to_lemma,
            eid.as_str(),
        ) {
            Some(j) => {
                proof {
                    assert(state.entry_id_to_lemma.deep_view()[j as int].1
                        == state.entry_id_to_lemma@[j as int].1@);
                }
                state.entry_id_to_lemma[j].1.deep_clone()
            },
            None => String::new(),
        };
        proof {
            assert(lemma@ == sense_lemma_of(st0, eid@));
        }
        map_remove_p(&mut state.subcat_refs, lemma.as_str(), ssid.as_str());
        let ghost senses_pre = senses.deep_view();
        senses.push(sense);
        proof {
            assert(senses.deep_view() =~= senses_pre.push(
                build_sense_spec(st0, ssid@, eid@, lang@, refs_now),
            ));
            assert(build_senses_spec(st0, ssid@, entries_dv.skip(i as int), refs_now).0 == seq![
                build_sense_spec(st0, ssid@, eid@, lang@, refs_now),
            ] + build_senses_spec(
                st0,
                ssid@,
                entries_dv.skip(i + 1),
                state.subcat_refs.deep_view(),
            ).0);
            assert(senses_pre + (seq![build_sense_spec(st0, ssid@, eid@, lang@, refs_now)]
                + build_senses_spec(
                st0,
                ssid@,
                entries_dv.skip(i + 1),
                state.subcat_refs.deep_view(),
            ).0) =~= senses.deep_view() + build_senses_spec(
                st0,
                ssid@,
                entries_dv.skip(i + 1),
                state.subcat_refs.deep_view(),
            ).0);
        }
        i += 1;
    }
    proof {
        assert(entries_dv.skip(entries_dv.len() as int).len() == 0);
        assert(senses.deep_view() + Seq::<SenseV>::empty() =~= senses.deep_view());
        assert(senses.deep_view() == build_senses_spec(
            st0,
            ssid@,
            entries_dv,
            st0.subcat_refs,
        ).0);
    }
    // order the senses by importance, stably
    let ghost senses_dv = senses.deep_view();
    let mut sorted: Vec<Sense> = Vec::new();
    let mut j: usize = 0;
    proof {
        assert(senses_dv.take(0) =~= Seq::<SenseV>::empty());
        assert(sorted.deep_view() =~= sort_senses(senses_dv.take(0)));
    }
    while j < senses.len()
        invariant
            j <= senses.len(),
            senses_dv == senses.deep_view(),
            senses.len() == senses_dv.len(),
            sorted.deep_view() == sort_senses(senses_dv.take(j as int)),
        decreases senses.len() - j,
    {
        proof {
            assert(senses_dv[j as int] == senses@[j as int].deep_view());
            assert(senses_dv.take(j + 1).drop_last() =~= senses_dv.take(j as int));
            assert(senses_dv.take(j + 1).last() == senses_dv[j as int]);
        }
        let x = senses[j].deep_clone();
        let rx = rank_of(&x);
        let mut pos: usize = sorted.len();
        while pos > 0 && rank_of(&sorted[pos - 1]) > rx
            invariant
                pos <= sorted.len(),
                rx as int == rank_spec(x.deep_view()),
                forall|w: int|
                    pos <= w < sorted.deep_view().len() ==> rank_spec(
                        #[trigger] sorted.deep_view()[w],
                    ) > rank_spec(x.deep_view()),
            decreases pos,
        {
            proof {
                assert(sorted.deep_view()[pos - 1] == sorted@[pos - 1].deep_view());
            }
            pos -= 1;
        }
        proof {
            if pos > 0 {
                assert(sorted.deep_view()[pos - 1] == sorted@[pos - 1].deep_view());
            }
        }
        let ghost sorted_pre = sorted.deep_view();
        sorted.insert(pos, x);
        proof {
            lemma_insert_by_rank_at(sorted_pre, senses_dv[j as int], pos as int);
            assert(sorted.deep_view() =~= sorted_pre.take(pos as int) + seq![
                senses_dv[j as int],
            ] + sorted_pre.skip(pos as int));
        }
        j += 1;
    }
    proof {
        assert(senses_dv.take(senses_dv.len() as int) =~= senses_dv);
    }
    // resolve the relations gathered for this synset
    let raw: Vec<Relation> = match crate::wordnet::map_find_s(&state.relations, ssid.as_str()) {
        Some(w) => {
            proof {
                assert(state.relations.deep_view()[w as int].1 == state.relations@[
                    w as int].1.deep_view());
            }
            state.relations[w].1.deep_clone()
        },
        None => Vec::new(),
    };
    let ghost raw_dv = raw.deep_view();
    proof {
        assert(raw_dv =~= (match assoc_s(st0.relations, ssid@) {
            Some(r) => r,
            None => Seq::<RelationV>::empty(),
        }));
    }
    let mut rels: Vec<Relation> = Vec::new();
    let mut w: usize = 0;
    proof {
        assert(raw_dv.skip(0) =~= raw_dv);
        assert(rels.deep_view() =~= Seq::<RelationV>::empty());
    }
    while w < raw.len()
        invariant
            w <= raw.len(),
            raw_dv == raw.deep_view(),
            raw.len() == raw_dv.len(),
            state.sense_to_lemma == old(state).sense_to_lemma,
            state.sense_to_synset == old(state).sense_to_synset,
            st0.sense_to_lemma == state.sense_to_lemma.deep_view(),
            st0.sense_to_synset == state.sense_to_synset.deep_view(),
            resolve_rels_spec(st0, raw_dv) == (match resolve_rels_spec(
                st0,
                raw_dv.skip(w as int),
            ) {
                Ok(rest) => Ok::<Seq<RelationV>, LoadFault>(rels.deep_view() + rest),
                Err(f) => Err(f),
            }),
        decreases raw.len() - w,
    {
        proof {
            assert(raw_dv.skip(w as int)[0] == raw_dv[w as int]);
            assert(raw_dv[w as int] == raw@[w as int].deep_view());
            assert(raw_dv.skip(w as int).drop_first() =~= raw_dv.skip(w + 1));
        }
        let r0 = &raw[w];
        let ghost rels_pre = rels.deep_view();
        let resolved: Relation = if r0.src_word.is_some() {
            let lemma2: String = match crate::wordnet::map_find_s(
                &state.sense_to_lemma,
                r0.target.as_str(),
            ) {
                Some(q) => {
                    proof {
                        assert(state.sense_to_lemma.deep_view()[q as int].1
                            == state.sense_to_lemma@[q as int].1@);
                    }
                    state.sense_to_lemma[q].1.deep_clone()
                },
                None => {
                    return Err(WordNetLoadError::Schema("Unknown target sense"));
                },
            };
            let ss2: String = match crate::wordnet::map_find_s(
                &state.sense_to_synset,
                r0.target.as_str(),
            ) {
                Some(q) => {
                    proof {
                        assert(state.sense_to_synset.deep_view()[q as int].1
                            == state.sense_to_synset@[q as int].1@);
                    }
                    state.sense_to_synset[q].1.deep_clone()
                },
                None => {
                    return Err(WordNetLoadError::Schema("Unknown target sense"));
                },
            };
            Relation {
                src_word: r0.src_word.deep_clone(),
                trg_word: Some(lemma2),
                rel_type: r0.rel_type.deep_clone(),
                target: ss2,
            }
        } else {
            r0.deep_clone()
        };
        rels.push(resolved);
        proof {
            assert(rels.deep_view() =~= rels_pre.push(rels.deep_view().last()));
            assert(rels_pre + (seq![rels.deep_view().last()] + (match resolve_rels_spec(
                st0,
                raw_dv.skip(w + 1),
            ) {
                Ok(rest) => rest,
                Err(_) => Seq::<RelationV>::empty(),
            })) =~= rels.deep_view() + (match resolve_rels_spec(st0, raw_dv.skip(w + 1)) {
                Ok(rest) => rest,
                Err(_) => Seq::<RelationV>::empty(),
            }));
        }
        w += 1;
    }
    proof {
        assert(raw_dv.skip(raw_dv.len() as int).len() == 0);
        assert(rels.deep_view() + Seq::<RelationV>::empty() =~= rels.deep_view());
    }
    // the assembled record
    let examples = state.examples.deep_clone();
    let synset = Synset {
        definition: defn,
        examples,
        lemmas: sorted,
        id: key,
        ili,
        pos,
        subject,
        relations: rels,
        old_keys: Vec::new(),
        gloss: None,
        foreign: Vec::new(),
        links: Vec::new(),
    };
    proof {
        assert(synset.deep_view().old_keys =~= Seq::<(Seq<char>, Seq<Seq<char>>)>::empty());
        assert(synset.deep_view().foreign =~= Seq::<(Seq<char>, Seq<Seq<char>>)>::empty());
        assert(synset.deep_view().links =~= Seq::<crate::links::LinkV>::empty());
    }
    crate::wordnet::map_put_s(&mut state.synsets, ssid, synset);
    state.synset_id = None;
    state.definition = None;
    state.examples = Vec::new();
    proof {
        assert(state.examples.deep_view() =~= Seq::<Seq<char>>::empty());
        assert(state.deep_view() =~~= assemble_spec(st0)->Ok_0);
    }
    Ok(())
}

/// Applies one element start to the state.
#[verifier::rlimit(60)]
fn step_start(state: &mut LoadState, name: String, attrs: Vec<(String, String)>) -> (r: Result<
    (),
    WordNetLoadError,
>)
    ensures
        r is Ok <==> start_spec(old(state).deep_view(), name@, attrs.deep_view()) is Ok,
        start_spec(old(state).deep_view(), name@, attrs.deep_view()) matches Ok(st2)
            ==> final(state).deep_view() == st2,
        r matches Err(e) ==> (start_spec(old(state).deep_view(), name@, attrs.deep_view())
            matches Err(f) && (f == LoadFault::Schema ==> e is Schema) && (f == LoadFault::Key
            ==> e is BadKey)),
{
    let ghost st0 = old(state).deep_view();
    let ghost attrs_dv = attrs.deep_view();
    if str_eq(name.as_str(), "Lexicon") {
        match attr_value(&attrs, "language") {
            Some(l) => {
                state.language = l;
                proof {
                    assert(state.deep_view() =~~= start_spec(st0, name@, attrs_dv)->Ok_0);
                }
                Ok(())
            },
            None => Err(WordNetLoadError::Schema("Lexicon does not have a language")),
        }
    } else if str_eq(name.as_str(), "LexicalEntry") {
        match attr_value(&attrs, "id") {
            Some(id) => {
                state.lexical_entry_id = Some(id);
                proof {
                    assert(state.deep_view() =~~= start_spec(st0, name@, attrs_dv)->Ok_0);
                }
                Ok(())
            },
            None => Err(WordNetLoadError::Schema("LexicalEntry does not have an ID")),
        }
    } else if str_eq(name.as_str(), "Lemma") {
        let entry_id = match &state.lexical_entry_id {
            Some(i) => i.deep_clone(),
            None => {
                return Err(WordNetLoadError::Schema("Lemma outside of LexicalEntry"));
            },
        };
        match attr_value(&attrs, "writtenForm") {
            Some(lemma) => {
                state.entry_lemma = Some(lemma.deep_clone());
                crate::wordnet::map_put_s(&mut state.entry_id_to_lemma, entry_id, lemma);
                proof {
                    assert(state.deep_view() =~~= start_spec(st0, name@, attrs_dv)->Ok_0);
                }
                Ok(())
            },
            None => Err(WordNetLoadError::Schema("Lemma does not have writtenForm")),
        }
    } else if str_eq(name.as_str(), "Form") {
        match attr_value(&attrs, "writtenForm") {
            Some(f) => {
                let entry_id = match &state.lexical_entry_id {
                    Some(i) => i.deep_clone(),
                    None => {
                        return Err(WordNetLoadError::Schema("Form outside of LexicalEntry"));
                    },
                };
                vec_add_to_list(&mut state.entry_id_to_forms, entry_id, f);
                proof {
                    assert(state.deep_view() =~~= start_spec(st0, name@, attrs_dv)->Ok_0);
                }
                Ok(())
            },
            None => {
                proof {
                    assert(state.deep_view() =~~= start_spec(st0, name@, attrs_dv)->Ok_0);
                }
                Ok(())
            },
        }
    } else if str_eq(name.as_str(), "Sense") {
        let entry_id = match &state.lexical_entry_id {
            Some(i) => i.deep_clone(),
            None => {
                return Err(WordNetLoadError::Schema("Sense outside of LexicalEntry"));
            },
        };
        let raw_target = match attr_value(&attrs, "synset") {
            Some(t) => t,
            None => {
                return Err(WordNetLoadError::Schema("Sense does not have a synset"));
            },
        };
        let target = clean_id(raw_target.as_str());
        let sense_id = match attr_value(&attrs, "id") {
            Some(s) => s,
            None => {
                return Err(WordNetLoadError::Schema("Sense without id"));
            },
        };
        match attr_value(&attrs, "identifier") {
            Some(ident) => {
                vec_set_sense_key(
                    &mut state.sense_keys,
                    entry_id.deep_clone(),
                    target.deep_clone(),
                    ident,
                );
            },
            None => {
                if crate::text::str_contains(sense_id.as_str(), "__") {
                    let unmapped = unmap_sense_key(sense_id.as_str());
                    vec_set_sense_key(
                        &mut state.sense_keys,
                        entry_id.deep_clone(),
                        target.deep_clone(),
                        unmapped,
                    );
                }
            },
        }
        let word = match &state.entry_lemma {
            Some(wrd) => wrd.deep_clone(),
            None => {
                return Err(WordNetLoadError::Schema("SenseRelation before Lemma"));
            },
        };
        state.synset = Some(target.deep_clone());
        let ghost lang_now = state.language@;
        vec_add_to_pairs(
            &mut state.synset_to_entry,
            target.deep_clone(),
            (entry_id.deep_clone(), state.language.deep_clone()),
        );
        match attr_value(&attrs, "subcat") {
            Some(scs) => {
                let pieces = str_split(scs.as_str(), ' ');
                map_put_p(
                    &mut state.subcat_refs,
                    (word.deep_clone(), target.deep_clone()),
                    pieces,
                );
            },
            None => {
            },
        }
        crate::wordnet::map_put_s(
            &mut state.sense_to_lemma,
            sense_id.deep_clone(),
            word.deep_clone(),
        );
        crate::wordnet::map_put_s(
            &mut state.sense_to_synset,
            sense_id.deep_clone(),
            target.deep_clone(),
        );
        match two_digit_suffix_of(sense_id.as_str()) {
            Some(n) => {
                map_put_p(&mut state.lemma_orders, (word.deep_clone(), target.deep_clone()), n);
            },
            None => {
            },
        }
        map_put_p(&mut state.entry_synset_to_sense, (word, target), sense_id);
        proof {
            assert(state.deep_view() =~~= start_spec(st0, name@, attrs_dv)->Ok_0);
        }
        Ok(())
    } else if str_eq(name.as_str(), "SenseRelation") {
        let typ = match attr_value(&attrs, "relType") {
            Some(t) => t,
            None => {
                return Err(WordNetLoadError::Schema("SenseRelation without relType"));
            },
        };
        let targ = match attr_value(&attrs, "target") {
            Some(t) => t,
            None => {
                return Err(WordNetLoadError::Schema("SenseRelation without target"));
            },
        };
        let ss = match &state.synset {
            Some(s) => s.deep_clone(),
            None => {
                return Err(WordNetLoadError::Schema("SenseRelation outside of Sense"));
            },
        };
        let word = match &state.entry_lemma {
            Some(wrd) => wrd.deep_clone(),
            None => {
                return Err(WordNetLoadError::Schema("SenseRelation before Lemma"));
            },
        };
        let rel = Relation { src_word: Some(word), trg_word: None, rel_type: typ, target: targ };
        vec_add_to_rels(&mut state.relations, ss, rel);
        proof {
            assert(state.deep_view() =~~= start_spec(st0, name@, attrs_dv)->Ok_0);
        }
        Ok(())
    } else if str_eq(name.as_str(), "SyntacticBehaviour") {
        let has_entry = state.lexical_entry_id.is_some();
        if has_entry {
            let lid = match &state.lexical_entry_id {
                Some(l) => l.deep_clone(),
                None => {
                    return Err(WordNetLoadError::Schema("SyntacticBehaviour has no ID"));
                },
            };
            let subcat = match attr_value(&attrs, "subcategorizationFrame") {
                Some(s) => s,
                None => {
                    return Err(
                        WordNetLoadError::Schema(
                            "SyntacticBehaviour has no subcategorizationFrame",
                        ),
                    );
                },
            };
            match attr_value(&attrs, "senses") {
                Some(sense_list) => {
                    let pieces = str_split(sense_list.as_str(), ' ');
                    let ghost pieces_dv = pieces.deep_view();
                    let mut q: usize = 0;
                    proof {
                        assert(pieces_dv.skip(0) =~= pieces_dv);
                    }
                    while q < pieces.len()
                        invariant
                            q <= pieces.len(),
                            pieces_dv == pieces.deep_view(),
                            pieces.len() == pieces_dv.len(),
                            subcat@ == attr_of(attrs_dv, "subcategorizationFrame"@)->Some_0,
                            add_subcats_list(st0.subcats, pieces_dv, subcat@) == add_subcats_list(
                                state.subcats.deep_view(),
                                pieces_dv.skip(q as int),
                                subcat@,
                            ),
                            state.lexical_entry_id == old(state).lexical_entry_id,
                            state.entry_lemma == old(state).entry_lemma,
                            state.sense_keys == old(state).sense_keys,
                            state.entry_id_to_lemma == old(state).entry_id_to_lemma,
                            state.synset_to_entry == old(state).synset_to_entry,
                            state.sense_to_lemma == old(state).sense_to_lemma,
                            state.sense_to_synset == old(state).sense_to_synset,
                            state.entry_id_to_forms == old(state).entry_id_to_forms,
                            state.entry_synset_to_sense == old(state).entry_synset_to_sense,
                            state.subcat_refs == old(state).subcat_refs,
                            state.synset == old(state).synset,
                            state.synset_id == old(state).synset_id,
                            state.synset_ili_pos_subject == old(state).synset_ili_pos_subject,
                            state.in_def == old(state).in_def,
                            state.definition == old(state).definition,
                            state.in_example == old(state).in_example,
                            state.examples == old(state).examples,
                            state.synsets == old(state).synsets,
                            state.relations == old(state).relations,
                            state.language == old(state).language,
                            state.lemma_orders == old(state).lemma_orders,
                            state.variety == old(state).variety,
                            state.in_pron == old(state).in_pron,
                            state.pronunciations == old(state).pronunciations,
                            state.entry_id_to_prons == old(state).entry_id_to_prons,
                        decreases pieces.len() - q,
                    {
                        proof {
                            assert(pieces_dv.skip(q as int)[0] == pieces_dv[q as int]);
                            assert(pieces_dv[q as int] == pieces@[q as int]@);
                            assert(pieces_dv.skip(q as int).drop_first() =~= pieces_dv.skip(
                                q + 1,
                            ));
                        }
                        vec_add_to_list(
                            &mut state.subcats,
                            pieces[q].deep_clone(),
                            subcat.deep_clone(),
                        );
                        q += 1;
                    }
                    proof {
                        assert(pieces_dv.skip(pieces_dv.len() as int).len() == 0);
                        assert(state.deep_view() =~~= start_spec(st0, name@, attrs_dv)->Ok_0);
                    }
                    Ok(())
                },
                None => {
                    vec_add_to_list(&mut state.subcats, lid, subcat);
                    proof {
                        assert(state.deep_view() =~~= start_spec(st0, name@, attrs_dv)->Ok_0);
                    }
                    Ok(())
                },
            }
        } else {
            let id = match attr_value(&attrs, "id") {
                Some(s) => s,
                None => {
                    return Err(WordNetLoadError::Schema("SyntacticBehaviour has no ID"));
                },
            };
            let subcat = match attr_value(&attrs, "subcategorizationFrame") {
                Some(s) => s,
                None => {
                    return Err(
                        WordNetLoadError::Schema(
                            "SyntacticBehaviour has no subcategorizationFrame",
                        ),
                    );
                },
            };
            apply_frame_refs(&mut state.synsets, id.as_str(), subcat.as_str());
            proof {
                assert(state.deep_view() =~~= start_spec(st0, name@, attrs_dv)->Ok_0);
            }
            Ok(())
        }
    } else if str_eq(name.as_str(), "Synset") {
        let raw_id = match attr_value(&attrs, "id") {
            Some(s) => s,
            None => {
                return Err(WordNetLoadError::Schema("Synset does not have an id"));
            },
        };
        let ili = match attr_value(&attrs, "ili") {
            Some(s) => s,
            None => {
                return Err(WordNetLoadError::Schema("Synset does not have ILI"));
            },
        };
        let pos = match attr_value(&attrs, "partOfSpeech") {
            Some(s) => s,
            None => {
                return Err(WordNetLoadError::Schema("Synset does not have part of speech"));
            },
        };
        let subject = match attr_value(&attrs, "lexfile") {
            Some(s) => s,
            None => {
                return Err(WordNetLoadError::Schema("Synset does not have subject"));
            },
        };
        state.synset_id = Some(clean_id(raw_id.as_str()));
        state.synset_ili_pos_subject = Some((ili, pos, subject));
        proof {
            assert(state.deep_view() =~~= start_spec(st0, name@, attrs_dv)->Ok_0);
        }
        Ok(())
    } else if str_eq(name.as_str(), "Definition") {
        state.in_def = true;
        proof {
            assert(state.deep_view() =~~= start_spec(st0, name@, attrs_dv)->Ok_0);
        }
        Ok(())
    } else if str_eq(name.as_str(), "Example") {
        state.in_example = true;
        proof {
            assert(state.deep_view() =~~= start_spec(st0, name@, attrs_dv)->Ok_0);
        }
        Ok(())
    } else if str_eq(name.as_str(), "SynsetRelation") {
        let typ = match attr_value(&attrs, "relType") {
            Some(t) => t,
            None => {
                return Err(WordNetLoadError::Schema("SynsetRelation without relType"));
            },
        };
        let raw_targ = match attr_value(&attrs, "target") {
            Some(t) => t,
            None => {
                return Err(WordNetLoadError::Schema("SynsetRelation without target"));
            },
        };
        let ss = match &state.synset_id {
            Some(s) => s.deep_clone(),
            None => {
                return Err(WordNetLoadError::Schema("SynsetRelation outside of Synset"));
            },
        };
        let rel = Relation {
            src_word: None,
            trg_word: None,
            rel_type: typ,
            target: clean_id(raw_targ.as_str()),
        };
        vec_add_to_rels(&mut state.relations, ss, rel);
        proof {
            assert(state.deep_view() =~~= start_spec(st0, name@, attrs_dv)->Ok_0);
        }
        Ok(())
    } else if str_eq(name.as_str(), "Pronunciation") {
        state.variety = attr_value(&attrs, "variety");
        state.in_pron = true;
        proof {
            assert(state.deep_view() =~~= start_spec(st0, name@, attrs_dv)->Ok_0);
        }
        Ok(())
    } else {
        Ok(())
    }
}

/// Applies one element end to the state.
fn step_end(state: &mut LoadState, name: String) -> (r: Result<(), WordNetLoadError>)
    ensures
        r is Ok <==> end_spec(old(state).deep_view(), name@) is Ok,
        end_spec(old(state).deep_view(), name@) matches Ok(st2) ==> final(state).deep_view()
            == st2,
        r matches Err(e) ==> (end_spec(old(state).deep_view(), name@) matches Err(f) && (f
            == LoadFault::Schema ==> e is Schema) && (f == LoadFault::Key ==> e is BadKey)),
{
    let ghost st0 = old(state).deep_view();
    if str_eq(name.as_str(), "LexicalEntry") {
        match &state.lexical_entry_id {
            Some(eid) => {
                let eid2 = eid.deep_clone();
                let prons = state.pronunciations.deep_clone();
                crate::wordnet::map_put_s(&mut state.entry_id_to_prons, eid2, prons);
            },
            None => {
            },
        }
        state.pronunciations = Vec::new();
        state.lexical_entry_id = None;
        state.entry_lemma = None;
        proof {
            assert(state.pronunciations.deep_view()
                =~= Seq::<crate::model::PronunciationV>::empty());
            assert(state.deep_view() =~~= end_spec(st0, name@)->Ok_0);
        }
        Ok(())
    } else if str_eq(name.as_str(), "Sense") {
        state.synset = None;
        proof {
            assert(state.deep_view() =~~= end_spec(st0, name@)->Ok_0);
        }
        Ok(())
    } else if str_eq(name.as_str(), "Synset") {
        assemble(state)
    } else if str_eq(name.as_str(), "Definition") {
        state.in_def = false;
        proof {
            assert(state.deep_view() =~~= end_spec(st0, name@)->Ok_0);
        }
        Ok(())
    } else if str_eq(name.as_str(), "Example") {
        state.in_example = false;
        proof {
            assert(state.deep_view() =~~= end_spec(st0, name@)->Ok_0);
        }
        Ok(())
    } else if str_eq(name.as_str(), "Pronunciation") {
        state.variety = None;
        state.in_pron = false;
        proof {
            assert(state.deep_view() =~~= end_spec(st0, name@)->Ok_0);
        }
        Ok(())
    } else {
        Ok(())
    }
}

/// Applies character data to the state.
fn step_text(state: &mut LoadState, text: String)
    ensures
        final(state).deep_view() == text_spec(old(state).deep_view(), text@),
{
    let ghost st0 = old(state).deep_view();
    if state.in_def {
        state.definition = Some(text);
        proof {
            assert(state.deep_view() =~~= text_spec(st0, text@));
        }
    } else if state.in_example {
        let ghost pre = state.examples.deep_view();
        state.examples.push(text);
        proof {
            assert(state.examples.deep_view() =~= pre.push(text@));
            assert(state.deep_view() =~~= text_spec(st0, text@));
        }
    } else if state.in_pron {
        let variety = match &state.variety {
            Some(v) => Some(v.deep_clone()),
            None => None,
        };
        state.variety = None;
        let ghost pre = state.pronunciations.deep_view();
        state.pronunciations.push(Pronunciation { value: text, variety });
        proof {
            assert(state.pronunciations.deep_view() =~= pre.push(
                crate::model::PronunciationV { value: text@, variety: st0.variety },
            ));
            assert(state.deep_view() =~~= text_spec(st0, text@));
        }
    }
}

/// Applies one event to the state.
fn step(state: &mut LoadState, ev: XmlTok) -> (r: Result<(), WordNetLoadError>)
    ensures
        r is Ok <==> step_spec(old(state).deep_view(), ev) is Ok,
        step_spec(old(state).deep_view(), ev) matches Ok(st2) ==> final(state).deep_view() == st2,
        r matches Err(e) ==> (step_spec(old(state).deep_view(), ev) matches Err(f) && (f
            == LoadFault::Schema ==> e is Schema) && (f == LoadFault::Key ==> e is BadKey)),
{
    match ev {
        XmlTok::Start { name, attrs } => step_start(state, name, attrs),
        XmlTok::End { name } => step_end(state, name),
        XmlTok::Text { text } => {
            step_text(state, text);
            Ok(())
        },
        XmlTok::Skip => Ok(()),
    }
}

/// Runs the whole event sequence and hands each assembled synset over under
/// its parsed key, aborting on the first schema violation, malformed key or
/// malformed markup.
pub fn load_from_events(events: Vec<XmlTok>) -> (r: Result<
    Vec<(WNKey, Synset)>,
    WordNetLoadError,
>)
    ensures
        r is Ok <==> run_spec(events@) is Ok,
        run_spec(events@) matches Ok(st) ==> r matches Ok(v) && v.deep_view() == result_pairs(
            st.synsets,
        ),
        r matches Err(e) ==> (run_spec(events@) matches Err(f) && (f == LoadFault::Schema
            ==> e is Schema) && (f == LoadFault::Key ==> e is BadKey)),
{
    let ghost evs = events@;
    let mut state = new_load_state();
    let mut rest = events;
    let mut i: usize = 0;
    let n = rest.len();
    proof {
        assert(evs.take(0) =~= Seq::<XmlTok>::empty());
        assert(evs.skip(0) =~= evs);
        assert(evs.len() == n);
    }
    while rest.len() > 0
        invariant
            i + rest.len() == evs.len(),
            evs.len() <= usize::MAX,
            rest@ == evs.skip(i as int),
            run_spec(evs.take(i as int)) == Ok::<LoadStateV, LoadFault>(state.deep_view()),
        decreases rest.len(),
    {
        proof {
            assert(evs.take(i + 1).drop_last() =~= evs.take(i as int));
            assert(evs.take(i + 1).last() == evs[i as int]);
            assert(evs.skip(i as int)[0] == evs[i as int]);
            assert(evs.skip(i as int).drop_first() =~= evs.skip(i + 1));
        }
        let ev = rest.remove(0);
        proof {
            assert(ev == evs[i as int]);
        }
        match step(&mut state, ev) {
            Ok(()) => {
            },
            Err(e) => {
                proof {
                    lemma_run_spec_err(evs, i as int);
                }
                return Err(e);
            },
        }
        i += 1;
    }
    proof {
        assert(evs.take(evs.len() as int) =~= evs);
    }
    let mut out: Vec<(WNKey, Synset)> = Vec::new();
    let mut j: usize = 0;
    let ghost final_synsets = state.deep_view().synsets;
    while j < state.synsets.len()
        invariant
            j <= state.synsets.len(),
            final_synsets == state.deep_view().synsets,
            state.synsets.len() == final_synsets.len(),
            out.deep_view().len() == j,
            forall|w: int|
                0 <= w < j ==> out.deep_view()[w] == (final_synsets[w].1.id, final_synsets[w].1),
        decreases state.synsets.len() - j,
    {
        proof {
            assert(state.deep_view().synsets[j as int] == (state.synsets@[j as int].0@, state.synsets@[
                j as int].1.deep_view()));
        }
        let ghost pre = out.deep_view();
        let ss = state.synsets[j].1.deep_clone();
        let k = ss.id;
        out.push((k, ss));
        proof {
            assert(out.deep_view() =~= pre.push(
                (final_synsets[j as int].1.id, final_synsets[j as int].1),
            ));
        }
        j += 1;
    }
    proof {
        assert(out.deep_view() =~= result_pairs(final_synsets));
    }
    Ok(out)
}

/// A failed step anywhere in the stream fails the whole run.
proof fn lemma_run_spec_err(evs: Seq<XmlTok>, i: int)
    requires
        0 <= i < evs.len(),
        run_spec(evs.take(i + 1)) is Err,
    ensures
        run_spec(evs) is Err,
        run_spec(evs)->Err_0 == run_spec(evs.take(i + 1))->Err_0,
    decreases evs.len() - i,
{
    if i + 1 == evs.len() {
        assert(evs.take(i + 1) =~= evs);
    } else {
        assert(evs.take(i + 2).drop_last() =~= evs.take(i + 1));
        lemma_run_spec_err(evs, i + 1);
    }
}

/// Parses a whole LMF document and bulk-inserts its synsets. The loader is
/// all-or-nothing: malformed markup, a schema violation or a malformed key
/// leaves the store exactly as it was.
pub fn load_xml(doc: &str, wordnet: &mut WordNetBuilder) -> (r: Result<(), WordNetLoadError>)
    ensures
        r is Ok <==> xml_wf(doc@) && run_spec(xml_events_of(doc@)) is Ok,
        r is Ok ==> (run_spec(xml_events_of(doc@)) matches Ok(st) && final(wordnet)@
            == crate::wordnet::set_synsets_spec(old(wordnet)@, result_pairs(st.synsets))),
        r is Err ==> final(wordnet)@ == old(wordnet)@,
{
    let events = match parse_xml(doc) {
        Ok(e) => e,
        Err(e) => {
            return Err(e);
        },
    };
    let pairs = match load_from_events(events) {
        Ok(p) => p,
        Err(e) => {
            return Err(e);
        },
    };
    match wordnet.set_synsets(pairs) {
        Ok(()) => Ok(()),
        Err(e) => Err(e),
    }
}

/// The crosswalk pairs a two-column table yields against a store: for each
/// line carrying an interlingual index the store knows, the legacy id and
/// the owning synset's key; all other lines are skipped.
pub open spec fn tab_pairs(st: crate::wordnet::StoreV, lines: Seq<Seq<char>>) -> Seq<
    (Seq<char>, WNKey),
>
    decreases lines.len(),
{
    if lines.len() == 0 {
        Seq::empty()
    } else {
        let pre = tab_pairs(st, lines.drop_last());
        let parts = split_on(lines.last(), '\t');
        if parts.len() >= 2 {
            match assoc_s(st.by_ili, parts[0]) {
                Some(k) => pre.push((parts[1], k)),
                None => pre,
            }
        } else {
            pre
        }
    }
}

/// Loads one legacy-version crosswalk table: lines without both columns and
/// interlingual indices the store does not know are silently skipped.
pub fn build_tab(contents: &str, index: &str, wordnet: &mut WordNetBuilder) -> (r: Result<
    (),
    WordNetLoadError,
>)
    ensures
        r is Ok,
        final(wordnet)@ == crate::wordnet::set_old_ids_spec(
            old(wordnet)@,
            index@,
            tab_pairs(old(wordnet)@, split_on(contents@, '\n')),
        ),
{
    let ghost st0 = old(wordnet)@;
    let lines = str_split(contents, '\n');
    let ghost lines_dv = lines.deep_view();
    let mut values: Vec<(String, WNKey)> = Vec::new();
    let mut i: usize = 0;
    proof {
        assert(lines_dv.take(0) =~= Seq::<Seq<char>>::empty());
        assert(values.deep_view() =~= tab_pairs(st0, lines_dv.take(0)));
    }
    while i < lines.len()
        invariant
            i <= lines.len(),
            lines_dv == lines.deep_view(),
            lines.len() == lines_dv.len(),
            *wordnet == *old(wordnet),
            values.deep_view() == tab_pairs(st0, lines_dv.take(i as int)),
        decreases lines.len() - i,
    {
        proof {
            assert(lines_dv[i as int] == lines@[i as int]@);
            assert(lines_dv.take(i + 1).drop_last() =~= lines_dv.take(i as int));
            assert(lines_dv.take(i + 1).last() == lines_dv[i as int]);
        }
        let parts = str_split(lines[i].as_str(), '\t');
        let ghost pre = values.deep_view();
        if parts.len() >= 2 {
            proof {
                assert(parts.deep_view()[0] == parts@[0]@);
                assert(parts.deep_view()[1] == parts@[1]@);
            }
            match wordnet.get_id_by_ili(parts[0].as_str()) {
                Ok(Some(k)) => {
                    values.push((parts[1].deep_clone(), k));
                    proof {
                        assert(values.deep_view() =~= pre.push((parts.deep_view()[1], k)));
                    }
                },
                Ok(None) => {
                },
                Err(_) => {
                },
            }
        }
        i += 1;
    }
    proof {
        assert(lines_dv.take(lines_dv.len() as int) =~= lines_dv);
    }
    wordnet.set_old_ids(index, values)
}

/// Loading a list of crosswalk tables, in order.
pub open spec fn build_tabs_spec(
    st: crate::wordnet::StoreV,
    tabs: Seq<(Seq<char>, Seq<char>)>,
) -> crate::wordnet::StoreV
    decreases tabs.len(),
{
    if tabs.len() == 0 {
        st
    } else {
        build_tabs_spec(
            crate::wordnet::set_old_ids_spec(
                st,
                tabs[0].0,
                tab_pairs(st, split_on(tabs[0].1, '\n')),
            ),
            tabs.drop_first(),
        )
    }
}

/// Loads the named legacy-version crosswalk tables, each best-effort.
pub fn build_tabs(tabs: &Vec<(String, String)>, wordnet: &mut WordNetBuilder) -> (r: Result<
    (),
    WordNetLoadError,
>)
    ensures
        r is Ok,
        final(wordnet)@ == build_tabs_spec(old(wordnet)@, tabs.deep_view()),
{
    let ghost tabs_dv = tabs.deep_view();
    let mut i: usize = 0;
    proof {
        assert(tabs_dv.skip(0) =~= tabs_dv);
    }
    while i < tabs.len()
        invariant
            i <= tabs.len(),
            tabs_dv == tabs.deep_view(),
            tabs.len() == tabs_dv.len(),
            build_tabs_spec(old(wordnet)@, tabs_dv) == build_tabs_spec(
                wordnet@,
                tabs_dv.skip(i as int),
            ),
        decreases tabs.len() - i,
    {
        proof {
            assert(tabs_dv.skip(i as int)[0] == tabs_dv[i as int]);
            assert(tabs_dv[i as int] == (tabs@[i as int].0@, tabs@[i as int].1@));
            assert(tabs_dv.skip(i as int).drop_first() =~= tabs_dv.skip(i + 1));
        }
        let _ = build_tab(tabs[i].1.as_str(), tabs[i].0.as_str(), wordnet);
        i += 1;
    }
    proof {
        assert(tabs_dv.skip(tabs_dv.len() as int).len() == 0);
    }
    Ok(())
}

/// Which enrichment passes a load runs after the base document.
pub struct LoadConfiguration {
    pub tabs: bool,
    pub glosstags: bool,
    pub omwn: bool,
    pub links: bool,
}

/// Everything a full load reads: the LMF document and the enrichment tables,
/// already brought into memory.
pub struct LoadSources {
    /// The LMF document.
    pub document: String,
    /// Legacy crosswalk tables: version name and contents.
    pub tab_tables: Vec<(String, String)>,
    /// Foreign translation tables: language code and contents.
    pub omwn_tables: Vec<(String, String)>,
    /// Sense-tagged gloss corpora.
    pub glosstag_docs: Vec<String>,
    /// Verb-class membership documents.
    pub verbnet_docs: Vec<String>,
    /// The legacy URL crosswalk, if present.
    pub w3c_table: Option<String>,
    /// The encyclopedic mapping, if present.
    pub wwim_table: Option<String>,
}

/// Runs the full pipeline in its fixed order: parse, bulk insert, crosswalks,
/// foreign translations, gloss tags, links, then the hand-over to the read
/// path. The base parse is all-or-nothing; the enrichment passes are
/// best-effort.
/// What a full load yields: `None` when the pipeline fails — malformed or
/// schema-breaking base document, a bad gloss corpus, or a missing
/// third-edition crosswalk before the foreign pass — and otherwise the store
/// after the enabled passes ran in their fixed order: parse and bulk insert,
/// crosswalks, gloss tags, foreign translations, links.
pub open spec fn load_spec(sources: LoadSources, config: LoadConfiguration) -> Option<
    crate::wordnet::StoreV,
> {
    if !xml_wf(sources.document@) {
        None
    } else {
        match run_spec(xml_events_of(sources.document@)) {
            Err(_) => None,
            Ok(st) => {
                let s1 = crate::wordnet::set_synsets_spec(
                    crate::wordnet::empty_store(),
                    result_pairs(st.synsets),
                );
                let s2 = if config.tabs {
                    build_tabs_spec(s1, sources.tab_tables.deep_view())
                } else {
                    s1
                };
                if config.glosstags && crate::glosstag::read_corpora(
                    s2,
                    sources.glosstag_docs.deep_view(),
                    Seq::empty(),
                ) is None {
                    None
                } else {
                    let s3 = if config.glosstags {
                        crate::glosstag::apply_glosses(
                            s2,
                            crate::glosstag::read_corpora(
                                s2,
                                sources.glosstag_docs.deep_view(),
                                Seq::empty(),
                            )->Some_0,
                        )
                    } else {
                        s2
                    };
                    if config.omwn && assoc_s(s3.old_rows, "pwn30"@) is None {
                        None
                    } else {
                        let s4 = if config.omwn {
                            build_omwn_spec(s3, sources.omwn_tables.deep_view())
                        } else {
                            s3
                        };
                        let s5 = if config.links {
                            crate::links::load_links_spec(
                                s4,
                                sources.verbnet_docs.deep_view(),
                                sources.w3c_table.deep_view(),
                                sources.wwim_table.deep_view(),
                            )
                        } else {
                            s4
                        };
                        Some(s5)
                    }
                }
            },
        }
    }
}

/// Runs the full pipeline in its fixed order: parse, bulk insert, crosswalks,
/// gloss tags, foreign translations, links, then the hand-over to the read
/// path. The base parse is all-or-nothing; the crosswalk and link passes are
/// best-effort; a bad gloss corpus or a foreign pass without its crosswalk
/// fails the load.
pub fn load(sources: &LoadSources, config: &LoadConfiguration) -> (r: Result<
    WordNet,
    WordNetLoadError,
>)
    ensures
        r is Ok <==> load_spec(*sources, *config) is Some,
        r matches Ok(w) ==> w@ == load_spec(*sources, *config)->Some_0,
{
    let mut wordnet = match WordNetBuilder::new() {
        Ok(b) => b,
        Err(e) => {
            return Err(e);
        },
    };
    match load_xml(sources.document.as_str(), &mut wordnet) {
        Ok(()) => {
        },
        Err(e) => {
            return Err(e);
        },
    }
    if config.tabs {
        match build_tabs(&sources.tab_tables, &mut wordnet) {
            Ok(()) => {
            },
            Err(e) => {
                return Err(e);
            },
        }
    }
    let ghost s2 = wordnet@;
    if config.glosstags {
        match crate::glosstag::build_glosstags(&sources.glosstag_docs, &mut wordnet) {
            Ok(()) => {
            },
            Err(e) => {
                return Err(e);
            },
        }
    }
    let ghost s3 = wordnet@;
    if config.omwn {
        match build_omwn(&sources.omwn_tables, &mut wordnet) {
            Ok(()) => {
            },
            Err(e) => {
                proof {
                    assert(load_spec(*sources, *config) is None);
                }
                return Err(e);
            },
        }
    }
    if config.links {
        match crate::links::load_links(
            &sources.verbnet_docs,
            &sources.w3c_table,
            &sources.wwim_table,
            &mut wordnet,
        ) {
            Ok(()) => {
            },
            Err(e) => {
                return Err(e);
            },
        }
    }
    proof {
        assert(Some(wordnet@) =~~= load_spec(*sources, *config));
    }
    wordnet.finalize()
}

/// Loads a first-edition-style document with crosswalks, foreign
/// translations and links.
pub fn load_pwn(sources: &LoadSources) -> (r: Result<WordNet, WordNetLoadError>)
    ensures
        r is Ok <==> load_spec(
            *sources,
            (LoadConfiguration { tabs: true, glosstags: false, omwn: true, links: true }),
        ) is Some,
        r matches Ok(w) ==> w@ == load_spec(
            *sources,
            (LoadConfiguration { tabs: true, glosstags: false, omwn: true, links: true }),
        )->Some_0,
{
    load(sources, &LoadConfiguration { tabs: true, glosstags: false, omwn: true, links: true })
}

/// Loads a bare document without any of the associated resources.
pub fn load_gwn(sources: &LoadSources) -> (r: Result<WordNet, WordNetLoadError>)
    ensures
        r is Ok <==> load_spec(
            *sources,
            (LoadConfiguration { tabs: false, glosstags: false, omwn: false, links: false }),
        ) is Some,
        r matches Ok(w) ==> w@ == load_spec(
            *sources,
            (LoadConfiguration { tabs: false, glosstags: false, omwn: false, links: false }),
        )->Some_0,
{
    load(sources, &LoadConfiguration { tabs: false, glosstags: false, omwn: false, links: false })
}

/// Loads the English lexicon without any of the associated resources.
pub fn load_enwn(sources: &LoadSources) -> (r: Result<WordNet, WordNetLoadError>)
    ensures
        r is Ok <==> load_spec(
            *sources,
            (LoadConfiguration { tabs: false, glosstags: false, omwn: false, links: false }),
        ) is Some,
        r matches Ok(w) ==> w@ == load_spec(
            *sources,
            (LoadConfiguration { tabs: false, glosstags: false, omwn: false, links: false }),
        )->Some_0,
{
    load(sources, &LoadConfiguration { tabs: false, glosstags: false, omwn: false, links: false })
}

/// Applying the foreign-translation result of one language to the store:
/// each synset found gets its language entry replaced.
pub open spec fn apply_omwn_spec(
    st: crate::wordnet::StoreV,
    lang: Seq<char>,
    rows: Seq<(WNKey, Seq<Seq<char>>)>,
) -> crate::wordnet::StoreV
    decreases rows.len(),
{
    if rows.len() == 0 {
        st
    } else {
        let st1 = match crate::wordnet::assoc_k(st.synsets, rows[0].0) {
            Some(sv) => crate::wordnet::update_synset_spec(
                st,
                rows[0].0,
                SynsetV { foreign: put_s(sv.foreign, lang, rows[0].1), ..sv },
            ),
            None => st,
        };
        apply_omwn_spec(st1, lang, rows.drop_first())
    }
}

/// Loading every translation table, in order: each table is read against
/// the store as it stands, and its rows applied.
pub open spec fn build_omwn_spec(
    st: crate::wordnet::StoreV,
    tables: Seq<(Seq<char>, Seq<char>)>,
) -> crate::wordnet::StoreV
    decreases tables.len(),
{
    if tables.len() == 0 {
        st
    } else {
        build_omwn_spec(
            apply_omwn_spec(st, tables[0].0, crate::omwn::omwn_spec(st, tables[0].1)),
            tables.drop_first(),
        )
    }
}

/// Loads every foreign-translation table and attaches the deduplicated
/// lemma lists to the synsets the crosswalk index can still reach.
pub fn build_omwn(tables: &Vec<(String, String)>, wordnet: &mut WordNetBuilder) -> (r: Result<
    (),
    WordNetLoadError,
>)
    ensures
        r is Ok <==> assoc_s(old(wordnet)@.old_rows, "pwn30"@) is Some,
        r is Ok ==> final(wordnet)@ == build_omwn_spec(old(wordnet)@, tables.deep_view()),
        r matches Err(e) ==> e is Storage && final(wordnet)@ == old(wordnet)@,
{
    proof {
        reveal_strlit("pwn30");
    }
    // the whole pass rests on the third-edition crosswalk: without it no
    // row can be mapped, and the pass is reported as failed rather than
    // silently attaching nothing
    if !wordnet.has_legacy_index("pwn30") {
        return Err(
            WordNetLoadError::Storage(
                String::from_str("the foreign-translation pass needs the pwn30 crosswalk"),
            ),
        );
    }
    let ghost tabs_dv = tables.deep_view();
    let mut i: usize = 0;
    proof {
        assert(tabs_dv.skip(0) =~= tabs_dv);
    }
    while i < tables.len()
        invariant
            i <= tables.len(),
            tabs_dv == tables.deep_view(),
            tables.len() == tabs_dv.len(),
            build_omwn_spec(old(wordnet)@, tabs_dv) == build_omwn_spec(
                wordnet@,
                tabs_dv.skip(i as int),
            ),
        decreases tables.len() - i,
    {
        proof {
            assert(tabs_dv.skip(i as int)[0] == tabs_dv[i as int]);
            assert(tabs_dv[i as int] == (tables@[i as int].0@, tables@[i as int].1@));
            assert(tabs_dv.skip(i as int).drop_first() =~= tabs_dv.skip(i + 1));
        }
        let ghost st_i = wordnet@;
        let rows = match crate::omwn::load_omwn(tables[i].1.as_str(), wordnet) {
            Ok(r) => r,
            Err(e) => {
                return Err(e);
            },
        };
        let ghost rows_dv = rows.deep_view();
        let ghost lang = tabs_dv[i as int].0;
        let mut j: usize = 0;
        proof {
            assert(rows_dv.skip(0) =~= rows_dv);
        }
        while j < rows.len()
            invariant
                j <= rows.len(),
                rows_dv == rows.deep_view(),
                rows.len() == rows_dv.len(),
                lang == tables@[i as int].0@,
                i < tables.len(),
                apply_omwn_spec(st_i, lang, rows_dv) == apply_omwn_spec(
                    wordnet@,
                    lang,
                    rows_dv.skip(j as int),
                ),
            decreases rows.len() - j,
        {
            proof {
                assert(rows_dv.skip(j as int)[0] == rows_dv[j as int]);
                assert(rows_dv[j as int] == (rows@[j as int].0, rows@[j as int].1.deep_view()));
                assert(rows_dv.skip(j as int).drop_first() =~= rows_dv.skip(j + 1));
            }
            let key = rows[j].0;
            let ghost st_now = wordnet@;
            match wordnet.get_synset(&key) {
                Ok(Some(mut s2)) => {
                    let ghost sv = s2.deep_view();
                    let vals = rows[j].1.deep_clone();
                    crate::wordnet::map_put_s(&mut s2.foreign, tables[i].0.deep_clone(), vals);
                    proof {
                        assert(s2.deep_view() =~~= SynsetV {
                            foreign: put_s(sv.foreign, lang, rows_dv[j as int].1),
                            ..sv
                        });
                    }
                    let _ = wordnet.update_synset(key, s2);
                },
                Ok(None) => {
                },
                Err(_) => {
                },
            }
            j += 1;
        }
        proof {
            assert(rows_dv.skip(rows_dv.len() as int).len() == 0);
        }
        i += 1;
    }
    proof {
        assert(tabs_dv.skip(tabs_dv.len() as int).len() == 0);
    }
    Ok(())
}

} // verus!
