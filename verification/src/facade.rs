//! The query facade: the one typed interface serving code may use. It maps
//! an index name onto the right engine call, pads autocomplete seeds into
//! full keys, and groups synsets per sense for rendering.
use crate::keys::{WNKey, is_digit, valid_key_chars};
use crate::model::{DeepClone, Sense, Synset, SynsetV, pos_letter};
use crate::text::{is_prefix, str_eq, str_starts_with};
use crate::wordnet::{StoreV, WordNet, assoc_s, store_get_by_ili,
    store_get_by_lemma, store_get_by_old_id, store_get_by_sense_key};
use vstd::prelude::*;

verus! {

/// What looking an index name and an identifier up yields: the matching
/// synsets, or the words of the failure.
pub open spec fn get_synsets_spec(st: StoreV, index: Seq<char>, id: Seq<char>) -> Result<
    Seq<SynsetV>,
    Seq<char>,
> {
    if index == "id"@ {
        match WNKey::spec_parse(id) {
            None => Err("Not a WordNet ID"@),
            Some(k) => match crate::wordnet::assoc_k(st.synsets, k) {
                None => Err("Synset Not Found"@),
                Some(sv) => Ok(seq![sv]),
            },
        }
    } else if index == "lemma"@ {
        Ok(store_get_by_lemma(st, id, "en"@))
    } else if is_prefix("lemma-"@, index) {
        Ok(store_get_by_lemma(st, id, index.skip(6)))
    } else if index == "ili"@ {
        match store_get_by_ili(st, id) {
            None => Err("Synset Not Found"@),
            Some(sv) => Ok(seq![sv]),
        }
    } else if index == "sense_key"@ {
        match store_get_by_sense_key(st, id) {
            None => Err("Synset Not Found"@),
            Some(sv) => Ok(seq![sv]),
        }
    } else if assoc_s(st.old_rows, index) is Some {
        match store_get_by_old_id(st, index, id) {
            None => Err("Synset Not Found"@),
            Some(sv) => Ok(seq![sv]),
        }
    } else {
        Err("Unsupported index"@)
    }
}

/// Whether the store loaded a legacy version of this name.
fn old_index_present(wordnet: &WordNet, index: &str) -> (r: bool)
    ensures
        r == (assoc_s(wordnet@.old_rows, index@) is Some),
{
    wordnet.has_legacy_index(index)
}

/// Looks an identifier up in the named index: the canonical id, a lemma
/// (optionally per language), an interlingual index, a sense key, or a
/// loaded legacy version; any other index name is unsupported.
pub fn get_synsets(wordnet: &WordNet, index: &str, id: &str) -> (r: Result<Vec<Synset>, String>)
    ensures
        get_synsets_spec(wordnet@, index@, id@) matches Ok(svs) ==> (r matches Ok(v)
            && v.deep_view() == svs),
        get_synsets_spec(wordnet@, index@, id@) matches Err(m) ==> (r matches Err(s) && s@ == m),
{
    proof {
        reveal_strlit("lemma-");
        reveal_strlit("en");
    }
    if str_eq(index, "id") {
        match WNKey::parse(id) {
            Err(_) => Err(String::from_str("Not a WordNet ID")),
            Ok(k) => match wordnet.get_synset(&k) {
                Ok(Some(ss)) => {
                    let mut out: Vec<Synset> = Vec::new();
                    out.push(ss);
                    proof {
                        assert(out.deep_view() =~= seq![
                            crate::wordnet::assoc_k(wordnet@.synsets, k)->Some_0,
                        ]);
                    }
                    Ok(out)
                },
                _ => Err(String::from_str("Synset Not Found")),
            },
        }
    } else if str_eq(index, "lemma") {
        match wordnet.get_by_lemma(id, "en") {
            Ok(v) => Ok(v),
            Err(_) => Err(String::from_str("Synset Not Found")),
        }
    } else if str_starts_with(index, "lemma-") {
        let len = index.unicode_len();
        let lang = index.substring_char(6, len);
        proof {
            assert(lang@ =~= index@.skip(6));
        }
        match wordnet.get_by_lemma(id, lang) {
            Ok(v) => Ok(v),
            Err(_) => Err(String::from_str("Synset Not Found")),
        }
    } else if str_eq(index, "ili") {
        match wordnet.get_by_ili(id) {
            Ok(Some(ss)) => {
                let mut out: Vec<Synset> = Vec::new();
                let ghost sv = ss.deep_view();
                out.push(ss);
                proof {
                    assert(out.deep_view() =~= seq![sv]);
                }
                Ok(out)
            },
            _ => Err(String::from_str("Synset Not Found")),
        }
    } else if str_eq(index, "sense_key") {
        match wordnet.get_by_sense_key(id) {
            Ok(Some(ss)) => {
                let mut out: Vec<Synset> = Vec::new();
                let ghost sv = ss.deep_view();
                out.push(ss);
                proof {
                    assert(out.deep_view() =~= seq![sv]);
                }
                Ok(out)
            },
            _ => Err(String::from_str("Synset Not Found")),
        }
    } else if old_index_present(wordnet, index) {
        match wordnet.get_by_old_id(index, id) {
            Ok(Some(ss)) => {
                let mut out: Vec<Synset> = Vec::new();
                let ghost sv = ss.deep_view();
                out.push(ss);
                proof {
                    assert(out.deep_view() =~= seq![sv]);
                }
                Ok(out)
            },
            _ => Err(String::from_str("Synset Not Found")),
        }
    } else {
        Err(String::from_str("Unsupported index"))
    }
}

/// A seed padded into a full canonical key: the tail of the least key is
/// appended, so the scan starts at the first key the seed could begin.
pub open spec fn padded_key(k: Seq<char>) -> Seq<char> {
    k + "00000000-n"@.skip(k.len() as int)
}

/// Pads an autocomplete seed of at most ten characters into a full key.
pub fn autocomplete_wn_key(k: &str) -> (r: Result<WNKey, &'static str>)
    ensures
        k@.len() <= 10 && valid_key_chars(padded_key(k@)) ==> (r matches Ok(key) && Some(key)
            == WNKey::spec_parse(padded_key(k@))),
        r matches Err(m) ==> m@ == "Not a WordNet ID"@,
        r is Err <==> !(k@.len() <= 10 && valid_key_chars(padded_key(k@))),
{
    proof {
        reveal_strlit("00000000-n");
        reveal_strlit("Not a WordNet ID");
    }
    let len = k.unicode_len();
    if len <= 10 {
        let mut k2 = String::from_str(k);
        let pad = "00000000-n";
        let tail = pad.substring_char(len, 10);
        k2.append(tail);
        proof {
            assert(k2@ =~= padded_key(k@));
        }
        match WNKey::parse(k2.as_str()) {
            Ok(key) => Ok(key),
            Err(_) => Err("Not a WordNet ID"),
        }
    } else {
        Err("Not a WordNet ID")
    }
}

/// A key of an earlier edition written as bare digits: ten characters with
/// eight leading digits, or eleven with nine.
pub open spec fn is_old_wn_key_spec(s: Seq<char>) -> bool {
    if s.len() == 10 {
        forall|i: int| 0 <= i < 8 ==> is_digit(#[trigger] s[i])
    } else if s.len() == 11 {
        forall|i: int| 0 <= i < 9 ==> is_digit(#[trigger] s[i])
    } else {
        false
    }
}

/// Recognizes a legacy key written as bare digits.
pub fn is_old_wn_key(s: &str) -> (r: bool)
    ensures
        r == is_old_wn_key_spec(s@),
{
    let len = s.unicode_len();
    let digits: usize = if len == 10 {
        8
    } else if len == 11 {
        9
    } else {
        return false;
    };
    let mut i: usize = 0;
    while i < digits
        invariant
            i <= digits,
            digits < len == s@.len(),
            forall|j: int| 0 <= j < i ==> is_digit(#[trigger] s@[j]),
        decreases digits - i,
    {
        if crate::keys::digit_value(s.get_char(i)).is_none() {
            return false;
        }
        i += 1;
    }
    true
}

/// One autocomplete suggestion: what to show and what to insert.
pub struct AutocompleteResult {
    pub display: String,
    pub item: String,
}

#[verifier::ext_equal]
pub struct AutocompleteResultV {
    pub display: Seq<char>,
    pub item: Seq<char>,
}

impl DeepView for AutocompleteResult {
    type V = AutocompleteResultV;

    open spec fn deep_view(&self) -> AutocompleteResultV {
        AutocompleteResultV { display: self.display@, item: self.item@ }
    }
}

/// Each listed entry suggested as both display text and insertion text.
pub open spec fn pair_results(items: Seq<Seq<char>>) -> Seq<AutocompleteResultV> {
    Seq::new(items.len(), |i: int| AutocompleteResultV { display: items[i], item: items[i] })
}

/// The entries that begin with the typed seed, in listing order.
pub open spec fn filter_prefix(items: Seq<Seq<char>>, key: Seq<char>) -> Seq<Seq<char>>
    decreases items.len(),
{
    if items.len() == 0 {
        Seq::empty()
    } else {
        let pre = filter_prefix(items.drop_last(), key);
        if is_prefix(key, items.last()) {
            pre.push(items.last())
        } else {
            pre
        }
    }
}

/// The canonical text a listed key shows as; a key that is not well formed
/// shows as the least key.
pub open spec fn shown_key(k: WNKey) -> Seq<char> {
    if k.wf() {
        k.key_str()
    } else {
        (WNKey { num: 0, pos: 'n' }).key_str()
    }
}

pub open spec fn shown_keys(ks: Seq<WNKey>) -> Seq<Seq<char>> {
    Seq::new(ks.len(), |i: int| shown_key(ks[i]))
}

/// What autocompletion over one index yields: the up-to-ten ascending
/// entries of that index at or after the seed — every lemma the scan
/// serves, and of the other indices only the entries that begin with the
/// typed seed — or the words of the failure.
pub open spec fn autocomplete_spec(st: StoreV, index: Seq<char>, key: Seq<char>) -> Result<
    Seq<AutocompleteResultV>,
    Seq<char>,
> {
    if index == "lemma"@ {
        Ok(pair_results(crate::wordnet::store_list_by_lemma(st, key, "en"@, 10)))
    } else if is_prefix("lemma-"@, index) {
        Ok(pair_results(crate::wordnet::store_list_by_lemma(st, key, index.skip(6), 10)))
    } else if index == "id"@ {
        if key.len() <= 10 && valid_key_chars(padded_key(key)) {
            let seed = WNKey::spec_parse(padded_key(key))->Some_0;
            Ok(
                pair_results(
                    filter_prefix(
                        shown_keys(
                            crate::wordnet::kscan(
                                crate::wordnet::keys_of(st.synsets),
                                seed,
                                false,
                                10,
                            ),
                        ),
                        key,
                    ),
                ),
            )
        } else {
            Err("Not a WordNet ID"@)
        }
    } else if index == "ili"@ {
        Ok(
            pair_results(
                filter_prefix(
                    crate::wordnet::sscan(crate::wordnet::skeys(st.by_ili), key, false, 10),
                    key,
                ),
            ),
        )
    } else if index == "sense_key"@ {
        Ok(
            pair_results(
                filter_prefix(
                    crate::wordnet::sscan(
                        crate::wordnet::skeys(st.by_sense_key),
                        key,
                        false,
                        10,
                    ),
                    key,
                ),
            ),
        )
    } else if assoc_s(st.old_rows, index) is Some {
        Ok(
            pair_results(
                filter_prefix(
                    crate::wordnet::sscan(
                        crate::wordnet::skeys(crate::wordnet::old_index_of(st, index)),
                        key,
                        false,
                        10,
                    ),
                    key,
                ),
            ),
        )
    } else {
        Err("Unsupported index"@)
    }
}

/// Suggests every listed entry.
fn push_all(results: &mut Vec<AutocompleteResult>, items: &Vec<String>)
    ensures
        final(results).deep_view() == old(results).deep_view() + pair_results(items.deep_view()),
{
    let ghost items_dv = items.deep_view();
    let ghost base = results.deep_view();
    let mut i: usize = 0;
    proof {
        assert(items_dv.take(0) =~= Seq::<Seq<char>>::empty());
        assert(results.deep_view() =~= base + pair_results(items_dv.take(0)));
    }
    while i < items.len()
        invariant
            i <= items.len(),
            items_dv == items.deep_view(),
            items.len() == items_dv.len(),
            results.deep_view() == base + pair_results(items_dv.take(i as int)),
        decreases items.len() - i,
    {
        let ghost pre = results.deep_view();
        proof {
            assert(items_dv[i as int] == items@[i as int]@);
        }
        results.push(
            AutocompleteResult { display: items[i].deep_clone(), item: items[i].deep_clone() },
        );
        proof {
            assert(items_dv.take(i + 1).drop_last() =~= items_dv.take(i as int));
            assert(results.deep_view() =~= pre.push(
                AutocompleteResultV { display: items_dv[i as int], item: items_dv[i as int] },
            ));
            assert(results.deep_view() =~= base + pair_results(items_dv.take(i + 1)));
        }
        i += 1;
    }
    proof {
        assert(items_dv.take(items_dv.len() as int) =~= items_dv);
    }
}

/// Suggests the listed entries that begin with the typed seed.
fn push_filtered(results: &mut Vec<AutocompleteResult>, items: &Vec<String>, key: &str)
    ensures
        final(results).deep_view() == old(results).deep_view() + pair_results(
            filter_prefix(items.deep_view(), key@),
        ),
{
    let ghost items_dv = items.deep_view();
    let ghost base = results.deep_view();
    let mut i: usize = 0;
    proof {
        assert(items_dv.take(0) =~= Seq::<Seq<char>>::empty());
        assert(results.deep_view() =~= base + pair_results(
            filter_prefix(items_dv.take(0), key@),
        ));
    }
    while i < items.len()
        invariant
            i <= items.len(),
            items_dv == items.deep_view(),
            items.len() == items_dv.len(),
            results.deep_view() == base + pair_results(
                filter_prefix(items_dv.take(i as int), key@),
            ),
        decreases items.len() - i,
    {
        let ghost pre = results.deep_view();
        proof {
            assert(items_dv[i as int] == items@[i as int]@);
            assert(items_dv.take(i + 1).drop_last() =~= items_dv.take(i as int));
            assert(items_dv.take(i + 1).last() == items_dv[i as int]);
        }
        if str_starts_with(items[i].as_str(), key) {
            results.push(
                AutocompleteResult {
                    display: items[i].deep_clone(),
                    item: items[i].deep_clone(),
                },
            );
            proof {
                assert(results.deep_view() =~= pre.push(
                    AutocompleteResultV {
                        display: items_dv[i as int],
                        item: items_dv[i as int],
                    },
                ));
                assert(results.deep_view() =~= base + pair_results(
                    filter_prefix(items_dv.take(i + 1), key@),
                ));
            }
        }
        i += 1;
    }
    proof {
        assert(items_dv.take(items_dv.len() as int) =~= items_dv);
    }
}

/// The canonical text of a key, for display; a key that is not well formed
/// shows as the least key.
fn key_text(k: &WNKey) -> (r: String)
    ensures
        r@ == shown_key(*k),
{
    if k.num < 100000000 && (k.pos == 'n' || k.pos == 'v' || k.pos == 'a' || k.pos == 'r' || k.pos
        == 's' || k.pos == 'p' || k.pos == 'x') {
        k.to_string()
    } else {
        let fallback = WNKey { num: 0, pos: 'n' };
        fallback.to_string()
    }
}

/// Autocomplete over one index: up to ten ascending entries at or after the
/// seed; an id or legacy seed is padded into a full key first; of every
/// index but the lemma scans, only entries that begin with the typed seed
/// are suggested; an index name the store does not serve is unsupported.
pub fn autocomplete_lemma(wordnet: &WordNet, index: &str, key: &str) -> (r: Result<
    Vec<AutocompleteResult>,
    String,
>)
    ensures
        autocomplete_spec(wordnet@, index@, key@) matches Ok(items) ==> (r matches Ok(v)
            && v.deep_view() == items),
        autocomplete_spec(wordnet@, index@, key@) matches Err(m) ==> (r matches Err(s) && s@
            == m),
{
    proof {
        reveal_strlit("lemma-");
        reveal_strlit("en");
        reveal_strlit("Not a WordNet ID");
        reveal_strlit("Unsupported index");
    }
    let mut results: Vec<AutocompleteResult> = Vec::new();
    proof {
        assert(results.deep_view() =~= Seq::<AutocompleteResultV>::empty());
    }
    if str_eq(index, "lemma") {
        let key_string = String::from_str(key);
        match wordnet.list_by_lemma(&key_string, "en", 10) {
            Ok(items) => {
                push_all(&mut results, &items);
                proof {
                    assert(results.deep_view() =~= pair_results(items.deep_view()));
                }
            },
            Err(_) => {
                return Err(String::from_str("Database error"));
            },
        }
    } else if str_starts_with(index, "lemma-") {
        let len = index.unicode_len();
        let lang = index.substring_char(6, len);
        proof {
            assert(lang@ =~= index@.skip(6));
        }
        let key_string = String::from_str(key);
        match wordnet.list_by_lemma(&key_string, lang, 10) {
            Ok(items) => {
                push_all(&mut results, &items);
                proof {
                    assert(results.deep_view() =~= pair_results(items.deep_view()));
                }
            },
            Err(_) => {
                return Err(String::from_str("Database error"));
            },
        }
    } else if str_eq(index, "id") {
        let key2 = match autocomplete_wn_key(key) {
            Ok(k) => k,
            Err(m) => {
                return Err(String::from_str(m));
            },
        };
        match wordnet.list_by_id(&key2, 10) {
            Ok(items) => {
                let ghost items_dv = items@;
                let mut i: usize = 0;
                proof {
                    assert(items_dv.take(0) =~= Seq::<WNKey>::empty());
                    assert(shown_keys(items_dv.take(0)) =~= Seq::<Seq<char>>::empty());
                    assert(results.deep_view() =~= pair_results(
                        filter_prefix(shown_keys(items_dv.take(0)), key@),
                    ));
                }
                while i < items.len()
                    invariant
                        i <= items.len(),
                        items_dv == items@,
                        items.len() == items_dv.len(),
                        results.deep_view() == pair_results(
                            filter_prefix(shown_keys(items_dv.take(i as int)), key@),
                        ),
                    decreases items.len() - i,
                {
                    let ghost pre = results.deep_view();
                    let shown = key_text(&items[i]);
                    proof {
                        assert(shown_keys(items_dv.take(i + 1)).drop_last() =~= shown_keys(
                            items_dv.take(i as int),
                        ));
                        assert(shown_keys(items_dv.take(i + 1)).last() == shown_key(
                            items_dv[i as int],
                        ));
                    }
                    if str_starts_with(shown.as_str(), key) {
                        results.push(
                            AutocompleteResult { display: shown.deep_clone(), item: shown },
                        );
                        proof {
                            assert(results.deep_view() =~= pre.push(
                                AutocompleteResultV {
                                    display: shown_key(items_dv[i as int]),
                                    item: shown_key(items_dv[i as int]),
                                },
                            ));
                            assert(results.deep_view() =~= pair_results(
                                filter_prefix(shown_keys(items_dv.take(i + 1)), key@),
                            ));
                        }
                    }
                    i += 1;
                }
                proof {
                    assert(items_dv.take(items_dv.len() as int) =~= items_dv);
                }
            },
            Err(_) => {
                return Err(String::from_str("Database error"));
            },
        }
    } else if str_eq(index, "ili") {
        let key_string = String::from_str(key);
        match wordnet.list_by_ili(&key_string, 10) {
            Ok(items) => {
                push_filtered(&mut results, &items, key);
                proof {
                    assert(results.deep_view() =~= pair_results(
                        filter_prefix(items.deep_view(), key@),
                    ));
                }
            },
            Err(_) => {
                return Err(String::from_str("Database error"));
            },
        }
    } else if str_eq(index, "sense_key") {
        let key_string = String::from_str(key);
        match wordnet.list_by_sense_key(&key_string, 10) {
            Ok(items) => {
                push_filtered(&mut results, &items, key);
                proof {
                    assert(results.deep_view() =~= pair_results(
                        filter_prefix(items.deep_view(), key@),
                    ));
                }
            },
            Err(_) => {
                return Err(String::from_str("Database error"));
            },
        }
    } else if old_index_present(wordnet, index) {
        match wordnet.list_by_old_id(index, key, 10) {
            Ok(items) => {
                push_filtered(&mut results, &items, key);
                proof {
                    assert(results.deep_view() =~= pair_results(
                        filter_prefix(items.deep_view(), key@),
                    ));
                }
            },
            Err(_) => {
                return Err(String::from_str("Database error"));
            },
        }
    } else {
        return Err(String::from_str("Unsupported index"));
    }
    Ok(results)
}

/// Which site design is being served; it picks the license and site links a
/// rendering carries.
#[derive(Clone, Copy, Debug, PartialEq, Eq, Structural)]
pub enum WordNetSite {
    Princeton,
    Polylingual,
    English,
}

/// A rendering-ready bundle: the synsets themselves and, per language and
/// per lemma entry, the synsets restricted to one sense each.
pub struct SynsetsHB {
    pub synsets: Vec<Synset>,
    pub entries: Vec<(String, Vec<(String, Vec<Synset>)>)>,
    pub index: String,
    pub name: String,
    pub license: &'static str,
    pub site: &'static str,
}

/// The relations kept on a per-sense copy: synset-level edges, and
/// sense-level edges whose source word is this sense's lemma.
pub open spec fn retained_rels(rels: Seq<crate::model::RelationV>, lemma: Seq<char>) -> Seq<
    crate::model::RelationV,
>
    decreases rels.len(),
{
    if rels.len() == 0 {
        Seq::empty()
    } else {
        let pre = retained_rels(rels.drop_last(), lemma);
        let keep = match rels.last().src_word {
            None => true,
            Some(s) => s == lemma,
        };
        if keep {
            pre.push(rels.last())
        } else {
            pre
        }
    }
}

/// A synset restricted to one of its senses.
pub open spec fn sense_entry(sv: SynsetV, s: crate::model::SenseV) -> SynsetV {
    SynsetV { lemmas: seq![s], relations: retained_rels(sv.relations, s.lemma), ..sv }
}

/// The entry name of a sense: its lemma and the synset's part-of-speech
/// letter.
pub open spec fn entry_key(s: crate::model::SenseV, p: crate::model::PartOfSpeech) -> Seq<char> {
    s.lemma + seq!['-', pos_letter(p)]
}

/// Files one per-sense copy under its language and entry name.
pub open spec fn add_entry(
    m: Seq<(Seq<char>, Seq<(Seq<char>, Seq<SynsetV>)>)>,
    lang: Seq<char>,
    key: Seq<char>,
    sv: SynsetV,
) -> Seq<(Seq<char>, Seq<(Seq<char>, Seq<SynsetV>)>)> {
    let inner = match assoc_s(m, lang) {
        Some(x) => x,
        None => Seq::empty(),
    };
    let lst = match assoc_s(inner, key) {
        Some(x) => x,
        None => Seq::empty(),
    };
    crate::wordnet::put_s(m, lang, crate::wordnet::put_s(inner, key, lst.push(sv)))
}

/// Files every sense of one synset.
pub open spec fn fold_senses(
    m: Seq<(Seq<char>, Seq<(Seq<char>, Seq<SynsetV>)>)>,
    sv: SynsetV,
    senses: Seq<crate::model::SenseV>,
) -> Seq<(Seq<char>, Seq<(Seq<char>, Seq<SynsetV>)>)>
    decreases senses.len(),
{
    if senses.len() == 0 {
        m
    } else {
        fold_senses(
            add_entry(
                m,
                senses[0].language,
                entry_key(senses[0], sv.pos),
                sense_entry(sv, senses[0]),
            ),
            sv,
            senses.drop_first(),
        )
    }
}

/// Files every sense of every synset, in order.
pub open spec fn fold_synsets(
    m: Seq<(Seq<char>, Seq<(Seq<char>, Seq<SynsetV>)>)>,
    svs: Seq<SynsetV>,
) -> Seq<(Seq<char>, Seq<(Seq<char>, Seq<SynsetV>)>)>
    decreases svs.len(),
{
    if svs.len() == 0 {
        m
    } else {
        fold_synsets(fold_senses(m, svs[0], svs[0].lemmas), svs.drop_first())
    }
}

/// A synset restricted to one sense, cloned for the bundle.
fn make_sense_entry(synset: &Synset, sense: &Sense) -> (r: Synset)
    ensures
        r.deep_view() == sense_entry(synset.deep_view(), sense.deep_view()),
{
    let ghost sv = synset.deep_view();
    let ghost rels_dv = sv.relations;
    let mut lemmas: Vec<Sense> = Vec::new();
    lemmas.push(sense.deep_clone());
    let mut rels: Vec<crate::model::Relation> = Vec::new();
    let mut i: usize = 0;
    proof {
        assert(rels_dv.take(0) =~= Seq::<crate::model::RelationV>::empty());
        assert(rels.deep_view() =~= retained_rels(rels_dv.take(0), sense.deep_view().lemma));
    }
    while i < synset.relations.len()
        invariant
            i <= synset.relations.len(),
            rels_dv == synset.deep_view().relations,
            synset.relations.len() == rels_dv.len(),
            rels.deep_view() == retained_rels(rels_dv.take(i as int), sense.deep_view().lemma),
        decreases synset.relations.len() - i,
    {
        proof {
            assert(rels_dv[i as int] == synset.relations@[i as int].deep_view());
            assert(rels_dv.take(i + 1).drop_last() =~= rels_dv.take(i as int));
            assert(rels_dv.take(i + 1).last() == rels_dv[i as int]);
        }
        let r0 = &synset.relations[i];
        let keep = match &r0.src_word {
            None => true,
            Some(s) => str_eq(s.as_str(), sense.lemma.as_str()),
        };
        if keep {
            let ghost pre = rels.deep_view();
            rels.push(r0.deep_clone());
            proof {
                assert(rels.deep_view() =~= pre.push(rels_dv[i as int]));
            }
        }
        i += 1;
    }
    proof {
        assert(rels_dv.take(rels_dv.len() as int) =~= rels_dv);
    }
    let r = Synset {
        definition: synset.definition.deep_clone(),
        examples: synset.examples.deep_clone(),
        lemmas,
        id: synset.id,
        ili: synset.ili.deep_clone(),
        pos: synset.pos,
        subject: synset.subject.deep_clone(),
        relations: rels,
        old_keys: synset.old_keys.deep_clone(),
        gloss: synset.gloss.deep_clone(),
        foreign: synset.foreign.deep_clone(),
        links: synset.links.deep_clone(),
    };
    proof {
        assert(r.deep_view().lemmas =~= seq![sense.deep_view()]);
        assert(r.deep_view() =~~= sense_entry(synset.deep_view(), sense.deep_view()));
    }
    r
}

/// Files one per-sense copy under its language and entry name.
fn push_entry(
    entries: &mut Vec<(String, Vec<(String, Vec<Synset>)>)>,
    lang: String,
    key: String,
    sv: Synset,
)
    ensures
        final(entries).deep_view() == add_entry(
            old(entries).deep_view(),
            lang@,
            key@,
            sv.deep_view(),
        ),
{
    let mut inner: Vec<(String, Vec<Synset>)> = match crate::wordnet::map_find_s(
        entries,
        lang.as_str(),
    ) {
        Some(i) => {
            proof {
                assert(entries.deep_view()[i as int].1 == entries@[i as int].1.deep_view());
            }
            entries[i].1.deep_clone()
        },
        None => Vec::new(),
    };
    proof {
        assert(inner.deep_view() =~= (match assoc_s(old(entries).deep_view(), lang@) {
            Some(x) => x,
            None => Seq::<(Seq<char>, Seq<SynsetV>)>::empty(),
        }));
    }
    let mut lst: Vec<Synset> = match crate::wordnet::map_find_s(&inner, key.as_str()) {
        Some(i) => {
            proof {
                assert(inner.deep_view()[i as int].1 == inner@[i as int].1.deep_view());
            }
            inner[i].1.deep_clone()
        },
        None => Vec::new(),
    };
    proof {
        assert(lst.deep_view() =~= (match assoc_s(inner.deep_view(), key@) {
            Some(x) => x,
            None => Seq::<SynsetV>::empty(),
        }));
    }
    let ghost lst_pre = lst.deep_view();
    let ghost sv_dv = sv.deep_view();
    lst.push(sv);
    proof {
        assert(lst.deep_view() =~= lst_pre.push(sv_dv));
    }
    crate::wordnet::map_put_s(&mut inner, key, lst);
    crate::wordnet::map_put_s(entries, lang, inner);
}

/// Groups a result list for rendering: the synsets as they are, and one
/// per-sense copy filed under each sense's language and entry name, with
/// the license and site of the chosen design.
pub fn make_synsets_hb(synsets: Vec<Synset>, index: String, name: String, site: &WordNetSite) -> (r:
    SynsetsHB)
    ensures
        r.synsets.deep_view() == synsets.deep_view(),
        r.entries.deep_view() == fold_synsets(Seq::empty(), synsets.deep_view()),
        r.index@ == index@,
        r.name@ == name@,
{
    let ghost svs = synsets.deep_view();
    let mut entries: Vec<(String, Vec<(String, Vec<Synset>)>)> = Vec::new();
    let mut i: usize = 0;
    proof {
        assert(svs.skip(0) =~= svs);
        assert(entries.deep_view() =~= Seq::<(Seq<char>, Seq<(Seq<char>, Seq<SynsetV>)>)>::empty());
    }
    while i < synsets.len()
        invariant
            i <= synsets.len(),
            svs == synsets.deep_view(),
            synsets.len() == svs.len(),
            fold_synsets(Seq::empty(), svs) == fold_synsets(
                entries.deep_view(),
                svs.skip(i as int),
            ),
        decreases synsets.len() - i,
    {
        proof {
            assert(svs.skip(i as int)[0] == svs[i as int]);
            assert(svs[i as int] == synsets@[i as int].deep_view());
            assert(svs.skip(i as int).drop_first() =~= svs.skip(i + 1));
        }
        let synset = &synsets[i];
        let ghost senses_dv = svs[i as int].lemmas;
        let mut j: usize = 0;
        proof {
            assert(senses_dv.skip(0) =~= senses_dv);
        }
        while j < synset.lemmas.len()
            invariant
                j <= synset.lemmas.len(),
                i < synsets.len(),
                svs == synsets.deep_view(),
                synsets.len() == svs.len(),
                synset == &synsets[i as int],
                senses_dv == svs[i as int].lemmas,
                synset.lemmas.len() == senses_dv.len(),
                fold_synsets(Seq::empty(), svs) == fold_synsets(
                    fold_senses(entries.deep_view(), svs[i as int], senses_dv.skip(j as int)),
                    svs.skip(i + 1),
                ),
            decreases synset.lemmas.len() - j,
        {
            proof {
                assert(senses_dv.skip(j as int)[0] == senses_dv[j as int]);
                assert(senses_dv[j as int] == synset.lemmas@[j as int].deep_view());
                assert(senses_dv.skip(j as int).drop_first() =~= senses_dv.skip(j + 1));
            }
            let sense = &synset.lemmas[j];
            let copy = make_sense_entry(synset, sense);
            let mut key = sense.lemma.deep_clone();
            crate::text::push_char(&mut key, '-');
            let pos_s = synset.pos.to_string();
            key.append(pos_s.as_str());
            proof {
                assert(key@ =~= entry_key(senses_dv[j as int], svs[i as int].pos));
            }
            push_entry(&mut entries, sense.language.deep_clone(), key, copy);
            j += 1;
        }
        proof {
            assert(senses_dv.skip(senses_dv.len() as int).len() == 0);
        }
        i += 1;
    }
    proof {
        assert(svs.skip(svs.len() as int).len() == 0);
    }
    let license = match site {
        WordNetSite::Princeton => "http://wordnet.princeton.edu/wordnet/license/",
        WordNetSite::English => "https://github.com/globalwordnet/english-wordnet/blob/master/LICENSE.md",
        WordNetSite::Polylingual => "http://creativecommons.org/licenses/by/4.0/",
    };
    let site_url = match site {
        WordNetSite::Princeton => "http://wordnet-rdf.princeton.edu",
        WordNetSite::English => "https://en-word.net",
        WordNetSite::Polylingual => "http://polylingwn.linguistic-lod.org",
    };
    SynsetsHB { synsets, entries, index, name, license, site: site_url }
}

} // verus!
