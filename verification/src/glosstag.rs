//! Sense-tagged gloss corpora: the structured word sequences attached to a
//! synset's definitions, examples and auxiliary text, each word optionally
//! resolved to a synset through an embedded sense-key lookup.
use crate::keys::WNKey;
use crate::model::{DeepClone, SynsetV};
use crate::text::str_eq;
use crate::wordnet::{StoreV, WordNetBuilder, WordNetLoadError, assoc_k, assoc_s, old_index_of,
    put_k, update_synset_spec};
use crate::wordnet_read::{LoadFault, attr_of, attr_value};
use crate::xml_events::{XmlTok, xml_events_of, xml_wf};
use vstd::prelude::*;

verus! {

/// One tagged word of a gloss, optionally resolved to a synset or, inside a
/// glob span, to a glob target.
pub struct GlossTagWord {
    pub text: String,
    pub lemma: Option<String>,
    pub sep: String,
    pub pos: Option<String>,
    pub tag: Option<String>,
    pub synset: Option<WNKey>,
    pub glob: Option<WNKey>,
}

/// The kind of gloss a word sequence came from.
#[derive(Clone, Copy, Debug, PartialEq, Eq, Structural)]
pub enum GlossType {
    Aux,
    Def,
    Ex,
}

/// One gloss: its words and its kind.
pub struct Gloss {
    pub words: Vec<GlossTagWord>,
    pub gloss_type: GlossType,
}

#[verifier::ext_equal]
pub struct GlossTagWordV {
    pub text: Seq<char>,
    pub lemma: Option<Seq<char>>,
    pub sep: Seq<char>,
    pub pos: Option<Seq<char>>,
    pub tag: Option<Seq<char>>,
    pub synset: Option<WNKey>,
    pub glob: Option<WNKey>,
}

impl DeepView for GlossTagWord {
    type V = GlossTagWordV;

    open spec fn deep_view(&self) -> GlossTagWordV {
        GlossTagWordV {
            text: self.text@,
            lemma: self.lemma.deep_view(),
            sep: self.sep@,
            pos: self.pos.deep_view(),
            tag: self.tag.deep_view(),
            synset: self.synset.deep_view(),
            glob: self.glob.deep_view(),
        }
    }
}

impl crate::model::DeepClone for GlossTagWord {
    fn deep_clone(&self) -> (r: Self)
        ensures
            r.deep_view() == self.deep_view(),
    {
        let r = GlossTagWord {
            text: crate::model::DeepClone::deep_clone(&self.text),
            lemma: crate::model::DeepClone::deep_clone(&self.lemma),
            sep: crate::model::DeepClone::deep_clone(&self.sep),
            pos: crate::model::DeepClone::deep_clone(&self.pos),
            tag: crate::model::DeepClone::deep_clone(&self.tag),
            synset: crate::model::DeepClone::deep_clone(&self.synset),
            glob: crate::model::DeepClone::deep_clone(&self.glob),
        };
        proof {
            assert(r.deep_view() =~= self.deep_view());
        }
        r
    }
}

#[verifier::ext_equal]
pub struct GlossV {
    pub words: Seq<GlossTagWordV>,
    pub gloss_type: GlossType,
}

impl DeepView for Gloss {
    type V = GlossV;

    open spec fn deep_view(&self) -> GlossV {
        GlossV { words: self.words.deep_view(), gloss_type: self.gloss_type }
    }
}

impl crate::model::DeepClone for Gloss {
    fn deep_clone(&self) -> (r: Self)
        ensures
            r.deep_view() == self.deep_view(),
    {
        let r = Gloss {
            words: crate::model::DeepClone::deep_clone(&self.words),
            gloss_type: self.gloss_type,
        };
        proof {
            assert(r.deep_view() =~= self.deep_view());
        }
        r
    }
}

/// The reader's scratch state: the synset the current gloss block resolves
/// to, the glosses and words being gathered, and whether a glob span is
/// open.
pub struct GlossState {
    pub current_id: Option<WNKey>,
    pub current_sents: Vec<Gloss>,
    pub current_sent: Vec<GlossTagWord>,
    pub current_word: GlossTagWord,
    pub all: Vec<(WNKey, Vec<Gloss>)>,
    pub in_glob: bool,
}

#[verifier::ext_equal]
pub struct GlossStateV {
    pub current_id: Option<WNKey>,
    pub current_sents: Seq<GlossV>,
    pub current_sent: Seq<GlossTagWordV>,
    pub current_word: GlossTagWordV,
    pub all: Seq<(WNKey, Seq<GlossV>)>,
    pub in_glob: bool,
}

impl DeepView for GlossState {
    type V = GlossStateV;

    open spec fn deep_view(&self) -> GlossStateV {
        GlossStateV {
            current_id: self.current_id,
            current_sents: self.current_sents.deep_view(),
            current_sent: self.current_sent.deep_view(),
            current_word: self.current_word.deep_view(),
            all: self.all.deep_view(),
            in_glob: self.in_glob,
        }
    }
}

/// An empty word, as the reader starts one.
pub open spec fn empty_word() -> GlossTagWordV {
    GlossTagWordV {
        text: Seq::empty(),
        lemma: None,
        sep: Seq::empty(),
        pos: None,
        tag: None,
        synset: None,
        glob: None,
    }
}

/// The reader's state before the first event.
pub open spec fn ginit() -> GlossStateV {
    GlossStateV {
        current_id: None,
        current_sents: Seq::empty(),
        current_sent: Seq::empty(),
        current_word: empty_word(),
        all: Seq::empty(),
        in_glob: false,
    }
}

/// A corpus synset id rewritten to the canonical shape: the leading
/// part-of-speech letter moves behind the offset.
pub open spec fn corpus_id(wn30id: Seq<char>) -> Seq<char> {
    wn30id.skip(1) + seq!['-', wn30id[0]]
}

/// What one corpus event does to the reader state against a loaded store.
pub open spec fn gstep(st: StoreV, g: GlossStateV, ev: XmlTok) -> Result<GlossStateV, LoadFault> {
    match ev {
        XmlTok::Start { name, attrs } => {
            let adv = attrs.deep_view();
            if name@ == "synset"@ {
                match attr_of(adv, "id"@) {
                    None => Err(LoadFault::Schema),
                    Some(wn30id) => if wn30id.len() == 0 {
                        Err(LoadFault::Schema)
                    } else {
                        Ok(
                            GlossStateV {
                                current_id: assoc_s(
                                    old_index_of(st, "pwn30"@),
                                    corpus_id(wn30id),
                                ),
                                ..g
                            },
                        )
                    },
                }
            } else if name@ == "gloss"@ {
                Ok(GlossStateV { current_sents: Seq::empty(), ..g })
            } else if name@ == "aux"@ || name@ == "def"@ || name@ == "ex"@ {
                Ok(GlossStateV { current_sent: Seq::empty(), ..g })
            } else if name@ == "wf"@ || name@ == "cf"@ {
                Ok(
                    GlossStateV {
                        current_word: GlossTagWordV {
                            text: Seq::empty(),
                            lemma: attr_of(adv, "lemma"@),
                            pos: attr_of(adv, "pos"@),
                            tag: attr_of(adv, "tag"@),
                            sep: match attr_of(adv, "sep"@) {
                                Some(s) => s,
                                None => " "@,
                            },
                            synset: None,
                            glob: None,
                        },
                        ..g
                    },
                )
            } else if name@ == "glob"@ {
                Ok(GlossStateV { in_glob: true, ..g })
            } else if name@ == "id"@ {
                match attr_of(adv, "sk"@) {
                    None => Err(LoadFault::Schema),
                    Some(sk) => match assoc_s(st.by_sense_key, sk) {
                        None => Ok(g),
                        Some(k) => if g.in_glob {
                            Ok(
                                GlossStateV {
                                    current_word: GlossTagWordV {
                                        glob: Some(k),
                                        ..g.current_word
                                    },
                                    ..g
                                },
                            )
                        } else {
                            Ok(
                                GlossStateV {
                                    current_word: GlossTagWordV {
                                        synset: Some(k),
                                        ..g.current_word
                                    },
                                    ..g
                                },
                            )
                        },
                    },
                }
            } else {
                Ok(g)
            }
        },
        XmlTok::End { name } => {
            if name@ == "synset"@ {
                Ok(GlossStateV { current_id: None, ..g })
            } else if name@ == "gloss"@ {
                match g.current_id {
                    Some(ssid) => Ok(GlossStateV { all: put_k(g.all, ssid, g.current_sents), ..g }),
                    None => Ok(g),
                }
            } else if name@ == "aux"@ {
                Ok(
                    GlossStateV {
                        current_sents: g.current_sents.push(
                            GlossV { words: g.current_sent, gloss_type: GlossType::Aux },
                        ),
                        ..g
                    },
                )
            } else if name@ == "def"@ {
                Ok(
                    GlossStateV {
                        current_sents: g.current_sents.push(
                            GlossV { words: g.current_sent, gloss_type: GlossType::Def },
                        ),
                        ..g
                    },
                )
            } else if name@ == "ex"@ {
                Ok(
                    GlossStateV {
                        current_sents: g.current_sents.push(
                            GlossV { words: g.current_sent, gloss_type: GlossType::Ex },
                        ),
                        ..g
                    },
                )
            } else if name@ == "glob"@ {
                Ok(GlossStateV { in_glob: false, ..g })
            } else if name@ == "wf"@ || name@ == "cf"@ {
                Ok(GlossStateV { current_sent: g.current_sent.push(g.current_word), ..g })
            } else {
                Ok(g)
            }
        },
        XmlTok::Text { text } => Ok(
            GlossStateV { current_word: GlossTagWordV { text: text@, ..g.current_word }, ..g },
        ),
        XmlTok::Skip => Ok(g),
    }
}

/// The reader state after a whole corpus event sequence.
pub open spec fn grun(st: StoreV, evs: Seq<XmlTok>) -> Result<GlossStateV, LoadFault>
    decreases evs.len(),
{
    if evs.len() == 0 {
        Ok(ginit())
    } else {
        match grun(st, evs.drop_last()) {
            Err(f) => Err(f),
            Ok(g) => gstep(st, g, evs.last()),
        }
    }
}

/// A failed step anywhere in a corpus stream fails the whole run.
proof fn lemma_grun_err(st: StoreV, evs: Seq<XmlTok>, i: int)
    requires
        0 <= i < evs.len(),
        grun(st, evs.take(i + 1)) is Err,
    ensures
        grun(st, evs) is Err,
    decreases evs.len() - i,
{
    if i + 1 == evs.len() {
        assert(evs.take(i + 1) =~= evs);
    } else {
        assert(evs.take(i + 2).drop_last() =~= evs.take(i + 1));
        lemma_grun_err(st, evs, i + 1);
    }
}

/// Reads one sense-tagged corpus against a loaded store: each gloss block
/// whose legacy id the crosswalk index knows yields its gloss list, each
/// word optionally resolved through the sense-key index.
pub fn read_glosstag_corpus(events: Vec<XmlTok>, wordnet: &WordNetBuilder) -> (r: Result<
    Vec<(WNKey, Vec<Gloss>)>,
    WordNetLoadError,
>)
    ensures
        r is Ok <==> grun(wordnet@, events@) is Ok,
        grun(wordnet@, events@) matches Ok(g) ==> r matches Ok(v) && v.deep_view() == g.all,
        r matches Err(e) ==> e is Schema,
{
    proof {
        reveal_strlit("pwn30");
    }
    let ghost st = wordnet@;
    let ghost evs = events@;
    let mut g = GlossState {
        current_id: None,
        current_sents: Vec::new(),
        current_sent: Vec::new(),
        current_word: GlossTagWord {
            text: String::new(),
            lemma: None,
            sep: String::new(),
            pos: None,
            tag: None,
            synset: None,
            glob: None,
        },
        all: Vec::new(),
        in_glob: false,
    };
    let mut rest = events;
    let mut i: usize = 0;
    let n = rest.len();
    proof {
        assert(evs.take(0) =~= Seq::<XmlTok>::empty());
        assert(evs.skip(0) =~= evs);
        assert(evs.len() == n);
        assert(g.deep_view() =~~= ginit());
    }
    while rest.len() > 0
        invariant
            i + rest.len() == evs.len(),
            evs.len() <= usize::MAX,
            st == wordnet@,
            rest@ == evs.skip(i as int),
            grun(st, evs.take(i as int)) == Ok::<GlossStateV, LoadFault>(g.deep_view()),
        decreases rest.len(),
    {
        proof {
            assert(evs.take(i + 1).drop_last() =~= evs.take(i as int));
            assert(evs.take(i + 1).last() == evs[i as int]);
            assert(evs.skip(i as int)[0] == evs[i as int]);
            assert(evs.skip(i as int).drop_first() =~= evs.skip(i + 1));
        }
        let ev = rest.remove(0);
        proof {
            assert(ev == evs[i as int]);
        }
        let ghost g0 = g.deep_view();
        match ev {
            XmlTok::Start { name, attrs } => {
                if str_eq(name.as_str(), "synset") {
                    let wn30id = match attr_value(&attrs, "id") {
                        Some(x) => x,
                        None => {
                            proof {
                                lemma_grun_err(st, evs, i as int);
                            }
                            return Err(WordNetLoadError::Schema("synset does not have id"));
                        },
                    };
                    let idlen = wn30id.unicode_len();
                    if idlen == 0 {
                        proof {
                            lemma_grun_err(st, evs, i as int);
                        }
                        return Err(WordNetLoadError::Schema("bad legacy synset id"));
                    }
                    let pos = wn30id.get_char(0);
                    let num = wn30id.substring_char(1, idlen);
                    let mut id = String::from_str(num);
                    id.append("-");
                    crate::text::push_char(&mut id, pos);
                    proof {
                        reveal_strlit("-");
                        assert(id@ =~= corpus_id(wn30id@));
                    }
                    g.current_id = match wordnet.get_id_by_pwn30(id.as_str()) {
                        Ok(o) => o,
                        Err(_) => None,
                    };
                    proof {
                        assert(g.deep_view() =~~= gstep(st, g0, evs[i as int])->Ok_0);
                    }
                } else if str_eq(name.as_str(), "gloss") {
                    g.current_sents = Vec::new();
                    proof {
                        assert(g.current_sents.deep_view() =~= Seq::<GlossV>::empty());
                        assert(g.deep_view() =~~= gstep(st, g0, evs[i as int])->Ok_0);
                    }
                } else if str_eq(name.as_str(), "aux") || str_eq(name.as_str(), "def") || str_eq(
                    name.as_str(),
                    "ex",
                ) {
                    g.current_sent = Vec::new();
                    proof {
                        assert(g.current_sent.deep_view() =~= Seq::<GlossTagWordV>::empty());
                        assert(g.deep_view() =~~= gstep(st, g0, evs[i as int])->Ok_0);
                    }
                } else if str_eq(name.as_str(), "wf") || str_eq(name.as_str(), "cf") {
                    let sep = match attr_value(&attrs, "sep") {
                        Some(s) => s,
                        None => String::from_str(" "),
                    };
                    g.current_word = GlossTagWord {
                        text: String::new(),
                        lemma: attr_value(&attrs, "lemma"),
                        pos: attr_value(&attrs, "pos"),
                        tag: attr_value(&attrs, "tag"),
                        sep,
                        synset: None,
                        glob: None,
                    };
                    proof {
                        assert(g.deep_view() =~~= gstep(st, g0, evs[i as int])->Ok_0);
                    }
                } else if str_eq(name.as_str(), "glob") {
                    g.in_glob = true;
                    proof {
                        assert(g.deep_view() =~~= gstep(st, g0, evs[i as int])->Ok_0);
                    }
                } else if str_eq(name.as_str(), "id") {
                    let sk = match attr_value(&attrs, "sk") {
                        Some(x) => x,
                        None => {
                            proof {
                                lemma_grun_err(st, evs, i as int);
                            }
                            return Err(WordNetLoadError::Schema("id does not have sk"));
                        },
                    };
                    match wordnet.get_id_by_sense_key(sk.as_str()) {
                        Ok(Some(k)) => {
                            if g.in_glob {
                                g.current_word.glob = Some(k);
                            } else {
                                g.current_word.synset = Some(k);
                            }
                        },
                        _ => {
                        },
                    }
                    proof {
                        assert(g.deep_view() =~~= gstep(st, g0, evs[i as int])->Ok_0);
                    }
                } else {
                    proof {
                        assert(g.deep_view() =~~= gstep(st, g0, evs[i as int])->Ok_0);
                    }
                }
            },
            XmlTok::End { name } => {
                if str_eq(name.as_str(), "synset") {
                    g.current_id = None;
                } else if str_eq(name.as_str(), "gloss") {
                    match g.current_id {
                        Some(ssid) => {
                            let sents = g.current_sents.deep_clone();
                            crate::wordnet::map_put_k(&mut g.all, ssid, sents);
                        },
                        None => {
                        },
                    }
                } else if str_eq(name.as_str(), "aux") {
                    let words = g.current_sent.deep_clone();
                    let ghost pre = g.current_sents.deep_view();
                    g.current_sents.push(Gloss { words, gloss_type: GlossType::Aux });
                    proof {
                        assert(g.current_sents.deep_view() =~= pre.push(
                            GlossV { words: g0.current_sent, gloss_type: GlossType::Aux },
                        ));
                    }
                } else if str_eq(name.as_str(), "def") {
                    let words = g.current_sent.deep_clone();
                    let ghost pre = g.current_sents.deep_view();
                    g.current_sents.push(Gloss { words, gloss_type: GlossType::Def });
                    proof {
                        assert(g.current_sents.deep_view() =~= pre.push(
                            GlossV { words: g0.current_sent, gloss_type: GlossType::Def },
                        ));
                    }
                } else if str_eq(name.as_str(), "ex") {
                    let words = g.current_sent.deep_clone();
                    let ghost pre = g.current_sents.deep_view();
                    g.current_sents.push(Gloss { words, gloss_type: GlossType::Ex });
                    proof {
                        assert(g.current_sents.deep_view() =~= pre.push(
                            GlossV { words: g0.current_sent, gloss_type: GlossType::Ex },
                        ));
                    }
                } else if str_eq(name.as_str(), "glob") {
                    g.in_glob = false;
                } else if str_eq(name.as_str(), "wf") || str_eq(name.as_str(), "cf") {
                    let word = g.current_word.deep_clone();
                    let ghost pre = g.current_sent.deep_view();
                    g.current_sent.push(word);
                    proof {
                        assert(g.current_sent.deep_view() =~= pre.push(g0.current_word));
                    }
                }
                proof {
                    assert(g.deep_view() =~~= gstep(st, g0, evs[i as int])->Ok_0);
                }
            },
            XmlTok::Text { text } => {
                g.current_word.text = text;
                proof {
                    assert(g.deep_view() =~~= gstep(st, g0, evs[i as int])->Ok_0);
                }
            },
            XmlTok::Skip => {
                proof {
                    assert(g.deep_view() =~~= gstep(st, g0, evs[i as int])->Ok_0);
                }
            },
        }
        i += 1;
    }
    proof {
        assert(evs.take(evs.len() as int) =~= evs);
    }
    Ok(g.all)
}

/// A corpus merged over what earlier corpora yielded: later corpora win
/// per synset.
pub open spec fn merge_corpus(
    m: Seq<(WNKey, Seq<GlossV>)>,
    part: Seq<(WNKey, Seq<GlossV>)>,
) -> Seq<(WNKey, Seq<GlossV>)>
    decreases part.len(),
{
    if part.len() == 0 {
        m
    } else {
        merge_corpus(put_k(m, part[0].0, part[0].1), part.drop_first())
    }
}

/// The merged result of reading a list of corpora against a store, in order;
/// a corpus with malformed markup or a schema fault fails the whole pass.
pub open spec fn read_corpora(
    st: StoreV,
    docs: Seq<Seq<char>>,
    acc: Seq<(WNKey, Seq<GlossV>)>,
) -> Option<Seq<(WNKey, Seq<GlossV>)>>
    decreases docs.len(),
{
    if docs.len() == 0 {
        Some(acc)
    } else if !xml_wf(docs[0]) {
        None
    } else {
        match grun(st, xml_events_of(docs[0])) {
            Err(_) => None,
            Ok(g) => read_corpora(st, docs.drop_first(), merge_corpus(acc, g.all)),
        }
    }
}

/// Replacing the gloss list of every synset the merged corpora reached;
/// nothing else on any synset changes, and synsets in no corpus are
/// untouched.
pub open spec fn apply_glosses(st: StoreV, rows: Seq<(WNKey, Seq<GlossV>)>) -> StoreV
    decreases rows.len(),
{
    if rows.len() == 0 {
        st
    } else {
        let st1 = match assoc_k(st.synsets, rows[0].0) {
            Some(sv) => update_synset_spec(
                st,
                rows[0].0,
                SynsetV { gloss: Some(rows[0].1), ..sv },
            ),
            None => st,
        };
        apply_glosses(st1, rows.drop_first())
    }
}

/// Reads every corpus, later corpora overriding earlier ones per synset, and
/// replaces the gloss list of each synset the crosswalk index reaches. Any
/// malformed corpus aborts the pass with the store untouched.
pub fn build_glosstags(docs: &Vec<String>, wordnet: &mut WordNetBuilder) -> (r: Result<
    (),
    WordNetLoadError,
>)
    ensures
        r is Ok <==> read_corpora(old(wordnet)@, docs.deep_view(), Seq::empty()) is Some,
        r is Ok ==> final(wordnet)@ == apply_glosses(
            old(wordnet)@,
            read_corpora(old(wordnet)@, docs.deep_view(), Seq::empty())->Some_0,
        ),
        r matches Err(e) ==> (e is Schema || e is Xml) && final(wordnet)@ == old(wordnet)@,
{
    let ghost st0 = old(wordnet)@;
    let ghost docs_dv = docs.deep_view();
    let mut merged: Vec<(WNKey, Vec<Gloss>)> = Vec::new();
    let mut i: usize = 0;
    proof {
        assert(docs_dv.skip(0) =~= docs_dv);
        assert(merged.deep_view() =~= Seq::<(WNKey, Seq<GlossV>)>::empty());
    }
    while i < docs.len()
        invariant
            i <= docs.len(),
            docs_dv == docs.deep_view(),
            docs.len() == docs_dv.len(),
            *wordnet == *old(wordnet),
            st0 == wordnet@,
            read_corpora(st0, docs_dv, Seq::empty()) == read_corpora(
                st0,
                docs_dv.skip(i as int),
                merged.deep_view(),
            ),
        decreases docs.len() - i,
    {
        proof {
            assert(docs_dv.skip(i as int)[0] == docs_dv[i as int]);
            assert(docs_dv[i as int] == docs@[i as int]@);
            assert(docs_dv.skip(i as int).drop_first() =~= docs_dv.skip(i + 1));
        }
        let events = match crate::xml_events::parse_xml(docs[i].as_str()) {
            Ok(e) => e,
            Err(e) => {
                return Err(e);
            },
        };
        let corpus = match read_glosstag_corpus(events, wordnet) {
            Ok(c) => c,
            Err(e) => {
                return Err(e);
            },
        };
        let ghost corpus_dv = corpus.deep_view();
        let ghost merged0 = merged.deep_view();
        let mut j: usize = 0;
        proof {
            assert(corpus_dv.skip(0) =~= corpus_dv);
        }
        while j < corpus.len()
            invariant
                j <= corpus.len(),
                corpus_dv == corpus.deep_view(),
                corpus.len() == corpus_dv.len(),
                merge_corpus(merged0, corpus_dv) == merge_corpus(
                    merged.deep_view(),
                    corpus_dv.skip(j as int),
                ),
            decreases corpus.len() - j,
        {
            proof {
                assert(corpus_dv.skip(j as int)[0] == corpus_dv[j as int]);
                assert(corpus_dv[j as int] == (corpus@[j as int].0, corpus@[
                    j as int].1.deep_view()));
                assert(corpus_dv.skip(j as int).drop_first() =~= corpus_dv.skip(j + 1));
            }
            let glosses = corpus[j].1.deep_clone();
            crate::wordnet::map_put_k(&mut merged, corpus[j].0, glosses);
            j += 1;
        }
        proof {
            assert(corpus_dv.skip(corpus_dv.len() as int).len() == 0);
        }
        i += 1;
    }
    proof {
        assert(docs_dv.skip(docs_dv.len() as int).len() == 0);
    }
    let ghost merged_dv = merged.deep_view();
    let mut w: usize = 0;
    proof {
        assert(merged_dv.skip(0) =~= merged_dv);
    }
    while w < merged.len()
        invariant
            w <= merged.len(),
            merged_dv == merged.deep_view(),
            merged.len() == merged_dv.len(),
            apply_glosses(st0, merged_dv) == apply_glosses(
                wordnet@,
                merged_dv.skip(w as int),
            ),
        decreases merged.len() - w,
    {
        proof {
            assert(merged_dv.skip(w as int)[0] == merged_dv[w as int]);
            assert(merged_dv[w as int] == (merged@[w as int].0, merged@[w as int].1.deep_view()));
            assert(merged_dv.skip(w as int).drop_first() =~= merged_dv.skip(w + 1));
        }
        let key = merged[w].0;
        match wordnet.get_synset(&key) {
            Ok(Some(mut s)) => {
                let ghost sv = s.deep_view();
                s.gloss = Some(merged[w].1.deep_clone());
                proof {
                    assert(s.deep_view() =~~= SynsetV {
                        gloss: Some(merged_dv[w as int].1),
                        ..sv
                    });
                }
                let _ = wordnet.update_synset(key, s);
            },
            _ => {
            },
        }
        w += 1;
    }
    proof {
        assert(merged_dv.skip(merged_dv.len() as int).len() == 0);
    }
    Ok(())
}

} // verus!
