//! Typed external links attached to synsets by the link fusion pass: verb
//! class memberships, a legacy URL crosswalk, and an encyclopedic mapping.
use crate::keys::WNKey;
use crate::model::DeepClone;
use crate::text::{split_on, str_eq, str_split, str_starts_with};
use crate::wordnet::{StoreV, WordNetBuilder, WordNetLoadError, assoc_s, insert_links_spec,
    old_index_of, put_k, put_s};
use crate::wordnet_read::{add_to_list_s, attr_of, attr_value};
use crate::xml_events::{XmlTok, xml_events_of, xml_wf};
use vstd::prelude::*;

verus! {

/// Which external resource a link points into.
#[derive(Clone, Copy, Debug, PartialEq, Eq, Structural)]
pub enum LinkType {
    VerbNet,
    W3C,
    Wikipedia,
}

/// A typed link: a kind and a target identifier in that resource.
pub struct Link {
    pub link_type: LinkType,
    pub target: String,
}

#[verifier::ext_equal]
pub struct LinkV {
    pub link_type: LinkType,
    pub target: Seq<char>,
}

impl DeepView for Link {
    type V = LinkV;

    open spec fn deep_view(&self) -> LinkV {
        LinkV { link_type: self.link_type, target: self.target@ }
    }
}

impl crate::model::DeepClone for Link {
    fn deep_clone(&self) -> (r: Self)
        ensures
            r.deep_view() == self.deep_view(),
    {
        let r = Link {
            link_type: self.link_type,
            target: crate::model::DeepClone::deep_clone(&self.target),
        };
        proof {
            assert(r.deep_view() =~= self.deep_view());
        }
        r
    }
}

/// One verb-class member list attached under each of its sense keys, with
/// the key-suffix the link pass expects.
pub open spec fn add_members(
    m: Seq<(Seq<char>, Seq<Seq<char>>)>,
    keys: Seq<Seq<char>>,
    vn: Seq<char>,
) -> Seq<(Seq<char>, Seq<Seq<char>>)>
    decreases keys.len(),
{
    if keys.len() == 0 {
        m
    } else {
        add_members(add_to_list_s(m, keys[0] + "::"@, vn), keys.drop_first(), vn)
    }
}

/// The verb-class state machine over one document's events: the last class
/// id seen, and the sense-key map gathered so far. Members outside a class
/// are skipped.
pub open spec fn verbs_fold(
    evs: Seq<XmlTok>,
    vnid: Option<Seq<char>>,
    m: Seq<(Seq<char>, Seq<Seq<char>>)>,
) -> Seq<(Seq<char>, Seq<Seq<char>>)>
    decreases evs.len(),
{
    if evs.len() == 0 {
        m
    } else {
        match evs[0] {
            XmlTok::Start { name, attrs } => {
                if name@ == "VNCLASS"@ {
                    verbs_fold(evs.drop_first(), attr_of(attrs.deep_view(), "ID"@), m)
                } else if name@ == "MEMBER"@ {
                    let wn_str = match attr_of(attrs.deep_view(), "wn"@) {
                        Some(w) => w,
                        None => Seq::empty(),
                    };
                    let m2 = match vnid {
                        Some(vn) => add_members(m, split_on(wn_str, ' '), vn),
                        None => m,
                    };
                    verbs_fold(evs.drop_first(), vnid, m2)
                } else {
                    verbs_fold(evs.drop_first(), vnid, m)
                }
            },
            _ => verbs_fold(evs.drop_first(), vnid, m),
        }
    }
}

/// Reads one verb-class document's events into a sense-key to class-id map.
pub fn load_verbs(events: &Vec<XmlTok>) -> (r: Result<
    Vec<(String, Vec<String>)>,
    WordNetLoadError,
>)
    ensures
        r matches Ok(v) && v.deep_view() == verbs_fold(events@, None, Seq::empty()),
{
    proof {
        reveal_strlit("::");
    }
    let ghost evs = events@;
    let mut vnid: Option<String> = None;
    let mut m: Vec<(String, Vec<String>)> = Vec::new();
    let mut i: usize = 0;
    proof {
        assert(evs.skip(0) =~= evs);
        assert(m.deep_view() =~= Seq::<(Seq<char>, Seq<Seq<char>>)>::empty());
    }
    while i < events.len()
        invariant
            i <= events.len(),
            evs == events@,
            events.len() == evs.len(),
            verbs_fold(evs, None, Seq::empty()) == verbs_fold(
                evs.skip(i as int),
                vnid.deep_view(),
                m.deep_view(),
            ),
        decreases events.len() - i,
    {
        proof {
            assert(evs.skip(i as int)[0] == evs[i as int]);
            assert(evs.skip(i as int).drop_first() =~= evs.skip(i + 1));
        }
        match &events[i] {
            XmlTok::Start { name, attrs } => {
                if str_eq(name.as_str(), "VNCLASS") {
                    vnid = attr_value(attrs, "ID");
                } else if str_eq(name.as_str(), "MEMBER") {
                    let wn_str = match attr_value(attrs, "wn") {
                        Some(w) => w,
                        None => String::new(),
                    };
                    let vn: Option<String> = match &vnid {
                        Some(v) => Some(v.deep_clone()),
                        None => None,
                    };
                    match vn {
                        Some(vn) => {
                            let pieces = str_split(wn_str.as_str(), ' ');
                            let ghost pieces_dv = pieces.deep_view();
                            let ghost m0 = m.deep_view();
                            let mut q: usize = 0;
                            proof {
                                assert(pieces_dv.skip(0) =~= pieces_dv);
                            }
                            while q < pieces.len()
                                invariant
                                    q <= pieces.len(),
                                    pieces_dv == pieces.deep_view(),
                                    pieces.len() == pieces_dv.len(),
                                    add_members(m0, pieces_dv, vn@) == add_members(
                                        m.deep_view(),
                                        pieces_dv.skip(q as int),
                                        vn@,
                                    ),
                                decreases pieces.len() - q,
                            {
                                proof {
                                    assert(pieces_dv.skip(q as int)[0] == pieces_dv[q as int]);
                                    assert(pieces_dv[q as int] == pieces@[q as int]@);
                                    assert(pieces_dv.skip(q as int).drop_first()
                                        =~= pieces_dv.skip(q + 1));
                                }
                                let mut kk = pieces[q].deep_clone();
                                kk.append("::");
                                proof {
                                    assert(kk@ =~= pieces_dv[q as int] + "::"@);
                                }
                                crate::wordnet_read::vec_add_to_list(&mut m, kk, vn.deep_clone());
                                q += 1;
                            }
                            proof {
                                assert(pieces_dv.skip(pieces_dv.len() as int).len() == 0);
                            }
                        },
                        None => {
                        },
                    }
                }
            },
            _ => {
            },
        }
        i += 1;
    }
    proof {
        assert(evs.skip(evs.len() as int).len() == 0);
    }
    Ok(m)
}

/// The typed link pairs one legacy URL crosswalk yields against a store:
/// each line whose second field the second-edition index knows maps its
/// quoted first field, unquoted, onto the owning synset; short or unknown
/// lines are skipped.
pub open spec fn w3c_pairs(st: StoreV, lines: Seq<Seq<char>>) -> Seq<(WNKey, Seq<char>)>
    decreases lines.len(),
{
    if lines.len() == 0 {
        Seq::empty()
    } else {
        let pre = w3c_pairs(st, lines.drop_last());
        let parts = split_on(lines.last(), ',');
        if parts.len() >= 2 && parts[0].len() >= 2 {
            match assoc_s(old_index_of(st, "pwn20"@), parts[1]) {
                Some(k) => put_k(pre, k, parts[0].subrange(1, parts[0].len() - 1)),
                None => pre,
            }
        } else {
            pre
        }
    }
}

/// Reads the legacy URL crosswalk against a loaded store.
pub fn load_w3c(contents: &str, wordnet: &WordNetBuilder) -> (r: Result<
    Vec<(WNKey, String)>,
    WordNetLoadError,
>)
    ensures
        r matches Ok(v) && v.deep_view() == w3c_pairs(wordnet@, split_on(contents@, '\n')),
{
    proof {
        reveal_strlit("pwn20");
    }
    let ghost st = wordnet@;
    let lines = str_split(contents, '\n');
    let ghost lines_dv = lines.deep_view();
    let mut out: Vec<(WNKey, String)> = Vec::new();
    let mut i: usize = 0;
    proof {
        assert(lines_dv.take(0) =~= Seq::<Seq<char>>::empty());
        assert(out.deep_view() =~= w3c_pairs(st, lines_dv.take(0)));
    }
    while i < lines.len()
        invariant
            i <= lines.len(),
            lines_dv == lines.deep_view(),
            lines.len() == lines_dv.len(),
            st == wordnet@,
            out.deep_view() == w3c_pairs(st, lines_dv.take(i as int)),
        decreases lines.len() - i,
    {
        proof {
            assert(lines_dv[i as int] == lines@[i as int]@);
            assert(lines_dv.take(i + 1).drop_last() =~= lines_dv.take(i as int));
            assert(lines_dv.take(i + 1).last() == lines_dv[i as int]);
        }
        let parts = str_split(lines[i].as_str(), ',');
        if parts.len() >= 2 {
            proof {
                assert(parts.deep_view()[0] == parts@[0]@);
                assert(parts.deep_view()[1] == parts@[1]@);
            }
            let url_len = parts[0].unicode_len();
            if url_len >= 2 {
                match wordnet.get_id_by_pwn20(parts[1].as_str()) {
                    Ok(Some(k)) => {
                        let stripped = parts[0].as_str().substring_char(1, url_len - 1);
                        proof {
                            assert(stripped@ =~= parts.deep_view()[0].subrange(
                                1,
                                parts.deep_view()[0].len() - 1,
                            ));
                        }
                        crate::wordnet::map_put_k(&mut out, k, String::from_str(stripped));
                    },
                    _ => {
                    },
                }
            }
        }
        i += 1;
    }
    proof {
        assert(lines_dv.take(lines_dv.len() as int) =~= lines_dv);
    }
    Ok(out)
}

/// The encyclopedic pairs a line-oriented mapping yields against a store:
/// comment lines are skipped, and each remaining line's first and third
/// whitespace-separated fields carry an interlingual index and a target at
/// fixed offsets; indices the store does not know are skipped.
pub open spec fn wwim_rows(st: StoreV, lines: Seq<Seq<char>>) -> Seq<(WNKey, Seq<Seq<char>>)>
    decreases lines.len(),
{
    if lines.len() == 0 {
        Seq::empty()
    } else {
        let pre = wwim_rows(st, lines.drop_last());
        let line = lines.last();
        let parts = split_on(line, ' ');
        if !crate::text::is_prefix("#"@, line) && parts.len() >= 3 && parts[0].len() >= 31
            && parts[2].len() >= 30 {
            let ili = parts[0].subrange(30, parts[0].len() - 1);
            let wiki = parts[2].subrange(29, parts[2].len() - 1);
            match assoc_s(st.by_ili, ili) {
                Some(k) => crate::omwn::add_val_k(pre, k, wiki),
                None => pre,
            }
        } else {
            pre
        }
    }
}

/// Reads the encyclopedic mapping against a loaded store.
pub fn load_wwim(contents: &str, wordnet: &WordNetBuilder) -> (r: Result<
    Vec<(WNKey, Vec<String>)>,
    WordNetLoadError,
>)
    ensures
        r matches Ok(v) && v.deep_view() == wwim_rows(wordnet@, split_on(contents@, '\n')),
{
    proof {
        reveal_strlit("#");
    }
    let ghost st = wordnet@;
    let lines = str_split(contents, '\n');
    let ghost lines_dv = lines.deep_view();
    let mut out: Vec<(WNKey, Vec<String>)> = Vec::new();
    let mut i: usize = 0;
    proof {
        assert(lines_dv.take(0) =~= Seq::<Seq<char>>::empty());
        assert(out.deep_view() =~= wwim_rows(st, lines_dv.take(0)));
    }
    while i < lines.len()
        invariant
            i <= lines.len(),
            lines_dv == lines.deep_view(),
            lines.len() == lines_dv.len(),
            st == wordnet@,
            out.deep_view() == wwim_rows(st, lines_dv.take(i as int)),
        decreases lines.len() - i,
    {
        proof {
            assert(lines_dv[i as int] == lines@[i as int]@);
            assert(lines_dv.take(i + 1).drop_last() =~= lines_dv.take(i as int));
            assert(lines_dv.take(i + 1).last() == lines_dv[i as int]);
        }
        let line = &lines[i];
        let parts = str_split(line.as_str(), ' ');
        if !str_starts_with(line.as_str(), "#") && parts.len() >= 3 {
            proof {
                assert(parts.deep_view()[0] == parts@[0]@);
                assert(parts.deep_view()[2] == parts@[2]@);
            }
            let len0 = parts[0].unicode_len();
            let len2 = parts[2].unicode_len();
            if len0 >= 31 && len2 >= 30 {
                let ili = parts[0].as_str().substring_char(30, len0 - 1);
                let wiki = parts[2].as_str().substring_char(29, len2 - 1);
                proof {
                    assert(ili@ =~= parts.deep_view()[0].subrange(
                        30,
                        parts.deep_view()[0].len() - 1,
                    ));
                    assert(wiki@ =~= parts.deep_view()[2].subrange(
                        29,
                        parts.deep_view()[2].len() - 1,
                    ));
                }
                match wordnet.get_id_by_ili(ili) {
                    Ok(Some(k)) => {
                        let ghost pre = out.deep_view();
                        let cur: Vec<String> = match crate::wordnet::map_find_k(&out, &k) {
                            Some(w) => {
                                proof {
                                    assert(out.deep_view()[w as int].1 == out@[
                                        w as int].1.deep_view());
                                }
                                out[w].1.deep_clone()
                            },
                            None => Vec::new(),
                        };
                        proof {
                            assert(cur.deep_view() =~= (match crate::wordnet::assoc_k(pre, k) {
                                Some(l) => l,
                                None => Seq::<Seq<char>>::empty(),
                            }));
                        }
                        let ghost cv = cur.deep_view();
                        let mut cur2 = cur;
                        cur2.push(String::from_str(wiki));
                        proof {
                            assert(cur2.deep_view() =~= cv.push(wiki@));
                        }
                        crate::wordnet::map_put_k(&mut out, k, cur2);
                    },
                    _ => {
                    },
                }
            }
        }
        i += 1;
    }
    proof {
        assert(lines_dv.take(lines_dv.len() as int) =~= lines_dv);
    }
    Ok(out)
}

/// One document's verb-class map merged over what earlier documents
/// yielded: later documents win per sense key.
pub open spec fn merge_verbs(
    m: Seq<(Seq<char>, Seq<Seq<char>>)>,
    part: Seq<(Seq<char>, Seq<Seq<char>>)>,
) -> Seq<(Seq<char>, Seq<Seq<char>>)>
    decreases part.len(),
{
    if part.len() == 0 {
        m
    } else {
        merge_verbs(put_s(m, part[0].0, part[0].1), part.drop_first())
    }
}

/// Every verb-class document parses.
pub open spec fn all_verb_docs_wf(docs: Seq<Seq<char>>) -> bool {
    forall|i: int| 0 <= i < docs.len() ==> xml_wf(#[trigger] docs[i])
}

/// The verb-class map of a whole document list, read in order.
pub open spec fn verbs_merged(
    docs: Seq<Seq<char>>,
    acc: Seq<(Seq<char>, Seq<Seq<char>>)>,
) -> Seq<(Seq<char>, Seq<Seq<char>>)>
    decreases docs.len(),
{
    if docs.len() == 0 {
        acc
    } else {
        verbs_merged(
            docs.drop_first(),
            merge_verbs(acc, verbs_fold(xml_events_of(docs[0]), None, Seq::empty())),
        )
    }
}

/// The (synset, class id) pairs a verb-class map yields against a store:
/// sense keys the store does not know contribute nothing.
pub open spec fn verb_pairs(st: StoreV, m: Seq<(Seq<char>, Seq<Seq<char>>)>) -> Seq<
    (WNKey, Seq<char>),
>
    decreases m.len(),
{
    if m.len() == 0 {
        Seq::empty()
    } else {
        verb_pairs(st, m.drop_last()) + (match assoc_s(st.by_sense_key, m.last().0) {
            Some(k) => Seq::new(m.last().1.len(), |q: int| (k, m.last().1[q])),
            None => Seq::empty(),
        })
    }
}

/// Encyclopedic rows flattened to one pair per target.
pub open spec fn wwim_flat(rows: Seq<(WNKey, Seq<Seq<char>>)>) -> Seq<(WNKey, Seq<char>)>
    decreases rows.len(),
{
    if rows.len() == 0 {
        Seq::empty()
    } else {
        wwim_flat(rows.drop_last()) + Seq::new(
            rows.last().1.len(),
            |q: int| (rows.last().0, rows.last().1[q]),
        )
    }
}

/// What the whole link pass does to a store: the verb-class links (all
/// documents, or none when any fails to parse), then the URL crosswalk, then
/// the encyclopedic mapping, each source reading the store as the previous
/// one left it.
pub open spec fn load_links_spec(
    st: StoreV,
    docs: Seq<Seq<char>>,
    w3c: Option<Seq<char>>,
    wwim: Option<Seq<char>>,
) -> StoreV {
    let st1 = if all_verb_docs_wf(docs) {
        insert_links_spec(st, LinkType::VerbNet, verb_pairs(st, verbs_merged(docs, Seq::empty())))
    } else {
        st
    };
    let st2 = match w3c {
        None => st1,
        Some(c) => insert_links_spec(st1, LinkType::W3C, w3c_pairs(st1, split_on(c, '\n'))),
    };
    match wwim {
        None => st2,
        Some(c) => insert_links_spec(
            st2,
            LinkType::Wikipedia,
            wwim_flat(wwim_rows(st2, split_on(c, '\n'))),
        ),
    }
}

/// Runs the three link sources in order — verb classes, the URL crosswalk,
/// the encyclopedic mapping — each best-effort: a verb-class document that
/// fails to parse empties that source (the failure is the caller's to log),
/// and the other two sources still resolve and attach their links.
pub fn load_links(
    verbnet_docs: &Vec<String>,
    w3c_table: &Option<String>,
    wwim_table: &Option<String>,
    wordnet: &mut WordNetBuilder,
) -> (r: Result<(), WordNetLoadError>)
    ensures
        r is Ok,
        final(wordnet)@ == load_links_spec(
            old(wordnet)@,
            verbnet_docs.deep_view(),
            w3c_table.deep_view(),
            wwim_table.deep_view(),
        ),
{
    let ghost st0 = old(wordnet)@;
    let ghost docs_dv = verbnet_docs.deep_view();
    // verb class membership, all documents or none
    let mut verbs: Vec<(String, Vec<String>)> = Vec::new();
    let mut ok = true;
    let mut i: usize = 0;
    proof {
        assert(docs_dv.skip(0) =~= docs_dv);
        assert(verbs.deep_view() =~= Seq::<(Seq<char>, Seq<Seq<char>>)>::empty());
    }
    while i < verbnet_docs.len()
        invariant
            i <= verbnet_docs.len(),
            docs_dv == verbnet_docs.deep_view(),
            verbnet_docs.len() == docs_dv.len(),
            *wordnet == *old(wordnet),
            ok == (forall|w: int| 0 <= w < i ==> xml_wf(#[trigger] docs_dv[w])),
            ok ==> verbs_merged(docs_dv, Seq::empty()) == verbs_merged(
                docs_dv.skip(i as int),
                verbs.deep_view(),
            ),
        decreases verbnet_docs.len() - i,
    {
        proof {
            assert(docs_dv.skip(i as int)[0] == docs_dv[i as int]);
            assert(docs_dv[i as int] == verbnet_docs@[i as int]@);
            assert(docs_dv.skip(i as int).drop_first() =~= docs_dv.skip(i + 1));
        }
        match crate::xml_events::parse_xml(verbnet_docs[i].as_str()) {
            Ok(events) => {
                match load_verbs(&events) {
                    Ok(part) => {
                        let ghost part_dv = part.deep_view();
                        let ghost verbs0 = verbs.deep_view();
                        let mut j: usize = 0;
                        proof {
                            assert(part_dv.skip(0) =~= part_dv);
                        }
                        while j < part.len()
                            invariant
                                j <= part.len(),
                                part_dv == part.deep_view(),
                                part.len() == part_dv.len(),
                                merge_verbs(verbs0, part_dv) == merge_verbs(
                                    verbs.deep_view(),
                                    part_dv.skip(j as int),
                                ),
                            decreases part.len() - j,
                        {
                            proof {
                                assert(part_dv.skip(j as int)[0] == part_dv[j as int]);
                                assert(part_dv[j as int] == (part@[j as int].0@, part@[
                                    j as int].1.deep_view()));
                                assert(part_dv.skip(j as int).drop_first() =~= part_dv.skip(
                                    j + 1,
                                ));
                            }
                            crate::wordnet::map_put_s(
                                &mut verbs,
                                part[j].0.deep_clone(),
                                part[j].1.deep_clone(),
                            );
                            j += 1;
                        }
                        proof {
                            assert(part_dv.skip(part_dv.len() as int).len() == 0);
                        }
                    },
                    Err(_) => {
                        ok = false;
                    },
                }
            },
            Err(_) => {
                ok = false;
            },
        }
        i += 1;
    }
    proof {
        assert(docs_dv.skip(docs_dv.len() as int).len() == 0);
    }
    if ok {
        let ghost m_dv = verbs.deep_view();
        let mut pairs: Vec<(WNKey, String)> = Vec::new();
        let mut j: usize = 0;
        proof {
            assert(m_dv.take(0) =~= Seq::<(Seq<char>, Seq<Seq<char>>)>::empty());
            assert(pairs.deep_view() =~= verb_pairs(st0, m_dv.take(0)));
        }
        while j < verbs.len()
            invariant
                j <= verbs.len(),
                m_dv == verbs.deep_view(),
                verbs.len() == m_dv.len(),
                *wordnet == *old(wordnet),
                pairs.deep_view() == verb_pairs(st0, m_dv.take(j as int)),
            decreases verbs.len() - j,
        {
            proof {
                assert(m_dv[j as int] == (verbs@[j as int].0@, verbs@[j as int].1.deep_view()));
                assert(m_dv.take(j + 1).drop_last() =~= m_dv.take(j as int));
                assert(m_dv.take(j + 1).last() == m_dv[j as int]);
            }
            match wordnet.get_id_by_sense_key(verbs[j].0.as_str()) {
                Ok(Some(key)) => {
                    let vs = &verbs[j].1;
                    let ghost vs_dv = m_dv[j as int].1;
                    let ghost base = pairs.deep_view();
                    let mut q: usize = 0;
                    while q < vs.len()
                        invariant
                            q <= vs.len(),
                            vs_dv == vs.deep_view(),
                            vs.len() == vs_dv.len(),
                            pairs.deep_view() =~= base + Seq::new(
                                q as nat,
                                |t: int| (key, vs_dv[t]),
                            ),
                        decreases vs.len() - q,
                    {
                        let ghost pre = pairs.deep_view();
                        proof {
                            assert(vs_dv[q as int] == vs@[q as int]@);
                        }
                        pairs.push((key, vs[q].deep_clone()));
                        proof {
                            assert(pairs.deep_view() =~= pre.push((key, vs_dv[q as int])));
                        }
                        q += 1;
                    }
                    proof {
                        assert(pairs.deep_view() =~= base + Seq::new(
                            vs_dv.len(),
                            |t: int| (key, vs_dv[t]),
                        ));
                    }
                },
                Ok(None) => {
                    proof {
                        assert(pairs.deep_view() + Seq::<(WNKey, Seq<char>)>::empty()
                            =~= pairs.deep_view());
                    }
                },
                Err(_) => {
                },
            }
            j += 1;
        }
        proof {
            assert(m_dv.take(m_dv.len() as int) =~= m_dv);
        }
        let _ = wordnet.insert_links(LinkType::VerbNet, pairs);
    }
    let ghost st1 = wordnet@;
    proof {
        assert(st1 =~~= (if all_verb_docs_wf(docs_dv) {
            insert_links_spec(
                st0,
                LinkType::VerbNet,
                verb_pairs(st0, verbs_merged(docs_dv, Seq::empty())),
            )
        } else {
            st0
        }));
    }
    // the URL crosswalk
    match w3c_table {
        Some(contents) => {
            proof {
                assert(w3c_table.deep_view() == Some(contents@));
            }
            match load_w3c(contents.as_str(), wordnet) {
                Ok(w3c) => {
                    let ghost w3c_dv = w3c.deep_view();
                    let mut pairs: Vec<(WNKey, String)> = Vec::new();
                    let mut j: usize = 0;
                    proof {
                        assert(pairs.deep_view() =~= w3c_dv.take(0));
                    }
                    while j < w3c.len()
                        invariant
                            j <= w3c.len(),
                            w3c_dv == w3c.deep_view(),
                            w3c.len() == w3c_dv.len(),
                            pairs.deep_view() == w3c_dv.take(j as int),
                        decreases w3c.len() - j,
                    {
                        let ghost pre = pairs.deep_view();
                        proof {
                            assert(w3c_dv[j as int] == (w3c@[j as int].0, w3c@[j as int].1@));
                            assert(w3c_dv.take(j + 1).drop_last() =~= w3c_dv.take(j as int));
                            assert(w3c_dv.take(j + 1).last() == w3c_dv[j as int]);
                        }
                        pairs.push((w3c[j].0, w3c[j].1.deep_clone()));
                        proof {
                            assert(pairs.deep_view() =~= pre.push(w3c_dv[j as int]));
                        }
                        j += 1;
                    }
                    proof {
                        assert(w3c_dv.take(w3c_dv.len() as int) =~= w3c_dv);
                    }
                    let _ = wordnet.insert_links(LinkType::W3C, pairs);
                },
                Err(_) => {
                },
            }
        },
        None => {
            proof {
                assert(w3c_table.deep_view() is None);
            }
        },
    }
    let ghost st2 = wordnet@;
    // the encyclopedic mapping
    match wwim_table {
        Some(contents) => {
            proof {
                assert(wwim_table.deep_view() == Some(contents@));
            }
            match load_wwim(contents.as_str(), wordnet) {
                Ok(wwim) => {
                    let ghost rows_dv = wwim.deep_view();
                    let mut pairs: Vec<(WNKey, String)> = Vec::new();
                    let mut j: usize = 0;
                    proof {
                        assert(rows_dv.take(0) =~= Seq::<(WNKey, Seq<Seq<char>>)>::empty());
                        assert(pairs.deep_view() =~= wwim_flat(rows_dv.take(0)));
                    }
                    while j < wwim.len()
                        invariant
                            j <= wwim.len(),
                            rows_dv == wwim.deep_view(),
                            wwim.len() == rows_dv.len(),
                            pairs.deep_view() == wwim_flat(rows_dv.take(j as int)),
                        decreases wwim.len() - j,
                    {
                        proof {
                            assert(rows_dv[j as int] == (wwim@[j as int].0, wwim@[
                                j as int].1.deep_view()));
                            assert(rows_dv.take(j + 1).drop_last() =~= rows_dv.take(j as int));
                            assert(rows_dv.take(j + 1).last() == rows_dv[j as int]);
                        }
                        let vs = &wwim[j].1;
                        let ghost vs_dv = rows_dv[j as int].1;
                        let ghost key = rows_dv[j as int].0;
                        let ghost base = pairs.deep_view();
                        let mut q: usize = 0;
                        while q < vs.len()
                            invariant
                                q <= vs.len(),
                                vs_dv == vs.deep_view(),
                                vs.len() == vs_dv.len(),
                                key == rows_dv[j as int].0,
                                j < wwim.len(),
                                wwim@[j as int].0 == key,
                                pairs.deep_view() =~= base + Seq::new(
                                    q as nat,
                                    |t: int| (key, vs_dv[t]),
                                ),
                            decreases vs.len() - q,
                        {
                            let ghost pre = pairs.deep_view();
                            proof {
                                assert(vs_dv[q as int] == vs@[q as int]@);
                            }
                            pairs.push((wwim[j].0, vs[q].deep_clone()));
                            proof {
                                assert(pairs.deep_view() =~= pre.push((key, vs_dv[q as int])));
                            }
                            q += 1;
                        }
                        proof {
                            assert(pairs.deep_view() =~= base + Seq::new(
                                vs_dv.len(),
                                |t: int| (key, vs_dv[t]),
                            ));
                        }
                        j += 1;
                    }
                    proof {
                        assert(rows_dv.take(rows_dv.len() as int) =~= rows_dv);
                    }
                    let _ = wordnet.insert_links(LinkType::Wikipedia, pairs);
                },
                Err(_) => {
                },
            }
        },
        None => {
            proof {
                assert(wwim_table.deep_view() is None);
            }
        },
    }
    proof {
        assert(wordnet@ =~~= load_links_spec(
            st0,
            docs_dv,
            w3c_table.deep_view(),
            wwim_table.deep_view(),
        ));
    }
    Ok(())
}

} // verus!