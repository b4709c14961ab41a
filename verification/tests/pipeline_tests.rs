use wordnet_angular::facade::{autocomplete_wn_key, get_synsets, make_synsets_hb, WordNetSite};
use wordnet_angular::keys::WNKey;
use wordnet_angular::links::LinkType;
use wordnet_angular::wordnet::WordNetBuilder;
use wordnet_angular::wordnet_read::{LoadSources, load_pwn, load_gwn, load_xml};

fn minimal_document() -> String {
    "<?xml version=\"1.0\" encoding=\"UTF-8\"?>\n<LexicalResource>\n<Lexicon language=\"en\">\n<LexicalEntry id=\"w-cat\">\n<Lemma writtenForm=\"cat\"/>\n<Form writtenForm=\"cats\"/>\n<Sense id=\"ewn-cat-n-00001740-01\" synset=\"00001740-n\" identifier=\"cat%1:05:00::\"/>\n</LexicalEntry>\n<Synset id=\"00001740-n\" ili=\"i46593\" partOfSpeech=\"n\" lexfile=\"noun.animal\">\n<Definition>feline mammal</Definition>\n<Example>the cat sat</Example>\n<SynsetRelation relType=\"hypernym\" target=\"00001930-n\"/>\n</Synset>\n</Lexicon>\n</LexicalResource>\n"
    .to_string()
}

fn sources_with(document: String) -> LoadSources {
    LoadSources {
        document,
        tab_tables: Vec::new(),
        omwn_tables: Vec::new(),
        glosstag_docs: Vec::new(),
        verbnet_docs: Vec::new(),
        w3c_table: None,
        wwim_table: None,
    }
}

#[test]
fn a_minimal_document_loads_and_serves_lookups() {
    let wn = load_gwn(&sources_with(minimal_document())).unwrap();
    let key = WNKey::parse("00001740-n").unwrap();
    let ss = wn.get_synset(&key).unwrap().unwrap();
    assert_eq!(ss.definition, "feline mammal");
    assert_eq!(ss.examples, vec!["the cat sat".to_string()]);
    assert_eq!(ss.ili, "i46593");
    assert_eq!(ss.subject, "noun.animal");
    assert_eq!(ss.lemmas.len(), 1);
    assert_eq!(ss.lemmas[0].lemma, "cat");
    assert_eq!(ss.lemmas[0].forms, vec!["cats".to_string()]);
    assert_eq!(ss.lemmas[0].sense_key.as_deref(), Some("cat%1:05:00::"));
    assert_eq!(ss.lemmas[0].importance, Some(1));
    assert_eq!(ss.relations.len(), 1);
    assert_eq!(ss.relations[0].rel_type, "hypernym");
    assert_eq!(ss.relations[0].target, "00001930-n");
    assert!(ss.relations[0].src_word.is_none());
    assert!(ss.relations[0].trg_word.is_none());
}

#[test]
fn two_senses_of_one_lemma_stay_with_their_synsets() {
    let document = "<LexicalResource><Lexicon language=\"en\">\n<LexicalEntry id=\"w-cat\">\n<Lemma writtenForm=\"cat\"/>\n<Sense id=\"ewn-cat-n-00001740-01\" synset=\"00001740-n\"/>\n<Sense id=\"ewn-cat-n-00005555-02\" synset=\"wn31-00005555-n\"/>\n</LexicalEntry>\n<Synset id=\"00001740-n\" ili=\"i1\" partOfSpeech=\"n\" lexfile=\"noun.animal\">\n<Definition>first</Definition>\n</Synset>\n<Synset id=\"00005555-n\" ili=\"i2\" partOfSpeech=\"n\" lexfile=\"noun.person\">\n<Definition>second</Definition>\n</Synset>\n</Lexicon></LexicalResource>\n"
    .to_string();
    let wn = load_gwn(&sources_with(document)).unwrap();
    let first = wn.get_synset(&WNKey::parse("00001740-n").unwrap()).unwrap().unwrap();
    let second = wn.get_synset(&WNKey::parse("00005555-n").unwrap()).unwrap().unwrap();
    assert_eq!(first.lemmas.len(), 1);
    assert_eq!(second.lemmas.len(), 1);
    assert_eq!(first.lemmas[0].lemma, "cat");
    assert_eq!(second.lemmas[0].lemma, "cat");
    assert_eq!(first.definition, "first");
    assert_eq!(second.definition, "second");
    // both synsets are found by the shared lemma
    let both = wn.get_by_lemma("cat", "en").unwrap();
    assert_eq!(both.len(), 2);
}

#[test]
fn sense_relations_resolve_to_the_owning_synset() {
    let document = "<LexicalResource><Lexicon language=\"en\">\n<LexicalEntry id=\"w-cat\">\n<Lemma writtenForm=\"cat\"/>\n<Sense id=\"sk-of-cat-1\" synset=\"00001740-n\">\n<SenseRelation relType=\"derivation\" target=\"sk-of-cat-2\"/>\n</Sense>\n</LexicalEntry>\n<LexicalEntry id=\"w-catty\">\n<Lemma writtenForm=\"catty\"/>\n<Sense id=\"sk-of-cat-2\" synset=\"00009999-a\"/>\n</LexicalEntry>\n<Synset id=\"00001740-n\" ili=\"i1\" partOfSpeech=\"n\" lexfile=\"noun.animal\">\n<Definition>first</Definition>\n<SynsetRelation relType=\"hypernym\" target=\"00001930-n\"/>\n</Synset>\n<Synset id=\"00009999-a\" ili=\"i2\" partOfSpeech=\"a\" lexfile=\"adj.all\">\n<Definition>second</Definition>\n</Synset>\n</Lexicon></LexicalResource>\n"
    .to_string();
    let wn = load_gwn(&sources_with(document)).unwrap();
    let first = wn.get_synset(&WNKey::parse("00001740-n").unwrap()).unwrap().unwrap();
    assert_eq!(first.relations.len(), 2);
    let sense_rel = first.relations.iter().find(|r| r.rel_type == "derivation").unwrap();
    assert_eq!(sense_rel.src_word.as_deref(), Some("cat"));
    assert_eq!(sense_rel.trg_word.as_deref(), Some("catty"));
    assert_eq!(sense_rel.target, "00009999-a");
    let synset_rel = first.relations.iter().find(|r| r.rel_type == "hypernym").unwrap();
    assert!(synset_rel.src_word.is_none());
    assert!(synset_rel.trg_word.is_none());
}

#[test]
fn a_missing_required_attribute_fails_the_whole_load() {
    // the synset lacks its ili
    let document = "<LexicalResource><Lexicon language=\"en\">\n<Synset id=\"00001740-n\" partOfSpeech=\"n\" lexfile=\"noun.animal\">\n<Definition>broken</Definition>\n</Synset>\n</Lexicon></LexicalResource>\n"
    .to_string();
    assert!(load_gwn(&sources_with(document)).is_err());
}

#[test]
fn malformed_markup_fails_the_whole_load() {
    let document = "<LexicalResource><Lexicon".to_string();
    assert!(load_gwn(&sources_with(document)).is_err());
}

#[test]
fn a_bad_synset_key_fails_the_whole_load() {
    let document = "<LexicalResource><Lexicon language=\"en\">\n<Synset id=\"not-a-key!!\" ili=\"i1\" partOfSpeech=\"n\" lexfile=\"noun.animal\">\n<Definition>broken</Definition>\n</Synset>\n</Lexicon></LexicalResource>\n"
    .to_string();
    assert!(load_gwn(&sources_with(document)).is_err());
}

#[test]
fn end_to_end_pipeline_attaches_crosswalks_and_links() {
    let mut sources = sources_with(minimal_document());
    sources.tab_tables = vec![("pwn30".to_string(), "i46593\t02121620\n".to_string())];
    sources.verbnet_docs = vec!["<VNCLASS ID=\"51.3.1\">\n<MEMBERS><MEMBER name=\"cat\" wn=\"cat%1:05:00\"/></MEMBERS>\n</VNCLASS>\n"
    .to_string()];
    let wn = load_pwn(&sources).unwrap();
    let ss = wn.get_by_ili("i46593").unwrap().unwrap();
    let old = ss
        .old_keys
        .iter()
        .find(|(version, _)| version == "pwn30")
        .map(|(_, keys)| keys.clone())
        .unwrap();
    assert_eq!(old, vec!["02121620".to_string()]);
    assert!(ss.links.iter().any(|l| l.link_type == LinkType::VerbNet && l.target == "51.3.1"));
    // the legacy id also answers lookups
    let back = wn.get_by_old_id("pwn30", "02121620").unwrap().unwrap();
    assert_eq!(back.ili, "i46593");
}

#[test]
fn the_foreign_pass_fails_without_its_crosswalk() {
    // the pass's foundational lookup table is entirely absent: it must be
    // reported, not silently skipped
    let mut sources = sources_with(minimal_document());
    sources.omwn_tables = vec![("spa".to_string(), "02121620	lemma	gato
".to_string())];
    assert!(load_pwn(&sources).is_err());
    // with the crosswalk loaded the same sources go through
    sources.tab_tables = vec![("pwn30".to_string(), "i46593	02121620
".to_string())];
    let wn = load_pwn(&sources).unwrap();
    let ss = wn.get_by_ili("i46593").unwrap().unwrap();
    let (_, lemmas) = ss.foreign.iter().find(|(lang, _)| lang == "spa").unwrap().clone();
    assert_eq!(lemmas, vec!["gato".to_string()]);
}

#[test]
fn foreign_rows_with_unknown_legacy_ids_are_skipped_not_fatal() {
    let mut builder = WordNetBuilder::new().unwrap();
    load_xml(&minimal_document(), &mut builder).unwrap();
    let _ = builder.set_old_ids(
        "pwn30",
        vec![("02121620".to_string(), WNKey::parse("00001740-n").unwrap())],
    );
    let table = "99999999\tlemma\tfantasma\n02121620\tnot-a-lemma-row\tignored\n02121620\tlemma\tgato\n02121620\tlemma\tgato\n02121620\tlemma\tfelino\n";
    let rows = wordnet_angular::omwn::load_omwn(table, &builder).unwrap();
    assert_eq!(rows.len(), 1);
    assert_eq!(rows[0].0, WNKey::parse("00001740-n").unwrap());
    // sorted and deduplicated
    assert_eq!(rows[0].1, vec!["felino".to_string(), "gato".to_string()]);
}

#[test]
fn gloss_tags_attach_through_the_legacy_index() {
    let mut builder = WordNetBuilder::new().unwrap();
    load_xml(&minimal_document(), &mut builder).unwrap();
    let _ = builder.set_old_ids(
        "pwn30",
        vec![("02121620-n".to_string(), WNKey::parse("00001740-n").unwrap())],
    );
    let corpus = "<glosses>\n<synset id=\"n02121620\">\n<gloss><def><wf lemma=\"feline\" pos=\"a\">feline</wf></def></gloss>\n</synset>\n</glosses>\n"
    .to_string();
    wordnet_angular::glosstag::build_glosstags(&vec![corpus], &mut builder).unwrap();
    let key = WNKey::parse("00001740-n").unwrap();
    let ss = builder.get_synset(&key).unwrap().unwrap();
    let gloss = ss.gloss.unwrap();
    assert_eq!(gloss.len(), 1);
    assert_eq!(gloss[0].words.len(), 1);
    assert_eq!(gloss[0].words[0].text, "feline");
    assert_eq!(gloss[0].words[0].lemma.as_deref(), Some("feline"));
}

#[test]
fn the_facade_serves_each_index_and_refuses_unknown_ones() {
    let mut sources = sources_with(minimal_document());
    sources.tab_tables = vec![("pwn30".to_string(), "i46593\t02121620\n".to_string())];
    let wn = load_pwn(&sources).unwrap();
    assert_eq!(get_synsets(&wn, "id", "00001740-n").unwrap().len(), 1);
    assert_eq!(get_synsets(&wn, "lemma", "cat").unwrap().len(), 1);
    assert_eq!(get_synsets(&wn, "lemma-en", "cat").unwrap().len(), 1);
    assert_eq!(get_synsets(&wn, "ili", "i46593").unwrap().len(), 1);
    assert_eq!(get_synsets(&wn, "sense_key", "cat%1:05:00::").unwrap().len(), 1);
    assert_eq!(get_synsets(&wn, "pwn30", "02121620").unwrap().len(), 1);
    assert!(matches!(get_synsets(&wn, "id", "zzz"), Err(m) if m == "Not a WordNet ID"));
    assert!(matches!(get_synsets(&wn, "ili", "i0"), Err(m) if m == "Synset Not Found"));
    assert!(matches!(get_synsets(&wn, "pwn99", "02121620"), Err(m) if m == "Unsupported index"));
}

#[test]
fn autocomplete_pads_partial_keys() {
    let k = autocomplete_wn_key("000017").unwrap();
    assert_eq!(k.to_string(), "00001700-n");
    assert!(autocomplete_wn_key("too-long-to-pad").is_err());
    assert!(autocomplete_wn_key("zzz").is_err());
}

#[test]
fn rendering_groups_synsets_per_sense() {
    let wn = load_gwn(&sources_with(minimal_document())).unwrap();
    let synsets = wn.get_by_lemma("cat", "en").unwrap();
    let hb = make_synsets_hb(synsets, "lemma".to_string(), "cat".to_string(), &WordNetSite::Princeton);
    assert_eq!(hb.synsets.len(), 1);
    assert_eq!(hb.index, "lemma");
    assert_eq!(hb.name, "cat");
    assert_eq!(hb.entries.len(), 1);
    assert_eq!(hb.entries[0].0, "en");
    assert_eq!(hb.entries[0].1[0].0, "cat-n");
    assert_eq!(hb.entries[0].1[0].1[0].lemmas.len(), 1);
}
