use wordnet_angular::keys::WNKey;
use wordnet_angular::links::{load_links, load_w3c, load_wwim, LinkType};
use wordnet_angular::wordnet::WordNetBuilder;
use wordnet_angular::wordnet_read::{load_gwn, load_xml, LoadSources};

fn sources_with(document: String) -> LoadSources {
    LoadSources {
        document,
        tab_tables: Vec::new(),
        omwn_tables: Vec::new(),
        glosstag_docs: Vec::new(),
        verbnet_docs: Vec::new(),
        w3c_table: None,
        wwim_table: None,
    }
}

#[test]
fn senses_sort_by_their_suffix_rank() {
    // the second entry carries the lower two-digit suffix, so its sense
    // comes first
    let document = "<LexicalResource><Lexicon language=\"en\">\n<LexicalEntry id=\"w-late\">\n<Lemma writtenForm=\"late\"/>\n<Sense id=\"ewn-late-n-00000001-07\" synset=\"00000001-n\"/>\n</LexicalEntry>\n<LexicalEntry id=\"w-early\">\n<Lemma writtenForm=\"early\"/>\n<Sense id=\"ewn-early-n-00000001-02\" synset=\"00000001-n\"/>\n</LexicalEntry>\n<Synset id=\"00000001-n\" ili=\"i1\" partOfSpeech=\"n\" lexfile=\"noun.animal\">\n<Definition>ranked</Definition>\n</Synset>\n</Lexicon></LexicalResource>\n"
        .to_string();
    let wn = load_gwn(&sources_with(document)).unwrap();
    let ss = wn.get_synset(&WNKey::parse("00000001-n").unwrap()).unwrap().unwrap();
    assert_eq!(ss.lemmas.len(), 2);
    assert_eq!(ss.lemmas[0].lemma, "early");
    assert_eq!(ss.lemmas[0].importance, Some(2));
    assert_eq!(ss.lemmas[1].lemma, "late");
    assert_eq!(ss.lemmas[1].importance, Some(7));
}

#[test]
fn frames_resolve_from_entries_sense_lists_and_back_references() {
    let document = "<LexicalResource><Lexicon language=\"en\">\n<LexicalEntry id=\"w-run\">\n<Lemma writtenForm=\"run\"/>\n<Sense id=\"s-run-1\" synset=\"00000001-v\" subcat=\"fr-back\"/>\n<SyntacticBehaviour subcategorizationFrame=\"somebody %s\"/>\n<SyntacticBehaviour subcategorizationFrame=\"%s something\" senses=\"s-run-1\"/>\n</LexicalEntry>\n<Synset id=\"00000001-v\" ili=\"i1\" partOfSpeech=\"v\" lexfile=\"verb.motion\">\n<Definition>to move fast</Definition>\n</Synset>\n<SyntacticBehaviour id=\"fr-back\" subcategorizationFrame=\"it %s that\"/>\n</Lexicon></LexicalResource>\n"
        .to_string();
    let wn = load_gwn(&sources_with(document)).unwrap();
    let ss = wn.get_synset(&WNKey::parse("00000001-v").unwrap()).unwrap().unwrap();
    assert_eq!(ss.lemmas.len(), 1);
    let sense = &ss.lemmas[0];
    // the per-entry frame and the senses-attributed frame both arrive
    assert!(sense.subcats.contains(&"somebody %s".to_string()));
    assert!(sense.subcats.contains(&"%s something".to_string()));
    // the top-level declaration reaches the sense through its reference
    assert!(sense.subcats.contains(&"it %s that".to_string()));
    assert_eq!(sense.subcat_refs, vec!["fr-back".to_string()]);
}

#[test]
fn pronunciations_and_entry_numbers_carry_over() {
    let document = "<LexicalResource><Lexicon language=\"en\">\n<LexicalEntry id=\"w-bass-2\">\n<Lemma writtenForm=\"bass\"/>\n<Pronunciation variety=\"GB\">b[a]s</Pronunciation>\n<Pronunciation>beis</Pronunciation>\n<Sense id=\"s-bass-1\" synset=\"00000001-n\"/>\n</LexicalEntry>\n<Synset id=\"00000001-n\" ili=\"i1\" partOfSpeech=\"n\" lexfile=\"noun.animal\">\n<Definition>a fish</Definition>\n</Synset>\n</Lexicon></LexicalResource>\n"
        .to_string();
    let wn = load_gwn(&sources_with(document)).unwrap();
    let ss = wn.get_synset(&WNKey::parse("00000001-n").unwrap()).unwrap().unwrap();
    let sense = &ss.lemmas[0];
    assert_eq!(sense.entry_no, 2);
    assert_eq!(sense.pronunciations.len(), 2);
    assert_eq!(sense.pronunciations[0].value, "b[a]s");
    assert_eq!(sense.pronunciations[0].variety.as_deref(), Some("GB"));
    assert_eq!(sense.pronunciations[1].value, "beis");
    assert!(sense.pronunciations[1].variety.is_none());
}

#[test]
fn sense_keys_unmap_from_encoded_identifiers() {
    // no identifier attribute: the key is recovered from the sense id
    let document = "<LexicalResource><Lexicon language=\"en\">\n<LexicalEntry id=\"w-cat\">\n<Lemma writtenForm=\"cat\"/>\n<Sense id=\"ewn-cat__1:05:00::\" synset=\"00000001-n\"/>\n</LexicalEntry>\n<Synset id=\"00000001-n\" ili=\"i1\" partOfSpeech=\"n\" lexfile=\"noun.animal\">\n<Definition>feline</Definition>\n</Synset>\n</Lexicon></LexicalResource>\n"
        .to_string();
    let wn = load_gwn(&sources_with(document)).unwrap();
    let ss = wn.get_synset(&WNKey::parse("00000001-n").unwrap()).unwrap().unwrap();
    assert_eq!(ss.lemmas[0].sense_key.as_deref(), Some("cat%1:05:00::"));
    assert_eq!(wn.get_by_sense_key("cat%1:05:00::").unwrap().unwrap().ili, "i1");
}

fn small_builder() -> WordNetBuilder {
    let document = "<LexicalResource><Lexicon language=\"en\">\n<LexicalEntry id=\"w-cat\">\n<Lemma writtenForm=\"cat\"/>\n<Sense id=\"s-cat-1\" synset=\"00000001-n\"/>\n</LexicalEntry>\n<Synset id=\"00000001-n\" ili=\"i46593\" partOfSpeech=\"n\" lexfile=\"noun.animal\">\n<Definition>feline</Definition>\n</Synset>\n</Lexicon></LexicalResource>\n"
        .to_string();
    let mut b = WordNetBuilder::new().unwrap();
    load_xml(&document, &mut b).unwrap();
    b
}

#[test]
fn the_url_crosswalk_maps_through_the_second_edition_index() {
    let mut b = small_builder();
    let key = WNKey::parse("00000001-n").unwrap();
    b.set_old_ids("pwn20", vec![("00001740-n".to_string(), key)]).unwrap();
    let table = "\"http://example.org/wn/cat\",00001740-n\nmalformed line\n\"u\",99999999-n\n";
    let pairs = load_w3c(table, &b).unwrap();
    assert_eq!(pairs.len(), 1);
    assert_eq!(pairs[0].0, key);
    assert_eq!(pairs[0].1, "http://example.org/wn/cat");
}

#[test]
fn the_encyclopedic_mapping_strips_fixed_offsets_and_skips_comments() {
    let b = small_builder();
    let key = WNKey::parse("00000001-n").unwrap();
    // the first token carries the interlingual index after thirty
    // characters, the third the target after twenty-nine, both inside
    // angle brackets
    let line = format!(
        "{}i46593> {} {}Cat>\n",
        "<http://ili.example.org/ident/", "<p>", "<http://wiki.example.org/pge/"
    );
    assert_eq!(line.find("i46593"), Some(30));
    let table = format!("# a comment line\n{}", line);
    let rows = load_wwim(&table, &b).unwrap();
    assert_eq!(rows.len(), 1);
    assert_eq!(rows[0].0, key);
    assert_eq!(rows[0].1, vec!["Cat".to_string()]);
}

#[test]
fn link_batches_reach_their_synsets_through_the_pipeline() {
    let mut b = small_builder();
    let key = WNKey::parse("00000001-n").unwrap();
    b.insert_links(LinkType::Wikipedia, vec![(key, "Cat".to_string())]).unwrap();
    b.insert_links(LinkType::W3C, vec![(key, "http://example.org/cat".to_string())]).unwrap();
    let links = b.get_synset(&key).unwrap().unwrap().links;
    assert_eq!(links.len(), 2);
    assert!(links.iter().any(|l| l.link_type == LinkType::Wikipedia && l.target == "Cat"));
    assert!(links.iter().any(|l| l.link_type == LinkType::W3C));
}

#[test]
fn a_failed_link_source_leaves_the_other_sources_working() {
    let mut b = small_builder();
    let key = WNKey::parse("00000001-n").unwrap();
    b.set_old_ids("pwn20", vec![("00001740-n".to_string(), key)]).unwrap();
    // the verb-class document is malformed; the URL crosswalk is fine
    let verbnet_docs = vec!["<VNCLASS".to_string()];
    let w3c = Some("\"http://example.org/wn/cat\",00001740-n\n".to_string());
    load_links(&verbnet_docs, &w3c, &None, &mut b).unwrap();
    let links = b.get_synset(&key).unwrap().unwrap().links;
    assert_eq!(links.len(), 1);
    assert_eq!(links[0].link_type, LinkType::W3C);
    assert_eq!(links[0].target, "http://example.org/wn/cat");
}

#[test]
fn lexicon_language_reaches_every_sense() {
    let document = "<LexicalResource><Lexicon language=\"de\">\n<LexicalEntry id=\"w-katze\">\n<Lemma writtenForm=\"Katze\"/>\n<Sense id=\"s-katze-1\" synset=\"00000001-n\"/>\n</LexicalEntry>\n<Synset id=\"00000001-n\" ili=\"i1\" partOfSpeech=\"n\" lexfile=\"noun.animal\">\n<Definition>Hauskatze</Definition>\n</Synset>\n</Lexicon></LexicalResource>\n"
        .to_string();
    let wn = load_gwn(&sources_with(document)).unwrap();
    let ss = wn.get_synset(&WNKey::parse("00000001-n").unwrap()).unwrap().unwrap();
    assert_eq!(ss.lemmas[0].language, "de");
    assert_eq!(wn.get_by_lemma("Katze", "de").unwrap().len(), 1);
    assert!(wn.get_by_lemma("Katze", "en").unwrap().is_empty());
    // the case-folded lemma index serves the autocomplete seed
    let found = wn.list_by_lemma(&"katz".to_string(), "de", 10).unwrap();
    assert_eq!(found, vec!["Katze".to_string()]);
}
