use wordnet_angular::keys::WNKey;
use wordnet_angular::links::LinkType;
use wordnet_angular::model::{PartOfSpeech, Sense, Synset};
use wordnet_angular::wordnet::WordNetBuilder;

fn sense(lemma: &str, language: &str, sense_key: Option<&str>) -> Sense {
    Sense {
        lemma: lemma.to_string(),
        language: language.to_string(),
        forms: Vec::new(),
        sense_key: sense_key.map(|s| s.to_string()),
        subcats: Vec::new(),
        subcat_refs: Vec::new(),
        importance: None,
        pronunciations: Vec::new(),
        entry_no: 0,
    }
}

fn synset(id: &str, ili: &str, lemmas: Vec<Sense>) -> (WNKey, Synset) {
    let key = WNKey::parse(id).unwrap();
    (
        key,
        Synset {
            definition: format!("definition of {}", id),
            examples: Vec::new(),
            lemmas,
            id: key,
            ili: ili.to_string(),
            pos: PartOfSpeech::Noun,
            subject: "noun.animal".to_string(),
            relations: Vec::new(),
            old_keys: Vec::new(),
            gloss: None,
            foreign: Vec::new(),
            links: Vec::new(),
        },
    )
}

fn small_store() -> WordNetBuilder {
    let mut b = WordNetBuilder::new().unwrap();
    b.set_synsets(vec![
        synset("00000001-n", "i1", vec![sense("cat", "en", Some("cat%1:05:00::"))]),
        synset("00000002-n", "i2", vec![sense("Carp", "en", None), sense("carp", "en", None)]),
        synset("00000003-n", "i3", vec![sense("dog", "en", Some("dog%1:05:00::"))]),
        synset("00000004-n", "i4", vec![sense("cart", "en", None)]),
    ])
    .unwrap();
    b
}

#[test]
fn point_lookups_find_their_synsets() {
    let mut b = small_store();
    assert_eq!(
        b.get_id_by_ili("i2").unwrap(),
        Some(WNKey::parse("00000002-n").unwrap())
    );
    assert_eq!(b.get_id_by_ili("i9").unwrap(), None);
    assert_eq!(
        b.get_id_by_sense_key("dog%1:05:00::").unwrap(),
        Some(WNKey::parse("00000003-n").unwrap())
    );
    let wn = b.finalize().unwrap();
    assert!(wn.get_synset(&WNKey::parse("00000004-n").unwrap()).unwrap().is_some());
    assert!(wn.get_synset(&WNKey::parse("00000009-n").unwrap()).unwrap().is_none());
    assert_eq!(wn.get_by_sense_key("cat%1:05:00::").unwrap().unwrap().ili, "i1");
}

#[test]
fn prefix_scans_are_bounded_ascending_and_stable() {
    let mut b = small_store();
    let wn = b.finalize().unwrap();
    let first = wn.list_by_lemma(&"ca".to_string(), "en", 10).unwrap();
    let second = wn.list_by_lemma(&"ca".to_string(), "en", 10).unwrap();
    assert_eq!(first, second);
    assert!(first.len() <= 10);
    // ascending by case-folded form and all beginning with the seed
    let forms: Vec<String> = first.iter().map(|l| l.to_lowercase()).collect();
    for w in forms.windows(2) {
        assert!(w[0] < w[1]);
    }
    for f in &forms {
        assert!(f.starts_with("ca"));
    }
    assert_eq!(forms, vec!["carp".to_string(), "cart".to_string(), "cat".to_string()]);
    // a tight limit truncates from the front
    let two = wn.list_by_lemma(&"ca".to_string(), "en", 2).unwrap();
    assert_eq!(two.len(), 2);
    assert_eq!(two[0].to_lowercase(), "carp");
    // the case-folded index finds lemmas written with capitals
    assert!(first.iter().any(|l| l == "Carp" || l == "carp"));
}

#[test]
fn id_and_ili_scans_ascend_from_their_seed() {
    let mut b = small_store();
    let wn = b.finalize().unwrap();
    let seed = WNKey::parse("00000002-n").unwrap();
    let ids = wn.list_by_id(&seed, 10).unwrap();
    let shown: Vec<String> = ids.iter().map(|k| k.to_string()).collect();
    assert_eq!(shown, vec!["00000002-n", "00000003-n", "00000004-n"]);
    let ilis = wn.list_by_ili(&"i2".to_string(), 2).unwrap();
    assert_eq!(ilis, vec!["i2".to_string(), "i3".to_string()]);
}

#[test]
fn loading_a_crosswalk_twice_adds_no_duplicate_old_keys() {
    let mut b = small_store();
    let key = WNKey::parse("00000001-n").unwrap();
    let table = vec![
        ("11111111".to_string(), key),
        ("22222222".to_string(), key),
    ];
    b.set_old_ids("pwn30", table.clone()).unwrap();
    let after_once = b.get_synset(&key).unwrap().unwrap().old_keys;
    b.set_old_ids("pwn30", table).unwrap();
    let after_twice = b.get_synset(&key).unwrap().unwrap().old_keys;
    assert_eq!(after_once, after_twice);
    let (_, keys) = after_twice.iter().find(|(v, _)| v == "pwn30").unwrap().clone();
    assert_eq!(keys, vec!["11111111".to_string(), "22222222".to_string()]);
    for (i, a) in keys.iter().enumerate() {
        for (j, b2) in keys.iter().enumerate() {
            if i != j {
                assert_ne!(a, b2);
            }
        }
    }
}

#[test]
fn updates_replace_records_without_touching_indices() {
    let mut b = small_store();
    let key = WNKey::parse("00000001-n").unwrap();
    let mut ss = b.get_synset(&key).unwrap().unwrap();
    ss.definition = "rewritten".to_string();
    b.update_synset(key, ss).unwrap();
    assert_eq!(b.get_synset(&key).unwrap().unwrap().definition, "rewritten");
    // the ILI index still reaches the record
    assert_eq!(b.get_id_by_ili("i1").unwrap(), Some(key));
}

#[test]
fn links_are_not_attached_twice() {
    let mut b = small_store();
    let key = WNKey::parse("00000001-n").unwrap();
    let pairs = vec![
        (key, "51.3.1".to_string()),
        (key, "51.3.1".to_string()),
        (key, "51.3.2".to_string()),
    ];
    b.insert_links(LinkType::VerbNet, pairs).unwrap();
    let links = b.get_synset(&key).unwrap().unwrap().links;
    assert_eq!(links.len(), 2);
    assert_eq!(links[0].target, "51.3.1");
    assert_eq!(links[1].target, "51.3.2");
}

#[test]
fn list_by_old_id_scans_the_version_index() {
    let mut b = small_store();
    let k1 = WNKey::parse("00000001-n").unwrap();
    let k2 = WNKey::parse("00000002-n").unwrap();
    b.set_old_ids(
        "pwn20",
        vec![("30000000".to_string(), k1), ("10000000".to_string(), k2)],
    )
    .unwrap();
    let wn = b.finalize().unwrap();
    let ids = wn.list_by_old_id("pwn20", "0", 10).unwrap();
    assert_eq!(ids, vec!["10000000".to_string(), "30000000".to_string()]);
    assert!(wn.list_by_old_id("pwn17", "0", 10).unwrap().is_empty());
    assert_eq!(wn.get_by_old_id("pwn20", "10000000").unwrap().unwrap().ili, "i2");
}
