use wordnet_angular::facade::is_old_wn_key;
use wordnet_angular::keys::WNKey;
use wordnet_angular::model::PartOfSpeech;
use wordnet_angular::wordnet::WordNetLoadError;
use wordnet_angular::wordnet_read::{clean_id, unmap_sense_key};

#[test]
fn parse_then_print_round_trips() {
    for s in ["00001740-n", "12345678-v", "00000000-x", "99999999-p", "00001930-s"] {
        let k = WNKey::parse(s).unwrap();
        assert_eq!(k.to_string(), s);
    }
}

#[test]
fn print_then_parse_round_trips() {
    let k = WNKey::new(1740, 'n').unwrap();
    let s = k.to_string();
    assert_eq!(s, "00001740-n");
    let k2 = WNKey::parse(&s).unwrap();
    assert_eq!(k2, k);
}

#[test]
fn malformed_keys_are_rejected() {
    for s in [
        "",
        "0001740-n",
        "000017400-n",
        "00001740-z",
        "00001740n-",
        "00001740-nn",
        "0000174a-n",
        "00001740 n",
        "wn31-00001740-n",
    ] {
        match WNKey::parse(s) {
            Err(WordNetLoadError::BadKey(_)) => {}
            other => panic!("expected a bad key for {:?}, got {:?}", s, other.map(|k| k.to_string())),
        }
    }
}

#[test]
fn new_rejects_out_of_range_offsets_and_letters() {
    assert!(matches!(WNKey::new(100000000, 'n'), Err(WordNetLoadError::BadKey(_))));
    assert!(matches!(WNKey::new(0, 'q'), Err(WordNetLoadError::BadKey(_))));
    assert!(WNKey::new(99999999, 'x').is_ok());
}

#[test]
fn key_order_follows_offset_then_letter() {
    let a = WNKey::parse("00001740-a").unwrap();
    let n = WNKey::parse("00001740-n").unwrap();
    let later = WNKey::parse("00001930-a").unwrap();
    assert!(a.lt(&n));
    assert!(n.lt(&later));
    assert!(!later.lt(&a));
}

#[test]
fn part_of_speech_round_trips() {
    for (s, long) in [
        ("n", "noun"),
        ("v", "verb"),
        ("a", "adjective"),
        ("r", "adverb"),
        ("s", "adjective_satellite"),
        ("x", "other"),
    ] {
        let p = PartOfSpeech::from_str(s).unwrap();
        assert_eq!(p.to_string(), s);
        assert_eq!(p.as_long_string(), long);
    }
    assert!(PartOfSpeech::from_str("p").is_err());
    assert!(PartOfSpeech::from_str("noun").is_err());
}

#[test]
fn sense_key_unmapping_reverses_the_escapes() {
    assert_eq!(unmap_sense_key("ewn-able__5:00:00:capable:00"), "able%5:00:00:capable:00");
    assert_eq!(unmap_sense_key("x-a-ap-b-sl-c-ex-d-cm-e"), "a'b/c!d,e");
    assert_eq!(unmap_sense_key("nodashes"), "");
}

#[test]
fn clean_id_strips_the_edition_prefix() {
    assert_eq!(clean_id("wn31-00001740-n"), "00001740-n");
    assert_eq!(clean_id("00001740-n"), "00001740-n");
}

#[test]
fn old_key_shapes_are_recognized() {
    assert!(is_old_wn_key("12345678-n"));
    assert!(is_old_wn_key("123456789-n"));
    assert!(!is_old_wn_key("1234567-n"));
    assert!(!is_old_wn_key("abcdefgh-n"));
}
