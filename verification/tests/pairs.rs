use idremap::pairs::{check_pair_duplicates, check_pairs, flatten_pairs, get_map_from_pairs, Idpair, PairError};

#[test]
fn check_pair_duplicates_flattens_correctly() {
    let control = vec![
        "1".to_string(),
        "2".to_string(),
        "3".to_string(),
        "4".to_string(),
        "5".to_string(),
        "6".to_string(),
        "7".to_string(),
        "8".to_string(),
    ];
    let uidpairs = vec!["1:2".to_string(), "3:4".to_string()];
    let gidpairs = vec!["5:6".to_string(), "7:8".to_string()];
    let flattened = flatten_pairs(&uidpairs, &gidpairs);
    assert_eq!(flattened, control)
}

#[test]
fn check_pair_duplicates_finds_dupes_one_side() {
    let uidpairs = vec!["1:2".to_string(), "3:4".to_string()];
    let gidpairs = vec!["5:6".to_string(), "7:7".to_string()];
    assert!(check_pair_duplicates(&uidpairs, &gidpairs).is_err())
}

#[test]
fn check_pair_duplicates_finds_dupes_both_sides() {
    let uidpairs = vec!["1:2".to_string(), "3:4".to_string()];
    let gidpairs = vec!["5:6".to_string(), "7:4".to_string()];
    assert!(check_pair_duplicates(&uidpairs, &gidpairs).is_err())
}

#[test]
fn check_pair_duplicates_accepts_distinct_ids() {
    let uidpairs = vec!["1:2".to_string(), "3:4".to_string()];
    let gidpairs = vec!["5:6".to_string(), "7:8".to_string()];
    assert!(check_pair_duplicates(&uidpairs, &gidpairs).is_ok());
    assert!(check_pairs(&uidpairs, &gidpairs).is_ok());
}

#[test]
fn check_pair_duplicates_lists_every_duplicate() {
    let uidpairs = vec!["1:2".to_string(), "3:4".to_string()];
    let gidpairs = vec!["5:6".to_string(), "7:4".to_string(), "8:1".to_string()];
    match check_pair_duplicates(&uidpairs, &gidpairs) {
        Err(PairError::DuplicateId { ids }) => {
            assert_eq!(ids, vec!["4".to_string(), "1".to_string()]);
        }
        other => panic!("expected a duplicate-id error, got {:?}", other),
    }
}

#[test]
fn check_pair_duplicates_works_on_unparsed_fields() {
    // Duplicate detection runs before parsing: empty fields of a malformed
    // pair still count, by their text.
    let uidpairs = vec!["::".to_string()];
    let gidpairs: Vec<String> = vec![];
    assert!(check_pair_duplicates(&uidpairs, &gidpairs).is_err());
    let flattened = flatten_pairs(&uidpairs, &gidpairs);
    assert_eq!(flattened, vec!["".to_string(), "".to_string(), "".to_string()]);
}

#[test]
fn from_string_parses_a_pair() {
    match Idpair::from_string("57:211790") {
        Ok(Some(p)) => {
            assert_eq!(p.current_id, 57);
            assert_eq!(p.new_id, 211790);
        }
        other => panic!("expected a parsed pair, got {:?}", other),
    }
}

#[test]
fn from_string_recognizes_self_mapping() {
    match Idpair::from_string("5:5") {
        Ok(None) => (),
        other => panic!("expected a recognized self pair, got {:?}", other),
    }
}

#[test]
fn from_string_accepts_leading_zeroes_and_sign() {
    match Idpair::from_string("007:8") {
        Ok(Some(p)) => {
            assert_eq!(p.current_id, 7);
            assert_eq!(p.new_id, 8);
        }
        other => panic!("expected a parsed pair, got {:?}", other),
    }
    match Idpair::from_string("+5:6") {
        Ok(Some(p)) => {
            assert_eq!(p.current_id, 5);
            assert_eq!(p.new_id, 6);
        }
        other => panic!("expected a parsed pair, got {:?}", other),
    }
}

#[test]
fn from_string_bounds() {
    match Idpair::from_string("4294967295:1") {
        Ok(Some(p)) => {
            assert_eq!(p.current_id, u32::MAX);
            assert_eq!(p.new_id, 1);
        }
        other => panic!("expected a parsed pair, got {:?}", other),
    }
    assert!(matches!(
        Idpair::from_string("4294967296:1"),
        Err(PairError::Format)
    ));
}

#[test]
fn from_string_rejects_malformed_pairs() {
    for bad in ["5", "a:b", "5:6:7", ":5", "5:", "", ":", "-1:5", "5 :6"] {
        assert!(
            matches!(Idpair::from_string(bad), Err(PairError::Format)),
            "'{}' should have been rejected",
            bad
        );
    }
}

#[test]
fn get_map_from_pairs_builds_the_map() {
    let pairs = vec!["1:2".to_string(), "3:4".to_string()];
    let map = get_map_from_pairs(pairs).unwrap();
    assert_eq!(map.len(), 2);
    assert_eq!(map.get(&1), Some(&2));
    assert_eq!(map.get(&3), Some(&4));
}

#[test]
fn get_map_from_pairs_skips_self_pairs() {
    let pairs = vec!["5:5".to_string(), "1:2".to_string()];
    let map = get_map_from_pairs(pairs).unwrap();
    assert_eq!(map.len(), 1);
    assert_eq!(map.get(&1), Some(&2));
    assert_eq!(map.get(&5), None);
}

#[test]
fn get_map_from_pairs_rejects_conflicting_old_id() {
    let pairs = vec!["1:2".to_string(), "1:3".to_string()];
    match get_map_from_pairs(pairs) {
        Err(PairError::DuplicateOldId { id }) => assert_eq!(id, 1),
        other => panic!("expected a duplicate-old-id error, got {:?}", other),
    }
}

#[test]
fn get_map_from_pairs_tolerates_a_repeated_identical_pair() {
    let pairs = vec!["1:2".to_string(), "1:2".to_string()];
    let map = get_map_from_pairs(pairs).unwrap();
    assert_eq!(map.len(), 1);
    assert_eq!(map.get(&1), Some(&2));
}

#[test]
fn get_map_from_pairs_rejects_malformed_input() {
    let pairs = vec!["x".to_string()];
    assert!(matches!(get_map_from_pairs(pairs), Err(PairError::Format)));
}
