use sgcount::hamming::hamming_distance;
use sgcount::permutes::Permuter;

#[test]
fn permutes_build() {
    let sequences = vec![b"AC".to_vec(), b"CG".to_vec()];
    Permuter::new(&sequences);
}

#[test]
fn validate_singleton() {
    let sequences = vec![b"ACTG".to_vec()];
    let permuter = Permuter::new(&sequences);
    let truth: Vec<Vec<u8>> = vec![
        b"AATG", b"ACGG", b"ACAG", b"TCTG", b"ACNG", b"NCTG", b"ACTA", b"GCTG", b"AGTG", b"ACTC",
        b"ATTG", b"ANTG", b"ACCG", b"ACTT", b"CCTG", b"ACTN",
    ]
    .iter()
    .map(|s| s.to_vec())
    .collect();
    assert!(truth.iter().all(|x| permuter.contains(x).is_some()));
    assert!(truth.iter().all(|x| !permuter.is_null(x)));
    assert!(permuter.is_null(b"ACTG"));
    assert_eq!(permuter.null_len(), 1);
}

#[test]
fn validate_positive() {
    let sequences = vec![b"AC".to_vec(), b"CG".to_vec()];
    let permuter = Permuter::new(&sequences);

    let known_positives: Vec<Vec<u8>> = vec![
        b"GC", b"TC", b"NC", b"AA", b"AT", b"AN", b"CA", b"CT", b"CN", b"GG", b"TG", b"NG",
    ]
    .iter()
    .map(|s| s.to_vec())
    .collect();

    known_positives
        .iter()
        .for_each(|x| assert!(permuter.contains(x).is_some()));
    assert_eq!(permuter.len(), 12);

    known_positives
        .iter()
        .for_each(|x| assert!(!permuter.is_null(x)));
}

#[test]
fn validate_negative() {
    let sequences = vec![b"AC".to_vec(), b"CG".to_vec()];
    let permuter = Permuter::new(&sequences);

    let known_negatives: Vec<Vec<u8>> = vec![b"AG", b"CG", b"CC", b"AG"]
        .iter()
        .map(|s| s.to_vec())
        .collect();

    known_negatives
        .iter()
        .for_each(|x| assert!(permuter.is_null(x)));
    assert_eq!(permuter.null_len(), 4);

    known_negatives
        .iter()
        .for_each(|x| assert!(permuter.contains(x).is_none()));
}

#[test]
fn one_off_maps_to_its_parent() {
    let sequences = vec![b"AC".to_vec(), b"CG".to_vec()];
    let permuter = Permuter::new(&sequences);
    assert_eq!(permuter.contains(b"GC").unwrap(), b"AC");
    assert_eq!(permuter.contains(b"AN").unwrap(), b"AC");
    assert_eq!(permuter.contains(b"CA").unwrap(), b"CG");
    assert_eq!(permuter.contains(b"NG").unwrap(), b"CG");
    assert_eq!(permuter.contains(b"TT"), None);
}

#[test]
fn one_off_has_one_parent_at_distance_one() {
    let sequences = vec![b"ACTG".to_vec(), b"ACTT".to_vec(), b"GGGG".to_vec()];
    let permuter = Permuter::new(&sequences);
    let candidates: Vec<&[u8]> =
        vec![b"ACTA", b"ACTC", b"ACTN", b"CCTG", b"GGGA", b"AGGG", b"ACGG"];
    for candidate in candidates {
        let near: Vec<&Vec<u8>> = sequences
            .iter()
            .filter(|key| {
                hamming_distance(
                    std::str::from_utf8(key).unwrap(),
                    std::str::from_utf8(candidate).unwrap(),
                ) == 1
            })
            .collect();
        match permuter.contains(candidate) {
            Some(parent) => {
                assert_eq!(near.len(), 1);
                assert_eq!(near[0], parent);
            }
            None => assert_ne!(near.len(), 1),
        }
    }
}

#[test]
fn map_and_null_are_disjoint() {
    let sequences = vec![b"ACTG".to_vec(), b"ACTT".to_vec(), b"ACTC".to_vec()];
    let permuter = Permuter::new(&sequences);
    for key in sequences.iter() {
        assert!(permuter.is_null(key));
        assert!(permuter.contains(key).is_none());
    }
    assert!(permuter.is_null(b"ACTA"));
    assert!(permuter.contains(b"ACTA").is_none());
    assert!(permuter.is_null(b"ACTN"));
    assert_eq!(permuter.contains(b"GCTG").unwrap(), b"ACTG");
    assert!(!permuter.is_null(b"GCTG"));
}

#[test]
fn neighbouring_keys_are_no_one_offs() {
    let sequences = vec![b"AC".to_vec(), b"AG".to_vec()];
    let permuter = Permuter::new(&sequences);
    assert!(permuter.contains(b"AG").is_none());
    assert!(permuter.contains(b"AC").is_none());
    assert!(permuter.is_null(b"AC"));
    assert!(permuter.is_null(b"AG"));
    assert!(permuter.is_null(b"AA"));
    assert!(permuter.is_null(b"AT"));
    assert!(permuter.is_null(b"AN"));
    assert_eq!(permuter.contains(b"CC").unwrap(), b"AC");
    assert_eq!(permuter.contains(b"CG").unwrap(), b"AG");
    assert_eq!(permuter.len(), 8);
    assert_eq!(permuter.null_len(), 5);
}

#[test]
fn repeated_sequence_has_no_one_offs() {
    let sequences = vec![b"AC".to_vec(), b"AC".to_vec()];
    let permuter = Permuter::new(&sequences);
    assert_eq!(permuter.len(), 0);
    assert_eq!(permuter.null_len(), 9);
}

#[test]
fn no_sequences_give_an_empty_index() {
    let permuter = Permuter::new(&Vec::new());
    assert_eq!(permuter.len(), 0);
    assert_eq!(permuter.null_len(), 0);
}

#[test]
fn bytes_outside_the_lexicon_are_kept_but_never_put_in() {
    let sequences = vec![b"xA".to_vec(), b"yC".to_vec()];
    let permuter = Permuter::new(&sequences);
    assert_eq!(permuter.contains(b"xC").unwrap(), b"xA");
    assert_eq!(permuter.contains(b"yA").unwrap(), b"yC");
    assert_eq!(permuter.contains(b"AA").unwrap(), b"xA");
    assert!(permuter.contains(b"xy").is_none());
    assert!(permuter.contains(b"yy").is_none());
    assert_eq!(permuter.len(), 18);
    assert_eq!(permuter.null_len(), 2);
}
