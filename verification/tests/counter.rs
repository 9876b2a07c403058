use fxread::FastaReader;
use sgcount::counter::Counter;
use sgcount::library::{Library, Record};
use sgcount::offsetter::Offset;
use sgcount::permutes::Permuter;

fn counter_records(text: &[u8]) -> Vec<Record> {
    FastaReader::new(text)
        .map(|record| Record::new(record.id().to_vec(), record.seq().to_vec()))
        .collect()
}

fn reads(sequences: &[&[u8]]) -> Vec<Record> {
    sequences
        .iter()
        .map(|sequence| Record::new(b"read".to_vec(), sequence.to_vec()))
        .collect()
}

fn trim_reader(distance: bool) -> Vec<Record> {
    let sequence: &'static [u8] = match distance {
        false => b">seq.0\nACTG\n",
        true => b">seq.0\nAGTG\n",
    };
    counter_records(sequence)
}

fn lib_reader() -> Vec<Record> {
    counter_records(b">seq.0\nACTG\n")
}

fn counter_library() -> Library {
    Library::from_reader(lib_reader()).unwrap()
}

fn counter_permuter() -> Permuter {
    Permuter::new(&counter_library().keys())
}

fn two_guides() -> Library {
    Library::from_reader(counter_records(b">s0\nAC\n>s1\nCG\n")).unwrap()
}

#[test]
fn count_no_distance_no_permute() {
    let library = counter_library();
    let count = Counter::new(&trim_reader(false), &library, &None, Offset::Forward(0), 4, false);
    assert_eq!(count.get_value(b"seq.0"), 1);
}

#[test]
fn count_no_distance_with_permute() {
    let library = counter_library();
    let count = Counter::new(&trim_reader(true), &library, &None, Offset::Forward(0), 4, false);
    assert_eq!(count.get_value(b"seq.0"), 0);
}

#[test]
fn count_with_distance_no_permute() {
    let library = counter_library();
    let count = Counter::new(&trim_reader(true), &library, &None, Offset::Forward(0), 4, false);
    assert_eq!(count.get_value(b"seq.0"), 0);
}

#[test]
fn count_with_distance_with_permute() {
    let library = counter_library();
    let permuter = counter_permuter();
    let count = Counter::new(
        &trim_reader(true),
        &library,
        &Some(permuter),
        Offset::Forward(0),
        4,
        false,
    );
    assert_eq!(count.get_value(b"seq.0"), 1);
}

#[test]
fn exact_single_sample_count() {
    let library = counter_library();
    let count = Counter::new(
        &counter_records(b">r\nACTG\n"),
        &library,
        &None,
        Offset::Forward(0),
        library.size(),
        true,
    );
    assert_eq!(count.get_value(b"seq.0"), 1);
    assert_eq!(count.total_reads(), 1);
    assert_eq!(count.matched_reads(), 1);
    assert_eq!(count.unmatched_reads(), 0);
}

#[test]
fn one_off_is_disambiguated() {
    let library = two_guides();
    let permuter = Some(Permuter::new(&library.keys()));
    let count = Counter::new(
        &reads(&[b"AC", b"CG", b"GC", b"CC"]),
        &library,
        &permuter,
        Offset::Forward(0),
        2,
        false,
    );
    assert_eq!(count.get_value(b"s0"), 2);
    assert_eq!(count.get_value(b"s1"), 1);
    assert_eq!(count.total_reads(), 4);
    assert_eq!(count.matched_reads(), 3);
    assert_eq!(count.unmatched_reads(), 1);
}

#[test]
fn each_read_is_credited_on_its_own() {
    let library = two_guides();
    let permuter = Some(Permuter::new(&library.keys()));
    let credit = |read: &[u8]| {
        let mut counter = Counter::empty();
        counter.update(read, &library, &permuter, Offset::Forward(0), 2, false);
        (counter.get_value(b"s0"), counter.get_value(b"s1"), counter.matched_reads())
    };
    assert_eq!(credit(b"AC"), (1, 0, 1));
    assert_eq!(credit(b"CG"), (0, 1, 1));
    assert_eq!(credit(b"GC"), (1, 0, 1));
    assert_eq!(credit(b"CC"), (0, 0, 0));
}

#[test]
fn position_recursion_tries_one_base_earlier() {
    let library = counter_library();
    let with = Counter::new(&reads(&[b"ACTGX"]), &library, &None, Offset::Forward(1), 4, true);
    assert_eq!(with.get_value(b"seq.0"), 1);
    assert_eq!(with.matched_reads(), 1);
    let without = Counter::new(&reads(&[b"ACTGX"]), &library, &None, Offset::Forward(1), 4, false);
    assert_eq!(without.get_value(b"seq.0"), 0);
    assert_eq!(without.matched_reads(), 0);
    assert_eq!(without.total_reads(), 1);
}

#[test]
fn position_recursion_is_not_needed_for_a_hit() {
    let library = counter_library();
    let count = Counter::new(&reads(&[b"XACTG"]), &library, &None, Offset::Forward(1), 4, true);
    assert_eq!(count.get_value(b"seq.0"), 1);
}

#[test]
fn position_recursion_tries_one_base_later() {
    let library = counter_library();
    let with = Counter::new(&reads(&[b"XXACTG"]), &library, &None, Offset::Forward(1), 4, true);
    assert_eq!(with.get_value(b"seq.0"), 1);
    let far = Counter::new(&reads(&[b"XXXACTG"]), &library, &None, Offset::Forward(1), 4, true);
    assert_eq!(far.get_value(b"seq.0"), 0);
}

#[test]
fn earlier_base_wins_over_later_base() {
    let library = Library::from_reader(counter_records(b">early\nAAC\n>late\nCCC\n")).unwrap();
    let count = Counter::new(&reads(&[b"AACCC"]), &library, &None, Offset::Forward(1), 3, true);
    assert_eq!(count.get_value(b"early"), 1);
    assert_eq!(count.get_value(b"late"), 0);
}

#[test]
fn position_recursion_does_not_ask_the_index() {
    let library = counter_library();
    let permuter = Some(counter_permuter());
    let count = Counter::new(&reads(&[b"AGTGX"]), &library, &permuter, Offset::Forward(1), 4, true);
    assert_eq!(count.get_value(b"seq.0"), 0);
    let direct =
        Counter::new(&reads(&[b"XAGTG"]), &library, &permuter, Offset::Forward(1), 4, true);
    assert_eq!(direct.get_value(b"seq.0"), 1);
}

#[test]
fn short_read_is_unmatched() {
    let library = counter_library();
    let count = Counter::new(
        &reads(&[b"ACT", b"", b"ACTG", b"XACT"]),
        &library,
        &None,
        Offset::Forward(1),
        4,
        true,
    );
    assert_eq!(count.total_reads(), 4);
    assert_eq!(count.matched_reads(), 0);
    assert_eq!(count.unmatched_reads(), 4);
}

#[test]
fn reverse_offset_matches_the_reverse_complement() {
    let library = counter_library();
    let count = Counter::new(
        &reads(&[b"CAGTNN", b"NNACTG"]),
        &library,
        &None,
        Offset::Reverse(2),
        4,
        false,
    );
    assert_eq!(count.get_value(b"seq.0"), 1);
    assert_eq!(count.total_reads(), 2);
    assert_eq!(count.matched_reads(), 1);
}

#[test]
fn reads_seen_are_those_matched_and_those_unmatched() {
    let library = two_guides();
    let permuter = Some(Permuter::new(&library.keys()));
    let count = Counter::new(
        &reads(&[b"AC", b"TT", b"CG", b"CG", b"NG", b"CC", b"A", b"ACG"]),
        &library,
        &permuter,
        Offset::Forward(0),
        2,
        true,
    );
    assert_eq!(count.total_reads(), 8);
    assert_eq!(count.total_reads(), count.matched_reads() + count.unmatched_reads());
    assert_eq!(count.matched_reads(), count.get_value(b"s0") + count.get_value(b"s1"));
    assert_eq!(count.get_value(b"s0"), 2);
    assert_eq!(count.get_value(b"s1"), 3);
    assert_eq!(count.get_value(b"s2"), 0);
}

#[test]
fn counter_from_pairs_adds_its_counts_up() {
    let counter = Counter::from_hashmap(vec![(b"gene1".to_vec(), 100), (b"gene2".to_vec(), 200)])
        .unwrap();
    assert_eq!(counter.get_value(b"gene1"), 100);
    assert_eq!(counter.get_value(b"gene2"), 200);
    assert_eq!(counter.get_value(b"gene3"), 0);
    assert_eq!(counter.matched_reads(), 300);
    assert_eq!(counter.total_reads(), 300);
    let replaced =
        Counter::from_hashmap(vec![(b"a".to_vec(), 7), (b"b".to_vec(), 1), (b"a".to_vec(), 2)])
            .unwrap();
    assert_eq!(replaced.get_value(b"a"), 2);
    assert_eq!(replaced.matched_reads(), 3);
}

#[test]
fn counter_from_pairs_must_fit() {
    assert!(Counter::from_hashmap(vec![(b"a".to_vec(), usize::MAX), (b"b".to_vec(), 1)]).is_none());
    assert!(Counter::from_hashmap(vec![(b"a".to_vec(), usize::MAX), (b"a".to_vec(), 1)]).is_some());
}
