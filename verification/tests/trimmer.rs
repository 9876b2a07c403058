use fxread::FastaReader;
use sgcount::library::Record;
use sgcount::trimmer::{TooShort, Trimmer};

fn trimmer_reader() -> Vec<Record> {
    FastaReader::new(&b">seq.0\nACTG\n"[..])
        .map(|record| Record::new(record.id().to_vec(), record.seq().to_vec()))
        .collect()
}

#[test]
fn trimmer_build() {
    let mut trimmer = Trimmer::from_reader(trimmer_reader(), 0, 2);
    let mut count = 0;
    while let Ok(Some(_)) = trimmer.next_record() {
        count += 1;
    }
    assert_eq!(count, 1);
}

#[test]
fn trim_no_offset() {
    let mut trimmer = Trimmer::from_reader(trimmer_reader(), 0, 2);
    let record = trimmer.next_record().unwrap().unwrap();
    assert_eq!(record.seq, b"AC");
}

#[test]
fn trim_with_offset() {
    let mut trimmer = Trimmer::from_reader(trimmer_reader(), 1, 2);
    let record = trimmer.next_record().unwrap().unwrap();
    assert_eq!(record.seq, b"CT");
}

#[test]
#[should_panic]
fn trim_with_oversize_offset() {
    let mut trimmer = Trimmer::from_reader(trimmer_reader(), 4, 2);
    trimmer.next_record().unwrap();
}

#[test]
#[should_panic]
fn trim_with_oversize_size() {
    let mut trimmer = Trimmer::from_reader(trimmer_reader(), 0, 5);
    trimmer.next_record().unwrap();
}

#[test]
fn trimmed_record_keeps_its_identifier() {
    let mut trimmer = Trimmer::from_reader(trimmer_reader(), 2, 2);
    let record = trimmer.next_record().unwrap().unwrap();
    assert_eq!(record.id, b"seq.0");
    assert_eq!(record.seq, b"TG");
    assert!(trimmer.next_record().unwrap().is_none());
    assert!(trimmer.next_record().unwrap().is_none());
}

#[test]
fn short_record_is_an_error_and_is_passed_over() {
    let records = vec![
        Record::new(b"short".to_vec(), b"AC".to_vec()),
        Record::new(b"long".to_vec(), b"ACTGA".to_vec()),
    ];
    let mut trimmer = Trimmer::from_reader(records, 1, 3);
    assert_eq!(trimmer.next_record().err(), Some(TooShort));
    assert_eq!(trimmer.next_record().unwrap().unwrap().seq, b"CTG");
    assert!(trimmer.next_record().unwrap().is_none());
}

#[test]
fn sequence_is_trimmed_to_the_window() {
    let trimmer = Trimmer::from_reader(Vec::new(), 1, 2);
    assert_eq!(trimmer.trim_sequence(b"ACTG"), Ok(b"CT".to_vec()));
    assert_eq!(trimmer.trim_sequence(b"ACT"), Ok(b"CT".to_vec()));
    assert_eq!(trimmer.trim_sequence(b"AC"), Err(TooShort));
    let far = Trimmer::from_reader(Vec::new(), usize::MAX, 2);
    assert_eq!(far.trim_sequence(b"ACTG"), Err(TooShort));
}
