use fxread::FastaReader;
use sgcount::library::{Library, LibraryError, Record};

fn library_records(text: &'static [u8]) -> Vec<Record> {
    FastaReader::new(text)
        .map(|record| Record::new(record.id().to_vec(), record.seq().to_vec()))
        .collect()
}

fn library_reader() -> Vec<Record> {
    library_records(b">seq.0\nACTG\n")
}

fn library_duplicate_reader() -> Vec<Record> {
    library_records(b">seq.0\nACTG\n>seq.1\nACTG\n")
}

#[test]
fn library_build() {
    let library = Library::from_reader(library_reader()).unwrap();
    assert_eq!(library.size(), 4);
    assert_eq!(library.keys().len(), 1);
}

#[test]
fn validate_contains() {
    let library = Library::from_reader(library_reader()).unwrap();
    assert_eq!(library.contains(b"ACTG").unwrap(), b"seq.0");
    assert_eq!(library.contains(b"ACTT"), None);
}

#[test]
#[should_panic]
fn duplicates() {
    Library::from_reader(library_duplicate_reader()).unwrap();
}

#[test]
fn duplicate_sequence_is_rejected() {
    let result = Library::from_reader(library_duplicate_reader());
    assert_eq!(result.err(), Some(LibraryError::DuplicateKey));
}

#[test]
fn duplicate_is_found_before_sizes_are_compared() {
    let records = library_records(b">a\nACTG\n>b\nAC\n>c\nACTG\n");
    assert_eq!(Library::from_reader(records).err(), Some(LibraryError::DuplicateKey));
}

#[test]
fn inconsistent_sizes_are_rejected() {
    let records = library_records(b">a\nACTG\n>b\nACT\n");
    assert_eq!(Library::from_reader(records).err(), Some(LibraryError::InconsistentSize));
}

#[test]
fn empty_library_is_rejected() {
    assert_eq!(Library::from_reader(Vec::new()).err(), Some(LibraryError::Empty));
}

#[test]
fn empty_guide_is_rejected() {
    let records = vec![Record::new(b"a".to_vec(), Vec::new())];
    assert_eq!(Library::from_reader(records).err(), Some(LibraryError::Empty));
}

#[test]
fn alias_is_looked_up_directly() {
    let library = Library::from_reader(library_records(b">a\nACTG\n>b\nGGGG\n")).unwrap();
    assert_eq!(library.alias(b"GGGG").unwrap(), b"b");
    assert_eq!(library.alias(b"ACTG").unwrap(), b"a");
    assert_eq!(library.alias(b"TTTT"), None);
}

#[test]
fn keys_have_the_size_of_the_library() {
    let library =
        Library::from_reader(library_records(b">a\nACTG\n>b\nGGGG\n>c\nTTTT\n")).unwrap();
    let mut keys = library.keys();
    keys.sort();
    assert_eq!(keys, vec![b"ACTG".to_vec(), b"GGGG".to_vec(), b"TTTT".to_vec()]);
    assert!(keys.iter().all(|key| key.len() == library.size()));
    let mut values = library.values();
    values.sort();
    assert_eq!(values, vec![b"a".to_vec(), b"b".to_vec(), b"c".to_vec()]);
}

#[test]
fn record_is_cloned_with_its_parts() {
    let record = Record::new(b"seq.0".to_vec(), b"ACTG".to_vec());
    let copy = record.clone();
    assert_eq!(copy.id, record.id);
    assert_eq!(copy.seq, record.seq);
}
