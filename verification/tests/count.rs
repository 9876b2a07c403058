use fxread::FastaReader;
use sgcount::count::{count, generate_permutations, validate_library_size, CountError};
use sgcount::genemap::GeneMap;
use sgcount::library::{Library, LibraryError, Record};
use sgcount::offsetter::Offset;

fn count_records(text: &[u8]) -> Vec<Record> {
    FastaReader::new(text)
        .map(|record| Record::new(record.id().to_vec(), record.seq().to_vec()))
        .collect()
}

fn text_of(result: Result<Vec<u8>, CountError>) -> String {
    String::from_utf8(result.unwrap()).unwrap()
}

#[test]
fn exact_single_sample_table() {
    let result = count(
        count_records(b">seq.0\nACTG\n"),
        &vec![count_records(b">r\nACTG\n")],
        &["sample".to_string()],
        &vec![Offset::Forward(0)],
        true,
        &None,
        true,
        false,
    );
    assert_eq!(text_of(result), "Guide\tsample\nseq.0\t1\n");
}

#[test]
fn one_off_reads_are_counted_unless_exact() {
    let library = b">s0\nAC\n>s1\nCG\n";
    let sample = b">a\nAC\n>b\nCG\n>c\nGC\n>d\nCC\n";
    let run = |exact: bool| {
        let text = text_of(count(
            count_records(library),
            &vec![count_records(sample)],
            &["reads".to_string()],
            &vec![Offset::Forward(0)],
            exact,
            &None,
            false,
            true,
        ));
        let mut lines: Vec<String> = text.lines().map(|line| line.to_string()).collect();
        lines.sort();
        lines
    };
    assert_eq!(run(false), vec!["Guide\treads", "s0\t2", "s1\t1"]);
    assert_eq!(run(true), vec!["Guide\treads", "s0\t1", "s1\t1"]);
}

#[test]
fn each_sample_has_its_offset_and_its_column() {
    let text = text_of(count(
        count_records(b">g\nACTG\n"),
        &vec![
            count_records(b">a\nACTGTT\n>b\nACTGAA\n"),
            count_records(b">a\nAACAGT\n"),
            Vec::new(),
        ],
        &["first".to_string(), "second".to_string(), "third".to_string()],
        &vec![Offset::Forward(0), Offset::Reverse(0), Offset::Forward(0)],
        true,
        &None,
        false,
        false,
    ));
    assert_eq!(text, "Guide\tfirst\tsecond\tthird\ng\t2\t1\t0\n");
}

#[test]
fn duplicate_library_is_rejected() {
    let result = count(
        count_records(b">seq.0\nACTG\n>seq.1\nACTG\n"),
        &vec![count_records(b">r\nACTG\n")],
        &["sample".to_string()],
        &vec![Offset::Forward(0)],
        true,
        &None,
        true,
        false,
    );
    assert_eq!(result, Err(CountError::LibraryInvalid(LibraryError::DuplicateKey)));
}

#[test]
fn names_and_offsets_must_match_the_samples() {
    let run = |names: &[String], offsets: Vec<Offset>| {
        count(
            count_records(b">seq.0\nACTG\n>seq.1\nACTG\n"),
            &vec![count_records(b">r\nACTG\n")],
            names,
            &offsets,
            true,
            &None,
            true,
            false,
        )
    };
    assert_eq!(run(&[], vec![Offset::Forward(0)]), Err(CountError::ArgumentInvalid));
    assert_eq!(run(&["a".to_string()], Vec::new()), Err(CountError::ArgumentInvalid));
}

#[test]
fn gene_map_must_cover_the_library() {
    let genemap = Some(GeneMap::new_from_buffer(b"gene\tother\n").unwrap());
    let result = count(
        count_records(b">seq.0\nACTG\n"),
        &vec![count_records(b">r\nACTG\n")],
        &["sample".to_string()],
        &vec![Offset::Forward(0)],
        true,
        &genemap,
        true,
        false,
    );
    assert_eq!(result, Err(CountError::GeneMapInvalid));
}

#[test]
fn first_read_must_not_be_shorter_than_the_guides() {
    let result = count(
        count_records(b">seq.0\nACTG\n"),
        &vec![count_records(b">r\nACTGA\n"), count_records(b">r\nACT\n>s\nACTG\n")],
        &["a".to_string(), "b".to_string()],
        &vec![Offset::Forward(0), Offset::Forward(0)],
        true,
        &None,
        true,
        false,
    );
    assert_eq!(result, Err(CountError::InputShorterThanLibrary));
}

#[test]
fn table_names_the_genes() {
    let genemap = Some(GeneMap::new_from_buffer(b"gene\tseq.0\n").unwrap());
    let text = text_of(count(
        count_records(b">seq.0\nACTG\n"),
        &vec![count_records(b">r\nTTTT\n")],
        &["sample".to_string()],
        &vec![Offset::Forward(0)],
        false,
        &genemap,
        true,
        true,
    ));
    assert_eq!(text, "Guide\tGene\tsample\nseq.0\tgene\t0\n");
}

#[test]
fn library_size_is_held_against_the_reads() {
    let library = Library::from_reader(count_records(b">seq.0\nACTG\n")).unwrap();
    assert!(validate_library_size(&library, &[4, 5, 100]));
    assert!(validate_library_size(&library, &[]));
    assert!(!validate_library_size(&library, &[4, 3]));
}

#[test]
fn permutations_are_those_of_the_library_keys() {
    let library = Library::from_reader(count_records(b">s0\nAC\n>s1\nCG\n")).unwrap();
    let permuter = generate_permutations(&library);
    assert_eq!(permuter.len(), 12);
    assert_eq!(permuter.null_len(), 4);
    assert_eq!(permuter.contains(b"GC").unwrap(), b"AC");
}
