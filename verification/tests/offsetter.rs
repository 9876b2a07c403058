use fxread::FastaReader;
use sgcount::library::Record;
use sgcount::offsetter::{
    argmin, assign_offset, base_map, get_sequence_size, last_window, position_counts,
    InputShorterThanLibrary, Offset,
};

fn offsetter_records(text: &'static [u8]) -> Vec<Record> {
    FastaReader::new(text)
        .map(|record| Record::new(record.id().to_vec(), record.seq().to_vec()))
        .collect()
}

fn offsetter_reader() -> Vec<Record> {
    offsetter_records(b">seq.0\nACT\n>seq.1\nACC\n>seq.2\nACT\n")
}

fn difference_sum(counts: &[[usize; 4]], expected: &[[f64; 4]]) -> f64 {
    assert_eq!(counts.len(), expected.len());
    let mut sum = 0.;
    for (row, expected_row) in counts.iter().zip(expected.iter()) {
        for (count, expected_count) in row.iter().zip(expected_row.iter()) {
            sum += *count as f64 - expected_count;
        }
    }
    sum
}

fn offset_reader() -> Vec<Record> {
    offsetter_records(b">seq.0\nAACAAACT\n>seq.1\nAACAAACC\n>seq.2\nAACAAACT\n")
}

fn rc_offset_reader() -> Vec<Record> {
    offsetter_records(b">seq.0\nAGTTTGTT\n>seq.1\nGGTTTGTT\n>seq.2\nAGTTTGTT\n")
}

fn positional_entropy(records: &[Record]) -> Vec<f64> {
    position_counts(records)
        .iter()
        .map(|row| {
            let sum: f64 = row.iter().map(|count| *count as f64).sum();
            row.iter()
                .map(|count| *count as f64 / sum)
                .filter(|share| *share > 0.)
                .map(|share| -share * share.ln())
                .sum()
        })
        .collect()
}

fn linspace(start: f64, end: f64, n: usize) -> Vec<f64> {
    (0..n)
        .map(|i| start + (end - start) * i as f64 / (n - 1) as f64)
        .collect()
}

fn windowed_mse(reference: &[f64], comparison: &[f64], last: usize) -> Vec<u64> {
    (0..last + 1)
        .map(|start| {
            let sum: f64 = reference
                .iter()
                .zip(comparison[start..].iter())
                .map(|(x, y)| (x - y) * (x - y))
                .sum();
            (sum / reference.len() as f64).to_bits()
        })
        .collect()
}

fn minimize_mse(
    reference: &[f64],
    comparison: &[f64],
) -> Result<Offset, InputShorterThanLibrary> {
    let last = last_window(reference.len(), comparison.len())?;
    let reversed: Vec<f64> = comparison.iter().rev().copied().collect();
    Ok(assign_offset(
        &windowed_mse(reference, comparison, last),
        &windowed_mse(reference, &reversed, last),
    ))
}

fn offsetter_reader_with_n() -> Vec<Record> {
    offsetter_records(b">seq.0\nACT\n>seq.1\nACC\n>seq.2\nACT\n>seq.3\nACN\n")
}

#[test]
fn minimization() {
    let arr = linspace(0., 10., 11);
    let brr = linspace(10., 20., 100);
    match minimize_mse(&arr, &brr).unwrap() {
        Offset::Forward(x) => assert_eq!(x, 0),
        Offset::Reverse(_) => assert!(false),
    }
}

#[test]
fn undersized_minimization() {
    let arr = linspace(0., 10., 11);
    let brr = linspace(10., 20., 5);
    assert!(minimize_mse(&arr, &brr).is_err());
}

#[test]
fn offset() {
    let reference_entropy = positional_entropy(&offsetter_reader());
    let comparison_entropy = positional_entropy(&offset_reader());
    let index = match minimize_mse(&reference_entropy, &comparison_entropy).unwrap() {
        Offset::Forward(x) => x,
        Offset::Reverse(_) => panic!("Unexpected reverse"),
    };
    assert_eq!(index, 5);
}

#[test]
fn rc_offset() {
    let reference_entropy = positional_entropy(&offsetter_reader());
    let comparison_entropy = positional_entropy(&rc_offset_reader());
    let index = match minimize_mse(&reference_entropy, &comparison_entropy).unwrap() {
        Offset::Forward(_) => panic!("Unexpected forward"),
        Offset::Reverse(x) => x,
    };
    assert_eq!(index, 5);
}

#[test]
fn smallest_error_chooses_the_offset() {
    assert_eq!(assign_offset(&[5, 3, 9], &[4, 8]), Offset::Forward(1));
    assert_eq!(assign_offset(&[5, 3, 9], &[4, 2]), Offset::Reverse(1));
    assert_eq!(assign_offset(&[7], &[7]), Offset::Forward(0));
    assert_eq!(assign_offset(&[2, 1, 1], &[1, 1]), Offset::Forward(1));
    assert_eq!(assign_offset(&[2, 2], &[1, 0, 0]), Offset::Reverse(1));
}

#[test]
fn windows_fit_into_the_reads() {
    assert_eq!(last_window(3, 8), Ok(5));
    assert_eq!(last_window(8, 8), Ok(0));
    assert_eq!(last_window(0, 0), Ok(0));
    assert_eq!(last_window(9, 8), Err(InputShorterThanLibrary));
}

#[test]
fn first_of_the_smallest_values_is_found() {
    assert_eq!(argmin(&[3]), 0);
    assert_eq!(argmin(&[3, 1, 2, 1]), 1);
    assert_eq!(argmin(&[0, 0, 0]), 0);
    assert_eq!(argmin(&[9, 8, 7]), 2);
}

#[test]
fn sequence_size() {
    let reader = offsetter_reader();
    let size = get_sequence_size(&reader).unwrap();
    assert_eq!(size, 3);
    assert_eq!(reader[1..].len(), 2);
}

#[test]
fn positional_counts() {
    let posmat = position_counts(&offsetter_reader());
    let expected = [
        [3.0, 0.0, 0.0, 0.0],
        [0.0, 3.0, 0.0, 0.0],
        [0.0, 1.0, 0.0, 2.0],
    ];
    assert_eq!(difference_sum(&posmat, &expected), 0.);
    assert_eq!(posmat, vec![[3, 0, 0, 0], [0, 3, 0, 0], [0, 1, 0, 2]]);
}

#[test]
fn test_offset_enum() {
    let offset = Offset::Forward(5);
    assert_eq!(offset.index(), &5);
    assert_eq!(offset.is_forward(), true);
    assert_eq!(offset.is_reverse(), false);
    let offset = Offset::Reverse(5);
    assert_eq!(offset.index(), &5);
    assert_eq!(offset.is_forward(), false);
    assert_eq!(offset.is_reverse(), true);
}

#[test]
fn test_base_map() {
    assert_eq!(base_map(b'A'), Some(0));
    assert_eq!(base_map(b'C'), Some(1));
    assert_eq!(base_map(b'G'), Some(2));
    assert_eq!(base_map(b'T'), Some(3));
    assert_eq!(base_map(b'N'), None);
    assert_eq!(base_map(b'X'), None);
}

#[test]
fn test_position_counts_with_n() {
    let posmat = position_counts(&offsetter_reader_with_n());
    let expected = [
        [4.0, 0.0, 0.0, 0.0],
        [0.0, 4.0, 0.0, 0.0],
        [1.0, 2.0, 1.0, 3.0],
    ];
    assert_eq!(difference_sum(&posmat, &expected), 0.);
    assert_eq!(posmat, vec![[4, 0, 0, 0], [0, 4, 0, 0], [1, 2, 1, 3]]);
}

#[test]
fn unknown_base_counts_for_every_column() {
    let posmat = position_counts(&offsetter_reader_with_n());
    assert_eq!(posmat[2], [1, 2, 1, 3]);
    let alone = position_counts(&offsetter_records(b">a\nNX\n"));
    assert_eq!(alone, vec![[1, 1, 1, 1], [1, 1, 1, 1]]);
}

#[test]
fn no_records_have_no_size_and_no_counts() {
    let records: Vec<Record> = Vec::new();
    assert_eq!(get_sequence_size(&records), None);
    assert!(position_counts(&records).is_empty());
}

#[test]
fn first_record_gives_the_width_and_is_counted() {
    let counts = position_counts(&offsetter_records(b">a\nACGT\n"));
    assert_eq!(counts, vec![[1, 0, 0, 0], [0, 1, 0, 0], [0, 0, 1, 0], [0, 0, 0, 1]]);
}

#[test]
fn shorter_and_longer_records_are_counted_within_the_width() {
    let counts = position_counts(&offsetter_records(b">a\nACG\n>b\nT\n>c\nGGGGG\n"));
    assert_eq!(counts, vec![[1, 0, 1, 1], [0, 1, 1, 0], [0, 0, 2, 0]]);
}

#[test]
fn reverse_reads_are_counted_position_by_position() {
    let counts = position_counts(&rc_offset_reader());
    assert_eq!(
        counts,
        vec![
            [2, 0, 1, 0],
            [0, 0, 3, 0],
            [0, 0, 0, 3],
            [0, 0, 0, 3],
            [0, 0, 0, 3],
            [0, 0, 3, 0],
            [0, 0, 0, 3],
            [0, 0, 0, 3],
        ]
    );
}
