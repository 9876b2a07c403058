use sgcount::utils::{generate_sample_names, vec_to_nuc, InvalidUtf8};

#[test]
fn test_sample_names() {
    let paths = [
        "example/some_name_1.fastq.gz",
        "example/some_name_2.fastq",
        "example/some_name_3.fasta.gz",
        "example/some_name_4.fasta",
        "example/some_name_5.fq.gz",
        "example/some_name_6.fq",
        "example/some_name_7.fa.gz",
        "example/some_name_8.fa",
    ]
    .into_iter()
    .map(|x| x.to_string())
    .collect::<Vec<String>>();
    let names = generate_sample_names(&paths);
    let expected = vec![
        "some_name_1",
        "some_name_2",
        "some_name_3",
        "some_name_4",
        "some_name_5",
        "some_name_6",
        "some_name_7",
        "some_name_8",
    ];
    assert_eq!(names, expected);
}

#[test]
fn test_sample_names_duplicates() {
    let paths = [
        "example/some_name_1.fastq.gz",
        "example/some_name_1.fastq",
        "example/some_name_3.fasta.gz",
        "example/some_name_4.fasta",
        "example/some_name_5.fq.gz",
        "example/some_name_6.fq",
        "example/some_name_7.fa.gz",
        "example/some_name_8.fa",
    ]
    .into_iter()
    .map(|x| x.to_string())
    .collect::<Vec<String>>();
    let names = generate_sample_names(&paths);
    let expected = vec![
        "Sample.0", "Sample.1", "Sample.2", "Sample.3", "Sample.4", "Sample.5", "Sample.6",
        "Sample.7",
    ];
    assert_eq!(names, expected);
}

#[test]
fn sample_names_of_many_paths_are_numbered_in_decimal() {
    let paths: Vec<String> = (0..12).map(|_| "same.fq".to_string()).collect();
    let names = generate_sample_names(&paths);
    assert_eq!(names[9], "Sample.9");
    assert_eq!(names[10], "Sample.10");
    assert_eq!(names[11], "Sample.11");
}

#[test]
fn sample_name_is_what_stands_after_the_last_slash() {
    let paths = vec![
        "/a/b/c.d/reads.fq.gz.gz".to_string(),
        "plain".to_string(),
        "dir/".to_string(),
    ];
    let names = generate_sample_names(&paths);
    assert_eq!(names, vec!["reads", "plain", ""]);
}

#[test]
fn endings_are_taken_off_in_their_order() {
    let paths = vec![
        "a.fa.fq".to_string(),
        "b.fq.fa".to_string(),
        "c.fasta.fasta".to_string(),
        "d.gz.fastq".to_string(),
        "e.fa\u{e9}.fq".to_string(),
    ];
    let names = generate_sample_names(&paths);
    assert_eq!(names, vec!["a.fa", "b", "c", "d.gz", "e.fa\u{e9}"]);
}

#[test]
fn no_paths_give_no_names() {
    assert!(generate_sample_names(&[]).is_empty());
}

#[test]
fn bytes_are_read_as_text() {
    assert_eq!(vec_to_nuc(b"ACTG"), Ok("ACTG".to_string()));
    assert_eq!(vec_to_nuc(b""), Ok(String::new()));
    assert_eq!(vec_to_nuc("gu\u{e9}".as_bytes()), Ok("gu\u{e9}".to_string()));
    assert_eq!(vec_to_nuc(&[0x41, 0xff]), Err(InvalidUtf8));
}
