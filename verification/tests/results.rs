use sgcount::counter::Counter;
use sgcount::genemap::GeneMap;
use sgcount::library::{Library, Record};
use sgcount::results::{append_count, append_gene, generate_columns, write_results};

fn build_counter() -> Counter {
    Counter::from_hashmap(vec![(b"gene1".to_vec(), 100), (b"gene2".to_vec(), 200)]).unwrap()
}

fn counter_of(pairs: &[(&[u8], usize)]) -> Counter {
    Counter::from_hashmap(pairs.iter().map(|(alias, count)| (alias.to_vec(), *count)).collect())
        .unwrap()
}

fn results_library(pairs: &[(&[u8], &[u8])]) -> Library {
    let records = pairs
        .iter()
        .map(|(sequence, alias)| Record::new(alias.to_vec(), sequence.to_vec()))
        .collect();
    Library::from_reader(records).unwrap()
}

fn build_library() -> Library {
    results_library(&[(b"ACTG", b"gene1"), (b"GTCA", b"gene2")])
}

fn build_gene_map() -> GeneMap {
    GeneMap::from_hashmap(vec![
        (b"gene1".to_vec(), b"GENE1".to_vec()),
        (b"gene2".to_vec(), b"GENE2".to_vec()),
    ])
}

fn sorted_lines(text: &[u8]) -> (String, Vec<String>) {
    let text = String::from_utf8(text.to_vec()).unwrap();
    assert!(text.ends_with('\n'));
    let mut lines = text[..text.len() - 1].split('\n').map(|line| line.to_string());
    let header = lines.next().unwrap();
    let mut rows: Vec<String> = lines.collect();
    rows.sort();
    (header, rows)
}

#[test]
fn test_generate_columns() {
    let names = vec!["A".to_string(), "B".to_string()];
    let genemap = None;
    let columns = generate_columns(&names, &genemap);
    assert_eq!(columns, b"Guide\tA\tB");
}

#[test]
fn test_write_results() {
    let results = vec![build_counter(), build_counter()];
    let library = build_library();
    let genemap = build_gene_map();
    let names = ["sample1".to_string(), "sample2".to_string()];

    let text = write_results(&results, &library, &names, &Some(genemap), true);
    let (header, rows) = sorted_lines(&text);
    assert_eq!(header, "Guide\tGene\tsample1\tsample2");
    assert_eq!(rows, vec!["gene1\tGENE1\t100\t100", "gene2\tGENE2\t200\t200"]);
}

#[test]
fn test_append_count() {
    let counter = build_counter();
    let mut accum = Vec::new();
    append_count(b"gene1", &counter, &mut accum);
    assert_eq!(accum, b"\t100");
}

#[test]
fn test_append_gene() {
    let genemap = build_gene_map();
    let mut accum = Vec::new();
    append_gene(b"gene1", &Some(genemap), 0, &mut accum);
    assert_eq!(accum, b"\tGENE1");
}

#[test]
fn gene_stands_before_the_first_count_only() {
    let genemap = Some(build_gene_map());
    let mut accum = b"gene2".to_vec();
    append_gene(b"gene2", &genemap, 1, &mut accum);
    assert_eq!(accum, b"gene2");
    append_gene(b"gene2", &None, 0, &mut accum);
    assert_eq!(accum, b"gene2");
    append_gene(b"gene2", &genemap, 0, &mut accum);
    assert_eq!(accum, b"gene2\tGENE2");
}

#[test]
fn columns_name_the_gene_if_there_is_a_gene_map() {
    let names = vec!["A".to_string(), "B".to_string()];
    assert_eq!(generate_columns(&names, &Some(build_gene_map())), b"Guide\tGene\tA\tB");
    assert_eq!(generate_columns(&[], &Some(build_gene_map())), b"Guide\tGene");
    assert_eq!(generate_columns(&[], &None), b"Guide");
    assert_eq!(
        generate_columns(&["gu\u{e9}".to_string()], &None),
        "Guide\tgu\u{e9}".as_bytes()
    );
}

#[test]
fn counts_are_written_in_decimal() {
    let counter = counter_of(&[(b"a", 0), (b"b", 9), (b"c", 10), (b"d", 1234567890)]);
    let largest = counter_of(&[(b"e", usize::MAX)]);
    let written = |alias: &[u8]| {
        let mut accum = Vec::new();
        append_count(alias, if alias == b"e" { &largest } else { &counter }, &mut accum);
        String::from_utf8(accum).unwrap()
    };
    assert_eq!(written(b"a"), "\t0");
    assert_eq!(written(b"b"), "\t9");
    assert_eq!(written(b"c"), "\t10");
    assert_eq!(written(b"d"), "\t1234567890");
    assert_eq!(written(b"e"), format!("\t{}", usize::MAX));
    assert_eq!(written(b"absent"), "\t0");
}

#[test]
fn gene_map_emission() {
    let library = results_library(&[(b"ACTG", b"sgrna1"), (b"GTCA", b"sgrna2")]);
    let genemap = Some(GeneMap::from_hashmap(vec![
        (b"sgrna1".to_vec(), b"g1".to_vec()),
        (b"sgrna2".to_vec(), b"g2".to_vec()),
    ]));
    let names = ["s1".to_string(), "s2".to_string()];

    let results = vec![
        counter_of(&[(b"sgrna1", 3), (b"sgrna2", 0)]),
        counter_of(&[(b"sgrna1", 1), (b"sgrna2", 2)]),
    ];
    let (header, rows) = sorted_lines(&write_results(&results, &library, &names, &genemap, true));
    assert_eq!(header, "Guide\tGene\ts1\ts2");
    assert_eq!(rows, vec!["sgrna1\tg1\t3\t1", "sgrna2\tg2\t0\t2"]);
    let (_, rows) = sorted_lines(&write_results(&results, &library, &names, &genemap, false));
    assert_eq!(rows, vec!["sgrna1\tg1\t3\t1", "sgrna2\tg2\t0\t2"]);

    let results = vec![
        counter_of(&[(b"sgrna1", 3), (b"sgrna2", 0)]),
        counter_of(&[(b"sgrna1", 1), (b"sgrna2", 0)]),
    ];
    let (_, rows) = sorted_lines(&write_results(&results, &library, &names, &genemap, true));
    assert_eq!(rows, vec!["sgrna1\tg1\t3\t1", "sgrna2\tg2\t0\t0"]);
    let (header, rows) = sorted_lines(&write_results(&results, &library, &names, &genemap, false));
    assert_eq!(header, "Guide\tGene\ts1\ts2");
    assert_eq!(rows, vec!["sgrna1\tg1\t3\t1"]);
}

#[test]
fn table_without_gene_map_has_no_gene_column() {
    let library = build_library();
    let results = vec![build_counter()];
    let text = write_results(&results, &library, &["only".to_string()], &None, false);
    let (header, rows) = sorted_lines(&text);
    assert_eq!(header, "Guide\tonly");
    assert_eq!(rows, vec!["gene1\t100", "gene2\t200"]);
}

#[test]
fn written_table_is_read_back() {
    let library = results_library(&[(b"AAAA", b"a"), (b"CCCC", b"b"), (b"GGGG", b"c")]);
    let results = vec![
        counter_of(&[(b"a", 5), (b"b", 0), (b"c", 12)]),
        counter_of(&[(b"a", 0), (b"c", 7)]),
        counter_of(&[(b"b", 0), (b"c", 1000)]),
    ];
    let names = ["x".to_string(), "y".to_string(), "z".to_string()];
    let text = String::from_utf8(write_results(&results, &library, &names, &None, true)).unwrap();
    let mut lines = text.lines();
    let header: Vec<&str> = lines.next().unwrap().split('\t').collect();
    assert_eq!(header, vec!["Guide", "x", "y", "z"]);
    let mut seen = 0;
    for line in lines {
        let fields: Vec<&str> = line.split('\t').collect();
        assert_eq!(fields.len(), 4);
        for (column, counter) in results.iter().enumerate() {
            let count: usize = fields[column + 1].parse().unwrap();
            assert_eq!(count, counter.get_value(fields[0].as_bytes()));
        }
        seen += 1;
    }
    assert_eq!(seen, 3);
}
