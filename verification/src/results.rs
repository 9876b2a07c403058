//! The table of results: one row for each guide, one column for each sample.
//!
//! The table is text of tab-separated fields. Its first line names the
//! columns: `Guide`, then `Gene` if there is a gene map, then the samples.
//! Each further line gives the alias of a guide, its gene if there is a gene
//! map, and its count in each sample, written in decimal digits.

use crate::counter::Counter;
use crate::genemap::{misses, GeneMap};
use crate::library::{lists_values, lists_values_by, views, Library};
use crate::lines::{LINE_FEED, TAB};
use crate::tsv::{
    append_decimal, decimal, is_field, is_table, joined, lemma_decimal_round_trip,
    lemma_joined_push, lemma_round_trip, parsed, rendered, value_of,
};
use vstd::prelude::*;
use vstd::slice::slice_to_vec;
use vstd::utf8::encode_utf8;

verus! {

/// The name of the first column: `Guide`.
pub open spec fn guide_title() -> Seq<u8> {
    seq![0x47u8, 0x75u8, 0x69u8, 0x64u8, 0x65u8]
}

/// The name of the column of genes: `Gene`.
pub open spec fn gene_title() -> Seq<u8> {
    seq![0x47u8, 0x65u8, 0x6eu8, 0x65u8]
}

/// The names of the samples as bytes.
pub open spec fn name_bytes(names: Seq<String>) -> Seq<Seq<u8>> {
    Seq::new(names.len(), |i: int| encode_utf8(names[i]@))
}

/// The fields of the first line of the table.
pub open spec fn header_fields(names: Seq<Seq<u8>>, with_gene: bool) -> Seq<Seq<u8>> {
    if with_gene {
        seq![guide_title(), gene_title()] + names
    } else {
        seq![guide_title()] + names
    }
}

/// The counts of an alias in the samples, each in decimal digits.
pub open spec fn count_fields(alias: Seq<u8>, counters: Seq<Counter>) -> Seq<Seq<u8>> {
    Seq::new(counters.len(), |j: int| decimal(counters[j].count(alias)))
}

/// The fields of the line of one alias.
pub open spec fn row_fields(
    alias: Seq<u8>,
    genes: Option<Map<Seq<u8>, Seq<u8>>>,
    counters: Seq<Counter>,
) -> Seq<Seq<u8>> {
    match genes {
        Some(g) => seq![alias, g[alias]] + count_fields(alias, counters),
        None => seq![alias] + count_fields(alias, counters),
    }
}

/// The alias has the count 0 in every sample.
pub open spec fn all_zero(alias: Seq<u8>, counters: Seq<Counter>) -> bool {
    forall|j: int| 0 <= j < counters.len() ==> (#[trigger] counters[j]).count(alias) == 0
}

/// The alias has a line in the table: all aliases have one if
/// `include_zero` is set, else those with a count other than 0 in a sample.
pub open spec fn is_kept(alias: Seq<u8>, counters: Seq<Counter>, include_zero: bool) -> bool {
    include_zero || !all_zero(alias, counters)
}

/// The lines of the aliases that are kept, in the order of `aliases`.
pub open spec fn body_rows(
    aliases: Seq<Seq<u8>>,
    genes: Option<Map<Seq<u8>, Seq<u8>>>,
    counters: Seq<Counter>,
    include_zero: bool,
) -> Seq<Seq<Seq<u8>>>
    decreases aliases.len(),
{
    if aliases.len() == 0 {
        Seq::empty()
    } else if is_kept(aliases.last(), counters, include_zero) {
        body_rows(aliases.drop_last(), genes, counters, include_zero).push(
            row_fields(aliases.last(), genes, counters),
        )
    } else {
        body_rows(aliases.drop_last(), genes, counters, include_zero)
    }
}

/// The table of results, line by line and field by field.
pub open spec fn table_of(
    names: Seq<Seq<u8>>,
    aliases: Seq<Seq<u8>>,
    genes: Option<Map<Seq<u8>, Seq<u8>>>,
    counters: Seq<Counter>,
    include_zero: bool,
) -> Seq<Seq<Seq<u8>>> {
    seq![header_fields(names, genes is Some)] + body_rows(aliases, genes, counters, include_zero)
}

/// The map of a gene map, if there is a gene map.
pub open spec fn genes_of(genemap: Option<GeneMap>) -> Option<Map<Seq<u8>, Seq<u8>>> {
    match genemap {
        Some(g) => Some(g@),
        None => None,
    }
}

/// The fields are those of the line of an alias that is kept.
pub open spec fn is_row_of(
    fields: Seq<Seq<u8>>,
    aliases: Seq<Seq<u8>>,
    genes: Option<Map<Seq<u8>, Seq<u8>>>,
    counters: Seq<Counter>,
    include_zero: bool,
) -> bool {
    exists|i: int|
        0 <= i < aliases.len() && is_kept(aliases[i], counters, include_zero) && fields
            == row_fields(#[trigger] aliases[i], genes, counters)
}

/// Every line of the aliases is the line of an alias that is kept, and
/// every alias that is kept has its line.
pub proof fn lemma_body_rows(
    aliases: Seq<Seq<u8>>,
    genes: Option<Map<Seq<u8>, Seq<u8>>>,
    counters: Seq<Counter>,
    include_zero: bool,
)
    ensures
        forall|r: int|
            0 <= r < body_rows(aliases, genes, counters, include_zero).len() ==> is_row_of(
                #[trigger] body_rows(aliases, genes, counters, include_zero)[r],
                aliases,
                genes,
                counters,
                include_zero,
            ),
        forall|i: int|
            0 <= i < aliases.len() && is_kept(#[trigger] aliases[i], counters, include_zero)
                ==> body_rows(aliases, genes, counters, include_zero).contains(
                row_fields(aliases[i], genes, counters),
            ),
    decreases aliases.len(),
{
    let rows = body_rows(aliases, genes, counters, include_zero);
    if aliases.len() > 0 {
        let front = aliases.drop_last();
        let before = body_rows(front, genes, counters, include_zero);
        lemma_body_rows(front, genes, counters, include_zero);
        let last = aliases.len() - 1;
        assert forall|r: int| 0 <= r < rows.len() implies is_row_of(
            #[trigger] rows[r],
            aliases,
            genes,
            counters,
            include_zero,
        ) by {
            if r < before.len() {
                assert(rows[r] == before[r]);
                assert(is_row_of(before[r], front, genes, counters, include_zero));
                let i = choose|i: int|
                    0 <= i < front.len() && is_kept(front[i], counters, include_zero) && before[r]
                        == row_fields(#[trigger] front[i], genes, counters);
                assert(rows[r] == row_fields(aliases[i], genes, counters));
            } else {
                assert(rows[r] == row_fields(aliases[last], genes, counters));
            }
        }
        assert forall|i: int|
            0 <= i < aliases.len() && is_kept(
                #[trigger] aliases[i],
                counters,
                include_zero,
            ) implies rows.contains(row_fields(aliases[i], genes, counters)) by {
            if i < last {
                assert(front[i] == aliases[i]);
                let fields = row_fields(front[i], genes, counters);
                assert(before.contains(fields));
                let r = choose|r: int| 0 <= r < before.len() && before[r] == fields;
                assert(rows[r] == fields);
            } else {
                assert(rows[rows.len() - 1] == row_fields(aliases[i], genes, counters));
            }
        }
    }
}

/// The fields of the line of an alias can stand as fields, if the alias
/// and its gene can.
proof fn lemma_row_fields(
    alias: Seq<u8>,
    genes: Option<Map<Seq<u8>, Seq<u8>>>,
    counters: Seq<Counter>,
)
    requires
        is_field(alias),
        genes matches Some(g) ==> is_field(g[alias]),
    ensures
        row_fields(alias, genes, counters).len() > 0,
        forall|j: int|
            0 <= j < row_fields(alias, genes, counters).len() ==> is_field(
                #[trigger] row_fields(alias, genes, counters)[j],
            ),
{
    let fields = row_fields(alias, genes, counters);
    let counts = count_fields(alias, counters);
    assert forall|j: int| 0 <= j < fields.len() implies is_field(#[trigger] fields[j]) by {
        let shift = fields.len() - counts.len();
        if j >= shift {
            assert(fields[j] == counts[j - shift]);
            lemma_decimal_round_trip(counters[j - shift].count(alias));
        }
    }
}

/// The table of results that is written as text is read back as it was,
/// if no name, alias or gene holds a tab or a line feed. The first line
/// read gives the titles of the columns, the samples in their order. Every
/// further line is the line of an alias that is kept: the alias, its gene
/// if there is a gene map, and a field for each sample, in the order of the
/// samples, that stands for the count of the alias in that sample. Every
/// alias that is kept has such a line.
pub proof fn lemma_results_round_trip(
    names: Seq<Seq<u8>>,
    aliases: Seq<Seq<u8>>,
    genes: Option<Map<Seq<u8>, Seq<u8>>>,
    counters: Seq<Counter>,
    include_zero: bool,
)
    requires
        forall|i: int| 0 <= i < names.len() ==> is_field(#[trigger] names[i]),
        forall|i: int| 0 <= i < aliases.len() ==> is_field(#[trigger] aliases[i]),
        genes matches Some(g) ==> forall|i: int|
            0 <= i < aliases.len() ==> is_field(g[#[trigger] aliases[i]]),
    ensures
        ({
            let read = parsed(
                rendered(table_of(names, aliases, genes, counters, include_zero)),
            );
            &&& read == table_of(names, aliases, genes, counters, include_zero)
            &&& read.len() >= 1
            &&& read[0] == header_fields(names, genes is Some)
            &&& forall|r: int|
                1 <= r < read.len() ==> is_row_of(
                    #[trigger] read[r],
                    aliases,
                    genes,
                    counters,
                    include_zero,
                )
            &&& forall|i: int|
                0 <= i < aliases.len() && is_kept(#[trigger] aliases[i], counters, include_zero)
                    ==> exists|r: int|
                    1 <= r < read.len() && #[trigger] read[r] == row_fields(
                        aliases[i],
                        genes,
                        counters,
                    )
        }),
        forall|alias: Seq<u8>, j: int|
            0 <= j < counters.len() ==> value_of(#[trigger] count_fields(alias, counters)[j])
                == counters[j].count(alias),
{
    let table = table_of(names, aliases, genes, counters, include_zero);
    let header = header_fields(names, genes is Some);
    let rows = body_rows(aliases, genes, counters, include_zero);
    lemma_body_rows(aliases, genes, counters, include_zero);
    assert(is_field(guide_title()));
    assert(is_field(gene_title()));
    assert forall|j: int| 0 <= j < header.len() implies is_field(#[trigger] header[j]) by {
        let shift = header.len() - names.len();
        if j >= shift {
            assert(header[j] == names[j - shift]);
        }
    }
    assert forall|r: int| 1 <= r < table.len() implies is_row_of(
        #[trigger] table[r],
        aliases,
        genes,
        counters,
        include_zero,
    ) by {
        assert(table[r] == rows[r - 1]);
    }
    assert(is_table(table)) by {
        assert forall|r: int| 0 <= r < table.len() implies (#[trigger] table[r]).len() > 0
            && forall|j: int| 0 <= j < table[r].len() ==> is_field(#[trigger] table[r][j]) by {
            if r == 0 {
                assert(table[0] == header);
            } else {
                assert(is_row_of(table[r], aliases, genes, counters, include_zero));
                let i = choose|i: int|
                    0 <= i < aliases.len() && is_kept(aliases[i], counters, include_zero)
                        && table[r] == row_fields(#[trigger] aliases[i], genes, counters);
                assert(is_field(aliases[i]));
                lemma_row_fields(aliases[i], genes, counters);
            }
        }
    }
    lemma_round_trip(table);
    assert forall|i: int|
        0 <= i < aliases.len() && is_kept(
            #[trigger] aliases[i],
            counters,
            include_zero,
        ) implies exists|r: int|
        1 <= r < table.len() && #[trigger] table[r] == row_fields(
            aliases[i],
            genes,
            counters,
        ) by {
        let fields = row_fields(aliases[i], genes, counters);
        assert(rows.contains(fields));
        let r = choose|r: int| 0 <= r < rows.len() && rows[r] == fields;
        assert(table[r + 1] == fields);
    }
    assert forall|alias: Seq<u8>, j: int| 0 <= j < counters.len() implies value_of(
        #[trigger] count_fields(alias, counters)[j],
    ) == counters[j].count(alias) by {
        lemma_decimal_round_trip(counters[j].count(alias));
    }
}

/// Appends bytes to a byte vector.
fn append_bytes(accum: &mut Vec<u8>, bytes: &[u8])
    ensures
        final(accum)@ == old(accum)@ + bytes@,
{
    let mut copy = slice_to_vec(bytes);
    accum.append(&mut copy);
}

/// The first line of the table, without its line feed.
pub fn generate_columns(names: &[String], genemap: &Option<GeneMap>) -> (columns: Vec<u8>)
    ensures
        columns@ == joined(header_fields(name_bytes(names@), genemap is Some)),
{
    let mut columns: Vec<u8> = Vec::new();
    columns.push(0x47);
    columns.push(0x75);
    columns.push(0x69);
    columns.push(0x64);
    columns.push(0x65);
    assert(columns@ =~= guide_title());
    let ghost mut fields = seq![guide_title()];
    if genemap.is_some() {
        columns.push(TAB);
        columns.push(0x47);
        columns.push(0x65);
        columns.push(0x6e);
        columns.push(0x65);
        proof {
            lemma_joined_push(fields, gene_title());
            assert(columns@ =~= joined(fields) + seq![TAB] + gene_title());
            fields = fields.push(gene_title());
        }
    }
    let ghost head = fields;
    let mut i: usize = 0;
    while i < names.len()
        invariant
            i <= names.len(),
            head.len() > 0,
            fields == head + name_bytes(names@).take(i as int),
            columns@ == joined(fields),
        decreases names.len() - i,
    {
        columns.push(TAB);
        append_bytes(&mut columns, names[i].as_str().as_bytes());
        proof {
            let name = name_bytes(names@)[i as int];
            lemma_joined_push(fields, name);
            assert(columns@ =~= joined(fields) + seq![TAB] + name);
            assert(head + name_bytes(names@).take(i + 1) =~= fields.push(name));
            fields = fields.push(name);
        }
        i = i + 1;
    }
    proof {
        assert(name_bytes(names@).take(i as int) =~= name_bytes(names@));
        assert(fields =~= header_fields(name_bytes(names@), genemap is Some));
    }
    columns
}

/// Appends a tab and the gene of the alias, if there is a gene map and the
/// index is 0: the gene stands before the count of the first sample.
pub fn append_gene(alias: &[u8], genemap: &Option<GeneMap>, idx: usize, accum: &mut Vec<u8>)
    requires
        idx == 0 ==> (*genemap matches Some(g) ==> g@.dom().contains(alias@)),
    ensures
        final(accum)@ == old(accum)@ + match *genemap {
            Some(g) if idx == 0 => seq![TAB] + g@[alias@],
            _ => Seq::empty(),
        },
{
    if idx > 0 {
        assert(accum@ =~= accum@ + Seq::<u8>::empty());
        return;
    }
    match genemap {
        Some(g) => {
            match g.get(alias) {
                Some(gene) => {
                    accum.push(TAB);
                    append_bytes(accum, gene.as_slice());
                    assert(accum@ =~= old(accum)@ + (seq![TAB] + g@[alias@]));
                },
                None => {},
            }
        },
        None => {
            assert(accum@ =~= accum@ + Seq::<u8>::empty());
        },
    }
}

/// Appends a tab and the count of the alias in a sample.
pub fn append_count(alias: &[u8], counter: &Counter, accum: &mut Vec<u8>)
    ensures
        final(accum)@ == old(accum)@ + seq![TAB] + decimal(counter.count(alias@)),
{
    accum.push(TAB);
    append_decimal(accum, counter.get_value(alias));
}

/// Whether the alias has a count other than 0 in some sample.
fn any_count(alias: &[u8], results: &[Counter]) -> (any: bool)
    ensures
        any == !all_zero(alias@, results@),
{
    let mut j: usize = 0;
    while j < results.len()
        invariant
            j <= results.len(),
            forall|k: int| 0 <= k < j ==> (#[trigger] results@[k]).count(alias@) == 0,
        decreases results.len() - j,
    {
        if results[j].get_value(alias) != 0 {
            return true;
        }
        j = j + 1;
    }
    false
}

/// The line of one alias, without its line feed.
fn generate_row(alias: &[u8], results: &[Counter], genemap: &Option<GeneMap>) -> (row: Vec<u8>)
    requires
        *genemap matches Some(g) ==> g@.dom().contains(alias@),
    ensures
        row@ == joined(row_fields(alias@, genes_of(*genemap), results@)),
{
    let mut row: Vec<u8> = slice_to_vec(alias);
    let ghost mut fields = seq![alias@];
    append_gene(alias, genemap, 0, &mut row);
    proof {
        match genes_of(*genemap) {
            Some(g) => {
                lemma_joined_push(fields, g[alias@]);
                assert(row@ =~= joined(fields) + seq![TAB] + g[alias@]);
                fields = fields.push(g[alias@]);
            },
            None => {
                assert(row@ =~= joined(fields));
            },
        }
    }
    let ghost head = fields;
    let mut j: usize = 0;
    while j < results.len()
        invariant
            j <= results.len(),
            head.len() > 0,
            fields == head + count_fields(alias@, results@).take(j as int),
            row@ == joined(fields),
        decreases results.len() - j,
    {
        append_count(alias, &results[j], &mut row);
        proof {
            let field = count_fields(alias@, results@)[j as int];
            lemma_joined_push(fields, field);
            assert(head + count_fields(alias@, results@).take(j + 1) =~= fields.push(field));
            fields = fields.push(field);
        }
        j = j + 1;
    }
    proof {
        assert(count_fields(alias@, results@).take(j as int) =~= count_fields(alias@, results@));
        assert(fields =~= row_fields(alias@, genes_of(*genemap), results@));
    }
    row
}

/// The table of results as text: the line of the columns, then one line
/// for each alias of the library, in the order in which the library hands
/// its aliases out. Unless `include_zero` is set, an alias with the count 0
/// in every sample has no line. A gene map must have a gene for every alias
/// of the library.
pub fn write_results(
    results: &[Counter],
    library: &Library,
    names: &[String],
    genemap: &Option<GeneMap>,
    include_zero: bool,
) -> (text: Vec<u8>)
    requires
        *genemap matches Some(g) ==> !misses(g@, library@),
    ensures
        exists|aliases: Seq<Seq<u8>>|
            lists_values(aliases, library@) && text@ == rendered(
                #[trigger] table_of(
                    name_bytes(names@),
                    aliases,
                    genes_of(*genemap),
                    results@,
                    include_zero,
                ),
            ),
{
    let aliases = library.values();
    let ghost order = views(aliases@);
    let ghost genes = genes_of(*genemap);
    let ghost header = header_fields(name_bytes(names@), genemap is Some);
    let mut text = generate_columns(names, genemap);
    text.push(LINE_FEED);
    proof {
        let first = seq![header];
        assert(first.last() == header);
        assert(first.drop_last().len() == 0);
        assert(rendered(first.drop_last()) =~= Seq::<u8>::empty());
        assert(rendered(first) =~= joined(header) + seq![LINE_FEED]);
        assert(order.take(0) =~= Seq::empty());
        assert(seq![header] + body_rows(order.take(0), genes, results@, include_zero) =~= seq![
            header,
        ]);
    }
    let mut i: usize = 0;
    while i < aliases.len()
        invariant
            i <= aliases.len(),
            order == views(aliases@),
            genes == genes_of(*genemap),
            header == header_fields(name_bytes(names@), genemap is Some),
            lists_values(order, library@),
            *genemap matches Some(g) ==> !misses(g@, library@),
            text@ == rendered(
                seq![header] + body_rows(order.take(i as int), genes, results@, include_zero),
            ),
        decreases aliases.len() - i,
    {
        let alias = aliases[i].as_slice();
        let ghost seen = body_rows(order.take(i as int), genes, results@, include_zero);
        proof {
            assert(order.take(i + 1).drop_last() =~= order.take(i as int));
            assert(order.take(i + 1).last() == alias@);
            let keys = choose|keys: Seq<Seq<u8>>| #[trigger]
                lists_values_by(order, keys, library@);
            assert(order[i as int] == library@[keys[i as int]]);
            assert(library@.dom().contains(keys[i as int]));
        }
        if include_zero || any_count(alias, results) {
            let mut row = generate_row(alias, results, genemap);
            proof {
                let fields = row_fields(alias@, genes, results@);
                assert((seq![header] + seen.push(fields)).drop_last() =~= seq![header] + seen);
                assert((seq![header] + seen.push(fields)).last() == fields);
            }
            text.append(&mut row);
            text.push(LINE_FEED);
            assert(text@ =~= rendered(seq![header] + seen) + joined(
                row_fields(alias@, genes, results@),
            ) + seq![LINE_FEED]);
        }
        i = i + 1;
    }
    proof {
        assert(order.take(i as int) =~= order);
        assert(table_of(name_bytes(names@), order, genes, results@, include_zero) == seq![header]
            + body_rows(order, genes, results@, include_zero));
    }
    text
}

} // verus!
