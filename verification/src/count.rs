//! Counting of the guides of a library in the reads of samples, from the
//! records of the library to the table of results.

use crate::counter::{credited, credits, sequences, Counter, Scheme};
use crate::genemap::{misses, GeneMap};
use crate::library::{
    lists_keys, lists_values, maps_records, rejection, views, Library, LibraryError, Record,
};
use crate::offsetter::Offset;
use crate::permutes::{lemma_index_of_keys, one_off_index, Permuter};
use crate::results::{genes_of, name_bytes, table_of, write_results};
use crate::tsv::rendered;
use vstd::prelude::*;

verus! {

/// Why nothing is counted.
#[derive(Debug, Clone, Copy, PartialEq, Eq, Structural)]
pub enum CountError {
    /// There are not as many sample names, or not as many offsets, as there
    /// are samples.
    ArgumentInvalid,
    /// The records of the library are no library.
    LibraryInvalid(LibraryError),
    /// The gene map has no gene for an alias of the library.
    GeneMapInvalid,
    /// The first read of a sample is shorter than the guides.
    InputShorterThanLibrary,
}

/// The first read of a sample is shorter than `size`.
pub open spec fn has_short_sample(samples: Seq<Vec<Record>>, size: nat) -> bool {
    exists|j: int|
        0 <= j < samples.len() && (#[trigger] samples[j]).len() > 0 && samples[j][0].seq@.len()
            < size
}

/// Why nothing is counted, if nothing is.
pub open spec fn refusal(
    records: Seq<Record>,
    samples: Seq<Vec<Record>>,
    names: nat,
    offsets: nat,
    genes: Option<Map<Seq<u8>, Seq<u8>>>,
) -> Option<CountError> {
    if names != samples.len() || offsets != samples.len() {
        Some(CountError::ArgumentInvalid)
    } else if rejection(records) is Some {
        Some(CountError::LibraryInvalid(rejection(records)->0))
    } else if genes is Some && exists|i: int|
        0 <= i < records.len() && !genes->0.dom().contains(#[trigger] records[i].id@) {
        Some(CountError::GeneMapInvalid)
    } else if has_short_sample(samples, records[0].seq@.len()) {
        Some(CountError::InputShorterThanLibrary)
    } else {
        None
    }
}

/// How the reads of a sample are matched against a library: with the
/// one-mismatch index of the library unless `exact` is set.
pub open spec fn scheme_of(
    library: Map<Seq<u8>, Seq<u8>>,
    exact: bool,
    offset: Offset,
    size: nat,
    recursion: bool,
) -> Scheme {
    Scheme {
        library,
        one_offs: if exact {
            None
        } else {
            Some(one_off_index(library))
        },
        offset,
        size,
        recursion,
    }
}

/// The text is the table of results of the samples: the library is that of
/// the records, the counter of each sample holds for each alias the number
/// of reads of the sample that are credited to it, and the table has the
/// lines of the aliases in the given order.
pub open spec fn is_result(
    text: Seq<u8>,
    library: Map<Seq<u8>, Seq<u8>>,
    counters: Seq<Counter>,
    aliases: Seq<Seq<u8>>,
    records: Seq<Record>,
    samples: Seq<Vec<Record>>,
    names: Seq<String>,
    offsets: Seq<Offset>,
    exact: bool,
    genes: Option<Map<Seq<u8>, Seq<u8>>>,
    recursion: bool,
    include_zero: bool,
) -> bool {
    &&& maps_records(library, records)
    &&& counters.len() == samples.len()
    &&& forall|j: int, alias: Seq<u8>|
        0 <= j < samples.len() ==> #[trigger] counters[j].count(alias) == credits(
            scheme_of(library, exact, offsets[j], records[0].seq@.len(), recursion),
            sequences(samples[j]@),
            alias,
        )
    &&& lists_values(aliases, library)
    &&& text == rendered(table_of(name_bytes(names), aliases, genes, counters, include_zero))
}

/// The text is the table of results of the samples, with the lines of the
/// aliases in some order.
pub open spec fn is_counted(
    text: Seq<u8>,
    records: Seq<Record>,
    samples: Seq<Vec<Record>>,
    names: Seq<String>,
    offsets: Seq<Offset>,
    exact: bool,
    genes: Option<Map<Seq<u8>, Seq<u8>>>,
    recursion: bool,
    include_zero: bool,
) -> bool {
    exists|library: Map<Seq<u8>, Seq<u8>>, counters: Seq<Counter>, aliases: Seq<Seq<u8>>|
        #[trigger] is_result(
            text,
            library,
            counters,
            aliases,
            records,
            samples,
            names,
            offsets,
            exact,
            genes,
            recursion,
            include_zero,
        )
}

/// Whether no size is smaller than the length of the guides of the library:
/// the sizes are those of the first reads of the samples.
pub fn validate_library_size(library: &Library, sizes: &[usize]) -> (valid: bool)
    ensures
        valid == forall|j: int| 0 <= j < sizes.len() ==> sizes[j] >= library.spec_size(),
{
    let mut j: usize = 0;
    while j < sizes.len()
        invariant
            j <= sizes.len(),
            forall|k: int| 0 <= k < j ==> sizes[k] >= library.spec_size(),
        decreases sizes.len() - j,
    {
        if library.size() > sizes[j] {
            return false;
        }
        j = j + 1;
    }
    true
}

/// The one-mismatch index of the library.
pub fn generate_permutations(library: &Library) -> (permuter: Permuter)
    requires
        library.wf(),
    ensures
        permuter.wf(),
        lists_keys(permuter.parents(), library@),
        permuter@ == one_off_index(library@),
{
    let keys = library.keys();
    let permuter = Permuter::new(&keys);
    proof {
        lemma_index_of_keys(permuter@, permuter.null(), permuter.parents(), library@);
    }
    permuter
}

/// Counts the reads of one sample against the library.
pub fn count_sample(
    records: &Vec<Record>,
    offset: Offset,
    library: &Library,
    permuter: &Option<Permuter>,
    position_recursion: bool,
) -> (counter: Counter)
    ensures
        counter.wf(),
        counter.spec_total_reads() == records.len(),
        counter.spec_matched_reads() == credited(
            Counter::scheme(library, permuter, offset, library.spec_size(), position_recursion),
            sequences(records@),
        ),
        forall|alias: Seq<u8>| #[trigger]
            counter.count(alias) == credits(
                Counter::scheme(library, permuter, offset, library.spec_size(), position_recursion),
                sequences(records@),
                alias,
            ),
        forall|alias: Seq<u8>| #[trigger]
            counter@.dom().contains(alias) <==> credits(
                Counter::scheme(library, permuter, offset, library.spec_size(), position_recursion),
                sequences(records@),
                alias,
            ) > 0,
{
    Counter::new(records, library, permuter, offset, library.size(), position_recursion)
}

/// Counts the reads of each sample against the library, with the offset of
/// the sample.
fn count_samples(
    samples: &Vec<Vec<Record>>,
    offset: &Vec<Offset>,
    library: &Library,
    permuter: &Option<Permuter>,
    exact: bool,
    position_recursion: bool,
) -> (counters: Vec<Counter>)
    requires
        offset.len() == samples.len(),
        exact ==> *permuter is None,
        !exact ==> (*permuter matches Some(p) && p@ == one_off_index(library@)),
    ensures
        counters.len() == samples.len(),
        forall|k: int, alias: Seq<u8>|
            0 <= k < samples.len() ==> #[trigger] counters[k].count(alias) == credits(
                scheme_of(
                    library@,
                    exact,
                    offset[k],
                    library.spec_size() as nat,
                    position_recursion,
                ),
                sequences(samples[k]@),
                alias,
            ),
{
    let ghost size = library.spec_size();
    let mut counters: Vec<Counter> = Vec::new();
    let mut j: usize = 0;
    while j < samples.len()
        invariant
            j <= samples.len(),
            offset.len() == samples.len(),
            counters.len() == j,
            size == library.spec_size(),
            exact ==> *permuter is None,
            !exact ==> (*permuter matches Some(p) && p@ == one_off_index(library@)),
            forall|k: int, alias: Seq<u8>|
                0 <= k < j ==> #[trigger] counters[k].count(alias) == credits(
                    scheme_of(library@, exact, offset[k], size as nat, position_recursion),
                    sequences(samples[k]@),
                    alias,
                ),
        decreases samples.len() - j,
    {
        let counter = count_sample(&samples[j], offset[j], library, permuter, position_recursion);
        proof {
            assert(Counter::scheme(library, permuter, offset[j as int], size, position_recursion)
                == scheme_of(library@, exact, offset[j as int], size as nat, position_recursion));
        }
        let ghost before = counters@;
        counters.push(counter);
        proof {
            assert forall|k: int, alias: Seq<u8>|
                0 <= k < j + 1 implies #[trigger] counters[k].count(alias) == credits(
                scheme_of(library@, exact, offset[k], size as nat, position_recursion),
                sequences(samples[k]@),
                alias,
            ) by {
                if k < j {
                    assert(counters[k] == before[k]);
                }
            }
        }
        j = j + 1;
    }
    counters
}

/// The sizes of the first reads of the samples that have a read.
fn first_sizes(samples: &Vec<Vec<Record>>) -> (sizes: Vec<usize>)
    ensures
        forall|size: nat|
            has_short_sample(samples@, size) <==> exists|k: int|
                0 <= k < sizes.len() && #[trigger] sizes[k] < size,
{
    let mut sizes: Vec<usize> = Vec::new();
    let mut j: usize = 0;
    assert(samples@.take(0) =~= Seq::empty());
    while j < samples.len()
        invariant
            j <= samples.len(),
            forall|size: nat|
                has_short_sample(samples@.take(j as int), size) <==> exists|k: int|
                    0 <= k < sizes.len() && #[trigger] sizes[k] < size,
        decreases samples.len() - j,
    {
        let ghost seen = samples@.take(j as int);
        let ghost grown = samples@.take(j + 1);
        let ghost before = sizes@;
        if samples[j].len() > 0 {
            sizes.push(samples[j][0].seq.len());
        }
        proof {
            assert forall|size: nat|
                has_short_sample(grown, size) <==> exists|k: int|
                    0 <= k < sizes.len() && #[trigger] sizes[k] < size by {
                if has_short_sample(grown, size) {
                    let i = choose|i: int|
                        0 <= i < grown.len() && (#[trigger] grown[i]).len() > 0
                            && grown[i][0].seq@.len() < size;
                    if i < j {
                        assert(seen[i] == grown[i]);
                        assert(has_short_sample(seen, size));
                        let k = choose|k: int| 0 <= k < before.len() && #[trigger] before[k] < size;
                        assert(sizes[k] < size);
                    } else {
                        assert(sizes[sizes.len() - 1] < size);
                    }
                }
                if exists|k: int| 0 <= k < sizes.len() && #[trigger] sizes[k] < size {
                    let k = choose|k: int| 0 <= k < sizes.len() && #[trigger] sizes[k] < size;
                    if k < before.len() {
                        assert(before[k] < size);
                        assert(has_short_sample(seen, size));
                        let i = choose|i: int|
                            0 <= i < seen.len() && (#[trigger] seen[i]).len() > 0
                                && seen[i][0].seq@.len() < size;
                        assert(grown[i] == seen[i]);
                    } else {
                        assert(grown[j as int] == samples@[j as int]);
                        assert(grown[j as int].len() > 0);
                    }
                }
            }
        }
        j = j + 1;
    }
    proof {
        assert(samples@.take(j as int) =~= samples@);
    }
    sizes
}

/// Counts the guides of a library in the reads of the samples and gives
/// the table of results as text.
///
/// Each sample has its name and its offset. Unless `exact` is set, a read
/// that is one mismatch away from a single guide is credited to that guide.
/// Nothing is counted, and the reason is returned, if the names or the
/// offsets are not as many as the samples, if the records of the library
/// are no library, if a gene map has no gene for an alias of the library,
/// or if the first read of a sample is shorter than the guides.
pub fn count(
    library_records: Vec<Record>,
    samples: &Vec<Vec<Record>>,
    sample_names: &[String],
    offset: &Vec<Offset>,
    exact: bool,
    genemap: &Option<GeneMap>,
    position_recursion: bool,
    include_zero: bool,
) -> (result: Result<Vec<u8>, CountError>)
    ensures
        result is Ok == refusal(
            library_records@,
            samples@,
            sample_names@.len(),
            offset@.len(),
            genes_of(*genemap),
        ) is None,
        result matches Err(error) ==> refusal(
            library_records@,
            samples@,
            sample_names@.len(),
            offset@.len(),
            genes_of(*genemap),
        ) == Some(error),
        result matches Ok(text) ==> is_counted(
            text@,
            library_records@,
            samples@,
            sample_names@,
            offset@,
            exact,
            genes_of(*genemap),
            position_recursion,
            include_zero,
        ),
{
    if sample_names.len() != samples.len() || offset.len() != samples.len() {
        return Err(CountError::ArgumentInvalid);
    }
    let ghost records = library_records@;
    let library = match Library::from_reader(library_records) {
        Ok(library) => library,
        Err(error) => {
            return Err(CountError::LibraryInvalid(error));
        },
    };
    if let Some(g) = genemap {
        if !g.validate_library(&library) {
            proof {
                let k = choose|k: Seq<u8>|
                    library@.dom().contains(k) && !g@.dom().contains(#[trigger] library@[k]);
                let i = choose|i: int| 0 <= i < records.len() && #[trigger] records[i].seq@ == k;
                assert(!g@.dom().contains(records[i].id@));
            }
            return Err(CountError::GeneMapInvalid);
        }
        proof {
            if exists|i: int|
                0 <= i < records.len() && !g@.dom().contains(#[trigger] records[i].id@) {
                let i = choose|i: int|
                    0 <= i < records.len() && !g@.dom().contains(#[trigger] records[i].id@);
                assert(library@.dom().contains(records[i].seq@));
                assert(!g@.dom().contains(library@[records[i].seq@]));
            }
        }
    }
    let sizes = first_sizes(samples);
    if !validate_library_size(&library, sizes.as_slice()) {
        proof {
            let k = choose|k: int| 0 <= k < sizes.len() && sizes[k] < library.spec_size();
            assert(sizes[k] < library.spec_size());
        }
        return Err(CountError::InputShorterThanLibrary);
    }
    let permuter = if exact {
        None
    } else {
        Some(generate_permutations(&library))
    };
    proof {
        if has_short_sample(samples@, library.spec_size() as nat) {
            let k = choose|k: int|
                0 <= k < sizes.len() && #[trigger] sizes[k] < library.spec_size() as nat;
            assert(sizes[k] >= library.spec_size());
        }
    }
    let counters = count_samples(samples, offset, &library, &permuter, exact, position_recursion);
    let text = write_results(
        counters.as_slice(),
        &library,
        sample_names,
        genemap,
        include_zero,
    );
    proof {
        let aliases = choose|aliases: Seq<Seq<u8>>|
            lists_values(aliases, library@) && text@ == rendered(
                #[trigger] table_of(
                    name_bytes(sample_names@),
                    aliases,
                    genes_of(*genemap),
                    counters@,
                    include_zero,
                ),
            );
        assert(is_result(
            text@,
            library@,
            counters@,
            aliases,
            records,
            samples@,
            sample_names@,
            offset@,
            exact,
            genes_of(*genemap),
            position_recursion,
            include_zero,
        ));
    }
    Ok(text)
}

} // verus!
