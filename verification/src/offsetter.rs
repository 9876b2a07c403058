//! The offset of the guide within a read, and the positional nucleotide
//! counts from which an offset is estimated.

use crate::library::Record;
use crate::sequence::{BASE_A, BASE_C, BASE_G, BASE_T};
use vstd::prelude::*;

verus! {

/// Where the guide begins in a read: so many bases from the start of the
/// read, or so many bases from the start of its reverse complement.
#[derive(Debug, Copy, Clone, PartialEq, Eq, Structural)]
pub enum Offset {
    /// The guide begins at this index of the read.
    Forward(usize),
    /// The guide begins at this index of the reverse complement of the read.
    Reverse(usize),
}

impl Offset {
    /// The index of the offset, whatever its direction.
    pub open spec fn spec_index(&self) -> usize {
        match *self {
            Offset::Forward(index) => index,
            Offset::Reverse(index) => index,
        }
    }

    /// The index of the offset, whatever its direction.
    #[must_use]
    pub fn index(&self) -> (index: &usize)
        ensures
            *index == self.spec_index(),
    {
        match self {
            Offset::Forward(index) => index,
            Offset::Reverse(index) => index,
        }
    }

    /// Whether the offset is in the forward direction.
    pub fn is_forward(&self) -> (forward: bool)
        ensures
            forward == (*self is Forward),
    {
        match self {
            Offset::Forward(_) => true,
            Offset::Reverse(_) => false,
        }
    }

    /// Whether the offset is on the reverse complement.
    pub fn is_reverse(&self) -> (reverse: bool)
        ensures
            reverse == (*self is Reverse),
    {
        match self {
            Offset::Forward(_) => false,
            Offset::Reverse(_) => true,
        }
    }
}

/// The reads are shorter than the guides of the library.
#[derive(Debug, Clone, Copy, PartialEq, Eq, Structural)]
pub struct InputShorterThanLibrary;

/// The index of the first of the smallest values, or 0 if there is no value.
pub open spec fn first_minimum(values: Seq<u64>) -> int
    decreases values.len(),
{
    if values.len() <= 1 {
        0
    } else {
        let before = first_minimum(values.drop_last());
        if values.last() < values[before] {
            values.len() - 1
        } else {
            before
        }
    }
}

/// The offset that the errors of the windows choose. The errors are given
/// as integers that are ordered as the errors are; `forward[i]` is the error
/// of the window at index `i` of the reads, `reverse[i]` that of the window
/// at index `i` of their reverse complements. The window with the smallest
/// error is chosen: the first one among equal windows of one direction, and
/// the forward direction where both directions do equally well.
pub open spec fn chosen_offset(forward: Seq<u64>, reverse: Seq<u64>) -> Offset {
    if forward[first_minimum(forward)] <= reverse[first_minimum(reverse)] {
        Offset::Forward(first_minimum(forward) as usize)
    } else {
        Offset::Reverse(first_minimum(reverse) as usize)
    }
}

/// The first of the smallest values is at an index of the values, no value
/// is smaller, and every value before it is greater.
pub proof fn lemma_first_minimum(values: Seq<u64>)
    requires
        values.len() > 0,
    ensures
        0 <= first_minimum(values) < values.len(),
        forall|j: int|
            0 <= j < values.len() ==> values[first_minimum(values)] <= #[trigger] values[j],
        forall|j: int|
            0 <= j < first_minimum(values) ==> values[first_minimum(values)] < #[trigger] values[j],
    decreases values.len(),
{
    if values.len() > 1 {
        let front = values.drop_last();
        lemma_first_minimum(front);
        let before = first_minimum(front);
        assert forall|j: int| 0 <= j < values.len() implies values[first_minimum(values)]
            <= #[trigger] values[j] by {
            if j < front.len() {
                assert(front[before] <= front[j]);
            }
        }
        assert forall|j: int| 0 <= j < first_minimum(values) implies values[first_minimum(values)]
            < #[trigger] values[j] by {
            if j < before {
                assert(front[before] < front[j]);
            } else {
                assert(front[before] <= front[j]);
            }
        }
    }
}

/// The column of a nucleotide in a matrix of counts: 0 for `A`, 1 for `C`,
/// 2 for `G`, 3 for `T`, and none for any other byte.
pub open spec fn base_column(c: u8) -> Option<usize> {
    if c == BASE_A {
        Some(0usize)
    } else if c == BASE_C {
        Some(1usize)
    } else if c == BASE_G {
        Some(2usize)
    } else if c == BASE_T {
        Some(3usize)
    } else {
        None
    }
}

/// The sequence has a byte at the position, and the byte counts for the
/// column: it is the nucleotide of the column, or it is no nucleotide and
/// counts for every column.
pub open spec fn counts_for(seq: Seq<u8>, position: int, column: int) -> bool {
    &&& 0 <= position < seq.len()
    &&& match base_column(seq[position]) {
        Some(j) => j == column,
        None => true,
    }
}

/// The number of records whose sequence counts for the column at the
/// position.
pub open spec fn column_count(records: Seq<Record>, position: int, column: int) -> nat
    decreases records.len(),
{
    if records.len() == 0 {
        0
    } else if counts_for(records.last().seq@, position, column) {
        column_count(records.drop_last(), position, column) + 1
    } else {
        column_count(records.drop_last(), position, column)
    }
}

/// The width of the matrix of counts: the length of the first sequence, or
/// 0 if there is no record.
pub open spec fn width(records: Seq<Record>) -> nat {
    if records.len() == 0 {
        0
    } else {
        records[0].seq@.len()
    }
}

/// Assigns a column to each nucleotide.
pub fn base_map(c: u8) -> (column: Option<usize>)
    ensures
        column == base_column(c),
{
    if c == BASE_A {
        Some(0)
    } else if c == BASE_C {
        Some(1)
    } else if c == BASE_G {
        Some(2)
    } else if c == BASE_T {
        Some(3)
    } else {
        None
    }
}

/// The length of the first sequence, if there is a record.
pub fn get_sequence_size(records: &[Record]) -> (size: Option<usize>)
    ensures
        size.is_some() == (records@.len() > 0),
        size matches Some(s) ==> s == records@[0].seq@.len(),
{
    if records.len() == 0 {
        None
    } else {
        Some(records[0].seq.len())
    }
}

/// The index of the last window of the length of the guides in reads of the
/// given length: there is a window at each index from 0 to the difference
/// of the lengths. There is none if the reads are shorter than the guides.
pub fn last_window(reference_size: usize, comparison_size: usize) -> (last: Result<
    usize,
    InputShorterThanLibrary,
>)
    ensures
        last is Ok == (comparison_size >= reference_size),
        last matches Ok(index) ==> index == comparison_size - reference_size,
{
    if comparison_size < reference_size {
        Err(InputShorterThanLibrary)
    } else {
        Ok(comparison_size - reference_size)
    }
}

/// The index of the first of the smallest values.
pub fn argmin(values: &[u64]) -> (index: usize)
    requires
        values.len() > 0,
    ensures
        index == first_minimum(values@),
        index < values.len(),
{
    let mut index: usize = 0;
    let mut i: usize = 1;
    assert(values@.take(1).drop_last() =~= Seq::<u64>::empty());
    while i < values.len()
        invariant
            1 <= i <= values.len(),
            index < i,
            index == first_minimum(values@.take(i as int)),
        decreases values.len() - i,
    {
        proof {
            assert(values@.take(i + 1).drop_last() =~= values@.take(i as int));
        }
        if values[i] < values[index] {
            index = i;
        }
        i = i + 1;
    }
    assert(values@.take(i as int) =~= values@);
    index
}

/// The offset that the errors of the windows choose: see
/// [`chosen_offset`]. There is a window in each direction.
pub fn assign_offset(mse_forward: &[u64], mse_reverse: &[u64]) -> (offset: Offset)
    requires
        mse_forward.len() > 0,
        mse_reverse.len() > 0,
    ensures
        offset == chosen_offset(mse_forward@, mse_reverse@),
{
    let argmin_forward = argmin(mse_forward);
    let argmin_reverse = argmin(mse_reverse);
    if mse_forward[argmin_forward] <= mse_reverse[argmin_reverse] {
        Offset::Forward(argmin_forward)
    } else {
        Offset::Reverse(argmin_reverse)
    }
}

/// No column counts more records than there are.
proof fn lemma_column_count_bound(records: Seq<Record>, position: int, column: int)
    ensures
        column_count(records, position, column) <= records.len(),
    decreases records.len(),
{
    if records.len() > 0 {
        lemma_column_count_bound(records.drop_last(), position, column);
    }
}

/// One row of the matrix with the count of one column raised by one, or,
/// where there is no column, with all four counts raised by one.
fn raise(row: [usize; 4], column: Option<usize>) -> (raised: [usize; 4])
    requires
        column matches Some(j) ==> j < 4,
        forall|b: int| 0 <= b < 4 ==> row[b] < usize::MAX,
    ensures
        forall|b: int|
            0 <= b < 4 ==> #[trigger] raised[b] == if column is None || column == Some(
                b as usize,
            ) {
                row[b] + 1
            } else {
                row[b] as int
            },
{
    let mut raised = row;
    match column {
        Some(j) => {
            raised[j] = row[j] + 1;
        },
        None => {
            raised[0] = row[0] + 1;
            raised[1] = row[1] + 1;
            raised[2] = row[2] + 1;
            raised[3] = row[3] + 1;
        },
    }
    raised
}

/// The matrix of positional nucleotide counts of the records. The first
/// record gives the width of the matrix. Row `i` holds, column by column,
/// the number of the records whose byte at position `i` counts for the
/// column; a byte that is no nucleotide counts for all four. Bytes beyond
/// the width are passed over.
pub fn position_counts(records: &[Record]) -> (counts: Vec<[usize; 4]>)
    ensures
        counts.len() == width(records@),
        forall|i: int, b: int|
            0 <= i < counts.len() && 0 <= b < 4 ==> #[trigger] counts[i][b] == column_count(
                records@,
                i,
                b,
            ),
{
    let size = match get_sequence_size(records) {
        Some(size) => size,
        None => {
            return Vec::new();
        },
    };
    let mut counts: Vec<[usize; 4]> = Vec::new();
    let mut i: usize = 0;
    while i < size
        invariant
            i <= size,
            counts.len() == i,
            forall|p: int, b: int| 0 <= p < i && 0 <= b < 4 ==> #[trigger] counts[p][b] == 0,
        decreases size - i,
    {
        counts.push([0, 0, 0, 0]);
        i = i + 1;
    }
    let mut k: usize = 0;
    assert(records@.take(0) =~= Seq::empty());
    while k < records.len()
        invariant
            k <= records.len(),
            counts.len() == size,
            size == width(records@),
            forall|p: int, b: int|
                0 <= p < size && 0 <= b < 4 ==> #[trigger] counts[p][b] == column_count(
                    records@.take(k as int),
                    p,
                    b,
                ),
        decreases records.len() - k,
    {
        let ghost seen = records@.take(k as int);
        let ghost grown = records@.take(k + 1);
        proof {
            assert(grown.drop_last() =~= seen);
            assert(grown.last() == records@[k as int]);
        }
        let bound = if records[k].seq.len() < size {
            records[k].seq.len()
        } else {
            size
        };
        let mut idx: usize = 0;
        while idx < bound
            invariant
                idx <= bound <= size,
                bound <= records@[k as int].seq@.len(),
                k < records.len(),
                counts.len() == size,
                seen == records@.take(k as int),
                grown == records@.take(k + 1),
                grown.drop_last() == seen,
                grown.last() == records@[k as int],
                forall|p: int, b: int|
                    0 <= p < idx && 0 <= b < 4 ==> #[trigger] counts[p][b] == column_count(
                        grown,
                        p,
                        b,
                    ),
                forall|p: int, b: int|
                    idx <= p < size && 0 <= b < 4 ==> #[trigger] counts[p][b] == column_count(
                        seen,
                        p,
                        b,
                    ),
            decreases bound - idx,
        {
            let row = counts[idx];
            let column = base_map(records[k].seq[idx]);
            proof {
                assert forall|b: int| 0 <= b < 4 implies row[b] < usize::MAX by {
                    assert(counts[idx as int][b] == column_count(seen, idx as int, b));
                    lemma_column_count_bound(seen, idx as int, b);
                }
            }
            let raised = raise(row, column);
            counts.set(idx, raised);
            proof {
                assert forall|p: int, b: int| 0 <= p < idx + 1 && 0 <= b < 4 implies #[trigger]
                    counts[p][b] == column_count(grown, p, b) by {
                    if p == idx {
                        assert(raised[b] == column_count(grown, p, b));
                    }
                }
            }
            idx = idx + 1;
        }
        k = k + 1;
    }
    proof {
        assert(records@.take(k as int) =~= records@);
    }
    counts
}

} // verus!
