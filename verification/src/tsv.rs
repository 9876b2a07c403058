//! Tables as text: lines of tab-separated fields, and numbers in decimal
//! digits. What is written here can be read back.

use crate::lines::{LINE_FEED, TAB};
use vstd::prelude::*;

verus! {

/// A number in decimal digits, without leading zeros.
pub open spec fn decimal(n: nat) -> Seq<u8>
    decreases n,
{
    if n < 10 {
        seq![(0x30 + n) as u8]
    } else {
        decimal(n / 10).push((0x30 + n % 10) as u8)
    }
}

/// The fields of a line, joined by tabs.
pub open spec fn joined(fields: Seq<Seq<u8>>) -> Seq<u8>
    decreases fields.len(),
{
    if fields.len() == 0 {
        Seq::empty()
    } else if fields.len() == 1 {
        fields[0]
    } else {
        joined(fields.drop_last()) + seq![TAB] + fields.last()
    }
}

/// The lines of a table, each given by its fields and ended by a line feed.
pub open spec fn rendered(table: Seq<Seq<Seq<u8>>>) -> Seq<u8>
    decreases table.len(),
{
    if table.len() == 0 {
        Seq::empty()
    } else {
        rendered(table.drop_last()) + joined(table.last()) + seq![LINE_FEED]
    }
}

/// Appending a field to a line that has a field already appends a tab and
/// the field.
pub proof fn lemma_joined_push(fields: Seq<Seq<u8>>, field: Seq<u8>)
    requires
        fields.len() > 0,
    ensures
        joined(fields.push(field)) == joined(fields) + seq![TAB] + field,
{
    assert(fields.push(field).drop_last() =~= fields);
}

/// Appends a number in decimal digits to a byte vector.
pub fn append_decimal(accum: &mut Vec<u8>, n: usize)
    ensures
        final(accum)@ == old(accum)@ + decimal(n as nat),
{
    let mut digits: Vec<u8> = Vec::new();
    let mut rest: usize = n;
    while rest >= 10
        invariant
            forall|tail: Seq<u8>| #[trigger]
                (decimal(n as nat) + tail) == decimal(rest as nat) + digits@.reverse() + tail,
        decreases rest,
    {
        let digit: u8 = (rest % 10) as u8 + 0x30;
        let ghost before = digits@;
        digits.push(digit);
        proof {
            assert(digits@.reverse() =~= seq![digit] + before.reverse());
            assert forall|tail: Seq<u8>| #[trigger]
                (decimal(n as nat) + tail) == decimal((rest / 10) as nat) + digits@.reverse()
                    + tail by {
                assert(decimal(rest as nat) + before.reverse() + tail =~= decimal(
                    (rest / 10) as nat,
                ) + digits@.reverse() + tail);
            }
        }
        rest = rest / 10;
    }
    accum.push(rest as u8 + 0x30);
    let ghost head = accum@;
    let mut i: usize = digits.len();
    while i > 0
        invariant
            i <= digits.len(),
            accum@ == head + digits@.reverse().take(digits.len() - i),
        decreases i,
    {
        i = i - 1;
        accum.push(digits[i]);
        proof {
            assert(digits@.reverse().take(digits.len() - i) =~= digits@.reverse().take(
                digits.len() - i - 1,
            ).push(digits@[i as int]));
        }
    }
    proof {
        assert(digits@.reverse().take(digits.len() as int) =~= digits@.reverse());
        let tail = Seq::<u8>::empty();
        assert(decimal(n as nat) + tail == decimal(rest as nat) + digits@.reverse() + tail);
        assert(decimal(n as nat) + tail =~= decimal(n as nat));
        assert(accum@ =~= old(accum)@ + decimal(n as nat));
    }
}

/// The index of the last occurrence of a byte in a byte string, or -1 if
/// the byte does not occur.
pub open spec fn last_index_of(bytes: Seq<u8>, byte: u8) -> int
    decreases bytes.len(),
{
    if bytes.len() == 0 {
        -1
    } else if bytes.last() == byte {
        bytes.len() - 1
    } else {
        last_index_of(bytes.drop_last(), byte)
    }
}

/// The fields of a line: what stands between its tabs.
pub open spec fn fields_of(line: Seq<u8>) -> Seq<Seq<u8>>
    decreases line.len(),
{
    let at = last_index_of(line, TAB);
    if 0 <= at < line.len() {
        fields_of(line.take(at)).push(line.skip(at + 1))
    } else {
        seq![line]
    }
}

/// The lines of a text in which every line ends with a line feed, without
/// the line feeds. A text that does not end with a line feed has no lines.
pub open spec fn lines_in(text: Seq<u8>) -> Seq<Seq<u8>>
    decreases text.len(),
{
    if text.len() == 0 || text.last() != LINE_FEED {
        Seq::empty()
    } else {
        let body = text.drop_last();
        let at = last_index_of(body, LINE_FEED);
        if 0 <= at < body.len() {
            lines_in(body.take(at + 1)).push(body.skip(at + 1))
        } else {
            seq![body]
        }
    }
}

/// A text read as a table: its lines, each split into its fields.
pub open spec fn parsed(text: Seq<u8>) -> Seq<Seq<Seq<u8>>> {
    Seq::new(lines_in(text).len(), |i: int| fields_of(lines_in(text)[i]))
}

/// The number that decimal digits stand for.
pub open spec fn value_of(digits: Seq<u8>) -> nat
    decreases digits.len(),
{
    if digits.len() == 0 {
        0
    } else {
        (value_of(digits.drop_last()) * 10 + (digits.last() - 0x30)) as nat
    }
}

/// The byte string holds neither a tab nor a line feed, so that it can
/// stand as a field of a table.
pub open spec fn is_field(bytes: Seq<u8>) -> bool {
    forall|i: int| 0 <= i < bytes.len() ==> bytes[i] != TAB && bytes[i] != LINE_FEED
}

/// Every line of the table has a field, and every field can stand as one.
pub open spec fn is_table(table: Seq<Seq<Seq<u8>>>) -> bool {
    forall|i: int|
        0 <= i < table.len() ==> (#[trigger] table[i]).len() > 0 && forall|j: int|
            0 <= j < table[i].len() ==> is_field(#[trigger] table[i][j])
}

/// The last occurrence of a byte is at an index of the byte string where
/// the byte stands, and the byte does not occur after it.
pub proof fn lemma_last_index_of(bytes: Seq<u8>, byte: u8)
    ensures
        -1 <= last_index_of(bytes, byte) < bytes.len(),
        last_index_of(bytes, byte) >= 0 ==> bytes[last_index_of(bytes, byte)] == byte,
        forall|i: int| last_index_of(bytes, byte) < i < bytes.len() ==> bytes[i] != byte,
    decreases bytes.len(),
{
    if bytes.len() > 0 && bytes.last() != byte {
        let rest = bytes.drop_last();
        lemma_last_index_of(rest, byte);
        assert forall|i: int| last_index_of(bytes, byte) < i < bytes.len() implies bytes[i]
            != byte by {
            if i < rest.len() {
                assert(rest[i] == bytes[i]);
            }
        }
    }
}

/// Where a byte occurs and not after, there is its last occurrence.
pub proof fn lemma_last_index_is(bytes: Seq<u8>, byte: u8, at: int)
    requires
        -1 <= at < bytes.len(),
        at >= 0 ==> bytes[at] == byte,
        forall|i: int| at < i < bytes.len() ==> bytes[i] != byte,
    ensures
        last_index_of(bytes, byte) == at,
{
    lemma_last_index_of(bytes, byte);
}

/// A number is what its decimal digits stand for, and its decimal digits
/// are digits and can stand as a field.
pub proof fn lemma_decimal_round_trip(n: nat)
    ensures
        value_of(decimal(n)) == n,
        is_field(decimal(n)),
        decimal(n).len() > 0,
        forall|i: int| 0 <= i < decimal(n).len() ==> 0x30 <= #[trigger] decimal(n)[i] <= 0x39,
    decreases n,
{
    if n < 10 {
        assert(decimal(n).drop_last() =~= Seq::<u8>::empty());
        assert(value_of(decimal(n).drop_last()) == 0);
    } else {
        lemma_decimal_round_trip(n / 10);
        assert(decimal(n).drop_last() =~= decimal(n / 10));
    }
}

/// Fields joined by tabs hold no line feed.
pub proof fn lemma_joined_line(fields: Seq<Seq<u8>>)
    requires
        forall|j: int| 0 <= j < fields.len() ==> is_field(#[trigger] fields[j]),
    ensures
        forall|i: int| 0 <= i < joined(fields).len() ==> joined(fields)[i] != LINE_FEED,
    decreases fields.len(),
{
    let line = joined(fields);
    if fields.len() > 1 {
        let head = joined(fields.drop_last());
        let last = fields.last();
        lemma_joined_line(fields.drop_last());
        assert(is_field(last));
        assert forall|i: int| 0 <= i < line.len() implies line[i] != LINE_FEED by {
            if i < head.len() {
                assert(line[i] == head[i]);
            } else if i > head.len() {
                assert(line[i] == last[i - head.len() - 1]);
            }
        }
    } else if fields.len() == 1 {
        assert(is_field(fields[0]));
    }
}

/// Fields that are joined by tabs are found again between the tabs.
pub proof fn lemma_fields_round_trip(fields: Seq<Seq<u8>>)
    requires
        fields.len() > 0,
        forall|j: int| 0 <= j < fields.len() ==> is_field(#[trigger] fields[j]),
    ensures
        fields_of(joined(fields)) == fields,
    decreases fields.len(),
{
    let line = joined(fields);
    if fields.len() == 1 {
        assert(is_field(fields[0]));
        lemma_last_index_is(line, TAB, -1);
        assert(seq![line] =~= fields);
    } else {
        let head = joined(fields.drop_last());
        let last = fields.last();
        assert(is_field(last));
        lemma_last_index_is(line, TAB, head.len() as int);
        assert(line.take(head.len() as int) =~= head);
        assert(line.skip(head.len() as int + 1) =~= last);
        lemma_fields_round_trip(fields.drop_last());
        assert(fields.drop_last().push(last) =~= fields);
    }
}

/// A table as text is empty or ends with a line feed.
pub proof fn lemma_rendered_end(table: Seq<Seq<Seq<u8>>>)
    ensures
        table.len() == 0 ==> rendered(table).len() == 0,
        table.len() > 0 ==> rendered(table).len() > 0 && rendered(table).last() == LINE_FEED,
{
}

/// The lines of a table as text are the lines of the table, each with its
/// fields joined by tabs.
pub proof fn lemma_lines_round_trip(table: Seq<Seq<Seq<u8>>>)
    requires
        is_table(table),
    ensures
        lines_in(rendered(table)).len() == table.len(),
        forall|i: int| 0 <= i < table.len() ==> lines_in(rendered(table))[i] == joined(table[i]),
    decreases table.len(),
{
    if table.len() > 0 {
        let text = rendered(table);
        let before = rendered(table.drop_last());
        let line = joined(table.last());
        let body = text.drop_last();
        lemma_lines_round_trip(table.drop_last());
        lemma_rendered_end(table.drop_last());
        lemma_joined_line(table.last());
        assert(body =~= before + line);
        lemma_last_index_is(body, LINE_FEED, before.len() - 1);
        if before.len() > 0 {
            assert(body.take(before.len() as int) =~= before);
            assert(body.skip(before.len() as int) =~= line);
        } else {
            assert(body =~= line);
            assert(table.drop_last().len() == 0);
        }
        assert(lines_in(text) =~= lines_in(before).push(line));
    }
}

/// A table that is written as text is read back as it was: the same lines,
/// each with the same fields.
pub proof fn lemma_round_trip(table: Seq<Seq<Seq<u8>>>)
    requires
        is_table(table),
    ensures
        parsed(rendered(table)) == table,
{
    lemma_lines_round_trip(table);
    assert forall|i: int| 0 <= i < table.len() implies fields_of(lines_in(rendered(table))[i])
        == table[i] by {
        lemma_fields_round_trip(table[i]);
    }
    assert(parsed(rendered(table)) =~= table);
}

} // verus!
