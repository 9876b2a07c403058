//! Lines and bytes of a byte string, as `bstr` finds them.

use bstr::ByteSlice;
use vstd::prelude::*;

verus! {

/// The byte that separates the fields of a line: a tab.
pub const TAB: u8 = 0x09;

/// The byte that ends a line: a line feed.
pub const LINE_FEED: u8 = 0x0a;

/// The byte that may stand before the line feed: a carriage return.
pub const CARRIAGE_RETURN: u8 = 0x0d;

/// The index of the first occurrence of a byte in a byte string, or the
/// length of the byte string if the byte does not occur.
pub open spec fn first_index_of(bytes: Seq<u8>, byte: u8) -> int
    decreases bytes.len(),
{
    if bytes.len() == 0 {
        0
    } else if bytes[0] == byte {
        0
    } else {
        1 + first_index_of(bytes.skip(1), byte)
    }
}

/// A line without its terminator: a line feed at its end, and a carriage
/// return before that line feed.
pub open spec fn without_terminator(line: Seq<u8>) -> Seq<u8> {
    if line.len() > 0 && line.last() == LINE_FEED {
        let body = line.drop_last();
        if body.len() > 0 && body.last() == CARRIAGE_RETURN {
            body.drop_last()
        } else {
            body
        }
    } else {
        line
    }
}

/// The lines of a byte string, without their terminators. A line ends with
/// a line feed or with the byte string.
pub open spec fn lines_of(bytes: Seq<u8>) -> Seq<Seq<u8>>
    decreases bytes.len(),
{
    if bytes.len() == 0 {
        Seq::empty()
    } else {
        let end = first_index_of(bytes, LINE_FEED);
        if 0 <= end < bytes.len() {
            seq![without_terminator(bytes.take(end + 1))] + lines_of(bytes.skip(end + 1))
        } else {
            seq![bytes]
        }
    }
}

/// `items` holds the byte strings `lines`, in their order.
pub open spec fn holds_lines(items: Seq<Vec<u8>>, lines: Seq<Seq<u8>>) -> bool {
    &&& items.len() == lines.len()
    &&& forall|i: int| 0 <= i < items.len() ==> (#[trigger] items[i])@ == lines[i]
}

/// The first occurrence of the byte is at an index of the byte string, or
/// the byte does not occur.
pub proof fn lemma_first_index_of(bytes: Seq<u8>, byte: u8)
    ensures
        0 <= first_index_of(bytes, byte) <= bytes.len(),
        first_index_of(bytes, byte) < bytes.len() ==> bytes[first_index_of(bytes, byte)] == byte,
        forall|i: int| 0 <= i < first_index_of(bytes, byte) ==> bytes[i] != byte,
    decreases bytes.len(),
{
    if bytes.len() > 0 && bytes[0] != byte {
        let rest = bytes.skip(1);
        lemma_first_index_of(rest, byte);
        assert forall|i: int| 0 <= i < first_index_of(bytes, byte) implies bytes[i] != byte by {
            if i > 0 {
                assert(rest[i - 1] == bytes[i]);
            }
        }
    }
}

/// `ByteSlice::find_byte`: the index of the first occurrence of the byte,
/// or nothing if the byte does not occur.
#[verifier::external_body]
pub(crate) fn find_byte(haystack: &[u8], byte: u8) -> (found: Option<usize>)
    ensures
        found matches Some(i) ==> i == first_index_of(haystack@, byte) && i < haystack@.len(),
        found is None ==> first_index_of(haystack@, byte) == haystack@.len(),
{
    haystack.find_byte(byte)
}

/// `ByteSlice::lines`, each line copied out: the lines of the byte string in
/// their order, each without its terminator, which is a line feed or a
/// carriage return and a line feed.
#[verifier::external_body]
pub(crate) fn byte_lines(buffer: &[u8]) -> (lines: Vec<Vec<u8>>)
    ensures
        holds_lines(lines@, lines_of(buffer@)),
{
    buffer.lines().map(|line| line.to_vec()).collect()
}

} // verus!
