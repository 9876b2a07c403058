//! Names of samples, and byte strings as text.

use crate::table::ByteSet;
use crate::tsv::{append_decimal, decimal, lemma_decimal_round_trip};
use vstd::pervasive::unreached;
use vstd::prelude::*;
use vstd::utf8::{
    decode_utf8, encode_utf8, encode_utf8_decode_utf8, encode_utf8_valid_utf8, is_ascii_chars,
    is_ascii_chars_encode_utf8, valid_utf8,
};

verus! {

/// The bytes are not UTF-8.
#[derive(Debug, Clone, Copy, PartialEq, Eq, Structural)]
pub struct InvalidUtf8;

/// The last component of a path: what stands after its last slash.
pub open spec fn base_name(path: Seq<char>) -> Seq<char>
    decreases path.len(),
{
    if path.len() == 0 || path.last() == '/' {
        Seq::empty()
    } else {
        base_name(path.drop_last()).push(path.last())
    }
}

/// The text ends with the suffix.
pub open spec fn ends_with(text: Seq<char>, suffix: Seq<char>) -> bool {
    suffix.len() <= text.len() && text.skip(text.len() - suffix.len()) == suffix
}

/// The text without the suffix at its end, taken off as often as it stands
/// there.
pub open spec fn trimmed(text: Seq<char>, suffix: Seq<char>) -> Seq<char>
    decreases text.len(),
{
    if suffix.len() > 0 && ends_with(text, suffix) {
        trimmed(text.take(text.len() - suffix.len()), suffix)
    } else {
        text
    }
}

/// The name of the sample of a path: the last component of the path,
/// without `.gz` at its end, then without `.fasta`, `.fastq`, `.fa` and
/// `.fq`, in this order.
pub open spec fn sample_name(path: Seq<char>) -> Seq<char> {
    let unzipped = trimmed(base_name(path), seq!['.', 'g', 'z']);
    let without_fasta = trimmed(unzipped, seq!['.', 'f', 'a', 's', 't', 'a']);
    let without_fastq = trimmed(without_fasta, seq!['.', 'f', 'a', 's', 't', 'q']);
    let without_fa = trimmed(without_fastq, seq!['.', 'f', 'a']);
    trimmed(without_fa, seq!['.', 'f', 'q'])
}

/// A number in decimal digits, as characters.
pub open spec fn decimal_chars(n: nat) -> Seq<char> {
    Seq::new(decimal(n).len(), |i: int| decimal(n)[i] as char)
}

/// The name of the sample at an index where the paths do not tell the
/// samples apart: `Sample.` and the index.
pub open spec fn numbered_name(index: nat) -> Seq<char> {
    seq!['S', 'a', 'm', 'p', 'l', 'e', '.'] + decimal_chars(index)
}

/// The names of the samples of the paths are all different.
pub open spec fn distinct_names(paths: Seq<String>) -> bool {
    forall|i: int, j: int|
        0 <= i < j < paths.len() ==> sample_name(#[trigger] paths[i]@) != sample_name(
            #[trigger] paths[j]@,
        )
}

/// The characters of a string.
pub(crate) fn characters(s: &str) -> (chars: Vec<char>)
    ensures
        chars@ == s@,
{
    let mut chars: Vec<char> = Vec::new();
    for c in it: s.chars()
        invariant
            it.seq() == s@,
            chars@ == s@.take(it.index() as int),
    {
        chars.push(c);
    }
    chars
}

/// `std::str::from_utf8`: the text that the bytes encode, if they are
/// UTF-8.
#[verifier::external_body]
fn from_utf8(bytes: &[u8]) -> (text: Option<&str>)
    ensures
        text.is_some() == valid_utf8(bytes@),
        text matches Some(s) ==> s@ == decode_utf8(bytes@),
{
    std::str::from_utf8(bytes).ok()
}

/// The text that a byte string encodes in UTF-8.
pub fn vec_to_nuc(vec: &[u8]) -> (result: Result<String, InvalidUtf8>)
    ensures
        result is Ok == valid_utf8(vec@),
        result matches Ok(text) ==> text@ == decode_utf8(vec@),
{
    match from_utf8(vec) {
        Some(text) => Ok(text.to_owned()),
        None => Err(InvalidUtf8),
    }
}

/// The index at which the last component of a path begins.
fn base_start(path: &Vec<char>) -> (start: usize)
    ensures
        start <= path.len(),
        path@.skip(start as int) == base_name(path@),
{
    let mut start: usize = path.len();
    while start > 0 && path[start - 1] != '/'
        invariant
            start <= path.len(),
            forall|k: int| start <= k < path.len() ==> path[k] != '/',
        decreases start,
    {
        start = start - 1;
    }
    proof {
        lemma_base_name(path@, start as int);
    }
    start
}

/// What stands after the last slash of a path is its last component.
proof fn lemma_base_name(path: Seq<char>, start: int)
    requires
        0 <= start <= path.len(),
        start > 0 ==> path[start - 1] == '/',
        forall|k: int| start <= k < path.len() ==> path[k] != '/',
    ensures
        path.skip(start) == base_name(path),
    decreases path.len(),
{
    if start == path.len() {
        assert(path.skip(start) =~= Seq::empty());
    } else {
        lemma_base_name(path.drop_last(), start);
        assert(path.skip(start) =~= path.drop_last().skip(start).push(path.last()));
    }
}

/// Whether the first `end` characters of a text end with the suffix.
fn ends_at(text: &Vec<char>, start: usize, end: usize, suffix: &Vec<char>) -> (found: bool)
    requires
        start <= end <= text.len(),
    ensures
        found == ends_with(text@.subrange(start as int, end as int), suffix@),
{
    let ghost part = text@.subrange(start as int, end as int);
    if suffix.len() > end - start {
        return false;
    }
    let from = end - suffix.len();
    let mut k: usize = 0;
    while k < suffix.len()
        invariant
            k <= suffix.len(),
            from + suffix.len() == end,
            start <= from,
            end <= text.len(),
            part == text@.subrange(start as int, end as int),
            forall|m: int| 0 <= m < k ==> text[from + m] == suffix[m],
        decreases suffix.len() - k,
    {
        if text[from + k] != suffix[k] {
            assert(part.skip(part.len() - suffix.len())[k as int] == text[from + k]);
            return false;
        }
        k = k + 1;
    }
    assert(part.skip(part.len() - suffix.len()) =~= suffix@);
    true
}

/// The end of a text once the suffix is taken off its end as often as it
/// stands there.
fn trim_end(text: &Vec<char>, start: usize, end: usize, suffix: &str) -> (trimmed_end: usize)
    requires
        start <= end <= text.len(),
    ensures
        start <= trimmed_end <= end,
        text@.subrange(start as int, trimmed_end as int) == trimmed(
            text@.subrange(start as int, end as int),
            suffix@,
        ),
{
    let pattern = characters(suffix);
    let mut at: usize = end;
    if pattern.len() == 0 {
        return at;
    }
    while ends_at(text, start, at, &pattern)
        invariant
            start <= at <= end,
            end <= text.len(),
            pattern@ == suffix@,
            pattern.len() > 0,
            trimmed(text@.subrange(start as int, at as int), suffix@) == trimmed(
                text@.subrange(start as int, end as int),
                suffix@,
            ),
        decreases at,
    {
        proof {
            let part = text@.subrange(start as int, at as int);
            assert(part.take(part.len() - pattern.len()) =~= text@.subrange(
                start as int,
                at - pattern.len(),
            ));
        }
        at = at - pattern.len();
    }
    at
}

/// The name of the sample of a path.
fn name_of(path: &String) -> (name: String)
    ensures
        name@ == sample_name(path@),
{
    let text = characters(path.as_str());
    let start = base_start(&text);
    let end = text.len();
    proof {
        reveal_strlit(".gz");
        reveal_strlit(".fasta");
        reveal_strlit(".fastq");
        reveal_strlit(".fa");
        reveal_strlit(".fq");
        assert(text@.subrange(start as int, end as int) =~= base_name(path@));
        assert(".gz"@ =~= seq!['.', 'g', 'z']);
        assert(".fasta"@ =~= seq!['.', 'f', 'a', 's', 't', 'a']);
        assert(".fastq"@ =~= seq!['.', 'f', 'a', 's', 't', 'q']);
        assert(".fa"@ =~= seq!['.', 'f', 'a']);
        assert(".fq"@ =~= seq!['.', 'f', 'q']);
    }
    let end = trim_end(&text, start, end, ".gz");
    let end = trim_end(&text, start, end, ".fasta");
    let end = trim_end(&text, start, end, ".fastq");
    let end = trim_end(&text, start, end, ".fa");
    let end = trim_end(&text, start, end, ".fq");
    path.as_str().substring_char(start, end).to_owned()
}

/// The name `Sample.` and the index.
fn numbered(index: usize) -> (name: String)
    ensures
        name@ == numbered_name(index as nat),
{
    let mut bytes: Vec<u8> = Vec::new();
    bytes.push(0x53);
    bytes.push(0x61);
    bytes.push(0x6d);
    bytes.push(0x70);
    bytes.push(0x6c);
    bytes.push(0x65);
    bytes.push(0x2e);
    append_decimal(&mut bytes, index);
    proof {
        let chars = numbered_name(index as nat);
        lemma_decimal_round_trip(index as nat);
        assert(is_ascii_chars(chars)) by {
            assert forall|i: int| 0 <= i < chars.len() implies '\0' <= #[trigger] chars[i]
                <= '\u{7f}' by {
                if i >= 7 {
                    assert(chars[i] == decimal(index as nat)[i - 7] as char);
                }
            }
        }
        is_ascii_chars_encode_utf8(chars);
        assert(encode_utf8(chars) =~= bytes@) by {
            assert forall|i: int| 0 <= i < chars.len() implies chars[i] as u8 == bytes@[i] by {
                if i >= 7 {
                    assert(chars[i] == decimal(index as nat)[i - 7] as char);
                }
            }
        }
        encode_utf8_valid_utf8(chars);
        encode_utf8_decode_utf8(chars);
    }
    match from_utf8(bytes.as_slice()) {
        Some(text) => text.to_owned(),
        None => unreached(),
    }
}

/// The names of the samples of the given paths: for each path its last
/// component without the endings of sequence files, or, if two paths give
/// one name, for each path `Sample.` and its index.
pub fn generate_sample_names(input_paths: &[String]) -> (names: Vec<String>)
    ensures
        names.len() == input_paths.len(),
        forall|i: int|
            0 <= i < names.len() ==> (#[trigger] names[i])@ == if distinct_names(input_paths@) {
                sample_name(input_paths[i]@)
            } else {
                numbered_name(i as nat)
            },
{
    let mut base_names: Vec<String> = Vec::new();
    let mut seen = ByteSet::new();
    let mut distinct = true;
    let mut i: usize = 0;
    while i < input_paths.len()
        invariant
            i <= input_paths.len(),
            base_names.len() == i,
            forall|k: int|
                0 <= k < i ==> (#[trigger] base_names[k])@ == sample_name(input_paths[k]@),
            forall|n: Seq<u8>| #[trigger]
                seen@.contains(n) <==> exists|k: int|
                    0 <= k < i && n == encode_utf8(sample_name(#[trigger] input_paths[k]@)),
            distinct == distinct_names(input_paths@.take(i as int)),
        decreases input_paths.len() - i,
    {
        let name = name_of(&input_paths[i]);
        let ghost before = seen@;
        let fresh = seen.insert(name.as_str().as_bytes_vec());
        proof {
            let paths = input_paths@;
            let seen_paths = paths.take(i as int);
            let grown = paths.take(i + 1);
            let bytes = encode_utf8(name@);
            assert forall|n: Seq<u8>| #[trigger]
                seen@.contains(n) <==> exists|k: int|
                    0 <= k < i + 1 && n == encode_utf8(sample_name(#[trigger] paths[k]@)) by {
                if before.contains(n) {
                    let k = choose|k: int|
                        0 <= k < i && n == encode_utf8(sample_name(#[trigger] paths[k]@));
                    assert(n == encode_utf8(sample_name(paths[k]@)));
                }
                if n == bytes {
                    assert(n == encode_utf8(sample_name(paths[i as int]@)));
                }
            }
            if fresh && distinct {
                assert forall|a: int, b: int| 0 <= a < b < grown.len() implies sample_name(
                    #[trigger] grown[a]@,
                ) != sample_name(#[trigger] grown[b]@) by {
                    if b < i {
                        assert(sample_name(seen_paths[a]@) != sample_name(seen_paths[b]@));
                    } else {
                        if sample_name(paths[a]@) == sample_name(paths[b]@) {
                            assert(bytes == encode_utf8(sample_name(paths[a]@)));
                            assert(before.contains(bytes));
                        }
                    }
                }
            } else if !fresh {
                let k = choose|k: int|
                    0 <= k < i && bytes == encode_utf8(sample_name(#[trigger] paths[k]@));
                encode_utf8_decode_utf8(sample_name(paths[k]@));
                encode_utf8_decode_utf8(name@);
                assert(sample_name(grown[k]@) == sample_name(grown[i as int]@));
            } else {
                let (a, b) = choose|a: int, b: int|
                    0 <= a < b < seen_paths.len() && sample_name(#[trigger] seen_paths[a]@)
                        == sample_name(#[trigger] seen_paths[b]@);
                assert(sample_name(grown[a]@) == sample_name(grown[b]@));
            }
        }
        distinct = distinct && fresh;
        base_names.push(name);
        i = i + 1;
    }
    proof {
        assert(input_paths@.take(i as int) =~= input_paths@);
    }
    if distinct {
        base_names
    } else {
        let mut simple_names: Vec<String> = Vec::new();
        let mut k: usize = 0;
        while k < input_paths.len()
            invariant
                k <= input_paths.len(),
                simple_names.len() == k,
                forall|m: int|
                    0 <= m < k ==> (#[trigger] simple_names[m])@ == numbered_name(m as nat),
            decreases input_paths.len() - k,
        {
            simple_names.push(numbered(k));
            k = k + 1;
        }
        simple_names
    }
}

} // verus!
