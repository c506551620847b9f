//! Byte-level helpers shared by the reader and the writer.
use vstd::prelude::*;

verus! {

/// Line feed.
pub const LF: u8 = 10;

/// Carriage return.
pub const CR: u8 = 13;

/// The double quote that opens and closes a quoted field.
pub const QUOTE: u8 = 34;

/// Index of the first occurrence of `b` in `s`, or -1 when `b` does not occur.
pub open spec fn index_of(s: Seq<u8>, b: u8) -> int
    decreases s.len(),
{
    if s.len() == 0 {
        -1
    } else if s[0] == b {
        0
    } else {
        let r = index_of(s.drop_first(), b);
        if r < 0 {
            -1
        } else {
            r + 1
        }
    }
}

/// `index_of` is characterised by "first occurrence".
pub proof fn lemma_index_of(s: Seq<u8>, b: u8)
    ensures
        -1 <= index_of(s, b) < s.len(),
        index_of(s, b) >= 0 ==> s[index_of(s, b)] == b,
        forall|j: int| 0 <= j < s.len() && (index_of(s, b) < 0 || j < index_of(s, b)) ==> s[j] != b,
    decreases s.len(),
{
    if s.len() > 0 && s[0] != b {
        lemma_index_of(s.drop_first(), b);
        assert forall|j: int| 0 <= j < s.len() && (index_of(s, b) < 0 || j < index_of(s, b)) implies s[j] != b by {
            if j > 0 {
                assert(s[j] == s.drop_first()[j - 1]);
            }
        }
    }
}

/// Any index that is a first occurrence is the one `index_of` gives.
pub proof fn lemma_index_of_first(s: Seq<u8>, b: u8, i: int)
    requires
        0 <= i < s.len(),
        s[i] == b,
        forall|j: int| 0 <= j < i ==> s[j] != b,
    ensures
        index_of(s, b) == i,
{
    lemma_index_of(s, b);
}

/// When `b` does not occur, `index_of` is -1.
pub proof fn lemma_index_of_absent(s: Seq<u8>, b: u8)
    requires
        forall|j: int| 0 <= j < s.len() ==> s[j] != b,
    ensures
        index_of(s, b) == -1,
{
    lemma_index_of(s, b);
}

/// Relies on memchr::memchr: it returns the index of the first occurrence of
/// `needle` in the haystack, or `None` when there is none. The haystack is
/// `hay[from..]`, and the index returned is relative to `from`.
#[verifier::external_body]
fn memchr_from(needle: u8, hay: &[u8], from: usize) -> (r: Option<usize>)
    requires
        from <= hay@.len(),
    ensures
        match r {
            Some(i) => from + i < hay@.len() && hay@[from + i] == needle && forall|j: int|
                from <= j < from + i ==> hay@[j] != needle,
            None => forall|j: int| from <= j < hay@.len() ==> hay@[j] != needle,
        },
{
    memchr::memchr(needle, &hay[from..])
}

/// Absolute index of the first `needle` at or after `from` in `hay`.
pub fn find_byte(needle: u8, hay: &[u8], from: usize) -> (r: Option<usize>)
    requires
        from <= hay@.len(),
    ensures
        match r {
            Some(i) => from <= i < hay@.len() && i == from + index_of(hay@.subrange(from as int, hay@.len() as int), needle),
            None => index_of(hay@.subrange(from as int, hay@.len() as int), needle) == -1,
        },
{
    let n = hay.len();
    let r = memchr_from(needle, hay, from);
    let ghost rest = hay@.subrange(from as int, hay@.len() as int);
    match r {
        Some(i) => {
            proof {
                lemma_index_of_first(rest, needle, i as int);
            }
            Some(from + i)
        },
        None => {
            proof {
                lemma_index_of_absent(rest, needle);
            }
            None
        },
    }
}

/// The byte contents of a list of fields.
pub open spec fn views(v: Seq<Vec<u8>>) -> Seq<Seq<u8>> {
    v.map_values(|f: Vec<u8>| f@)
}

/// 1 when `s` ends with a line feed, else 0.
pub open spec fn spec_length_nl(s: Seq<u8>) -> nat {
    if s.len() > 0 && s.last() == LF {
        1
    } else {
        0
    }
}

/// Length of the line feed that ends `b`: 1 when its last byte is LF, else 0.
pub fn length_nl(b: &[u8]) -> (r: usize)
    ensures
        r == spec_length_nl(b@),
{
    if b.len() > 0 && b[b.len() - 1] == LF {
        1
    } else {
        0
    }
}

} // verus!
