//! The line assembler: cuts the source into physical lines.
//!
//! A physical line runs up to and including the next line feed, or to the end
//! of the source. A trailing carriage return at the end of the source is
//! dropped, and a closing CR LF becomes a single LF.
use vstd::prelude::*;
use crate::bytes::{find_byte, index_of, CR, LF};

verus! {

/// Index just past the end of the raw line that starts at `start`.
pub open spec fn raw_end(s: Seq<u8>, start: int) -> int {
    let k = index_of(s.subrange(start, s.len() as int), LF);
    if k < 0 {
        s.len() as int
    } else {
        start + k + 1
    }
}

/// Drops a carriage return that ends the source.
pub open spec fn trim_last_cr(raw: Seq<u8>) -> Seq<u8> {
    if raw.len() > 0 && raw.last() == CR {
        raw.drop_last()
    } else {
        raw
    }
}

/// Turns a closing CR LF into a single LF.
pub open spec fn fold_crlf(l: Seq<u8>) -> Seq<u8> {
    let n = l.len() as int;
    if n >= 2 && l[n - 2] == CR && l[n - 1] == LF {
        l.subrange(0, n - 2).push(LF)
    } else {
        l
    }
}

/// The physical line that starts at `start`; empty at the end of the source.
pub open spec fn phys_line(s: Seq<u8>, start: int) -> Seq<u8> {
    if start >= s.len() {
        Seq::empty()
    } else {
        fold_crlf(trim_last_cr(s.subrange(start, raw_end(s, start))))
    }
}

/// Where the physical line after the one at `start` begins.
pub open spec fn next_start(s: Seq<u8>, start: int) -> int {
    if start >= s.len() {
        start
    } else {
        raw_end(s, start)
    }
}

/// The end-of-source flag of the line at `start`: set when the source is
/// exhausted, or when the line is the last one, ends without LF, and had no
/// trailing CR to drop.
pub open spec fn line_at_end(s: Seq<u8>, start: int) -> bool {
    start >= s.len() || (raw_end(s, start) == s.len() && s.last() != LF && s.last() != CR)
}

/// Bytes of the source that the line at `start` accounts for (a dropped
/// trailing CR is not counted).
pub open spec fn consumed(s: Seq<u8>, start: int) -> nat {
    if start >= s.len() {
        0
    } else {
        trim_last_cr(s.subrange(start, raw_end(s, start))).len()
    }
}

/// The byte offset once the lines before `cursor` are read: the bytes they
/// account for, that is all of them but a trailing CR of the source, which
/// the last line drops.
pub open spec fn offset_at(s: Seq<u8>, cursor: int) -> int {
    if cursor == s.len() && s.len() > 0 && s.last() == CR {
        cursor - 1
    } else {
        cursor
    }
}

/// Reading the line at `start` advances the offset by the bytes it accounts
/// for.
pub proof fn lemma_offset_step(s: Seq<u8>, start: int)
    requires
        0 <= start <= s.len(),
    ensures
        offset_at(s, next_start(s, start)) == offset_at(s, start) + consumed(s, start),
        0 <= offset_at(s, start) <= start,
{
    if start < s.len() {
        lemma_raw_end(s, start);
        let e = raw_end(s, start);
        let raw = s.subrange(start, e);
        if e < s.len() {
            assert(raw.last() == s[e - 1]);
        } else {
            assert(raw.last() == s.last());
        }
    }
}

/// The bytes left to read from `cursor` on.
pub open spec fn remaining(s: Seq<u8>, cursor: int) -> nat {
    if cursor < s.len() {
        (s.len() - cursor) as nat
    } else {
        0
    }
}

pub proof fn lemma_raw_end(s: Seq<u8>, start: int)
    requires
        0 <= start < s.len(),
    ensures
        start < raw_end(s, start) <= s.len(),
        raw_end(s, start) < s.len() ==> s[raw_end(s, start) - 1] == LF,
        forall|j: int| start <= j < raw_end(s, start) - 1 ==> s[j] != LF,
        s[raw_end(s, start) - 1] != LF ==> raw_end(s, start) == s.len(),
{
    let rest = s.subrange(start, s.len() as int);
    crate::bytes::lemma_index_of(rest, LF);
    assert forall|j: int| start <= j < raw_end(s, start) - 1 implies s[j] != LF by {
        assert(s[j] == rest[j - start]);
    }
}

/// Reading a line moves forward, or yields an empty line at the end.
pub proof fn lemma_line_progress(s: Seq<u8>, start: int)
    requires
        0 <= start,
    ensures
        start <= next_start(s, start),
        next_start(s, start) <= s.len() || next_start(s, start) == start,
        remaining(s, next_start(s, start)) < remaining(s, start) || (phys_line(s, start).len() == 0
            && next_start(s, start) == start),
        phys_line(s, start).len() + remaining(s, next_start(s, start)) <= remaining(s, start),
        consumed(s, start) <= remaining(s, start),
        start + consumed(s, start) <= next_start(s, start),
{
    if start < s.len() {
        lemma_raw_end(s, start);
    }
}

/// Reads the physical line that starts at `start`. Returns the line, where the
/// next one starts, and how many source bytes it accounts for.
pub fn read_physical_line(src: &[u8], start: usize) -> (r: (Vec<u8>, usize, usize))
    requires
        start <= src@.len(),
    ensures
        r.0@ == phys_line(src@, start as int),
        r.1 == next_start(src@, start as int),
        r.2 == consumed(src@, start as int),
{
    let n = src.len();
    let mut line: Vec<u8> = Vec::new();
    if start >= n {
        return (line, start, 0);
    }
    proof {
        lemma_raw_end(src@, start as int);
    }
    let end: usize = match find_byte(LF, src, start) {
        Some(i) => i + 1,
        None => n,
    };
    assert(end == raw_end(src@, start as int));
    let mut k: usize = start;
    while k < end
        invariant
            start <= k <= end <= n,
            n == src@.len(),
            line@ == src@.subrange(start as int, k as int),
        decreases end - k,
    {
        line.push(src[k]);
        k = k + 1;
    }
    assert(line@ == src@.subrange(start as int, raw_end(src@, start as int)));
    let len = line.len();
    if len > 0 && line[len - 1] == CR {
        line.pop();
    }
    let used = line.len();
    let m = line.len();
    if m >= 2 && line[m - 2] == CR && line[m - 1] == LF {
        line.pop();
        line.pop();
        line.push(LF);
    }
    proof {
        let t = trim_last_cr(src@.subrange(start as int, raw_end(src@, start as int)));
        if m >= 2 && t[m - 2] == CR && t[m - 1] == LF {
            assert(line@ =~= t.subrange(0, m - 2).push(LF));
        }
    }
    (line, end, used)
}

} // verus!
