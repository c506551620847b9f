//! The record parser as a state machine over physical lines.
//!
//! `step` performs one move of the machine; `run` applies it until the record
//! ends or an error is found. The reader's executable parser is proved to make
//! exactly these moves.
use vstd::prelude::*;
use crate::bytes::{index_of, spec_length_nl, QUOTE};
use crate::err::ErrorKind;
use crate::line::{lemma_line_progress, next_start, phys_line, remaining};
use crate::line::lemma_raw_end;

verus! {

/// One more, but never past `usize::MAX`.
pub open spec fn bump(n: int) -> int {
    if n < usize::MAX {
        n + 1
    } else {
        n
    }
}

/// The parser's state inside one record.
pub struct Scan {
    /// The bytes of the current physical line not yet consumed.
    pub line: Seq<u8>,
    /// Where the next physical line starts in the source.
    pub cursor: int,
    /// Physical lines read so far.
    pub num_line: int,
    /// The line of the current position.
    pub pos_line: int,
    /// The column of the current position.
    pub col: int,
    /// Whether a quoted field is open.
    pub quoted: bool,
    /// The bytes of the field being read.
    pub field: Seq<u8>,
    /// The fields already complete.
    pub fields: Seq<Seq<u8>>,
}

pub enum Move {
    Next(Scan),
    Done(Scan),
    Fail(ErrorKind),
}

/// The bytes of an unquoted field at the start of `line`: up to the delimiter,
/// or up to the line feed that ends the line.
pub open spec fn unquoted_bytes(line: Seq<u8>, comma: u8) -> Seq<u8> {
    let i = index_of(line, comma);
    if i < 0 {
        line.subrange(0, line.len() - spec_length_nl(line))
    } else {
        line.subrange(0, i)
    }
}

/// One move of the parser over `src` with delimiter `comma`.
pub open spec fn step(src: Seq<u8>, comma: u8, lazy: bool, st: Scan) -> Move {
    if !st.quoted {
        if st.line.len() == 0 || st.line[0] != QUOTE {
            let i = index_of(st.line, comma);
            let fb = unquoted_bytes(st.line, comma);
            let j = index_of(fb, QUOTE);
            if !lazy && j >= 0 {
                Move::Fail(ErrorKind::ErrQuote(st.num_line as usize, (st.col + j) as usize))
            } else if i >= 0 {
                Move::Next(Scan { line: st.line.skip(i + 1), col: st.col + i + 1, fields: st.fields.push(fb), ..st })
            } else {
                Move::Done(Scan { fields: st.fields.push(fb), ..st })
            }
        } else {
            Move::Next(
                Scan {
                    line: st.line.skip(1),
                    col: st.col + 1,
                    quoted: true,
                    field: Seq::empty(),
                    ..st
                },
            )
        }
    } else {
        let i = index_of(st.line, QUOTE);
        if i >= 0 {
            let field = st.field + st.line.subrange(0, i);
            let rest = st.line.skip(i + 1);
            let col = st.col + i + 1;
            if rest.len() > 0 && rest[0] == QUOTE {
                Move::Next(Scan { line: rest.skip(1), col: col + 1, field: field.push(QUOTE), ..st })
            } else if rest.len() > 0 && rest[0] == comma {
                Move::Next(
                    Scan {
                        line: rest.skip(1),
                        col: col + 1,
                        quoted: false,
                        field: Seq::empty(),
                        fields: st.fields.push(field),
                        ..st
                    },
                )
            } else if spec_length_nl(rest) == rest.len() {
                Move::Done(Scan { line: rest, col, quoted: false, field: Seq::empty(), fields: st.fields.push(field), ..st })
            } else if lazy {
                Move::Next(Scan { line: rest, col, field: field.push(QUOTE), ..st })
            } else {
                Move::Fail(ErrorKind::ErrQuote(st.num_line as usize, (col - 1) as usize))
            }
        } else if st.line.len() > 0 {
            let next = phys_line(src, st.cursor);
            Move::Next(
                Scan {
                    line: next,
                    cursor: next_start(src, st.cursor),
                    num_line: bump(st.num_line),
                    pos_line: if next.len() > 0 { bump(st.pos_line) } else { st.pos_line },
                    col: if next.len() > 0 { 1 } else { st.col + st.line.len() },
                    field: st.field + st.line,
                    ..st
                },
            )
        } else if !lazy {
            Move::Fail(ErrorKind::ErrQuote(st.pos_line as usize, st.col as usize))
        } else {
            Move::Done(Scan { quoted: false, field: Seq::empty(), fields: st.fields.push(st.field), ..st })
        }
    }
}

/// A state that `step` can work on.
pub open spec fn scan_wf(src: Seq<u8>, st: Scan) -> bool {
    &&& 0 <= st.cursor
    &&& st.cursor <= src.len()
    &&& 1 <= st.col
    &&& st.line.len() + st.col <= src.len() + 1
    &&& 0 <= st.pos_line <= usize::MAX
    &&& 0 <= st.num_line <= usize::MAX
    &&& st.fields.len() + st.line.len() + remaining(src, st.cursor) <= src.len() + 1
    &&& src.len() <= isize::MAX
}

/// A state in which a record has ended.
pub open spec fn done_wf(src: Seq<u8>, st: Scan) -> bool {
    &&& 0 <= st.cursor <= src.len()
    &&& 1 <= st.col <= src.len() + 1
    &&& 0 <= st.num_line <= usize::MAX
    &&& 1 <= st.fields.len() <= src.len() + 2
}

/// The measure that every move of the parser decreases.
pub open spec fn measure(src: Seq<u8>, st: Scan) -> (nat, nat) {
    (remaining(src, st.cursor), st.line.len())
}

/// Each move keeps the state well formed and makes progress.
pub proof fn lemma_step(src: Seq<u8>, comma: u8, lazy: bool, st: Scan)
    requires
        scan_wf(src, st),
    ensures
        match step(src, comma, lazy, st) {
            Move::Next(s2) => scan_wf(src, s2) && (remaining(src, s2.cursor) < remaining(src, st.cursor)
                || (remaining(src, s2.cursor) == remaining(src, st.cursor) && s2.line.len() < st.line.len())),
            Move::Done(s2) => done_wf(src, s2) && s2.cursor == st.cursor && s2.fields.len() == st.fields.len() + 1,
            Move::Fail(_) => true,
        },
{
    crate::bytes::lemma_index_of(st.line, comma);
    crate::bytes::lemma_index_of(st.line, QUOTE);
    lemma_line_progress(src, st.cursor);
}

/// Runs the parser from `st` until the record ends.
pub open spec fn run(src: Seq<u8>, comma: u8, lazy: bool, st: Scan) -> Result<Scan, ErrorKind>
    decreases remaining(src, st.cursor), st.line.len(),
    when scan_wf(src, st)
{
    proof {
        lemma_step(src, comma, lazy, st);
    }
    match step(src, comma, lazy, st) {
        Move::Next(s2) => run(src, comma, lazy, s2),
        Move::Done(s2) => Ok(s2),
        Move::Fail(e) => Err(e),
    }
}

/// Cursor and line count never go back while a record is read.
pub proof fn lemma_run_forward(src: Seq<u8>, comma: u8, lazy: bool, st: Scan)
    requires
        scan_wf(src, st),
    ensures
        run(src, comma, lazy, st) matches Ok(end) ==> done_wf(src, end) && st.cursor <= end.cursor,
    decreases remaining(src, st.cursor), st.line.len(),
{
    lemma_step(src, comma, lazy, st);
    lemma_line_progress(src, st.cursor);
    match step(src, comma, lazy, st) {
        Move::Next(s2) => {
            lemma_run_forward(src, comma, lazy, s2);
        },
        _ => {},
    }
}

/// The first non-blank physical line at or after `cursor`.
pub struct Start {
    pub line: Seq<u8>,
    pub cursor: int,
    pub num_line: int,
    /// No such line: the source is exhausted.
    pub eof: bool,
    /// The end-of-source flag of that line.
    pub last: bool,
}

/// Reads physical lines from `cursor`, skipping blank ones (a lone LF, or
/// nothing), until a line with content or the end of the source.
pub open spec fn first_line(src: Seq<u8>, cursor: int, num_line: int) -> Start
    decreases remaining(src, cursor),
{
    if cursor < 0 || cursor >= src.len() {
        Start { line: Seq::empty(), cursor, num_line: bump(num_line), eof: true, last: true }
    } else {
        let l = phys_line(src, cursor);
        proof {
            lemma_raw_end(src, cursor);
        }
        if l.len() == spec_length_nl(l) {
            first_line(src, next_start(src, cursor), bump(num_line))
        } else {
            Start {
                line: l,
                cursor: next_start(src, cursor),
                num_line: bump(num_line),
                eof: false,
                last: crate::line::line_at_end(src, cursor),
            }
        }
    }
}

pub proof fn lemma_first_line(src: Seq<u8>, cursor: int, num_line: int)
    requires
        0 <= cursor <= src.len(),
        0 <= num_line <= usize::MAX,
    ensures
        ({
            let s = first_line(src, cursor, num_line);
            &&& cursor <= s.cursor <= src.len()
            &&& 0 <= s.num_line <= usize::MAX
            &&& s.eof <==> s.cursor == src.len() && s.line.len() == 0
            &&& !s.eof ==> cursor < s.cursor && s.line.len() + remaining(src, s.cursor) <= remaining(src, cursor)
                && s.line.len() > 0
            &&& s.last ==> s.cursor == src.len()
        }),
    decreases remaining(src, cursor),
{
    if cursor < src.len() {
        lemma_raw_end(src, cursor);
        lemma_line_progress(src, cursor);
        let l = phys_line(src, cursor);
        if l.len() == spec_length_nl(l) {
            lemma_first_line(src, next_start(src, cursor), bump(num_line));
        }
    }
}

/// What the reader keeps between records.
pub struct Progress {
    pub cursor: int,
    pub num_line: int,
    pub field_per_record: int,
}

/// What reading one record gives: its fields (none when the source was
/// already exhausted), the end-of-source flag, and the progress after it.
pub struct RecordOut {
    pub fields: Seq<Seq<u8>>,
    pub is_eof: bool,
    pub next: Progress,
}

/// The parser's state at the start of the record held by `s`.
pub open spec fn start_scan(s: Start) -> Scan {
    Scan {
        line: s.line,
        cursor: s.cursor,
        num_line: s.num_line,
        pos_line: s.num_line,
        col: 1,
        quoted: false,
        field: Seq::empty(),
        fields: Seq::empty(),
    }
}

/// Reads one record: skips blank lines, parses the fields, and applies the
/// field-count policy.
pub open spec fn read_record_spec(src: Seq<u8>, comma: u8, lazy: bool, allow: bool, pr: Progress) -> Result<
    RecordOut,
    ErrorKind,
> {
    let s = first_line(src, pr.cursor, pr.num_line);
    if s.eof {
        Ok(
            RecordOut {
                fields: Seq::empty(),
                is_eof: true,
                next: Progress { cursor: s.cursor, num_line: s.num_line, ..pr },
            },
        )
    } else {
        match run(src, comma, lazy, start_scan(s)) {
            Err(e) => Err(e),
            Ok(end) => {
                let n = end.fields.len() as int;
                let next = Progress { cursor: end.cursor, num_line: end.num_line, ..pr };
                if allow {
                    Ok(RecordOut { fields: end.fields, is_eof: s.last, next })
                } else if pr.field_per_record == 0 {
                    Ok(
                        RecordOut {
                            fields: end.fields,
                            is_eof: s.last,
                            next: Progress { field_per_record: n, ..next },
                        },
                    )
                } else if pr.field_per_record != n {
                    Err(
                        ErrorKind::ErrFieldNum(
                            end.num_line as usize,
                            end.col as usize,
                            pr.field_per_record as usize,
                            n as usize,
                        ),
                    )
                } else {
                    Ok(RecordOut { fields: end.fields, is_eof: s.last, next })
                }
            },
        }
    }
}

/// Progress that a reader can hold.
pub open spec fn progress_wf(src: Seq<u8>, pr: Progress) -> bool {
    &&& 0 <= pr.cursor <= src.len()
    &&& 0 <= pr.num_line <= usize::MAX
    &&& 0 <= pr.field_per_record <= usize::MAX
    &&& src.len() <= isize::MAX
}

pub proof fn lemma_read_record(src: Seq<u8>, comma: u8, lazy: bool, allow: bool, pr: Progress)
    requires
        progress_wf(src, pr),
    ensures
        read_record_spec(src, comma, lazy, allow, pr) matches Ok(out) ==> {
            &&& progress_wf(src, out.next)
            &&& out.fields.len() == 0 ==> out.is_eof
            &&& out.is_eof ==> out.next.cursor == src.len()
            &&& out.fields.len() > 0 ==> pr.cursor < out.next.cursor
        },
{
    lemma_first_line(src, pr.cursor, pr.num_line);
    let s = first_line(src, pr.cursor, pr.num_line);
    if !s.eof {
        lemma_run_forward(src, comma, lazy, start_scan(s));
    }
}

/// All records from `pr` on, up to the end of the source; the first one is
/// dropped when `skip` holds.
pub open spec fn all_records(src: Seq<u8>, comma: u8, lazy: bool, allow: bool, pr: Progress, skip: bool) -> Result<
    Seq<Seq<Seq<u8>>>,
    ErrorKind,
>
    decreases remaining(src, pr.cursor),
    when progress_wf(src, pr)
{
    proof {
        lemma_read_record(src, comma, lazy, allow, pr);
    }
    match read_record_spec(src, comma, lazy, allow, pr) {
        Err(e) => Err(e),
        Ok(out) => {
            if out.fields.len() == 0 {
                Ok(Seq::empty())
            } else {
                match all_records(src, comma, lazy, allow, out.next, false) {
                    Err(e) => Err(e),
                    Ok(rest) => if skip {
                        Ok(rest)
                    } else {
                        Ok(seq![out.fields] + rest)
                    },
                }
            }
        },
    }
}

} // verus!
