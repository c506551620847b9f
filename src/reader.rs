//! The reader: decodes delimited bytes into records.
use vstd::prelude::*;
use crate::bytes::{find_byte, spec_length_nl, views, LF, QUOTE};
use crate::err::ErrorKind;
use crate::line::{lemma_line_progress, read_physical_line};
use crate::parse::{
    all_records, bump, first_line, lemma_first_line, lemma_read_record, lemma_run_forward,
    lemma_step, progress_wf, read_record_spec, run, scan_wf, start_scan, step, Move, Progress,
    Scan,
};
use crate::line::{lemma_offset_step, offset_at, remaining};
use crate::text::{decoded_as, to_encoding, to_utf8};
use crate::err::CsvError;
use crate::{FromCSV, HeaderCSV};
use vstd::utf8::{decode_utf8, valid_utf8};
use encoding_rs::Encoding;

verus! {

/// Appends `src[a..b]` to `dst`.
fn copy_range(dst: &mut Vec<u8>, src: &Vec<u8>, a: usize, b: usize)
    requires
        a <= b <= src@.len(),
    ensures
        final(dst)@ == old(dst)@ + src@.subrange(a as int, b as int),
{
    let ghost start = dst@;
    let mut k: usize = a;
    while k < b
        invariant
            a <= k <= b <= src@.len(),
            dst@ == start + src@.subrange(a as int, k as int),
        decreases b - k,
    {
        dst.push(src[k]);
        k = k + 1;
        assert(dst@ =~= start + src@.subrange(a as int, k as int));
    }
}

fn bump_exec(n: usize) -> (r: usize)
    ensures
        r == bump(n as int),
{
    if n < usize::MAX {
        n + 1
    } else {
        n
    }
}

/// The executable state of the parser inside one record.
struct ScanExec {
    line: Vec<u8>,
    p: usize,
    cursor: usize,
    num_line: usize,
    offset: usize,
    pos_line: usize,
    col: usize,
    quoted: bool,
    field: Vec<u8>,
    fields: Vec<Vec<u8>>,
}

/// What one executable move ended in.
enum Outcome {
    Continue,
    Finish,
    Failed(ErrorKind),
}

impl ScanExec {
    spec fn scan(&self) -> Scan {
        Scan {
            line: self.line@.skip(self.p as int),
            cursor: self.cursor as int,
            num_line: self.num_line as int,
            pos_line: self.pos_line as int,
            col: self.col as int,
            quoted: self.quoted,
            field: self.field@,
            fields: views(self.fields@),
        }
    }

    spec fn inv(&self, src: Seq<u8>) -> bool {
        &&& self.p <= self.line@.len()
        &&& self.offset == offset_at(src, self.cursor as int)
    }
}

/// Makes one move of the parser, exactly as `step` says.
fn step_exec(src: &[u8], comma: u8, lazy: bool, st: &mut ScanExec) -> (r: Outcome)
    requires
        scan_wf(src@, old(st).scan()),
        old(st).inv(src@),
    ensures
        match step(src@, comma, lazy, old(st).scan()) {
            Move::Next(s2) => r is Continue && final(st).scan() == s2 && final(st).inv(src@),
            Move::Done(s2) => r is Finish && final(st).scan() == s2 && final(st).inv(src@),
            Move::Fail(e) => r == Outcome::Failed(e),
        },
{
    if st.quoted {
        step_quoted(src, comma, lazy, st)
    } else {
        step_field_start(src, comma, lazy, st)
    }
}

/// A move at the start of a field.
#[verifier::rlimit(30)]
fn step_field_start(src: &[u8], comma: u8, lazy: bool, st: &mut ScanExec) -> (r: Outcome)
    requires
        scan_wf(src@, old(st).scan()),
        old(st).inv(src@),
        !old(st).quoted,
    ensures
        match step(src@, comma, lazy, old(st).scan()) {
            Move::Next(s2) => r is Continue && final(st).scan() == s2 && final(st).inv(src@),
            Move::Done(s2) => r is Finish && final(st).scan() == s2 && final(st).inv(src@),
            Move::Fail(e) => r == Outcome::Failed(e),
        },
{
    let ghost s0 = old(st).scan();
    proof {
        lemma_step(src@, comma, lazy, s0);
        crate::bytes::lemma_index_of(s0.line, comma);
        crate::bytes::lemma_index_of(s0.line, QUOTE);
    }
    let n = st.line.len();
    let p = st.p;
    assert(s0.line =~= st.line@.subrange(p as int, n as int));
    if p == n || st.line[p] != QUOTE {
        let i = find_byte(comma, st.line.as_slice(), p);
        let e: usize = match i {
            Some(k) => k,
            None => if p < n && st.line[n - 1] == LF {
                n - 1
            } else {
                n
            },
        };
        let mut fb: Vec<u8> = Vec::new();
        copy_range(&mut fb, &st.line, p, e);
        assert(fb@ =~= crate::parse::unquoted_bytes(s0.line, comma));
        if !lazy {
            match find_byte(QUOTE, fb.as_slice(), 0) {
                Some(j) => {
                    assert(fb@.subrange(0, fb@.len() as int) =~= fb@);
                    return Outcome::Failed(ErrorKind::ErrQuote(st.num_line, st.col + j));
                },
                None => {
                    assert(fb@.subrange(0, fb@.len() as int) =~= fb@);
                },
            }
        }
        st.fields.push(fb);
        assert(views(st.fields@) =~= s0.fields.push(fb@));
        match i {
            Some(k) => {
                st.col = st.col + (k - p) + 1;
                st.p = k + 1;
                assert(st.line@.skip(k + 1) =~= s0.line.skip(k - p + 1));
                Outcome::Continue
            },
            None => Outcome::Finish,
        }
    } else {
        st.col = st.col + 1;
        st.p = p + 1;
        st.quoted = true;
        st.field = Vec::new();
        assert(st.line@.skip(p + 1) =~= s0.line.skip(1));
        Outcome::Continue
    }
}

/// A move inside a quoted field.
#[verifier::rlimit(30)]
fn step_quoted(src: &[u8], comma: u8, lazy: bool, st: &mut ScanExec) -> (r: Outcome)
    requires
        scan_wf(src@, old(st).scan()),
        old(st).inv(src@),
        old(st).quoted,
    ensures
        match step(src@, comma, lazy, old(st).scan()) {
            Move::Next(s2) => r is Continue && final(st).scan() == s2 && final(st).inv(src@),
            Move::Done(s2) => r is Finish && final(st).scan() == s2 && final(st).inv(src@),
            Move::Fail(e) => r == Outcome::Failed(e),
        },
{
    let ghost s0 = old(st).scan();
    proof {
        lemma_step(src@, comma, lazy, s0);
        crate::bytes::lemma_index_of(s0.line, comma);
        crate::bytes::lemma_index_of(s0.line, QUOTE);
    }
    let n = st.line.len();
    let p = st.p;
    assert(s0.line =~= st.line@.subrange(p as int, n as int));
    match find_byte(QUOTE, st.line.as_slice(), p) {
        Some(k) => {
            copy_range(&mut st.field, &st.line, p, k);
            assert(s0.line.subrange(0, k - p) =~= st.line@.subrange(p as int, k as int));
            let r = k + 1;
            let col = st.col + (k - p) + 1;
            assert(st.line@.skip(r as int) =~= s0.line.skip(k - p + 1));
            if r < n && st.line[r] == QUOTE {
                st.field.push(QUOTE);
                st.p = r + 1;
                st.col = col + 1;
                assert(st.line@.skip(r + 1) =~= s0.line.skip(k - p + 1).skip(1));
                Outcome::Continue
            } else if r < n && st.line[r] == comma {
                let mut f: Vec<u8> = Vec::new();
                std::mem::swap(&mut f, &mut st.field);
                st.fields.push(f);
                assert(views(st.fields@) =~= s0.fields.push(f@));
                st.p = r + 1;
                st.col = col + 1;
                st.quoted = false;
                assert(st.line@.skip(r + 1) =~= s0.line.skip(k - p + 1).skip(1));
                Outcome::Continue
            } else if r == n || (r + 1 == n && st.line[r] == LF) {
                let mut f: Vec<u8> = Vec::new();
                std::mem::swap(&mut f, &mut st.field);
                st.fields.push(f);
                assert(views(st.fields@) =~= s0.fields.push(f@));
                st.p = r;
                st.col = col;
                st.quoted = false;
                Outcome::Finish
            } else if lazy {
                st.field.push(QUOTE);
                st.p = r;
                st.col = col;
                Outcome::Continue
            } else {
                Outcome::Failed(ErrorKind::ErrQuote(st.num_line, col - 1))
            }
        },
        None => {
            if p < n {
                copy_range(&mut st.field, &st.line, p, n);
                let old_col = st.col;
                proof {
                    lemma_line_progress(src@, st.cursor as int);
                    lemma_offset_step(src@, st.cursor as int);
                }
                let (next, at, used) = read_physical_line(src, st.cursor);
                st.line = next;
                st.p = 0;
                st.cursor = at;
                st.offset = st.offset + used;
                st.num_line = bump_exec(st.num_line);
                if st.line.len() > 0 {
                    st.pos_line = bump_exec(st.pos_line);
                    st.col = 1;
                } else {
                    st.col = old_col + (n - p);
                }
                assert(st.line@.skip(0) =~= st.line@);
                Outcome::Continue
            } else if !lazy {
                Outcome::Failed(ErrorKind::ErrQuote(st.pos_line, st.col))
            } else {
                let mut f: Vec<u8> = Vec::new();
                std::mem::swap(&mut f, &mut st.field);
                st.fields.push(f);
                assert(views(st.fields@) =~= s0.fields.push(f@));
                st.quoted = false;
                Outcome::Finish
            }
        },
    }
}

/// Whether `b` may separate fields: anything but LF, CR and `"`.
pub open spec fn valid_delimiter(b: u8) -> bool {
    b != 10 && b != 13 && b != 34
}

/// Whether `comma` may separate fields.
pub fn is_valid_delimiter(comma: u8) -> (r: bool)
    ensures
        r == valid_delimiter(comma),
{
    comma != LF && comma != crate::bytes::CR && comma != QUOTE
}

/// One record as the parser gives it. `is_eof` is the end-of-source flag:
/// set when the source was already exhausted (then there are no fields), or
/// when the record came from the last line, which ended without LF and had no
/// trailing CR to drop.
pub struct Record {
    pub fields: Vec<Vec<u8>>,
    pub is_eof: bool,
}

/// A CSV reader over an in-memory source.
pub struct Reader {
    src: Vec<u8>,
    cursor: usize,
    comma: u8,
    skip_header: bool,
    custom_header: Option<Vec<String>>,
    allow_diff_field_num: bool,
    lazy_quote: bool,
    encoding: Option<&'static Encoding>,
    num_line: usize,
    offset: usize,
    field_per_record: usize,
    still_skip_header: bool,
}

/// What a reader holds, as plain values.
pub struct ReaderView {
    /// The source bytes.
    pub src: Seq<u8>,
    /// Where the next physical line starts.
    pub cursor: int,
    pub comma: u8,
    pub skip_header: bool,
    pub custom_header: Option<Seq<String>>,
    pub allow_diff_field_num: bool,
    pub lazy_quote: bool,
    /// The text encoding; UTF-8 when there is none.
    pub encoding: Option<&'static Encoding>,
    /// Physical lines read so far.
    pub num_line: int,
    /// The bytes that the lines read so far account for.
    pub offset: int,
    /// The field count that every record must have; 0 until the first record.
    pub field_per_record: int,
    /// Whether the next record is a header still to be dropped.
    pub still_skip_header: bool,
}

impl ReaderView {
    /// The progress of the parser.
    pub open spec fn progress(self) -> Progress {
        Progress { cursor: self.cursor, num_line: self.num_line, field_per_record: self.field_per_record }
    }

    /// `self` and `other` have the same source and configuration.
    pub open spec fn same_config(self, other: ReaderView) -> bool {
        &&& self.src == other.src
        &&& self.comma == other.comma
        &&& self.skip_header == other.skip_header
        &&& self.custom_header == other.custom_header
        &&& self.allow_diff_field_num == other.allow_diff_field_num
        &&& self.lazy_quote == other.lazy_quote
        &&& self.encoding == other.encoding
    }

    pub open spec fn wf(self) -> bool {
        &&& progress_wf(self.src, self.progress())
        &&& valid_delimiter(self.comma)
        &&& self.offset == offset_at(self.src, self.cursor)
    }

    /// The same reader with another progress; the offset follows the lines
    /// read up to the new cursor.
    pub open spec fn with_progress(self, pr: Progress) -> ReaderView {
        ReaderView {
            cursor: pr.cursor,
            num_line: pr.num_line,
            field_per_record: pr.field_per_record,
            offset: offset_at(self.src, pr.cursor),
            ..self
        }
    }

    /// What reading one record gives.
    pub open spec fn next_record(self) -> Result<crate::parse::RecordOut, ErrorKind> {
        read_record_spec(self.src, self.comma, self.lazy_quote, self.allow_diff_field_num, self.progress())
    }

    /// What reading every record that is left gives.
    pub open spec fn records(self) -> Result<Seq<Seq<Seq<u8>>>, ErrorKind> {
        all_records(
            self.src,
            self.comma,
            self.lazy_quote,
            self.allow_diff_field_num,
            self.progress(),
            self.still_skip_header,
        )
    }
}

impl View for Reader {
    type V = ReaderView;

    closed spec fn view(&self) -> ReaderView {
        ReaderView {
            src: self.src@,
            cursor: self.cursor as int,
            comma: self.comma,
            skip_header: self.skip_header,
            custom_header: match self.custom_header {
                Some(h) => Some(h@),
                None => None,
            },
            allow_diff_field_num: self.allow_diff_field_num,
            lazy_quote: self.lazy_quote,
            encoding: self.encoding,
            num_line: self.num_line as int,
            offset: self.offset as int,
            field_per_record: self.field_per_record as int,
            still_skip_header: self.still_skip_header,
        }
    }
}

/// The byte contents of a list of records.
pub open spec fn record_views(v: Seq<Vec<Vec<u8>>>) -> Seq<Seq<Seq<u8>>> {
    v.map_values(|r: Vec<Vec<u8>>| views(r@))
}

/// `acc` followed by the records of `res`, or the error of `res`.
pub open spec fn after(acc: Seq<Seq<Seq<u8>>>, res: Result<Seq<Seq<Seq<u8>>>, ErrorKind>) -> Result<
    Seq<Seq<Seq<u8>>>,
    ErrorKind,
> {
    match res {
        Ok(rest) => Ok(acc + rest),
        Err(e) => Err(e),
    }
}

impl Reader {
    /// The reader is well formed.
    pub closed spec fn wf(&self) -> bool {
        self@.wf()
    }

    /// The bytes that the lines read so far account for.
    pub fn byte_offset(&self) -> (r: usize)
        ensures
            r == self@.offset,
    {
        self.offset
    }

    /// A well-formed reader has a well-formed view, which the properties of
    /// what it reads ask for.
    pub proof fn lemma_view_wf(&self)
        requires
            self.wf(),
        ensures
            self@.wf(),
    {
    }

    /// A reader over `src` with the default configuration: comma delimiter,
    /// strict quotes, equal field counts, no header skipping, UTF-8 text.
    pub fn new(src: Vec<u8>) -> (r: Reader)
        requires
            src@.len() <= isize::MAX,
        ensures
            r.wf(),
            r@ == (ReaderView {
                src: src@,
                cursor: 0,
                comma: 44,
                skip_header: false,
                custom_header: None,
                allow_diff_field_num: false,
                lazy_quote: false,
                encoding: None,
                num_line: 0,
                offset: 0,
                field_per_record: 0,
                still_skip_header: false,
            }),
    {
        Reader {
            src,
            cursor: 0,
            comma: 44,
            skip_header: false,
            custom_header: None,
            allow_diff_field_num: false,
            lazy_quote: false,
            encoding: None,
            num_line: 0,
            offset: 0,
            field_per_record: 0,
            still_skip_header: false,
        }
    }

    /// Sets the delimiter; LF, CR and `"` are refused.
    pub fn with_comma(self, comma: u8) -> (r: Result<Reader, ErrorKind>)
        requires
            self.wf(),
        ensures
            valid_delimiter(comma) ==> (r matches Ok(rd) && rd.wf() && rd@ == (ReaderView { comma, ..self@ })),
            !valid_delimiter(comma) ==> (r matches Err(e) && e == ErrorKind::ErrInvalidDelim),
    {
        if !is_valid_delimiter(comma) {
            Err(ErrorKind::ErrInvalidDelim)
        } else {
            let mut rd = self;
            rd.comma = comma;
            Ok(rd)
        }
    }

    /// Drops the first record when `skip_header` holds.
    pub fn with_skip_header(self, skip_header: bool) -> (r: Reader)
        requires
            self.wf(),
        ensures
            r.wf(),
            r@ == (ReaderView { skip_header, still_skip_header: skip_header, ..self@ }),
    {
        let mut rd = self;
        rd.skip_header = skip_header;
        rd.still_skip_header = skip_header;
        rd
    }

    /// Sets the header that stands for the first record's names.
    pub fn with_custom_header(self, custom_header: Vec<String>) -> (r: Reader)
        requires
            self.wf(),
        ensures
            r.wf(),
            r@ == (ReaderView { custom_header: Some(custom_header@), ..self@ }),
    {
        let mut rd = self;
        rd.custom_header = Some(custom_header);
        rd
    }

    /// Lets records have different field counts.
    pub fn with_allow_diff_field_num(self, allow_diff_field_num: bool) -> (r: Reader)
        requires
            self.wf(),
        ensures
            r.wf(),
            r@ == (ReaderView { allow_diff_field_num, ..self@ }),
    {
        let mut rd = self;
        rd.allow_diff_field_num = allow_diff_field_num;
        rd
    }

    /// Treats stray quotes as literal bytes.
    pub fn with_lazy_quote(self, lazy_quote: bool) -> (r: Reader)
        requires
            self.wf(),
        ensures
            r.wf(),
            r@ == (ReaderView { lazy_quote, ..self@ }),
    {
        let mut rd = self;
        rd.lazy_quote = lazy_quote;
        rd
    }

    /// Decodes fields under `encoding` instead of checking them as UTF-8.
    pub fn with_encoding(self, encoding: &'static Encoding) -> (r: Reader)
        requires
            self.wf(),
        ensures
            r.wf(),
            r@ == (ReaderView { encoding: Some(encoding), ..self@ }),
    {
        let mut rd = self;
        rd.encoding = Some(encoding);
        rd
    }

    /// Reads one record from the source.
    pub fn read_record(&mut self) -> (r: Result<Record, ErrorKind>)
        requires
            old(self).wf(),
        ensures
            final(self).wf(),
            final(self)@.same_config(old(self)@),
            final(self)@.still_skip_header == old(self)@.still_skip_header,
            match old(self)@.next_record() {
                Ok(out) => r matches Ok(rec) && views(rec.fields@) == out.fields && rec.is_eof == out.is_eof
                    && final(self)@ == old(self)@.with_progress(out.next),
                Err(e) => r == Err::<Record, ErrorKind>(e),
            },
    {
        let ghost v0 = old(self)@;
        let ghost src = self.src@;
        proof {
            lemma_first_line(src, self.cursor as int, self.num_line as int);
            lemma_read_record(src, self.comma, self.lazy_quote, self.allow_diff_field_num, v0.progress());
        }
        let n = self.src.len();
        let ghost s = first_line(src, v0.cursor, v0.num_line);
        let mut first: Vec<u8>;
        let mut at_end = false;
        let mut last = false;
        loop
            invariant_except_break
                first_line(src, self.cursor as int, self.num_line as int) == s,
                !at_end,
            invariant
                self.wf(),
                self.src@ == src,
                n == src.len(),
                self@ == v0.with_progress(Progress { cursor: self.cursor as int, num_line: self.num_line as int, ..v0.progress() }),
            ensures
                at_end == s.eof,
                !at_end ==> first@ == s.line && last == s.last,
                self.cursor == s.cursor,
                self.num_line == s.num_line,
            decreases remaining(src, self.cursor as int),
        {
            if self.cursor >= n {
                self.num_line = bump_exec(self.num_line);
                first = Vec::new();
                at_end = true;
                break;
            }
            proof {
                lemma_line_progress(src, self.cursor as int);
                lemma_offset_step(src, self.cursor as int);
                crate::line::lemma_raw_end(src, self.cursor as int);
            }
            let ghost c0 = self.cursor as int;
            let ghost k0 = self.num_line as int;
            let (l, at, used) = read_physical_line(self.src.as_slice(), self.cursor);
            assert(first_line(src, c0, k0) == if l@.len() == crate::bytes::spec_length_nl(l@) {
                first_line(src, at as int, bump(k0))
            } else {
                crate::parse::Start {
                    line: l@,
                    cursor: at as int,
                    num_line: bump(k0),
                    eof: false,
                    last: crate::line::line_at_end(src, c0),
                }
            });
            self.cursor = at;
            self.offset = self.offset + used;
            self.num_line = bump_exec(self.num_line);
            if l.len() != crate::bytes::length_nl(l.as_slice()) {
                first = l;
                last = at == n && self.src[n - 1] != LF && self.src[n - 1] != crate::bytes::CR;
                break;
            }
        }
        if at_end {
            return Ok(Record { fields: Vec::new(), is_eof: true });
        }
        let mut st = ScanExec {
            line: first,
            p: 0,
            cursor: self.cursor,
            num_line: self.num_line,
            offset: self.offset,
            pos_line: self.num_line,
            col: 1,
            quoted: false,
            field: Vec::new(),
            fields: Vec::new(),
        };
        assert(st.line@.skip(0) =~= s.line);
        assert(views(st.fields@) =~= Seq::<Seq<u8>>::empty());
        assert(st.scan() == start_scan(s));
        let ghost total = run(src, self.comma, self.lazy_quote, start_scan(s));
        let mut failure: Option<ErrorKind> = None;
        loop
            invariant_except_break
                run(src, self.comma, self.lazy_quote, st.scan()) == total,
                scan_wf(src, st.scan()),
                st.inv(src),
                failure is None,
            invariant
                self.src@ == src,
                n == src.len(),
                self@ == v0.with_progress(Progress { cursor: self.cursor as int, num_line: self.num_line as int, ..v0.progress() }),
                self.wf(),
            ensures
                match failure {
                    Some(e) => total == Err::<Scan, ErrorKind>(e),
                    None => total == Ok::<Scan, ErrorKind>(st.scan()) && st.inv(src),
                },
            decreases remaining(src, st.cursor as int), st.scan().line.len(),
        {
            let ghost before = st.scan();
            proof {
                lemma_step(src, self.comma, self.lazy_quote, before);
            }
            match step_exec(self.src.as_slice(), self.comma, self.lazy_quote, &mut st) {
                Outcome::Continue => {},
                Outcome::Finish => {
                    break;
                },
                Outcome::Failed(e) => {
                    failure = Some(e);
                    break;
                },
            }
        }
        if let Some(e) = failure {
            return Err(e);
        }
        proof {
            lemma_run_forward(src, self.comma, self.lazy_quote, start_scan(s));
        }
        self.cursor = st.cursor;
        self.num_line = st.num_line;
        self.offset = st.offset;
        let count = st.fields.len();
        assert(views(st.fields@).len() == count);
        if self.allow_diff_field_num {
        } else if self.field_per_record == 0 {
            self.field_per_record = count;
        } else if self.field_per_record != count {
            return Err(ErrorKind::ErrFieldNum(self.num_line, st.col, self.field_per_record, count));
        }
        Ok(Record { fields: st.fields, is_eof: last })
    }
}

impl Reader {
    /// Reads every record left in the source, dropping the first one when the
    /// header is still to be skipped.
    pub fn bytes_records(&mut self) -> (r: Result<Vec<Vec<Vec<u8>>>, ErrorKind>)
        requires
            old(self).wf(),
        ensures
            final(self).wf(),
            final(self)@.same_config(old(self)@),
            match old(self)@.records() {
                Ok(rs) => r matches Ok(v) && record_views(v@) == rs,
                Err(e) => r matches Err(e2) && e2 == e,
            },
    {
        let ghost v0 = old(self)@;
        let mut records: Vec<Vec<Vec<u8>>> = Vec::new();
        let mut failure: Option<ErrorKind> = None;
        loop
            invariant_except_break
                failure is None,
                after(record_views(records@), self@.records()) == v0.records(),
            invariant
                self.wf(),
                self@.same_config(v0),
            ensures
                match failure {
                    Some(e) => v0.records() == Err::<Seq<Seq<Seq<u8>>>, ErrorKind>(e),
                    None => v0.records() == Ok::<Seq<Seq<Seq<u8>>>, ErrorKind>(record_views(records@)),
                },
            decreases remaining(self@.src, self@.cursor),
        {
            let ghost before = self@;
            proof {
                lemma_read_record(before.src, before.comma, before.lazy_quote, before.allow_diff_field_num, before.progress());
            }
            match self.read_record() {
                Err(e) => {
                    failure = Some(e);
                    break;
                },
                Ok(record) => {
                    if record.fields.len() == 0 {
                        assert(record_views(records@) + Seq::<Seq<Seq<u8>>>::empty() =~= record_views(records@));
                        break;
                    }
                    let eof = record.is_eof;
                    if self.still_skip_header {
                        self.still_skip_header = false;
                    } else {
                        let ghost acc = record_views(records@);
                        let ghost f = views(record.fields@);
                        records.push(record.fields);
                        assert(record_views(records@) =~= acc.push(f));
                        proof {
                            if let Ok(rest) = self@.records() {
                                assert(acc.push(f) + rest =~= acc + (seq![f] + rest));
                            }
                        }
                    }
                    if eof {
                        proof {
                            let after_v = self@;
                            assert(after_v.cursor == after_v.src.len());
                            crate::parse::lemma_first_line(after_v.src, after_v.cursor, after_v.num_line);
                            assert(first_line(after_v.src, after_v.cursor, after_v.num_line).eof);
                            assert(after_v.next_record()->Ok_0.fields.len() == 0);
                            assert(after_v.records() == Ok::<Seq<Seq<Seq<u8>>>, ErrorKind>(Seq::empty()));
                            assert(record_views(records@) + Seq::<Seq<Seq<u8>>>::empty() =~= record_views(records@));
                        }
                        break;
                    }
                },
            }
        }
        match failure {
            Some(e) => Err(e),
            None => Ok(records),
        }
    }
}

/// Every field of every record is valid UTF-8.
pub open spec fn all_utf8(rs: Seq<Seq<Seq<u8>>>) -> bool {
    forall|i: int, j: int| 0 <= i < rs.len() && 0 <= j < rs[i].len() ==> valid_utf8(#[trigger] rs[i][j])
}

/// `v` has one string per field of `rs`.
pub open spec fn same_shape(v: Seq<Vec<String>>, rs: Seq<Seq<Seq<u8>>>) -> bool {
    &&& v.len() == rs.len()
    &&& forall|i: int| 0 <= i < rs.len() ==> (#[trigger] v[i])@.len() == rs[i].len()
}

/// The text of a field: its UTF-8 decoding without an encoding, else what
/// the encoding decodes it to.
pub open spec fn field_text(encoding: Option<&'static Encoding>, b: Seq<u8>) -> Seq<char> {
    match encoding {
        None => decode_utf8(b),
        Some(e) => decoded_as(e, b),
    }
}

/// `v` holds the text of each field of `rs`.
pub open spec fn text_of(v: Seq<Vec<String>>, rs: Seq<Seq<Seq<u8>>>, encoding: Option<&'static Encoding>) -> bool {
    &&& same_shape(v, rs)
    &&& forall|i: int, j: int|
        0 <= i < rs.len() && 0 <= j < rs[i].len() ==> (#[trigger] v[i]@[j])@ == field_text(encoding, rs[i][j])
}

impl Reader {
    /// Reads every record left and turns each field into text: as UTF-8, or
    /// under the encoding set with `with_encoding`.
    pub fn string_records(&mut self) -> (r: Result<Vec<Vec<String>>, CsvError>)
        requires
            old(self).wf(),
        ensures
            final(self).wf(),
            match old(self)@.records() {
                Err(e) => r matches Err(CsvError::Parse(e2)) && e2 == e,
                Ok(rs) => if old(self)@.encoding is Some {
                    r matches Ok(v) && text_of(v@, rs, old(self)@.encoding)
                } else {
                    &&& (r is Ok <==> all_utf8(rs))
                    &&& (r matches Ok(v) ==> text_of(v@, rs, None))
                    &&& (r matches Err(CsvError::Utf8 { record, field }) ==> record < rs.len() && field
                        < rs[record as int].len() && !valid_utf8(rs[record as int][field as int]))
                    &&& (r is Err ==> r matches Err(CsvError::Utf8 { .. }))
                },
            },
    {
        let records = match self.bytes_records() {
            Ok(v) => v,
            Err(e) => {
                return Err(CsvError::Parse(e));
            },
        };
        text_records(&records, self.encoding)
    }

    /// Reads every record left and turns each into a `T`, naming the fields by
    /// the custom header or, without one, by `T`'s own header.
    pub fn deserialize<T: HeaderCSV + FromCSV>(&mut self) -> (r: Result<Vec<T>, CsvError>)
        requires
            old(self).wf(),
        ensures
            final(self).wf(),
            old(self)@.records() matches Err(e) ==> (r matches Err(CsvError::Parse(e2)) && e2 == e),
            old(self)@.records() matches Ok(rs) ==> {
                &&& (r matches Ok(v) ==> v@.len() == rs.len())
                &&& (old(self)@.encoding is None && !all_utf8(rs)) ==> (r matches Err(CsvError::Utf8 { record, field })
                    && record < rs.len() && field < rs[record as int].len() && !valid_utf8(
                    rs[record as int][field as int],
                ))
                &&& (rs.len() == 0 ==> (r matches Ok(v) && v@.len() == 0))
            },
    {
        let records = match self.string_records() {
            Ok(v) => v,
            Err(e) => {
                return Err(e);
            },
        };
        let header = match &self.custom_header {
            Some(h) => h.clone(),
            None => T::get_header(),
        };
        from_records(&header, &records)
    }
}

/// Turns each field of one record into text: as UTF-8 when `encoding` is
/// `None`, else under `encoding`. The error is the index of the first field
/// that is not valid UTF-8.
fn text_fields(record: &Vec<Vec<u8>>, encoding: Option<&'static Encoding>) -> (r: Result<Vec<String>, usize>)
    ensures
        ({
            let fs = views(record@);
            match r {
                Ok(v) => v@.len() == fs.len() && (encoding is None ==> forall|k: int|
                    0 <= k < fs.len() ==> valid_utf8(#[trigger] fs[k])) && forall|k: int|
                    0 <= k < fs.len() ==> (#[trigger] v@[k])@ == field_text(encoding, fs[k]),
                Err(j) => encoding is None && j < fs.len() && !valid_utf8(fs[j as int]),
            }
        }),
{
    let ghost fs = views(record@);
    let mut fields: Vec<String> = Vec::new();
    let mut j: usize = 0;
    while j < record.len()
        invariant
            0 <= j <= record@.len(),
            fs == views(record@),
            fields@.len() == j,
            encoding is None ==> forall|k: int| 0 <= k < j ==> valid_utf8(#[trigger] fs[k]),
            forall|k: int| 0 <= k < j ==> (#[trigger] fields@[k])@ == field_text(encoding, fs[k]),
        decreases record@.len() - j,
    {
        let f = record[j].as_slice();
        assert(fs[j as int] == f@);
        let ghost before = fields@;
        match encoding {
            None => match to_utf8(f) {
                Some(text) => {
                    assert(valid_utf8(f@));
                    assert(valid_utf8(fs[j as int]));
                    fields.push(text);
                    assert forall|k: int| 0 <= k < j + 1 implies (#[trigger] fields@[k])@ == field_text(encoding, fs[k]) by {
                        if k < j {
                            assert(fields@[k] == before[k]);
                        }
                    }
                },
                None => {
                    return Err(j);
                },
            },
            Some(e) => {
                fields.push(to_encoding(f, e));
                assert forall|k: int| 0 <= k < j + 1 implies (#[trigger] fields@[k])@ == field_text(encoding, fs[k]) by {
                    if k < j {
                        assert(fields@[k] == before[k]);
                    }
                }
            },
        }
        j = j + 1;
    }
    Ok(fields)
}

/// Turns each field of `records` into text: as UTF-8 when `encoding` is
/// `None`, else under `encoding`.
pub fn text_records(records: &Vec<Vec<Vec<u8>>>, encoding: Option<&'static Encoding>) -> (r: Result<
    Vec<Vec<String>>,
    CsvError,
>)
    ensures
        ({
            let rs = record_views(records@);
            if encoding is Some {
                r matches Ok(v) && text_of(v@, rs, encoding)
            } else {
                &&& (r is Ok <==> all_utf8(rs))
                &&& (r matches Ok(v) ==> text_of(v@, rs, None))
                &&& (r matches Err(CsvError::Utf8 { record, field }) ==> record < rs.len() && field
                    < rs[record as int].len() && !valid_utf8(rs[record as int][field as int]))
                &&& (r is Err ==> r matches Err(CsvError::Utf8 { .. }))
            }
        }),
{
    let ghost rs = record_views(records@);
    let mut out: Vec<Vec<String>> = Vec::new();
    let mut i: usize = 0;
    while i < records.len()
        invariant
            0 <= i <= records@.len(),
            rs == record_views(records@),
            out@.len() == i,
            forall|k: int| 0 <= k < i ==> (#[trigger] out@[k])@.len() == rs[k].len(),
            forall|k: int, j: int|
                0 <= k < i && 0 <= j < rs[k].len() ==> (#[trigger] out@[k]@[j])@ == field_text(encoding, rs[k][j]),
            encoding is None ==> forall|k: int, j: int|
                0 <= k < i && 0 <= j < rs[k].len() ==> valid_utf8(#[trigger] rs[k][j]),
        decreases records@.len() - i,
    {
        assert(rs[i as int] == views(records@[i as int]@));
        match text_fields(&records[i], encoding) {
            Ok(fields) => {
                let ghost before = out@;
                out.push(fields);
                proof {
                    assert forall|k: int, j: int| 0 <= k < i + 1 && 0 <= j < rs[k].len() implies (#[trigger] out@[
                        k]@[j])@ == field_text(encoding, rs[k][j]) by {
                        if k < i {
                            assert(out@[k] == before[k]);
                        } else {
                            assert(out@[k]@[j] == fields@[j]);
                        }
                    }
                    if encoding is None {
                        assert forall|k: int, j: int| 0 <= k < i + 1 && 0 <= j < rs[k].len() implies valid_utf8(
                            #[trigger] rs[k][j]) by {
                            if k == i {
                                assert(fields@[j] == out@[k]@[j]);
                            }
                        }
                    }
                }
            },
            Err(j) => {
                assert(!valid_utf8(rs[i as int][j as int]));
                return Err(CsvError::Utf8 { record: i, field: j });
            },
        }
        i = i + 1;
    }
    Ok(out)
}

/// Turns each record into a `T` whose fields are named by `header`; the
/// first record that does not fit ends the work with its message.
pub fn from_records<T: FromCSV>(header: &Vec<String>, records: &Vec<Vec<String>>) -> (r: Result<Vec<T>, CsvError>)
    ensures
        r matches Ok(v) ==> v@.len() == records@.len(),
        r is Err ==> r matches Err(CsvError::Field(_)),
        records@.len() == 0 ==> (r matches Ok(v) && v@.len() == 0),
{
    let mut out: Vec<T> = Vec::new();
    let mut i: usize = 0;
    while i < records.len()
        invariant
            0 <= i <= records@.len(),
            out@.len() == i,
        decreases records@.len() - i,
    {
        match T::from_csv(&header, &records[i]) {
            Ok(v) => out.push(v),
            Err(msg) => {
                return Err(CsvError::Field(msg));
            },
        }
        i = i + 1;
    }
    Ok(out)
}

} // verus!
