//! The writer: encodes records into delimited bytes.
use vstd::prelude::*;
use crate::bytes::{CR, LF, QUOTE};
use crate::err::ErrorKind;
use crate::reader::valid_delimiter;
use crate::text::{from_text, text_bytes};
use crate::{HeaderCSV, ToCSV};
use encoding_rs::Encoding;

verus! {

/// A byte that forces its field to be quoted.
pub open spec fn is_special(b: u8, comma: u8) -> bool {
    b == LF || b == CR || b == QUOTE || b == comma
}

/// A field is quoted when it holds the delimiter, `"`, CR or LF.
pub open spec fn needs_quotes(f: Seq<u8>, comma: u8) -> bool {
    exists|i: int| 0 <= i < f.len() && is_special(#[trigger] f[i], comma)
}

/// What one byte of a quoted field becomes: `"` is doubled; in CRLF mode a
/// CR is dropped and LF becomes CR LF.
pub open spec fn escape_byte(b: u8, crlf: bool) -> Seq<u8> {
    if b == QUOTE {
        seq![QUOTE, QUOTE]
    } else if b == CR && crlf {
        Seq::empty()
    } else if b == LF && crlf {
        seq![CR, LF]
    } else {
        seq![b]
    }
}

/// The inside of a quoted field.
pub open spec fn escape(f: Seq<u8>, crlf: bool) -> Seq<u8>
    decreases f.len(),
{
    if f.len() == 0 {
        Seq::empty()
    } else {
        escape(f.drop_last(), crlf) + escape_byte(f.last(), crlf)
    }
}

/// A field as written: quoted and escaped when it needs it, else as it is.
pub open spec fn encode_field(f: Seq<u8>, comma: u8, crlf: bool) -> Seq<u8> {
    if needs_quotes(f, comma) {
        seq![QUOTE] + escape(f, crlf) + seq![QUOTE]
    } else {
        f
    }
}

/// The fields as written, separated by the delimiter.
pub open spec fn join_fields(fs: Seq<Seq<u8>>, comma: u8, crlf: bool) -> Seq<u8>
    decreases fs.len(),
{
    if fs.len() == 0 {
        Seq::empty()
    } else if fs.len() == 1 {
        encode_field(fs[0], comma, crlf)
    } else {
        join_fields(fs.drop_last(), comma, crlf) + seq![comma] + encode_field(fs.last(), comma, crlf)
    }
}

/// The record terminator.
pub open spec fn terminator(crlf: bool) -> Seq<u8> {
    if crlf {
        seq![CR, LF]
    } else {
        seq![LF]
    }
}

/// One record as written.
pub open spec fn encode_record(fs: Seq<Seq<u8>>, comma: u8, crlf: bool) -> Seq<u8> {
    join_fields(fs, comma, crlf) + terminator(crlf)
}

/// Records as written, one after the other.
pub open spec fn encode_records(rs: Seq<Seq<Seq<u8>>>, comma: u8, crlf: bool) -> Seq<u8>
    decreases rs.len(),
{
    if rs.len() == 0 {
        Seq::empty()
    } else {
        encode_records(rs.drop_last(), comma, crlf) + encode_record(rs.last(), comma, crlf)
    }
}

/// The bytes that stand for each string: UTF-8, or under the encoding.
pub open spec fn field_bytes(encoding: Option<&'static Encoding>, v: Seq<String>) -> Seq<Seq<u8>> {
    v.map_values(|s: String| text_bytes(encoding, s@))
}

/// The bytes that stand for each field of each record.
pub open spec fn record_bytes(encoding: Option<&'static Encoding>, v: Seq<Vec<String>>) -> Seq<Seq<Seq<u8>>> {
    v.map_values(|r: Vec<String>| field_bytes(encoding, r@))
}

/// A CSV writer that collects its output in memory.
pub struct Writer {
    out: Vec<u8>,
    comma: u8,
    write_header: bool,
    custom_header: Option<Vec<String>>,
    use_crlf: bool,
    encoding: Option<&'static Encoding>,
}

/// What a writer holds, as plain values.
pub struct WriterView {
    /// The bytes written so far.
    pub out: Seq<u8>,
    pub comma: u8,
    pub write_header: bool,
    pub custom_header: Option<Seq<String>>,
    pub use_crlf: bool,
    /// The text encoding; UTF-8 when there is none.
    pub encoding: Option<&'static Encoding>,
}

impl View for Writer {
    type V = WriterView;

    closed spec fn view(&self) -> WriterView {
        WriterView {
            out: self.out@,
            comma: self.comma,
            write_header: self.write_header,
            custom_header: match self.custom_header {
                Some(h) => Some(h@),
                None => None,
            },
            use_crlf: self.use_crlf,
            encoding: self.encoding,
        }
    }
}

impl WriterView {
    /// The same writer with `more` bytes written.
    pub open spec fn wrote(self, more: Seq<u8>) -> WriterView {
        WriterView { out: self.out + more, ..self }
    }

    /// The header record that `write_records` puts first, if any.
    pub open spec fn header_bytes(self) -> Seq<u8> {
        if self.write_header && self.custom_header is Some {
            encode_record(field_bytes(self.encoding, self.custom_header->0), self.comma, self.use_crlf)
        } else {
            Seq::empty()
        }
    }
}

impl Writer {
    /// A writer with the default configuration: comma delimiter, LF
    /// terminator, no header, UTF-8 text.
    pub fn new() -> (r: Writer)
        ensures
            r@ == (WriterView {
                out: Seq::empty(),
                comma: 44,
                write_header: false,
                custom_header: None,
                use_crlf: false,
                encoding: None,
            }),
            valid_delimiter(r@.comma),
    {
        Writer {
            out: Vec::new(),
            comma: 44,
            write_header: false,
            custom_header: None,
            use_crlf: false,
            encoding: None,
        }
    }

    /// Sets the delimiter; LF, CR and `"` are refused.
    pub fn with_comma(self, comma: u8) -> (r: Result<Writer, ErrorKind>)
        ensures
            valid_delimiter(comma) ==> (r matches Ok(w) && w@ == (WriterView { comma, ..self@ })),
            !valid_delimiter(comma) ==> (r matches Err(e) && e == ErrorKind::ErrInvalidDelim),
    {
        if !crate::reader::is_valid_delimiter(comma) {
            Err(ErrorKind::ErrInvalidDelim)
        } else {
            let mut w = self;
            w.comma = comma;
            Ok(w)
        }
    }

    /// Writes the header before the records when `write_header` holds.
    pub fn with_write_header(self, write_header: bool) -> (r: Writer)
        ensures
            r@ == (WriterView { write_header, ..self@ }),
    {
        let mut w = self;
        w.write_header = write_header;
        w
    }

    /// Sets the header record.
    pub fn with_custom_header(self, custom_header: Vec<String>) -> (r: Writer)
        ensures
            r@ == (WriterView { custom_header: Some(custom_header@), ..self@ }),
    {
        let mut w = self;
        w.custom_header = Some(custom_header);
        w
    }

    /// Ends records, and lines inside quoted fields, with CR LF.
    pub fn with_use_crlf(self, use_crlf: bool) -> (r: Writer)
        ensures
            r@ == (WriterView { use_crlf, ..self@ }),
    {
        let mut w = self;
        w.use_crlf = use_crlf;
        w
    }

    /// Encodes fields under `encoding` instead of UTF-8.
    pub fn with_encoding(self, encoding: &'static Encoding) -> (r: Writer)
        ensures
            r@ == (WriterView { encoding: Some(encoding), ..self@ }),
    {
        let mut w = self;
        w.encoding = Some(encoding);
        w
    }

    /// The bytes written so far.
    pub fn output(&self) -> (r: &Vec<u8>)
        ensures
            r@ == self@.out,
    {
        &self.out
    }

    /// Hands out the bytes written so far and starts afresh, keeping the
    /// configuration.
    pub fn take_output(&mut self) -> (r: Vec<u8>)
        ensures
            r@ == old(self)@.out,
            final(self)@ == (WriterView { out: Seq::empty(), ..old(self)@ }),
    {
        let mut out: Vec<u8> = Vec::new();
        std::mem::swap(&mut out, &mut self.out);
        out
    }

    /// The bytes written, taking the writer apart.
    pub fn into_bytes(self) -> (r: Vec<u8>)
        ensures
            r@ == self@.out,
    {
        self.out
    }

    /// Whether `field` must be quoted.
    pub fn field_needs_quotes(&self, field: &[u8]) -> (r: bool)
        ensures
            r == needs_quotes(field@, self@.comma),
    {
        let mut i: usize = 0;
        while i < field.len()
            invariant
                0 <= i <= field@.len(),
                forall|k: int| 0 <= k < i ==> !is_special(#[trigger] field@[k], self.comma),
            decreases field@.len() - i,
        {
            let b = field[i];
            if b == LF || b == CR || b == QUOTE || b == self.comma {
                assert(is_special(field@[i as int], self.comma));
                return true;
            }
            i = i + 1;
        }
        false
    }
}

impl Writer {
    /// Appends one field as written.
    fn write_field(&mut self, field: &[u8])
        ensures
            final(self)@ == old(self)@.wrote(encode_field(field@, old(self)@.comma, old(self)@.use_crlf)),
    {
        let ghost v0 = self@;
        if !self.field_needs_quotes(field) {
            let mut i: usize = 0;
            while i < field.len()
                invariant
                    0 <= i <= field@.len(),
                    self@ == (WriterView { out: self@.out, ..v0 }),
                    self@.out == v0.out + field@.subrange(0, i as int),
                decreases field@.len() - i,
            {
                self.out.push(field[i]);
                i = i + 1;
                assert(self@.out =~= v0.out + field@.subrange(0, i as int));
            }
            assert(field@.subrange(0, field@.len() as int) =~= field@);
            return;
        }
        let crlf = self.use_crlf;
        self.out.push(QUOTE);
        assert(self@.out =~= v0.out + seq![QUOTE] + escape(field@.subrange(0, 0), crlf));
        let mut i: usize = 0;
        while i < field.len()
            invariant
                0 <= i <= field@.len(),
                crlf == v0.use_crlf,
                self@ == (WriterView { out: self@.out, ..v0 }),
                self@.out == v0.out + seq![QUOTE] + escape(field@.subrange(0, i as int), crlf),
            decreases field@.len() - i,
        {
            let ghost before = self@.out;
            let b = field[i];
            if b == QUOTE {
                self.out.push(QUOTE);
                self.out.push(QUOTE);
            } else if b == CR && crlf {
            } else if b == LF && crlf {
                self.out.push(CR);
                self.out.push(LF);
            } else {
                self.out.push(b);
            }
            assert(self@.out =~= before + escape_byte(b, crlf));
            assert(field@.subrange(0, i + 1).drop_last() =~= field@.subrange(0, i as int));
            i = i + 1;
            assert(self@.out =~= v0.out + seq![QUOTE] + escape(field@.subrange(0, i as int), crlf));
        }
        self.out.push(QUOTE);
        assert(field@.subrange(0, field@.len() as int) =~= field@);
        assert(self@.out =~= v0.out + (seq![QUOTE] + escape(field@, crlf) + seq![QUOTE]));
    }

    /// Appends the record terminator.
    fn write_terminator(&mut self)
        ensures
            final(self)@ == old(self)@.wrote(terminator(old(self)@.use_crlf)),
    {
        let ghost v0 = self@;
        if self.use_crlf {
            self.out.push(CR);
        }
        self.out.push(LF);
        assert(self@.out =~= v0.out + terminator(v0.use_crlf));
    }

    /// Appends one record whose fields are given as bytes.
    pub fn write_byte_record(&mut self, record: &Vec<Vec<u8>>)
        ensures
            final(self)@ == old(self)@.wrote(
                encode_record(crate::bytes::views(record@), old(self)@.comma, old(self)@.use_crlf),
            ),
    {
        let ghost fs = crate::bytes::views(record@);
        let ghost v0 = self@;
        let mut n: usize = 0;
        assert(fs.subrange(0, 0).len() == 0);
        assert(self@.out =~= v0.out + join_fields(fs.subrange(0, 0), v0.comma, v0.use_crlf));
        while n < record.len()
            invariant
                0 <= n <= record@.len(),
                fs == crate::bytes::views(record@),
                self@ == (WriterView { out: self@.out, ..v0 }),
                self@.out == v0.out + join_fields(fs.subrange(0, n as int), v0.comma, v0.use_crlf),
            decreases record@.len() - n,
        {
            let ghost before = self@.out;
            if n > 0 {
                self.out.push(self.comma);
            }
            let ghost mid = self@.out;
            self.write_field(record[n].as_slice());
            proof {
                let pre = fs.subrange(0, n as int);
                let cur = fs.subrange(0, n + 1);
                assert(cur.drop_last() =~= pre);
                assert(cur.last() == record@[n as int]@);
                let ef = encode_field(record@[n as int]@, v0.comma, v0.use_crlf);
                if n == 0 {
                    assert(mid == before);
                    assert(cur.len() == 1);
                    assert(self@.out =~= v0.out + join_fields(cur, v0.comma, v0.use_crlf));
                } else {
                    assert(mid =~= before + seq![v0.comma]);
                    assert(self@.out =~= v0.out + join_fields(cur, v0.comma, v0.use_crlf));
                }
            }
            n = n + 1;
        }
        assert(fs.subrange(0, record@.len() as int) =~= fs);
        let ghost joined = self@.out;
        self.write_terminator();
        assert(self@.out =~= v0.out + encode_record(fs, v0.comma, v0.use_crlf));
    }

    /// Appends one record, each field as the bytes that stand for it.
    pub fn write_record(&mut self, record: &Vec<String>)
        ensures
            final(self)@ == old(self)@.wrote(
                encode_record(field_bytes(old(self)@.encoding, record@), old(self)@.comma, old(self)@.use_crlf),
            ),
    {
        let ghost enc = self.encoding;
        let mut bytes: Vec<Vec<u8>> = Vec::new();
        let mut i: usize = 0;
        while i < record.len()
            invariant
                0 <= i <= record@.len(),
                enc == self.encoding,
                bytes@.len() == i,
                crate::bytes::views(bytes@) == field_bytes(enc, record@.subrange(0, i as int)),
            decreases record@.len() - i,
        {
            let b = from_text(&record[i], self.encoding);
            let ghost pre = bytes@;
            bytes.push(b);
            proof {
                assert(b@ == text_bytes(enc, record@[i as int]@));
                assert(crate::bytes::views(bytes@).len() == i + 1);
                assert forall|k: int| 0 <= k < i + 1 implies #[trigger] crate::bytes::views(bytes@)[k]
                    == field_bytes(enc, record@.subrange(0, i + 1))[k] by {
                    assert(record@.subrange(0, i + 1)[k] == record@[k]);
                    if k < i {
                        assert(record@.subrange(0, i as int)[k] == record@[k]);
                        assert(crate::bytes::views(pre)[k] == field_bytes(enc, record@.subrange(0, i as int))[k]);
                    }
                }
                assert(crate::bytes::views(bytes@) =~= field_bytes(enc, record@.subrange(0, i + 1)));
            }
            i = i + 1;
        }
        assert(record@.subrange(0, record@.len() as int) =~= record@);
        self.write_byte_record(&bytes);
    }

    /// Writes the header, when it is to be written and is set, and then each
    /// record.
    pub fn write_records(&mut self, records: &Vec<Vec<String>>)
        ensures
            final(self)@ == old(self)@.wrote(
                old(self)@.header_bytes() + encode_records(
                    record_bytes(old(self)@.encoding, records@),
                    old(self)@.comma,
                    old(self)@.use_crlf,
                ),
            ),
    {
        let ghost v0 = self@;
        if self.write_header {
            match &self.custom_header {
                Some(h) => {
                    let header = h.clone();
                    assert(header@ == h@);
                    self.write_record(&header);
                },
                None => {},
            }
        }
        let ghost v1 = self@;
        assert(v1.out =~= v0.out + v0.header_bytes());
        assert(self@.out =~= v1.out + encode_records(
            record_bytes(v0.encoding, records@.subrange(0, 0)), v0.comma, v0.use_crlf));
        let mut i: usize = 0;
        while i < records.len()
            invariant
                0 <= i <= records@.len(),
                self@ == (WriterView { out: self@.out, ..v0 }),
                self@ == v1.wrote(
                    encode_records(record_bytes(v0.encoding, records@.subrange(0, i as int)), v0.comma, v0.use_crlf),
                ),
            decreases records@.len() - i,
        {
            self.write_record(&records[i]);
            proof {
                let pre = record_bytes(v0.encoding, records@.subrange(0, i as int));
                let cur = record_bytes(v0.encoding, records@.subrange(0, i + 1));
                assert(cur.drop_last() =~= pre);
                assert(cur.last() == field_bytes(v0.encoding, records@[i as int]@));
                assert(self@.out =~= v1.out + encode_records(cur, v0.comma, v0.use_crlf));
            }
            i = i + 1;
        }
        assert(records@.subrange(0, records@.len() as int) =~= records@);
        assert(self@.out =~= v0.out + (
            v0.header_bytes() + encode_records(record_bytes(v0.encoding, records@), v0.comma, v0.use_crlf)));
    }

    /// Writes each value as a record. When the header is to be written and
    /// none is set, the value type's own header is used.
    pub fn serialize<T: HeaderCSV + ToCSV>(&mut self, records: &Vec<T>)
        ensures
            final(self)@ == (WriterView {
                out: final(self)@.out,
                custom_header: final(self)@.custom_header,
                ..old(self)@
            }),
            old(self)@.write_header && old(self)@.custom_header is None ==> final(self)@.custom_header is Some,
            !(old(self)@.write_header && old(self)@.custom_header is None) ==> final(self)@.custom_header
                == old(self)@.custom_header,
            exists|rows: Seq<Vec<String>>|
                rows.len() == records@.len() && #[trigger] final(self)@.out == old(self)@.out
                    + final(self)@.header_bytes() + encode_records(
                    record_bytes(old(self)@.encoding, rows),
                    old(self)@.comma,
                    old(self)@.use_crlf,
                ),
    {
        if self.write_header && self.custom_header.is_none() {
            self.custom_header = Some(T::get_header());
        }
        let mut rows: Vec<Vec<String>> = Vec::new();
        let mut i: usize = 0;
        while i < records.len()
            invariant
                0 <= i <= records@.len(),
                rows@.len() == i,
            decreases records@.len() - i,
        {
            rows.push(records[i].to_csv());
            i = i + 1;
        }
        let ghost v1 = self@;
        self.write_records(&rows);
        assert(self@.out == v1.out + v1.header_bytes() + encode_records(
            record_bytes(v1.encoding, rows@), v1.comma, v1.use_crlf));
    }
}

} // verus!
