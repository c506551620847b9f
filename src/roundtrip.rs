//! Reading what the writer wrote gives back the records that were written,
//! and writing them again gives the same bytes.
use vstd::prelude::*;
use crate::bytes::{
    index_of, lemma_index_of, lemma_index_of_absent, lemma_index_of_first, spec_length_nl, CR, LF,
    QUOTE,
};
use crate::line::{lemma_line_progress, lemma_raw_end, next_start, phys_line, raw_end, remaining};
use crate::parse::{
    all_records, first_line, lemma_first_line, lemma_read_record, lemma_step, read_record_spec,
    run, scan_wf, start_scan, step, Move, Progress, Scan,
};
use crate::reader::{all_utf8, valid_delimiter, ReaderView};
use vstd::utf8::{
    char_u32_cast, decode_utf8, encode_scalar, encode_utf8, encode_utf8_decode_utf8,
    encode_utf8_valid_utf8, has_width_1_encoding, valid_utf8,
};
use crate::writer::{
    encode_field, encode_record, encode_records, escape, escape_byte, field_bytes, is_special,
    join_fields, needs_quotes, record_bytes,
};

verus! {

/// No CR in `s` stands directly before an LF.
pub open spec fn no_crlf(s: Seq<u8>) -> bool {
    forall|k: int| 0 <= k < s.len() - 1 ==> !(#[trigger] s[k] == CR && s[k + 1] == LF)
}

/// Escaping works byte by byte.
proof fn lemma_escape_concat(a: Seq<u8>, b: Seq<u8>, crlf: bool)
    ensures
        escape(a + b, crlf) == escape(a, crlf) + escape(b, crlf),
    decreases b.len(),
{
    if b.len() == 0 {
        assert(a + b =~= a);
        assert(escape(a, crlf) + escape(b, crlf) =~= escape(a, crlf));
    } else {
        assert((a + b).drop_last() =~= a + b.drop_last());
        lemma_escape_concat(a, b.drop_last(), crlf);
        assert(escape(a, crlf) + escape(b.drop_last(), crlf) + escape_byte(b.last(), crlf) =~= escape(a, crlf)
            + escape(b, crlf));
    }
}

/// Without a quote, escaping in LF mode changes nothing.
proof fn lemma_escape_plain(a: Seq<u8>)
    requires
        forall|k: int| 0 <= k < a.len() ==> #[trigger] a[k] != QUOTE,
    ensures
        escape(a, false) == a,
    decreases a.len(),
{
    if a.len() > 0 {
        lemma_escape_plain(a.drop_last());
        assert(escape(a.drop_last(), false) + escape_byte(a.last(), false) =~= a);
    }
}

/// The escaped bytes of `g` up to its first quote, which is doubled.
proof fn lemma_escape_split(g: Seq<u8>)
    ensures
        ({
            let p = index_of(g, QUOTE);
            if p < 0 {
                escape(g, false) == g
            } else {
                escape(g, false) == g.subrange(0, p) + seq![QUOTE, QUOTE] + escape(g.skip(p + 1), false)
            }
        }),
{
    lemma_index_of(g, QUOTE);
    let p = index_of(g, QUOTE);
    if p < 0 {
        lemma_escape_plain(g);
    } else {
        let a = g.subrange(0, p);
        let b = g.skip(p + 1);
        assert(g =~= a + seq![QUOTE] + b);
        lemma_escape_concat(a + seq![QUOTE], b, false);
        lemma_escape_concat(a, seq![QUOTE], false);
        lemma_escape_plain(a);
        let q = seq![QUOTE];
        assert(q.drop_last() =~= Seq::<u8>::empty());
        assert(escape(q.drop_last(), false) =~= Seq::<u8>::empty());
        assert(q.last() == QUOTE);
        assert(escape(q, false) == escape(q.drop_last(), false) + escape_byte(q.last(), false));
        assert(escape(q, false) =~= seq![QUOTE, QUOTE]);
    }
}

/// Joining from the front: the first field, the delimiter, then the rest.
proof fn lemma_join_front(fs: Seq<Seq<u8>>, comma: u8)
    requires
        fs.len() >= 2,
    ensures
        join_fields(fs, comma, false) == encode_field(fs[0], comma, false) + seq![comma] + join_fields(
            fs.skip(1),
            comma,
            false,
        ),
    decreases fs.len(),
{
    let dl = fs.drop_last();
    let s1 = fs.skip(1);
    if fs.len() == 2 {
        assert(dl.len() == 1 && dl[0] == fs[0]);
        assert(s1.len() == 1 && s1[0] == fs[1]);
        assert(join_fields(dl, comma, false) == encode_field(fs[0], comma, false));
        assert(join_fields(s1, comma, false) == encode_field(fs[1], comma, false));
    } else {
        lemma_join_front(dl, comma);
        assert(dl.skip(1) =~= s1.drop_last());
        assert(s1.last() == fs.last());
        assert(dl[0] == fs[0]);
        let e0 = encode_field(fs[0], comma, false);
        let el = encode_field(fs.last(), comma, false);
        assert(join_fields(s1, comma, false) == join_fields(s1.drop_last(), comma, false) + seq![comma] + el);
        assert(join_fields(fs, comma, false) == join_fields(dl, comma, false) + seq![comma] + el);
        assert(e0 + seq![comma] + join_fields(dl.skip(1), comma, false) + seq![comma] + el =~= e0 + seq![comma]
            + (join_fields(dl.skip(1), comma, false) + seq![comma] + el));
    }
}

/// What follows a field: the delimiter and the other fields, or the line
/// feed that ends the record; then `more`, the records after it.
pub open spec fn after_field(tail: Seq<Seq<u8>>, comma: u8, more: Seq<u8>) -> Seq<u8> {
    if tail.len() == 0 {
        seq![LF] + more
    } else {
        seq![comma] + join_fields(tail, comma, false) + seq![LF] + more
    }
}

/// The source ends with LF, so each of its physical lines ends with LF.
pub open spec fn ends_with_lf(src: Seq<u8>) -> bool {
    &&& src.len() > 0
    &&& src.last() == LF
    &&& src.len() <= isize::MAX
}

/// The rest of the current line ends with its LF, and holds no other.
pub open spec fn line_ok(l: Seq<u8>) -> bool {
    &&& l.len() > 0
    &&& l.last() == LF
    &&& forall|k: int| 0 <= k < l.len() - 1 ==> #[trigger] l[k] != LF
}

/// The physical lines from `c` on, one after the other: the bytes as the
/// parser sees them.
pub open spec fn norm(src: Seq<u8>, c: int) -> Seq<u8>
    decreases remaining(src, c),
{
    if c < 0 || c >= src.len() {
        Seq::empty()
    } else {
        proof {
            lemma_raw_end(src, c);
        }
        phys_line(src, c) + norm(src, next_start(src, c))
    }
}

proof fn lemma_norm_line(src: Seq<u8>, c: int)
    requires
        ends_with_lf(src),
        0 <= c < src.len(),
    ensures
        line_ok(phys_line(src, c)),
        phys_line(src, c) + norm(src, next_start(src, c)) == norm(src, c),
        norm(src, c).len() > 0,
{
    lemma_raw_end(src, c);
    let e = raw_end(src, c);
    let raw = src.subrange(c, e);
    assert(src[e - 1] == LF) by {
        if e == src.len() {
        }
    }
    assert(raw.last() == LF);
    assert(crate::line::trim_last_cr(raw) == raw);
    let n = raw.len() as int;
    assert forall|k: int| 0 <= k < raw.len() - 1 implies #[trigger] raw[k] != LF by {
        assert(raw[k] == src[c + k]);
    }
    if n >= 2 && raw[n - 2] == CR {
        let l = raw.subrange(0, n - 2).push(LF);
        assert forall|k: int| 0 <= k < l.len() - 1 implies #[trigger] l[k] != LF by {
            assert(l[k] == raw[k]);
        }
    }
}

/// No byte of `s` is a CR.
pub open spec fn no_cr(s: Seq<u8>) -> bool {
    forall|k: int| 0 <= k < s.len() ==> #[trigger] s[k] != CR
}

/// Without CR LF, the parser sees the bytes as they are.
proof fn lemma_norm_plain(src: Seq<u8>, c: int)
    requires
        ends_with_lf(src),
        no_crlf(src),
        0 <= c <= src.len(),
    ensures
        norm(src, c) == src.skip(c),
    decreases remaining(src, c),
{
    if c < src.len() {
        lemma_raw_end(src, c);
        let e = raw_end(src, c);
        let raw = src.subrange(c, e);
        assert(src[e - 1] == LF) by {
            if e == src.len() {
            }
        }
        let n = raw.len() as int;
        if n >= 2 {
            assert(!(src[e - 2] == CR && src[e - 1] == LF));
            assert(raw[n - 2] == src[e - 2]);
        }
        assert(phys_line(src, c) == raw);
        lemma_norm_plain(src, e);
        assert(raw + src.skip(e) =~= src.skip(c));
    } else {
        assert(src.skip(c).len() == 0);
    }
}

/// `s` without its CR bytes.
pub open spec fn drop_cr(s: Seq<u8>) -> Seq<u8>
    decreases s.len(),
{
    if s.len() == 0 {
        Seq::empty()
    } else {
        drop_cr(s.drop_last()) + if s.last() == CR {
            Seq::<u8>::empty()
        } else {
            seq![s.last()]
        }
    }
}

proof fn lemma_drop_cr_concat(a: Seq<u8>, b: Seq<u8>)
    ensures
        drop_cr(a + b) == drop_cr(a) + drop_cr(b),
    decreases b.len(),
{
    if b.len() == 0 {
        assert(a + b =~= a);
        assert(drop_cr(a) + drop_cr(b) =~= drop_cr(a));
    } else {
        assert((a + b).drop_last() =~= a + b.drop_last());
        lemma_drop_cr_concat(a, b.drop_last());
        let t = if b.last() == CR {
            Seq::<u8>::empty()
        } else {
            seq![b.last()]
        };
        assert(drop_cr(a) + drop_cr(b.drop_last()) + t =~= drop_cr(a) + (drop_cr(b.drop_last()) + t));
    }
}

proof fn lemma_drop_cr_one(b: u8)
    ensures
        drop_cr(seq![b]) == if b == CR {
            Seq::<u8>::empty()
        } else {
            seq![b]
        },
{
    let s = seq![b];
    assert(s.drop_last() =~= Seq::<u8>::empty());
    assert(drop_cr(s.drop_last()) == Seq::<u8>::empty());
    assert(s.last() == b);
    assert(drop_cr(s) == drop_cr(s.drop_last()) + if b == CR {
        Seq::<u8>::empty()
    } else {
        seq![b]
    });
    assert(Seq::<u8>::empty() + seq![b] =~= seq![b]);
    assert(Seq::<u8>::empty() + Seq::<u8>::empty() =~= Seq::<u8>::empty());
}

proof fn lemma_drop_cr_none(s: Seq<u8>)
    requires
        no_cr(s),
    ensures
        drop_cr(s) == s,
    decreases s.len(),
{
    if s.len() > 0 {
        lemma_drop_cr_none(s.drop_last());
        assert(drop_cr(s.drop_last()) + seq![s.last()] =~= s);
    }
}

/// Each CR of `s` stands directly before an LF.
pub open spec fn cr_ok(s: Seq<u8>) -> bool {
    forall|k: int| 0 <= k < s.len() && #[trigger] s[k] == CR ==> k + 1 < s.len() && s[k + 1] == LF
}

proof fn lemma_cr_ok_concat(a: Seq<u8>, b: Seq<u8>)
    requires
        cr_ok(a),
        cr_ok(b),
    ensures
        cr_ok(a + b),
{
    let c = a + b;
    assert forall|k: int| 0 <= k < c.len() && #[trigger] c[k] == CR implies k + 1 < c.len() && c[k + 1] == LF by {
        if k < a.len() {
            assert(a[k] == CR);
        } else {
            assert(b[k - a.len()] == CR);
        }
    }
}

/// When each CR stands before an LF, the parser sees the bytes without
/// their CRs.
proof fn lemma_norm_crlf(src: Seq<u8>, c: int)
    requires
        ends_with_lf(src),
        cr_ok(src),
        0 <= c <= src.len(),
    ensures
        norm(src, c) == drop_cr(src.skip(c)),
    decreases remaining(src, c),
{
    if c < src.len() {
        lemma_raw_end(src, c);
        let e = raw_end(src, c);
        let raw = src.subrange(c, e);
        assert(src[e - 1] == LF) by {
            if e == src.len() {
            }
        }
        let n = raw.len() as int;
        assert(crate::line::trim_last_cr(raw) == raw);
        // a CR of the line can only stand just before its LF
        assert forall|k: int| 0 <= k < n - 2 implies #[trigger] raw[k] != CR by {
            if raw[k] == CR {
                assert(src[c + k] == CR);
                assert(src[c + k + 1] == LF);
            }
        }
        lemma_norm_crlf(src, e);
        assert(src.skip(c) =~= raw + src.skip(e));
        lemma_drop_cr_concat(raw, src.skip(e));
        if n >= 2 {
            let body = raw.subrange(0, n - 2);
            assert(raw =~= body + seq![raw[n - 2]] + seq![LF]);
            lemma_drop_cr_concat(body + seq![raw[n - 2]], seq![LF]);
            lemma_drop_cr_concat(body, seq![raw[n - 2]]);
            lemma_drop_cr_none(body);
            lemma_drop_cr_one(raw[n - 2]);
            lemma_drop_cr_one(LF);
            if raw[n - 2] == CR {
                assert(drop_cr(seq![raw[n - 2]]) =~= Seq::<u8>::empty());
                assert(phys_line(src, c) =~= body.push(LF));
                assert(drop_cr(raw) =~= body + seq![LF]);
            } else {
                assert(drop_cr(seq![raw[n - 2]]) =~= seq![raw[n - 2]]);
                assert(phys_line(src, c) == raw);
                assert(drop_cr(raw) =~= raw);
            }
        } else {
            assert(raw =~= seq![LF]);
            lemma_drop_cr_one(LF);
            assert(drop_cr(raw) =~= raw);
            assert(phys_line(src, c) == raw);
        }
    } else {
        assert(src.skip(c).len() == 0);
    }
}

/// In CRLF mode, a field without CR is written as in LF mode with a CR
/// before each LF.
proof fn lemma_escape_crlf(f: Seq<u8>)
    requires
        no_cr(f),
    ensures
        drop_cr(escape(f, true)) == escape(f, false),
        cr_ok(escape(f, true)),
    decreases f.len(),
{
    if f.len() > 0 {
        let b = f.last();
        lemma_escape_crlf(f.drop_last());
        lemma_drop_cr_concat(escape(f.drop_last(), true), escape_byte(b, true));
        let t = escape_byte(b, true);
        if b == LF {
            assert(t =~= seq![CR] + seq![LF]);
            lemma_drop_cr_concat(seq![CR], seq![LF]);
            lemma_drop_cr_one(CR);
            lemma_drop_cr_one(LF);
            assert(drop_cr(t) =~= seq![LF]);
        } else if b == QUOTE {
            assert(t =~= seq![QUOTE] + seq![QUOTE]);
            lemma_drop_cr_concat(seq![QUOTE], seq![QUOTE]);
            lemma_drop_cr_one(QUOTE);
            assert(drop_cr(t) =~= t);
        } else {
            assert(t =~= seq![b]);
            lemma_drop_cr_one(b);
            assert(drop_cr(t) =~= t);
        }
        lemma_cr_ok_concat(escape(f.drop_last(), true), t);
    }
}

proof fn lemma_field_crlf(f: Seq<u8>, comma: u8)
    requires
        no_cr(f),
        valid_delimiter(comma),
    ensures
        drop_cr(encode_field(f, comma, true)) == encode_field(f, comma, false),
        cr_ok(encode_field(f, comma, true)),
{
    if needs_quotes(f, comma) {
        lemma_escape_crlf(f);
        let q = seq![QUOTE];
        lemma_drop_cr_one(QUOTE);
        lemma_drop_cr_concat(q + escape(f, true), q);
        lemma_drop_cr_concat(q, escape(f, true));
        lemma_cr_ok_concat(q, escape(f, true));
        lemma_cr_ok_concat(q + escape(f, true), q);
    } else {
        lemma_drop_cr_none(f);
    }
}

proof fn lemma_join_crlf(fs: Seq<Seq<u8>>, comma: u8)
    requires
        forall|i: int| 0 <= i < fs.len() ==> no_cr(#[trigger] fs[i]),
        valid_delimiter(comma),
    ensures
        drop_cr(join_fields(fs, comma, true)) == join_fields(fs, comma, false),
        cr_ok(join_fields(fs, comma, true)),
    decreases fs.len(),
{
    if fs.len() == 1 {
        lemma_field_crlf(fs[0], comma);
    } else if fs.len() >= 2 {
        lemma_join_crlf(fs.drop_last(), comma);
        lemma_field_crlf(fs.last(), comma);
        let j = join_fields(fs.drop_last(), comma, true);
        let c = seq![comma];
        let e = encode_field(fs.last(), comma, true);
        lemma_drop_cr_one(comma);
        lemma_drop_cr_concat(j + c, e);
        lemma_drop_cr_concat(j, c);
        lemma_cr_ok_concat(j, c);
        lemma_cr_ok_concat(j + c, e);
    }
}

/// What is left to read is the first field of `rest` as written, and what
/// follows it.
proof fn lemma_fields_facts(src: Seq<u8>, comma: u8, lazy: bool, st: Scan, rest: Seq<Seq<u8>>, more: Seq<u8>)
    requires
        valid_delimiter(comma),
        line_ok(st.line),
        rest.len() >= 1,
        st.line + norm(src, st.cursor) == join_fields(rest, comma, false) + seq![LF] + more,
    ensures
        st.line + norm(src, st.cursor) == encode_field(rest[0], comma, false) + after_field(rest.skip(1), comma, more),
        forall|j: int| 0 <= j < st.line.len() ==> #[trigger] st.line[j] == (st.line + norm(src, st.cursor))[j],
{
    let r = st.line + norm(src, st.cursor);
    let tail = rest.skip(1);
    if rest.len() >= 2 {
        lemma_join_front(rest, comma);
        assert(after_field(tail, comma, more) =~= seq![comma] + join_fields(tail, comma, false) + seq![LF] + more);
        assert(r =~= encode_field(rest[0], comma, false) + after_field(tail, comma, more));
    } else {
        assert(tail.len() == 0);
    }
}

/// Parsing from the start of a field, over bytes that the writer produced
/// for `rest`, yields `rest`.
proof fn lemma_parse_fields(src: Seq<u8>, comma: u8, lazy: bool, st: Scan, rest: Seq<Seq<u8>>, more: Seq<u8>)
    requires
        ends_with_lf(src),
        valid_delimiter(comma),
        scan_wf(src, st),
        !st.quoted,
        line_ok(st.line),
        rest.len() >= 1,
        st.line + norm(src, st.cursor) == join_fields(rest, comma, false) + seq![LF] + more,
    ensures
        run(src, comma, lazy, st) matches Ok(end) && end.fields == st.fields + rest && norm(src, end.cursor) == more,
    decreases remaining(src, st.cursor), st.line.len(), 1nat,
{
    if needs_quotes(rest[0], comma) {
        lemma_fields_quoted(src, comma, lazy, st, rest, more);
    } else {
        lemma_fields_plain(src, comma, lazy, st, rest, more);
    }
}

/// The next field is written as it is.
#[verifier::rlimit(60)]
proof fn lemma_fields_plain(src: Seq<u8>, comma: u8, lazy: bool, st: Scan, rest: Seq<Seq<u8>>, more: Seq<u8>)
    requires
        ends_with_lf(src),
        valid_delimiter(comma),
        scan_wf(src, st),
        !st.quoted,
        line_ok(st.line),
        rest.len() >= 1,
        st.line + norm(src, st.cursor) == join_fields(rest, comma, false) + seq![LF] + more,
        !needs_quotes(rest[0], comma),
    ensures
        run(src, comma, lazy, st) matches Ok(end) && end.fields == st.fields + rest && norm(src, end.cursor) == more,
    decreases remaining(src, st.cursor), st.line.len(), 0nat,
{
    lemma_fields_facts(src, comma, lazy, st, rest, more);
    lemma_step(src, comma, lazy, st);
    let line = st.line;
    let r = line + norm(src, st.cursor);
    let f = rest[0];
    let tail = rest.skip(1);
    assert forall|k: int| 0 <= k < f.len() implies !is_special(#[trigger] f[k], comma) by {}
    assert(r[f.len() as int] == after_field(tail, comma, more)[0]);
    assert(f.len() < line.len()) by {
        if f.len() >= line.len() {
            assert(line[line.len() - 1] == f[line.len() - 1]);
        }
    }
    assert(line.subrange(0, f.len() as int) =~= f);
    assert(line[0] != QUOTE) by {
        if f.len() > 0 {
            assert(line[0] == f[0]);
        }
    }
    assert forall|j: int| 0 <= j < f.len() implies line[j] != comma by {
        assert(line[j] == f[j]);
    }
    if tail.len() == 0 {
        assert(line[f.len() as int] == LF);
        assert(line.len() == f.len() + 1);
        assert forall|j: int| 0 <= j < line.len() implies line[j] != comma by {
            if j < f.len() {
                assert(line[j] == f[j]);
            }
        }
        lemma_index_of_absent(line, comma);
        let fb = crate::parse::unquoted_bytes(line, comma);
        assert(fb =~= f);
        lemma_index_of_absent(fb, QUOTE);
        assert(norm(src, st.cursor) =~= r.skip(f.len() as int + 1));
        assert(r.skip(f.len() as int + 1) =~= more);
        assert(st.fields.push(fb) =~= st.fields + rest);
    } else {
        assert(line[f.len() as int] == comma);
        lemma_index_of_first(line, comma, f.len() as int);
        let fb = crate::parse::unquoted_bytes(line, comma);
        assert(fb =~= f);
        lemma_index_of_absent(fb, QUOTE);
        match step(src, comma, lazy, st) {
            Move::Next(s2) => {
                let n2 = line.skip(f.len() as int + 1);
                assert(s2.line == n2);
                assert(r == f + (seq![comma] + join_fields(tail, comma, false) + seq![LF] + more));
                assert(r.skip(f.len() as int + 1) =~= join_fields(tail, comma, false) + seq![LF] + more);
                assert(r.skip(f.len() as int + 1) =~= n2 + norm(src, st.cursor));
                assert(line_ok(n2)) by {
                    assert forall|k: int| 0 <= k < n2.len() - 1 implies #[trigger] n2[k] != LF by {
                        assert(n2[k] == line[k + f.len() as int + 1]);
                    }
                }
                lemma_parse_fields(src, comma, lazy, s2, tail, more);
                assert(st.fields.push(f) + tail =~= st.fields + rest);
            },
            _ => {},
        }
    }
}

/// The next field is quoted.
proof fn lemma_fields_quoted(src: Seq<u8>, comma: u8, lazy: bool, st: Scan, rest: Seq<Seq<u8>>, more: Seq<u8>)
    requires
        ends_with_lf(src),
        valid_delimiter(comma),
        scan_wf(src, st),
        !st.quoted,
        line_ok(st.line),
        rest.len() >= 1,
        st.line + norm(src, st.cursor) == join_fields(rest, comma, false) + seq![LF] + more,
        needs_quotes(rest[0], comma),
    ensures
        run(src, comma, lazy, st) matches Ok(end) && end.fields == st.fields + rest && norm(src, end.cursor) == more,
    decreases remaining(src, st.cursor), st.line.len(), 0nat,
{
    lemma_fields_facts(src, comma, lazy, st, rest, more);
    lemma_step(src, comma, lazy, st);
    let line = st.line;
    let r = line + norm(src, st.cursor);
    let f = rest[0];
    let tail = rest.skip(1);
    assert(r[0] == QUOTE);
    assert(line[0] == QUOTE);
    match step(src, comma, lazy, st) {
        Move::Next(s2) => {
            let n2 = line.skip(1);
            assert(s2.line == n2);
            assert(line.len() > 1);
            assert(f.skip(0) =~= f);
            assert(r == seq![QUOTE] + escape(f, false) + seq![QUOTE] + after_field(tail, comma, more));
            assert(r.skip(1) =~= n2 + norm(src, st.cursor));
            assert(r.skip(1) =~= escape(f.skip(0), false) + seq![QUOTE] + after_field(tail, comma, more));
            assert(line_ok(n2)) by {
                assert forall|k: int| 0 <= k < n2.len() - 1 implies #[trigger] n2[k] != LF by {
                    assert(n2[k] == line[k + 1]);
                }
            }
            assert(s2.field =~= f.subrange(0, 0));
            lemma_parse_quoted(src, comma, lazy, s2, f, 0, tail, more);
            assert(st.fields.push(f) + tail =~= st.fields + rest);
        },
        _ => {},
    }
}

/// The first quote of what is left to read inside a quoted field: a doubled
/// quote of the field, or the closing one.
pub open spec fn quote_at(f: Seq<u8>, k: int) -> int {
    let pg = index_of(f.skip(k), QUOTE);
    if pg < 0 {
        f.len() - k
    } else {
        pg
    }
}

proof fn lemma_quoted_facts(
    src: Seq<u8>,
    comma: u8,
    lazy: bool,
    st: Scan,
    f: Seq<u8>,
    k: int,
    tail: Seq<Seq<u8>>,
    more: Seq<u8>,
)
    requires
        ends_with_lf(src),
        valid_delimiter(comma),
        scan_wf(src, st),
        st.quoted,
        line_ok(st.line),
        0 <= k <= f.len(),
        st.field == f.subrange(0, k),
        st.line + norm(src, st.cursor) == escape(f.skip(k), false) + seq![QUOTE] + after_field(tail, comma, more),
    ensures
        ({
            let r = st.line + norm(src, st.cursor);
            let g = f.skip(k);
            let p = quote_at(f, k);
            &&& 0 <= p <= g.len()
            &&& index_of(g, QUOTE) >= 0 ==> p < g.len() && g[p] == QUOTE
            &&& r[p] == QUOTE
            &&& forall|j: int| 0 <= j < p ==> r[j] == g[j] && #[trigger] g[j] != QUOTE
            &&& forall|j: int| 0 <= j < st.line.len() ==> #[trigger] st.line[j] == r[j]
            &&& index_of(st.line, QUOTE) >= 0 ==> index_of(st.line, QUOTE) == p && p < st.line.len() - 1
            &&& index_of(st.line, QUOTE) < 0 ==> st.line.len() <= p
            &&& (index_of(g, QUOTE) < 0 ==> escape(g, false) == g)
            &&& (index_of(g, QUOTE) >= 0 ==> escape(g, false) == g.subrange(0, p) + seq![QUOTE, QUOTE] + escape(
                g.skip(p + 1),
                false,
            ))
        }),
{
    let line = st.line;
    let g = f.skip(k);
    let r = line + norm(src, st.cursor);
    let af = after_field(tail, comma, more);
    lemma_escape_split(g);
    lemma_index_of(g, QUOTE);
    lemma_index_of(line, QUOTE);
    let pg = index_of(g, QUOTE);
    let p = quote_at(f, k);
    assert forall|j: int| 0 <= j < line.len() implies #[trigger] line[j] == r[j] by {}
    assert(r[p] == QUOTE) by {
        if pg < 0 {
            assert(r == g + seq![QUOTE] + af);
        } else {
            assert(r == g.subrange(0, p) + seq![QUOTE, QUOTE] + escape(g.skip(p + 1), false) + seq![QUOTE] + af);
        }
    }
    assert forall|j: int| 0 <= j < p implies r[j] == g[j] && #[trigger] g[j] != QUOTE by {
        if pg < 0 {
            assert(r == g + seq![QUOTE] + af);
        } else {
            assert(r == g.subrange(0, p) + seq![QUOTE, QUOTE] + escape(g.skip(p + 1), false) + seq![QUOTE] + af);
        }
    }
    let i = index_of(line, QUOTE);
    if i >= 0 {
        if p < i {
            assert(line[p] == r[p]);
        }
        if i < p {
            assert(line[i] == r[i]);
        }
    } else {
        if p < line.len() {
            assert(line[p] == r[p]);
        }
    }
}

/// Parsing inside a quoted field whose first `k` bytes are read yields the
/// field and then the fields of `tail`.
proof fn lemma_parse_quoted(
    src: Seq<u8>,
    comma: u8,
    lazy: bool,
    st: Scan,
    f: Seq<u8>,
    k: int,
    tail: Seq<Seq<u8>>,
    more: Seq<u8>,
)
    requires
        ends_with_lf(src),
        valid_delimiter(comma),
        scan_wf(src, st),
        st.quoted,
        line_ok(st.line),
        0 <= k <= f.len(),
        st.field == f.subrange(0, k),
        st.line + norm(src, st.cursor) == escape(f.skip(k), false) + seq![QUOTE] + after_field(tail, comma, more),
    ensures
        run(src, comma, lazy, st) matches Ok(end) && end.fields == st.fields.push(f) + tail && norm(
            src,
            end.cursor,
        ) == more,
    decreases remaining(src, st.cursor), st.line.len(), 1nat,
{
    lemma_quoted_facts(src, comma, lazy, st, f, k, tail, more);
    lemma_index_of(f.skip(k), QUOTE);
    if index_of(st.line, QUOTE) < 0 {
        lemma_quoted_line(src, comma, lazy, st, f, k, tail, more);
    } else if index_of(f.skip(k), QUOTE) >= 0 {
        lemma_quoted_escaped(src, comma, lazy, st, f, k, tail, more);
    } else {
        lemma_quoted_close(src, comma, lazy, st, f, k, tail, more);
    }
}

/// The line holds a doubled quote of the field.
proof fn lemma_quoted_escaped(
    src: Seq<u8>,
    comma: u8,
    lazy: bool,
    st: Scan,
    f: Seq<u8>,
    k: int,
    tail: Seq<Seq<u8>>,
    more: Seq<u8>,
)
    requires
        ends_with_lf(src),
        valid_delimiter(comma),
        scan_wf(src, st),
        st.quoted,
        line_ok(st.line),
        0 <= k <= f.len(),
        st.field == f.subrange(0, k),
        st.line + norm(src, st.cursor) == escape(f.skip(k), false) + seq![QUOTE] + after_field(tail, comma, more),
        index_of(st.line, QUOTE) >= 0,
        index_of(f.skip(k), QUOTE) >= 0,
    ensures
        run(src, comma, lazy, st) matches Ok(end) && end.fields == st.fields.push(f) + tail && norm(
            src,
            end.cursor,
        ) == more,
    decreases remaining(src, st.cursor), st.line.len(), 0nat,
{
    lemma_quoted_facts(src, comma, lazy, st, f, k, tail, more);
    lemma_step(src, comma, lazy, st);
    let line = st.line;
    let g = f.skip(k);
    let r = line + norm(src, st.cursor);
    let af = after_field(tail, comma, more);
    let p = quote_at(f, k);
    assert(st.field + line.subrange(0, p) =~= f.subrange(0, k + p)) by {
        assert forall|j: int| 0 <= j < p implies line.subrange(0, p)[j] == f[k + j] by {
            assert(line[j] == r[j]);
        }
    }
    let tailr = escape(g.skip(p + 1), false) + seq![QUOTE] + af;
    assert(r =~= g.subrange(0, p) + seq![QUOTE, QUOTE] + tailr);
    assert(r[p + 1] == QUOTE);
    assert(line[p + 1] == QUOTE);
    match step(src, comma, lazy, st) {
        Move::Next(s2) => {
            let n2 = line.skip(p + 2);
            assert(s2.line == n2);
            assert(n2 + norm(src, st.cursor) =~= r.skip(p + 2));
            assert(r.skip(p + 2) =~= tailr);
            assert(g.skip(p + 1) =~= f.skip(k + p + 1));
            assert(line_ok(n2)) by {
                assert forall|j: int| 0 <= j < n2.len() - 1 implies #[trigger] n2[j] != LF by {
                    assert(n2[j] == line[j + p + 2]);
                }
            }
            assert(f[k + p] == QUOTE);
            assert(s2.field =~= f.subrange(0, k + p + 1));
            lemma_parse_quoted(src, comma, lazy, s2, f, k + p + 1, tail, more);
        },
        _ => {},
    }
}

/// The line holds the closing quote of the field.
proof fn lemma_quoted_close(
    src: Seq<u8>,
    comma: u8,
    lazy: bool,
    st: Scan,
    f: Seq<u8>,
    k: int,
    tail: Seq<Seq<u8>>,
    more: Seq<u8>,
)
    requires
        ends_with_lf(src),
        valid_delimiter(comma),
        scan_wf(src, st),
        st.quoted,
        line_ok(st.line),
        0 <= k <= f.len(),
        st.field == f.subrange(0, k),
        st.line + norm(src, st.cursor) == escape(f.skip(k), false) + seq![QUOTE] + after_field(tail, comma, more),
        index_of(st.line, QUOTE) >= 0,
        index_of(f.skip(k), QUOTE) < 0,
    ensures
        run(src, comma, lazy, st) matches Ok(end) && end.fields == st.fields.push(f) + tail && norm(
            src,
            end.cursor,
        ) == more,
    decreases remaining(src, st.cursor), st.line.len(), 0nat,
{
    lemma_quoted_facts(src, comma, lazy, st, f, k, tail, more);
    lemma_step(src, comma, lazy, st);
    let line = st.line;
    let g = f.skip(k);
    let r = line + norm(src, st.cursor);
    let af = after_field(tail, comma, more);
    let p = quote_at(f, k);
    assert(st.field + line.subrange(0, p) =~= f) by {
        assert forall|j: int| 0 <= j < p implies line.subrange(0, p)[j] == f[k + j] by {
            assert(line[j] == r[j]);
        }
    }
    let rest = line.skip(p + 1);
    assert(r =~= g + seq![QUOTE] + af);
    assert(r.skip(p + 1) =~= af);
    assert(rest + norm(src, st.cursor) =~= af);
    if tail.len() == 0 {
        assert(rest[0] == LF);
        assert(line[p + 1] == LF);
        assert(rest.len() == 1);
        assert(norm(src, st.cursor) =~= af.skip(1));
        assert(af.skip(1) =~= more);
        assert(spec_length_nl(rest) == 1);
    } else {
        assert(rest[0] == comma);
        match step(src, comma, lazy, st) {
            Move::Next(s2) => {
                let n2 = line.skip(p + 2);
                assert(s2.line == n2);
                assert(af =~= seq![comma] + (join_fields(tail, comma, false) + seq![LF] + more));
                assert(rest.skip(1) + norm(src, st.cursor) =~= (rest + norm(src, st.cursor)).skip(1));
                assert(n2 =~= rest.skip(1));
                assert(n2 + norm(src, st.cursor) =~= join_fields(tail, comma, false) + seq![LF] + more);
                assert(line_ok(n2)) by {
                    assert forall|j: int| 0 <= j < n2.len() - 1 implies #[trigger] n2[j] != LF by {
                        assert(n2[j] == line[j + p + 2]);
                    }
                }
                lemma_parse_fields(src, comma, lazy, s2, tail, more);
                assert(st.fields.push(f) + tail =~= s2.fields + tail);
            },
            _ => {},
        }
    }
}

/// The line holds no quote: all of it belongs to the field.
#[verifier::rlimit(60)]
proof fn lemma_quoted_line(
    src: Seq<u8>,
    comma: u8,
    lazy: bool,
    st: Scan,
    f: Seq<u8>,
    k: int,
    tail: Seq<Seq<u8>>,
    more: Seq<u8>,
)
    requires
        ends_with_lf(src),
        valid_delimiter(comma),
        scan_wf(src, st),
        st.quoted,
        line_ok(st.line),
        0 <= k <= f.len(),
        st.field == f.subrange(0, k),
        st.line + norm(src, st.cursor) == escape(f.skip(k), false) + seq![QUOTE] + after_field(tail, comma, more),
        index_of(st.line, QUOTE) < 0,
    ensures
        run(src, comma, lazy, st) matches Ok(end) && end.fields == st.fields.push(f) + tail && norm(
            src,
            end.cursor,
        ) == more,
    decreases remaining(src, st.cursor), st.line.len(), 0nat,
{
    lemma_quoted_facts(src, comma, lazy, st, f, k, tail, more);
    lemma_step(src, comma, lazy, st);
    let line = st.line;
    let g = f.skip(k);
    let r = line + norm(src, st.cursor);
    let af = after_field(tail, comma, more);
    let p = quote_at(f, k);
    let m = line.len() as int;
    assert(st.cursor < src.len()) by {
        if st.cursor >= src.len() {
            assert(r.len() == m);
            assert(r[p] == QUOTE);
        }
    }
    lemma_norm_line(src, st.cursor);
    lemma_line_progress(src, st.cursor);
    let a = g.subrange(0, m);
    assert forall|j: int| 0 <= j < m implies #[trigger] a[j] != QUOTE && line[j] == a[j] by {
        assert(line[j] == r[j]);
    }
    assert(line =~= a);
    assert(g =~= a + g.skip(m));
    lemma_escape_concat(a, g.skip(m), false);
    lemma_escape_plain(a);
    assert(g.skip(m) =~= f.skip(k + m));
    let e2 = escape(g.skip(m), false) + seq![QUOTE] + af;
    assert(r =~= a + e2);
    assert(norm(src, st.cursor) =~= r.skip(m));
    assert(r.skip(m) =~= e2);
    match step(src, comma, lazy, st) {
        Move::Next(s2) => {
            let n2 = phys_line(src, st.cursor);
            assert(s2.line == n2);
            assert(s2.cursor == next_start(src, st.cursor));
            assert(s2.field =~= f.subrange(0, k + m));
            lemma_parse_quoted(src, comma, lazy, s2, f, k + m, tail, more);
        },
        _ => {},
    }
}

/// The first byte of a record as written is not a line feed.
proof fn lemma_record_starts(fs: Seq<Seq<u8>>, comma: u8)
    requires
        valid_delimiter(comma),
        fs.len() >= 1,
        !(fs.len() == 1 && fs[0].len() == 0),
    ensures
        join_fields(fs, comma, false).len() > 0,
        join_fields(fs, comma, false)[0] != LF,
{
    let e0 = encode_field(fs[0], comma, false);
    if !needs_quotes(fs[0], comma) && fs[0].len() > 0 {
        assert(!is_special(fs[0][0], comma));
    }
    if fs.len() >= 2 {
        lemma_join_front(fs, comma);
        assert((e0 + seq![comma] + join_fields(fs.skip(1), comma, false))[0] == if e0.len() > 0 {
            e0[0]
        } else {
            comma
        });
    }
}

proof fn lemma_no_crlf_concat(a: Seq<u8>, b: Seq<u8>)
    requires
        no_crlf(a),
        no_crlf(b),
        !(a.len() > 0 && a.last() == CR && b.len() > 0 && b[0] == LF),
    ensures
        no_crlf(a + b),
{
    let c = a + b;
    assert forall|k: int| 0 <= k < c.len() - 1 implies !(#[trigger] c[k] == CR && c[k + 1] == LF) by {
        if k < a.len() - 1 {
            assert(c[k] == a[k] && c[k + 1] == a[k + 1]);
        } else if k >= a.len() {
            assert(c[k] == b[k - a.len()] && c[k + 1] == b[k - a.len() + 1]);
        }
    }
}

/// In LF mode, escaping creates no CR LF, and keeps the last byte a CR only
/// when the field's last byte is one.
proof fn lemma_escape_no_crlf(f: Seq<u8>)
    requires
        no_crlf(f),
    ensures
        no_crlf(escape(f, false)),
        escape(f, false).len() > 0 ==> f.len() > 0 && (escape(f, false).last() == CR ==> f.last() == CR),
    decreases f.len(),
{
    if f.len() > 0 {
        let dl = f.drop_last();
        let b = f.last();
        assert(no_crlf(dl)) by {
            assert forall|k: int| 0 <= k < dl.len() - 1 implies !(#[trigger] dl[k] == CR && dl[k + 1] == LF) by {
                assert(dl[k] == f[k] && dl[k + 1] == f[k + 1]);
            }
        }
        lemma_escape_no_crlf(dl);
        let t = escape_byte(b, false);
        assert(no_crlf(t));
        if escape(dl, false).len() > 0 && escape(dl, false).last() == CR && t[0] == LF {
            assert(f[dl.len() - 1] == CR && f[dl.len() as int] == LF);
        }
        lemma_no_crlf_concat(escape(dl, false), t);
    }
}

/// A field written in LF mode holds no CR LF when the field holds none, and
/// does not end with CR.
proof fn lemma_field_no_crlf(f: Seq<u8>, comma: u8)
    requires
        no_crlf(f),
        valid_delimiter(comma),
    ensures
        no_crlf(encode_field(f, comma, false)),
        encode_field(f, comma, false).len() > 0 ==> encode_field(f, comma, false).last() != CR,
{
    if needs_quotes(f, comma) {
        lemma_escape_no_crlf(f);
        let q = seq![QUOTE];
        lemma_no_crlf_concat(q, escape(f, false));
        lemma_no_crlf_concat(q + escape(f, false), q);
    } else {
        assert forall|k: int| 0 <= k < f.len() implies !is_special(#[trigger] f[k], comma) by {}
        if f.len() > 0 {
            assert(!is_special(f[f.len() - 1], comma));
        }
    }
}

/// Fields joined in LF mode hold no CR LF, and do not end with CR.
proof fn lemma_join_no_crlf(fs: Seq<Seq<u8>>, comma: u8)
    requires
        forall|i: int| 0 <= i < fs.len() ==> no_crlf(#[trigger] fs[i]),
        valid_delimiter(comma),
    ensures
        no_crlf(join_fields(fs, comma, false)),
        join_fields(fs, comma, false).len() > 0 ==> join_fields(fs, comma, false).last() != CR,
    decreases fs.len(),
{
    if fs.len() == 1 {
        lemma_field_no_crlf(fs[0], comma);
    } else if fs.len() >= 2 {
        let dl = fs.drop_last();
        assert forall|i: int| 0 <= i < dl.len() implies no_crlf(#[trigger] dl[i]) by {
            assert(dl[i] == fs[i]);
        }
        lemma_join_no_crlf(dl, comma);
        lemma_field_no_crlf(fs.last(), comma);
        let j = join_fields(dl, comma, false);
        let c = seq![comma];
        lemma_no_crlf_concat(j, c);
        lemma_no_crlf_concat(j + c, encode_field(fs.last(), comma, false));
    }
}

/// Records written in LF mode hold no CR LF when no field holds one.
proof fn lemma_records_no_crlf(rs: Seq<Seq<Seq<u8>>>, comma: u8)
    requires
        forall|i: int, j: int| 0 <= i < rs.len() && 0 <= j < rs[i].len() ==> no_crlf(#[trigger] rs[i][j]),
        valid_delimiter(comma),
    ensures
        no_crlf(encode_records(rs, comma, false)),
        encode_records(rs, comma, false).len() > 0 ==> encode_records(rs, comma, false).last() == LF,
    decreases rs.len(),
{
    if rs.len() > 0 {
        let dl = rs.drop_last();
        let last = rs.last();
        assert forall|i: int, j: int| 0 <= i < dl.len() && 0 <= j < dl[i].len() implies no_crlf(#[trigger] dl[i][j]) by {
            assert(dl[i] == rs[i]);
        }
        lemma_records_no_crlf(dl, comma);
        assert forall|j: int| 0 <= j < last.len() implies no_crlf(#[trigger] last[j]) by {
            assert(last == rs[rs.len() - 1]);
        }
        lemma_join_no_crlf(last, comma);
        let jn = join_fields(last, comma, false);
        lemma_no_crlf_concat(jn, seq![LF]);
        lemma_no_crlf_concat(encode_records(dl, comma, false), jn + seq![LF]);
    }
}

/// Records written one after the other, split after the first.
proof fn lemma_records_front(rs: Seq<Seq<Seq<u8>>>, comma: u8, crlf: bool)
    requires
        rs.len() >= 1,
    ensures
        encode_records(rs, comma, crlf) == encode_record(rs[0], comma, crlf) + encode_records(rs.skip(1), comma, crlf),
    decreases rs.len(),
{
    if rs.len() == 1 {
        assert(rs.drop_last().len() == 0);
        assert(rs.skip(1).len() == 0);
        assert(encode_records(rs.drop_last(), comma, crlf) == Seq::<u8>::empty());
        assert(encode_records(rs.skip(1), comma, crlf) == Seq::<u8>::empty());
        assert(Seq::<u8>::empty() + encode_record(rs[0], comma, crlf) =~= encode_record(rs[0], comma, crlf)
            + Seq::<u8>::empty());
    } else {
        let dl = rs.drop_last();
        lemma_records_front(dl, comma, crlf);
        assert(dl.skip(1) =~= rs.skip(1).drop_last());
        assert(rs.skip(1).last() == rs.last());
        let e0 = encode_record(rs[0], comma, crlf);
        let el = encode_record(rs.last(), comma, crlf);
        assert(e0 + encode_records(dl.skip(1), comma, crlf) + el =~= e0 + (encode_records(dl.skip(1), comma, crlf)
            + el));
    }
}

/// In CRLF mode, records whose fields hold no CR are written as in LF mode
/// with a CR before each LF.
proof fn lemma_records_crlf(rs: Seq<Seq<Seq<u8>>>, comma: u8)
    requires
        forall|i: int, j: int| 0 <= i < rs.len() && 0 <= j < rs[i].len() ==> no_cr(#[trigger] rs[i][j]),
        valid_delimiter(comma),
    ensures
        drop_cr(encode_records(rs, comma, true)) == encode_records(rs, comma, false),
        cr_ok(encode_records(rs, comma, true)),
    decreases rs.len(),
{
    if rs.len() > 0 {
        let dl = rs.drop_last();
        let last = rs.last();
        assert forall|i: int, j: int| 0 <= i < dl.len() && 0 <= j < dl[i].len() implies no_cr(#[trigger] dl[i][j]) by {
            assert(dl[i] == rs[i]);
        }
        lemma_records_crlf(dl, comma);
        assert forall|j: int| 0 <= j < last.len() implies no_cr(#[trigger] last[j]) by {
            assert(last == rs[rs.len() - 1]);
        }
        lemma_join_crlf(last, comma);
        let t = seq![CR, LF];
        assert(t =~= seq![CR] + seq![LF]);
        lemma_drop_cr_concat(seq![CR], seq![LF]);
        lemma_drop_cr_one(CR);
        lemma_drop_cr_one(LF);
        assert(drop_cr(t) =~= seq![LF]);
        assert(cr_ok(t));
        let j = join_fields(last, comma, true);
        lemma_drop_cr_concat(j, t);
        lemma_cr_ok_concat(j, t);
        let prev = encode_records(dl, comma, true);
        lemma_drop_cr_concat(prev, j + t);
        lemma_cr_ok_concat(prev, j + t);
    }
}

/// What the parser sees of records written in either mode is the records
/// as written in LF mode.
proof fn lemma_records_norm(rs: Seq<Seq<Seq<u8>>>, comma: u8, crlf: bool)
    requires
        rs.len() >= 1,
        valid_delimiter(comma),
        crlf ==> forall|i: int, j: int| 0 <= i < rs.len() && 0 <= j < rs[i].len() ==> no_cr(#[trigger] rs[i][j]),
        !crlf ==> no_crlf(encode_records(rs, comma, false)),
        encode_records(rs, comma, crlf).len() <= isize::MAX,
    ensures
        ends_with_lf(encode_records(rs, comma, crlf)),
        norm(encode_records(rs, comma, crlf), 0) == encode_records(rs, comma, false),
{
    let src = encode_records(rs, comma, crlf);
    let last = encode_record(rs.last(), comma, crlf);
    assert(src == encode_records(rs.drop_last(), comma, crlf) + last);
    assert(last.last() == LF);
    assert(src.last() == LF);
    if crlf {
        lemma_records_crlf(rs, comma);
        lemma_norm_crlf(src, 0);
    } else {
        lemma_norm_plain(src, 0);
    }
    assert(src.skip(0) =~= src);
}

/// A record that is not written as a blank line: it has a field, and is not
/// one empty field.
pub open spec fn record_ok(r: Seq<Seq<u8>>) -> bool {
    r.len() >= 1 && !(r.len() == 1 && r[0].len() == 0)
}

/// All of `rs` have the field count `n`.
pub open spec fn same_count(rs: Seq<Seq<Seq<u8>>>, n: int) -> bool {
    forall|i: int| 0 <= i < rs.len() ==> (#[trigger] rs[i]).len() == n
}

/// Reading from `pr`, where the parser sees `rs` as written in LF mode,
/// gives `rs`.
proof fn lemma_records_from(
    src: Seq<u8>,
    comma: u8,
    lazy: bool,
    allow: bool,
    pr: Progress,
    rs: Seq<Seq<Seq<u8>>>,
)
    requires
        ends_with_lf(src),
        valid_delimiter(comma),
        crate::parse::progress_wf(src, pr),
        norm(src, pr.cursor) == encode_records(rs, comma, false),
        forall|i: int| 0 <= i < rs.len() ==> record_ok(#[trigger] rs[i]),
        !allow && rs.len() > 0 ==> same_count(rs, rs[0].len() as int) && (pr.field_per_record == 0
            || pr.field_per_record == rs[0].len()),
    ensures
        all_records(src, comma, lazy, allow, pr, false) == Ok::<Seq<Seq<Seq<u8>>>, crate::err::ErrorKind>(rs),
    decreases remaining(src, pr.cursor),
{
    lemma_read_record(src, comma, lazy, allow, pr);
    lemma_first_line(src, pr.cursor, pr.num_line);
    if rs.len() == 0 {
        assert(encode_records(rs, comma, false).len() == 0);
        if pr.cursor < src.len() {
            lemma_norm_line(src, pr.cursor);
        }
        assert(pr.cursor == src.len());
        assert(first_line(src, pr.cursor, pr.num_line).eof);
        assert(read_record_spec(src, comma, lazy, allow, pr)->Ok_0.fields.len() == 0);
        assert(rs =~= Seq::<Seq<Seq<u8>>>::empty());
    } else {
        let r0 = rs[0];
        let more = encode_records(rs.skip(1), comma, false);
        lemma_records_front(rs, comma, false);
        assert(record_ok(r0));
        lemma_record_starts(r0, comma);
        let flat = encode_record(r0, comma, false) + more;
        assert(flat[0] != LF);
        assert(pr.cursor < src.len()) by {
            assert(flat.len() > 0);
        }
        lemma_norm_line(src, pr.cursor);
        lemma_raw_end(src, pr.cursor);
        let l = phys_line(src, pr.cursor);
        assert(l[0] == flat[0]);
        assert(l.len() >= 2);
        let s = first_line(src, pr.cursor, pr.num_line);
        assert(!s.eof);
        assert(s.line == l);
        assert(l + norm(src, s.cursor) == join_fields(r0, comma, false) + seq![LF] + more);
        lemma_parse_fields(src, comma, lazy, start_scan(s), r0, more);
        assert(Seq::<Seq<u8>>::empty() + r0 =~= r0);
        let out = read_record_spec(src, comma, lazy, allow, pr)->Ok_0;
        assert(out.fields == r0);
        assert(norm(src, out.next.cursor) == more);
        let tail = rs.skip(1);
        assert forall|i: int| 0 <= i < tail.len() implies record_ok(#[trigger] tail[i]) by {
            assert(tail[i] == rs[i + 1]);
        }
        if !allow && tail.len() > 0 {
            assert(tail[0] == rs[1]);
            assert forall|i: int| 0 <= i < tail.len() implies (#[trigger] tail[i]).len() == tail[0].len() by {
                assert(tail[i] == rs[i + 1]);
            }
        }
        lemma_records_from(src, comma, lazy, allow, out.next, tail);
        assert(seq![r0] + tail =~= rs);
        assert(out.fields.len() > 0);
        assert(all_records(src, comma, lazy, allow, pr, false) == Ok::<Seq<Seq<Seq<u8>>>, crate::err::ErrorKind>(
            seq![out.fields] + tail,
        ));
    }
}

/// The inputs on which reading back what the writer wrote gives what was
/// written: a fresh reader over the bytes written for `rs`. Left out are
/// records made of one empty field (they are written as blank lines, which
/// the reader skips); under the strict field-count policy, records whose
/// counts differ; in CRLF mode, fields that hold CR (the writer drops it); in
/// LF mode, fields that hold CR directly before LF (the reader takes that pair
/// for a line feed).
pub open spec fn reads_back(v: ReaderView, rs: Seq<Seq<Seq<u8>>>, crlf: bool) -> bool {
    &&& v.wf()
    &&& v.src == encode_records(rs, v.comma, crlf)
    &&& v.cursor == 0
    &&& v.field_per_record == 0
    &&& !v.still_skip_header
    &&& forall|i: int| 0 <= i < rs.len() ==> record_ok(#[trigger] rs[i])
    &&& !v.allow_diff_field_num && rs.len() > 0 ==> same_count(rs, rs[0].len() as int)
    &&& crlf ==> forall|i: int, j: int| 0 <= i < rs.len() && 0 <= j < rs[i].len() ==> no_cr(#[trigger] rs[i][j])
    &&& !crlf ==> forall|i: int, j: int| 0 <= i < rs.len() && 0 <= j < rs[i].len() ==> no_crlf(#[trigger] rs[i][j])
}

/// Reading back records that the writer wrote, with either terminator, gives
/// exactly those records.
pub proof fn lemma_round_trip(v: ReaderView, rs: Seq<Seq<Seq<u8>>>, crlf: bool)
    requires
        reads_back(v, rs, crlf),
    ensures
        v.records() == Ok::<Seq<Seq<Seq<u8>>>, crate::err::ErrorKind>(rs),
{
    let src = v.src;
    if rs.len() == 0 {
        assert(src.len() == 0);
        lemma_read_record(src, v.comma, v.lazy_quote, v.allow_diff_field_num, v.progress());
        assert(first_line(src, 0, v.num_line).eof);
        assert(read_record_spec(src, v.comma, v.lazy_quote, v.allow_diff_field_num, v.progress())->Ok_0.fields.len() == 0);
        assert(rs =~= Seq::<Seq<Seq<u8>>>::empty());
    } else {
        if !crlf {
            lemma_records_no_crlf(rs, v.comma);
        }
        lemma_records_norm(rs, v.comma, crlf);
        lemma_records_from(src, v.comma, v.lazy_quote, v.allow_diff_field_num, v.progress(), rs);
    }
}

/// Writing again what was read back from the writer's bytes gives the same
/// bytes.
pub proof fn lemma_rewrite(v: ReaderView, rs: Seq<Seq<Seq<u8>>>, crlf: bool)
    requires
        reads_back(v, rs, crlf),
    ensures
        v.records() matches Ok(back) && encode_records(back, v.comma, crlf) == v.src,
{
    lemma_round_trip(v, rs, crlf);
}

/// Whatever input `v` reads as `rs`, the bytes the writer makes of `rs` read
/// back as `rs` again: re-encoding keeps the records, and changes the input
/// only in what reading discards (quotes that were not needed, CR LF, blank
/// lines), on the inputs of `reads_back`.
pub proof fn lemma_reencode(v: ReaderView, w: ReaderView, rs: Seq<Seq<Seq<u8>>>, crlf: bool)
    requires
        v.records() == Ok::<Seq<Seq<Seq<u8>>>, crate::err::ErrorKind>(rs),
        reads_back(w, rs, crlf),
    ensures
        w.records() == v.records(),
{
    lemma_round_trip(w, rs, crlf);
}

/// An input that ends with LF and is canonical, that is, whose lines, once
/// each closing CR LF is made LF (`norm`), are what the writer writes in LF
/// mode for `rs`, reads as `rs`; so writing `rs` again gives that input with
/// CR LF made LF. Left out, as in `reads_back`, are records made of one empty
/// field and, under the strict policy, records whose counts differ.
pub proof fn lemma_canonical_input(v: ReaderView, rs: Seq<Seq<Seq<u8>>>)
    requires
        v.wf(),
        v.cursor == 0,
        v.field_per_record == 0,
        !v.still_skip_header,
        v.src.len() > 0,
        v.src.last() == LF,
        norm(v.src, 0) == encode_records(rs, v.comma, false),
        forall|i: int| 0 <= i < rs.len() ==> record_ok(#[trigger] rs[i]),
        !v.allow_diff_field_num && rs.len() > 0 ==> same_count(rs, rs[0].len() as int),
    ensures
        v.records() == Ok::<Seq<Seq<Seq<u8>>>, crate::err::ErrorKind>(rs),
{
    lemma_records_from(v.src, v.comma, v.lazy_quote, v.allow_diff_field_num, v.progress(), rs);
}

/// No character of `s` is a CR.
pub open spec fn no_cr_char(s: Seq<char>) -> bool {
    forall|k: int| 0 <= k < s.len() ==> #[trigger] s[k] != '\r'
}

/// No CR of `s` stands directly before an LF.
pub open spec fn no_crlf_char(s: Seq<char>) -> bool {
    forall|k: int| 0 <= k < s.len() - 1 ==> !(#[trigger] s[k] == '\r' && s[k + 1] == '\n')
}

/// A character is written as a CR or LF byte only when it is that
/// character, and then as that single byte.
proof fn lemma_scalar_bytes(c: char)
    ensures
        encode_scalar(c as u32).len() >= 1,
        forall|k: int|
            0 <= k < encode_scalar(c as u32).len() && (#[trigger] encode_scalar(c as u32)[k] == CR
                || encode_scalar(c as u32)[k] == LF) ==> encode_scalar(c as u32).len() == 1 && k == 0 && (
            encode_scalar(c as u32)[k] == CR ==> c == '\r') && (encode_scalar(c as u32)[k] == LF ==> c == '\n'),
{
    let u = c as u32;
    char_u32_cast(c, u);
    assert('\r' as u32 == 13);
    assert('\n' as u32 == 10);
    char_u32_cast('\r', 13);
    char_u32_cast('\n', 10);
    let e = encode_scalar(u);
    if has_width_1_encoding(u) {
        assert(((u & 0x7F) as u8) as u32 == u) by (bit_vector)
            requires
                u <= 0x7F,
        ;
    } else {
        assert forall|y: u8| (0x80u8 | y) != 13u8 && (0x80u8 | y) != 10u8 by {
            assert((0x80u8 | y) != 13u8 && (0x80u8 | y) != 10u8) by (bit_vector);
        }
        assert forall|y: u8| (0xC0u8 | y) != 13u8 && (0xC0u8 | y) != 10u8 by {
            assert((0xC0u8 | y) != 13u8 && (0xC0u8 | y) != 10u8) by (bit_vector);
        }
        assert forall|y: u8| (0xE0u8 | y) != 13u8 && (0xE0u8 | y) != 10u8 by {
            assert((0xE0u8 | y) != 13u8 && (0xE0u8 | y) != 10u8) by (bit_vector);
        }
        assert forall|y: u8| (0xF0u8 | y) != 13u8 && (0xF0u8 | y) != 10u8 by {
            assert((0xF0u8 | y) != 13u8 && (0xF0u8 | y) != 10u8) by (bit_vector);
        }
    }
}

/// The UTF-8 bytes of a text without CR hold no CR; those of a text without
/// CR LF hold no CR LF.
proof fn lemma_utf8_cr(s: Seq<char>)
    ensures
        no_cr_char(s) ==> no_cr(encode_utf8(s)),
        no_crlf_char(s) ==> no_crlf(encode_utf8(s)),
        encode_utf8(s).len() > 0 && encode_utf8(s)[0] == LF ==> s.len() > 0 && s[0] == '\n',
    decreases s.len(),
{
    if s.len() > 0 {
        let rest = s.drop_first();
        lemma_utf8_cr(rest);
        lemma_scalar_bytes(s[0]);
        let a = encode_scalar(s[0] as u32);
        let b = encode_utf8(rest);
        assert(encode_utf8(s) == a + b);
        if no_cr_char(s) {
            assert(no_cr_char(rest)) by {
                assert forall|k: int| 0 <= k < rest.len() implies #[trigger] rest[k] != '\r' by {
                    assert(rest[k] == s[k + 1]);
                }
            }
            assert forall|k: int| 0 <= k < (a + b).len() implies #[trigger] (a + b)[k] != CR by {
                if k < a.len() {
                    assert(a[k] != CR);
                } else {
                    assert((a + b)[k] == b[k - a.len()]);
                }
            }
        }
        if no_crlf_char(s) {
            assert(no_crlf_char(rest)) by {
                assert forall|k: int| 0 <= k < rest.len() - 1 implies !(#[trigger] rest[k] == '\r' && rest[k + 1]
                    == '\n') by {
                    assert(rest[k] == s[k + 1] && rest[k + 1] == s[k + 2]);
                }
            }
            assert forall|k: int| 0 <= k < a.len() - 1 implies !(#[trigger] a[k] == CR && a[k + 1] == LF) by {
                if a[k] == CR {
                }
            }
            if a.last() == CR && b.len() > 0 && b[0] == LF {
                assert(s[0] == '\r');
                assert(rest[0] == '\n');
                assert(s[1] == '\n');
            }
            lemma_no_crlf_concat(a, b);
        }
        if (a + b)[0] == LF {
            assert(a[0] == LF);
        }
    }
}

/// The inputs on which reading back the strings the writer wrote, without
/// an encoding, gives those strings: a fresh reader over the bytes written
/// for `recs`. Left out are records made of one empty string, under the
/// strict policy records whose lengths differ, in CRLF mode strings that
/// hold CR, and in LF mode strings that hold CR directly before LF.
pub open spec fn text_reads_back(v: ReaderView, recs: Seq<Vec<String>>, crlf: bool) -> bool {
    &&& v.wf()
    &&& v.src == encode_records(record_bytes(None, recs), v.comma, crlf)
    &&& v.cursor == 0
    &&& v.field_per_record == 0
    &&& !v.still_skip_header
    &&& forall|i: int| 0 <= i < recs.len() ==> (#[trigger] recs[i])@.len() >= 1 && !(recs[i]@.len() == 1
        && recs[i]@[0]@.len() == 0)
    &&& !v.allow_diff_field_num && recs.len() > 0 ==> forall|i: int|
        0 <= i < recs.len() ==> (#[trigger] recs[i])@.len() == recs[0]@.len()
    &&& crlf ==> forall|i: int, j: int| 0 <= i < recs.len() && 0 <= j < recs[i]@.len() ==> no_cr_char(
        #[trigger] recs[i]@[j]@,
    )
    &&& !crlf ==> forall|i: int, j: int| 0 <= i < recs.len() && 0 <= j < recs[i]@.len() ==> no_crlf_char(
        #[trigger] recs[i]@[j]@,
    )
}

/// Records of strings that the writer wrote without an encoding read back
/// as valid UTF-8 whose text is those strings.
pub proof fn lemma_text_round_trip(v: ReaderView, recs: Seq<Vec<String>>, crlf: bool)
    requires
        text_reads_back(v, recs, crlf),
    ensures
        v.records() matches Ok(rs) && all_utf8(rs) && rs.len() == recs.len() && forall|i: int, j: int|
            0 <= i < rs.len() && 0 <= j < rs[i].len() ==> rs[i].len() == recs[i]@.len() && decode_utf8(
                #[trigger] rs[i][j],
            ) == recs[i]@[j]@,
{
    let rs = record_bytes(None, recs);
    assert forall|i: int, j: int| 0 <= i < rs.len() && 0 <= j < rs[i].len() implies rs[i].len() == recs[i]@.len()
        && (#[trigger] rs[i][j]) == encode_utf8(recs[i]@[j]@) && (crlf ==> no_cr(rs[i][j])) && (!crlf
        ==> no_crlf(rs[i][j])) by {
        assert(rs[i] == field_bytes(None, recs[i]@));
        lemma_utf8_cr(recs[i]@[j]@);
    }
    assert forall|i: int| 0 <= i < rs.len() implies record_ok(#[trigger] rs[i]) by {
        assert(rs[i] == field_bytes(None, recs[i]@));
        let s0 = recs[i]@[0]@;
        if s0.len() > 0 {
            lemma_scalar_bytes(s0[0]);
            assert(encode_utf8(s0) == encode_scalar(s0[0] as u32) + encode_utf8(s0.drop_first()));
        }
    }
    if !v.allow_diff_field_num && rs.len() > 0 {
        assert forall|i: int| 0 <= i < rs.len() implies (#[trigger] rs[i]).len() == rs[0].len() by {
            assert(rs[i] == field_bytes(None, recs[i]@));
            assert(rs[0] == field_bytes(None, recs[0]@));
        }
    }
    assert(reads_back(v, rs, crlf));
    lemma_round_trip(v, rs, crlf);
    assert forall|i: int, j: int| 0 <= i < rs.len() && 0 <= j < rs[i].len() implies rs[i].len() == recs[i]@.len()
        && valid_utf8(#[trigger] rs[i][j]) && decode_utf8(rs[i][j]) == recs[i]@[j]@ by {
        assert(rs[i] == field_bytes(None, recs[i]@));
        encode_utf8_valid_utf8(recs[i]@[j]@);
        encode_utf8_decode_utf8(recs[i]@[j]@);
    }
}

} // verus!
