//! Properties of every result of the reader: equal field counts under the
//! strict policy, and plain lines cut at the delimiter.
use vstd::prelude::*;
use crate::bytes::{index_of, spec_length_nl, LF, QUOTE};
use crate::bytes::{lemma_index_of, lemma_index_of_absent, lemma_index_of_first};
use crate::line::{lemma_line_progress, lemma_raw_end, next_start, phys_line, remaining, trim_last_cr};
use crate::parse::{
    all_records, first_line, lemma_first_line, lemma_read_record, lemma_step, progress_wf,
    read_record_spec, run, scan_wf, start_scan, step, Move, Progress, Scan,
};
use crate::reader::{valid_delimiter, ReaderView};
use crate::roundtrip::{no_cr, same_count};

verus! {

/// Every record that a strict reader returns has the field count `n`, when
/// `n` is the count it has already established.
proof fn lemma_counts_from(src: Seq<u8>, comma: u8, lazy: bool, pr: Progress, skip: bool)
    requires
        progress_wf(src, pr),
    ensures
        all_records(src, comma, lazy, false, pr, skip) matches Ok(rs) ==> {
            &&& forall|i: int| 0 <= i < rs.len() ==> (#[trigger] rs[i]).len() == rs[0].len()
            &&& (pr.field_per_record != 0 && rs.len() > 0) ==> rs[0].len() == pr.field_per_record
        },
    decreases crate::line::remaining(src, pr.cursor),
{
    lemma_read_record(src, comma, lazy, false, pr);
    match read_record_spec(src, comma, lazy, false, pr) {
        Ok(out) => {
            if out.fields.len() > 0 {
                lemma_counts_from(src, comma, lazy, out.next, false);
                assert(out.next.field_per_record == out.fields.len());
                assert(out.next.field_per_record != 0);
            }
        },
        Err(_) => {},
    }
}

/// Under the strict field-count policy, every record read has the same number
/// of fields.
pub proof fn lemma_strict_field_count(v: ReaderView)
    requires
        v.wf(),
        !v.allow_diff_field_num,
    ensures
        v.records() matches Ok(rs) ==> forall|i: int, j: int|
            0 <= i < rs.len() && 0 <= j < rs.len() ==> (#[trigger] rs[i]).len() == (#[trigger] rs[j]).len(),
{
    lemma_counts_from(v.src, v.comma, v.lazy_quote, v.progress(), v.still_skip_header);
}

/// `s` cut at each occurrence of `d`.
pub open spec fn split(s: Seq<u8>, d: u8) -> Seq<Seq<u8>>
    decreases s.len(),
{
    let i = index_of(s, d);
    proof {
        lemma_index_of(s, d);
    }
    if i < 0 {
        seq![s]
    } else {
        seq![s.subrange(0, i)] + split(s.skip(i + 1), d)
    }
}

/// A physical line without the line feed that ends it.
pub open spec fn content(l: Seq<u8>) -> Seq<u8> {
    l.subrange(0, l.len() - spec_length_nl(l))
}

/// The physical lines from `cursor` on that are not blank, without their
/// line feeds.
pub open spec fn text_lines(src: Seq<u8>, cursor: int) -> Seq<Seq<u8>>
    decreases remaining(src, cursor),
{
    if cursor < 0 || cursor >= src.len() {
        Seq::empty()
    } else {
        let l = phys_line(src, cursor);
        proof {
            lemma_raw_end(src, cursor);
        }
        if l.len() == spec_length_nl(l) {
            text_lines(src, next_start(src, cursor))
        } else {
            seq![content(l)] + text_lines(src, next_start(src, cursor))
        }
    }
}

/// No byte of `s` is a quote.
pub open spec fn no_quote(s: Seq<u8>) -> bool {
    forall|k: int| 0 <= k < s.len() ==> #[trigger] s[k] != QUOTE
}

proof fn lemma_line_no_quote(src: Seq<u8>, c: int)
    requires
        no_quote(src),
        0 <= c,
    ensures
        no_quote(phys_line(src, c)),
{
    if c < src.len() {
        lemma_raw_end(src, c);
        let raw = src.subrange(c, crate::line::raw_end(src, c));
        let t = trim_last_cr(raw);
        assert(no_quote(raw));
        assert(no_quote(t));
        let n = t.len() as int;
        if n >= 2 && t[n - 2] == crate::bytes::CR && t[n - 1] == LF {
            let f = t.subrange(0, n - 2).push(LF);
            assert forall|k: int| 0 <= k < f.len() implies #[trigger] f[k] != QUOTE by {
                if k < n - 2 {
                    assert(f[k] == t[k]);
                }
            }
        }
    }
}

/// Parsing a line without quotes, from the start of a field, gives the line's
/// content cut at the delimiter.
proof fn lemma_run_plain(src: Seq<u8>, comma: u8, lazy: bool, st: Scan)
    requires
        scan_wf(src, st),
        !st.quoted,
        no_quote(st.line),
        valid_delimiter(comma),
    ensures
        run(src, comma, lazy, st) matches Ok(end) && end.fields == st.fields + split(content(st.line), comma)
            && end.cursor == st.cursor && end.num_line == st.num_line,
    decreases st.line.len(),
{
    let line = st.line;
    let c = content(line);
    lemma_step(src, comma, lazy, st);
    lemma_index_of(line, comma);
    let i = index_of(line, comma);
    let fb = crate::parse::unquoted_bytes(line, comma);
    assert(no_quote(fb));
    lemma_index_of_absent(fb, QUOTE);
    if line.len() > 0 {
        assert(line[0] != QUOTE);
    }
    if i >= 0 {
        let next = line.skip(i + 1);
        assert(i < c.len()) by {
            if spec_length_nl(line) == 1 {
                assert(line[line.len() - 1] == LF);
            }
        }
        assert forall|j: int| 0 <= j < i implies c[j] != comma by {
            assert(c[j] == line[j]);
        }
        lemma_index_of_first(c, comma, i);
        assert(c.subrange(0, i) =~= line.subrange(0, i));
        assert(c.skip(i + 1) =~= content(next)) by {
            if next.len() > 0 {
                assert(next.last() == line.last());
            }
        }
        assert(no_quote(next)) by {
            assert forall|k: int| 0 <= k < next.len() implies #[trigger] next[k] != QUOTE by {
                assert(next[k] == line[k + i + 1]);
            }
        }
        match step(src, comma, lazy, st) {
            Move::Next(s2) => {
                lemma_run_plain(src, comma, lazy, s2);
                assert(st.fields.push(fb) + split(content(next), comma) =~= st.fields + split(c, comma));
            },
            _ => {},
        }
    } else {
        assert forall|j: int| 0 <= j < c.len() implies c[j] != comma by {
            assert(c[j] == line[j]);
        }
        lemma_index_of_absent(c, comma);
        assert(fb =~= c);
        assert(st.fields.push(fb) =~= st.fields + split(c, comma));
    }
}

/// The records of a source, read from `cursor` on, start with those of the
/// first line with content.
proof fn lemma_text_lines_first(src: Seq<u8>, cursor: int, num_line: int)
    requires
        0 <= cursor <= src.len(),
    ensures
        ({
            let s = first_line(src, cursor, num_line);
            text_lines(src, cursor) == if s.eof {
                Seq::<Seq<u8>>::empty()
            } else {
                seq![content(s.line)] + text_lines(src, s.cursor)
            }
        }),
    decreases remaining(src, cursor),
{
    if cursor < src.len() {
        lemma_raw_end(src, cursor);
        lemma_line_progress(src, cursor);
        let l = phys_line(src, cursor);
        if l.len() == spec_length_nl(l) {
            lemma_text_lines_first(src, next_start(src, cursor), crate::parse::bump(num_line));
        }
    }
}

/// Each line with content, cut at the delimiter.
pub open spec fn split_lines(lines: Seq<Seq<u8>>, comma: u8) -> Seq<Seq<Seq<u8>>> {
    lines.map_values(|l: Seq<u8>| split(l, comma))
}

proof fn lemma_plain_from(src: Seq<u8>, comma: u8, lazy: bool, allow: bool, pr: Progress)
    requires
        progress_wf(src, pr),
        no_quote(src),
        valid_delimiter(comma),
        !allow ==> ({
            let rs = split_lines(text_lines(src, pr.cursor), comma);
            rs.len() > 0 ==> same_count(rs, rs[0].len() as int) && (pr.field_per_record == 0
                || pr.field_per_record == rs[0].len())
        }),
    ensures
        all_records(src, comma, lazy, allow, pr, false) == Ok::<Seq<Seq<Seq<u8>>>, crate::err::ErrorKind>(
            split_lines(text_lines(src, pr.cursor), comma),
        ),
    decreases remaining(src, pr.cursor),
{
    lemma_read_record(src, comma, lazy, allow, pr);
    lemma_first_line(src, pr.cursor, pr.num_line);
    lemma_text_lines_first(src, pr.cursor, pr.num_line);
    let s = first_line(src, pr.cursor, pr.num_line);
    let rs = split_lines(text_lines(src, pr.cursor), comma);
    if s.eof {
        assert(rs =~= Seq::<Seq<Seq<u8>>>::empty());
    } else {
        lemma_first_line_no_quote(src, pr.cursor, pr.num_line);
        lemma_run_plain(src, comma, lazy, start_scan(s));
        let first = split(content(s.line), comma);
        let rest = split_lines(text_lines(src, s.cursor), comma);
        assert(seq![first] + rest =~= rs);
        assert(rs[0] == first);
        let out = read_record_spec(src, comma, lazy, allow, pr)->Ok_0;
        if !allow {
            assert forall|i: int| 0 <= i < rest.len() implies (#[trigger] rest[i]).len() == first.len() by {
                assert(rest[i] == rs[i + 1]);
            }
        }
        lemma_plain_from(src, comma, lazy, allow, out.next);
    }
}

proof fn lemma_first_line_no_quote(src: Seq<u8>, cursor: int, num_line: int)
    requires
        no_quote(src),
        0 <= cursor <= src.len(),
    ensures
        no_quote(first_line(src, cursor, num_line).line),
    decreases remaining(src, cursor),
{
    if cursor < src.len() {
        lemma_raw_end(src, cursor);
        lemma_line_progress(src, cursor);
        lemma_line_no_quote(src, cursor);
        let l = phys_line(src, cursor);
        if l.len() == spec_length_nl(l) {
            lemma_first_line_no_quote(src, next_start(src, cursor), crate::parse::bump(num_line));
        }
    }
}

/// A source without quotes reads as its non-blank lines, each cut at the
/// delimiter. Under the strict field-count policy this needs the lines to
/// cut into equally many fields, as many as a record already read had.
pub proof fn lemma_plain_input(v: ReaderView)
    requires
        v.wf(),
        !v.still_skip_header,
        no_quote(v.src),
        !v.allow_diff_field_num ==> ({
            let rs = split_lines(text_lines(v.src, v.cursor), v.comma);
            rs.len() > 0 ==> same_count(rs, rs[0].len() as int) && (v.field_per_record == 0
                || v.field_per_record == rs[0].len())
        }),
    ensures
        v.records() == Ok::<Seq<Seq<Seq<u8>>>, crate::err::ErrorKind>(split_lines(text_lines(v.src, v.cursor), v.comma)),
{
    lemma_plain_from(v.src, v.comma, v.lazy_quote, v.allow_diff_field_num, v.progress());
}

/// The pieces of `v` that are not empty, in order.
pub open spec fn non_empty(v: Seq<Seq<u8>>) -> Seq<Seq<u8>>
    decreases v.len(),
{
    if v.len() == 0 {
        Seq::empty()
    } else {
        (if v[0].len() > 0 {
            seq![v[0]]
        } else {
            Seq::<Seq<u8>>::empty()
        }) + non_empty(v.drop_first())
    }
}

/// Without CR, the lines the parser reads with content are the non-empty
/// pieces of the source cut at LF.
proof fn lemma_text_lines_split(src: Seq<u8>, c: int)
    requires
        no_cr(src),
        0 <= c <= src.len(),
    ensures
        text_lines(src, c) == non_empty(split(src.skip(c), LF)),
    decreases remaining(src, c),
{
    let s = src.skip(c);
    lemma_index_of(s, LF);
    let i = index_of(s, LF);
    if c == src.len() {
        assert(s.len() == 0);
        assert(split(s, LF) =~= seq![s]);
        assert(non_empty(seq![s]).len() == 0) by {
            let one = seq![s];
            assert(one.drop_first() =~= Seq::<Seq<u8>>::empty());
            assert(non_empty(one.drop_first()) == Seq::<Seq<u8>>::empty());
            assert(one[0].len() == 0);
        }
        assert(text_lines(src, c) =~= non_empty(split(s, LF)));
    } else {
        lemma_raw_end(src, c);
        let e = crate::line::raw_end(src, c);
        let raw = src.subrange(c, e);
        assert(src.subrange(c, src.len() as int) =~= s);
        assert(no_cr(raw)) by {
            assert forall|k: int| 0 <= k < raw.len() implies #[trigger] raw[k] != crate::bytes::CR by {
                assert(raw[k] == src[c + k]);
            }
        }
        assert(trim_last_cr(raw) == raw);
        assert(phys_line(src, c) == raw);
        lemma_text_lines_split(src, e);
        let piece = if i < 0 { s } else { s.subrange(0, i) };
        let rest_pieces = if i < 0 { Seq::<Seq<u8>>::empty() } else { split(s.skip(i + 1), LF) };
        assert(split(s, LF) =~= seq![piece] + rest_pieces);
        assert((seq![piece] + rest_pieces).drop_first() =~= rest_pieces);
        assert(content(raw) =~= piece);
        if i < 0 {
            assert(e == src.len());
            assert(non_empty(rest_pieces) =~= Seq::<Seq<u8>>::empty());
            assert(src.skip(e).len() == 0);
            assert(split(src.skip(e), LF) =~= seq![src.skip(e)]);
            assert(non_empty(seq![src.skip(e)]).len() == 0) by {
                assert(seq![src.skip(e)].drop_first().len() == 0);
            }
        } else {
            assert(e == c + i + 1);
            assert(s.skip(i + 1) =~= src.skip(e));
        }
        assert(next_start(src, c) == e);
        if raw.len() == spec_length_nl(raw) {
            assert(piece.len() == 0);
            assert(non_empty(split(s, LF)) =~= non_empty(rest_pieces));
        } else {
            assert(piece.len() > 0);
            assert(non_empty(split(s, LF)) =~= seq![piece] + non_empty(rest_pieces));
        }
        if i < 0 {
            assert(text_lines(src, e).len() == 0);
        }
    }
}

/// A source without quotes and without CR reads as the non-empty pieces of
/// the source cut at LF, each cut at the delimiter; under the strict
/// field-count policy this needs the pieces to cut into equally many fields.
pub proof fn lemma_plain_split(v: ReaderView)
    requires
        v.wf(),
        !v.still_skip_header,
        no_quote(v.src),
        no_cr(v.src),
        !v.allow_diff_field_num ==> ({
            let rs = split_lines(non_empty(split(v.src.skip(v.cursor), LF)), v.comma);
            rs.len() > 0 ==> same_count(rs, rs[0].len() as int) && (v.field_per_record == 0
                || v.field_per_record == rs[0].len())
        }),
    ensures
        v.records() == Ok::<Seq<Seq<Seq<u8>>>, crate::err::ErrorKind>(
            split_lines(non_empty(split(v.src.skip(v.cursor), LF)), v.comma),
        ),
{
    lemma_text_lines_split(v.src, v.cursor);
    lemma_plain_input(v);
}

} // verus!
