use async_csv::bytes::length_nl;
use async_csv::err::{CsvError, ErrorKind};
use async_csv::reader::{from_records, text_records, Reader};
use async_csv::text::{from_text, to_utf8};
use async_csv::writer::Writer;
use async_csv::{FromCSV, HeaderCSV, ToCSV};

fn strings(v: Vec<Vec<&str>>) -> Vec<Vec<String>> {
    v.into_iter().map(|r| r.into_iter().map(String::from).collect()).collect()
}

fn byte_rows(v: Vec<Vec<&str>>) -> Vec<Vec<Vec<u8>>> {
    v.into_iter().map(|r| r.into_iter().map(|f| f.as_bytes().to_vec()).collect()).collect()
}

#[test]
fn round_trip_one_record() {
    let fields = vec!["a", "b,c", "d\"e", "f\ng", "", "h\ri", "\"\"", " x "];
    let mut w = Writer::new();
    w.write_records(&strings(vec![fields.clone()]));
    let bytes = w.into_bytes();
    let mut rd = Reader::new(bytes);
    assert_eq!(rd.string_records().unwrap(), strings(vec![fields]));
}

#[test]
fn round_trip_crlf_without_cr_in_fields() {
    let fields = vec!["a", "b\nc", "d\"e", ""];
    let mut w = Writer::new().with_use_crlf(true);
    w.write_records(&strings(vec![fields.clone()]));
    let mut rd = Reader::new(w.into_bytes());
    assert_eq!(rd.string_records().unwrap(), strings(vec![fields]));
}

#[test]
fn round_trip_other_delimiter() {
    let fields = vec!["a|b", "c,d", "e"];
    let mut w = Writer::new().with_comma(b'|').unwrap();
    w.write_records(&strings(vec![fields.clone()]));
    let out = w.into_bytes();
    assert_eq!(out, b"\"a|b\"|c,d|e\n".to_vec());
    let mut rd = Reader::new(out).with_comma(b'|').unwrap();
    assert_eq!(rd.string_records().unwrap(), strings(vec![fields]));
}

#[test]
fn rewrite_gives_same_bytes() {
    let input = b"x,\"y,z\",\"a\"\"b\"\n".to_vec();
    let mut rd = Reader::new(input.clone());
    let records = rd.string_records().unwrap();
    let mut w = Writer::new();
    w.write_records(&records);
    assert_eq!(w.into_bytes(), input);
}

#[test]
fn rewrite_normalizes_quotes_and_crlf() {
    let mut rd = Reader::new(b"\"a\",b\r\n".to_vec());
    let records = rd.string_records().unwrap();
    let mut w = Writer::new();
    w.write_records(&records);
    assert_eq!(w.into_bytes(), b"a,b\n".to_vec());
}

#[test]
fn strict_counts_are_equal() {
    let mut rd = Reader::new(b"a,b\nc,d\n\ne,f".to_vec());
    let records = rd.bytes_records().unwrap();
    assert_eq!(records.len(), 3);
    assert!(records.iter().all(|r| r.len() == 2));
}

#[test]
fn strict_count_set_by_skipped_header() {
    let mut rd = Reader::new(b"h1,h2\na,b,c\n".to_vec()).with_skip_header(true);
    assert_eq!(rd.bytes_records().unwrap_err(), ErrorKind::ErrFieldNum(2, 5, 2, 3));
}

#[test]
fn plain_lines_are_split() {
    let mut rd = Reader::new(b"a;b\r\nc;d;e\n\n;f\ng".to_vec())
        .with_comma(b';')
        .unwrap()
        .with_allow_diff_field_num(true);
    assert_eq!(
        rd.bytes_records().unwrap(),
        byte_rows(vec![vec!["a", "b"], vec!["c", "d", "e"], vec!["", "f"], vec!["g"]])
    );
}

#[test]
fn empty_source_has_no_records() {
    let mut rd = Reader::new(Vec::new());
    let rec = rd.read_record().unwrap();
    assert!(rec.is_eof);
    assert!(rec.fields.is_empty());
    assert_eq!(rd.bytes_records().unwrap(), Vec::<Vec<Vec<u8>>>::new());
}

#[test]
fn read_record_one_at_a_time() {
    let mut rd = Reader::new(b"a,b\n\nc,d\n".to_vec());
    let r1 = rd.read_record().unwrap();
    assert!(!r1.is_eof);
    assert_eq!(r1.fields, vec![b"a".to_vec(), b"b".to_vec()]);
    let r2 = rd.read_record().unwrap();
    assert_eq!(r2.fields, vec![b"c".to_vec(), b"d".to_vec()]);
    let r3 = rd.read_record().unwrap();
    assert!(r3.is_eof);
}

#[test]
fn unclosed_quote_lazy_ends_field() {
    let mut rd = Reader::new(b"\"abc\ndef".to_vec()).with_lazy_quote(true);
    assert_eq!(rd.bytes_records().unwrap(), byte_rows(vec![vec!["abc\ndef"]]));
}

#[test]
fn unclosed_quote_strict_is_error() {
    let mut rd = Reader::new(b"\"abc".to_vec());
    assert_eq!(rd.bytes_records().unwrap_err(), ErrorKind::ErrQuote(1, 5));
}

#[test]
fn lone_cr_line_is_blank() {
    let mut rd = Reader::new(b"a\n\r".to_vec());
    assert_eq!(rd.bytes_records().unwrap(), byte_rows(vec![vec!["a"]]));
}

#[test]
fn invalid_utf8_is_reported() {
    let mut rd = Reader::new(b"ok,x\ny,\xff\xfe\n".to_vec());
    assert_eq!(rd.string_records().unwrap_err(), CsvError::Utf8 { record: 1, field: 1 });
}

#[test]
fn text_records_utf8() {
    let records = vec![vec![b"h\xc3\xa9".to_vec(), Vec::new()]];
    assert_eq!(text_records(&records, None).unwrap(), strings(vec![vec!["hé", ""]]));
}

#[test]
fn text_records_with_encoding() {
    let records = vec![vec![vec![0xc4u8, 0xe3]]];
    let out = text_records(&records, Some(encoding_rs::GBK)).unwrap();
    assert_eq!(out, strings(vec![vec!["你"]]));
}

#[test]
fn to_utf8_checks() {
    assert_eq!(to_utf8(b"abc"), Some(String::from("abc")));
    assert_eq!(to_utf8(b"\xc3\xa9"), Some(String::from("é")));
    assert_eq!(to_utf8(b"\xc3"), None);
}

#[test]
fn from_text_encodes() {
    assert_eq!(from_text(&String::from("é"), None), vec![0xc3, 0xa9]);
    assert_eq!(from_text(&String::from("你"), Some(encoding_rs::GBK)), vec![0xc4, 0xe3]);
}

#[test]
fn length_nl_values() {
    assert_eq!(length_nl(b"ab\n"), 1);
    assert_eq!(length_nl(b"ab"), 0);
    assert_eq!(length_nl(b""), 0);
    assert_eq!(length_nl(b"\n"), 1);
}

#[test]
fn field_needs_quotes_cases() {
    let w = Writer::new();
    assert!(!w.field_needs_quotes(b"abc"));
    assert!(!w.field_needs_quotes(b""));
    assert!(w.field_needs_quotes(b"a,b"));
    assert!(w.field_needs_quotes(b"a\"b"));
    assert!(w.field_needs_quotes(b"a\rb"));
    assert!(w.field_needs_quotes(b"a\nb"));
    let w2 = Writer::new().with_comma(b'\t').unwrap();
    assert!(!w2.field_needs_quotes(b"a,b"));
    assert!(w2.field_needs_quotes(b"a\tb"));
}

#[test]
fn write_byte_record_exact() {
    let mut w = Writer::new().with_use_crlf(true);
    w.write_byte_record(&vec![b"a\"".to_vec(), b"x\ny".to_vec(), Vec::new()]);
    assert_eq!(w.output().clone(), b"\"a\"\"\",\"x\r\ny\",\r\n".to_vec());
}

#[test]
fn many_specials_are_all_escaped() {
    let mut w = Writer::new();
    w.write_records(&strings(vec![vec!["\"\"\"\"\"\"\"\n\n"]]));
    assert_eq!(w.into_bytes(), b"\"\"\"\"\"\"\"\"\"\"\"\"\"\"\"\n\n\"\n".to_vec());
}

#[test]
fn header_not_written_without_flag() {
    let header: Vec<String> = vec![String::from("h")];
    let mut w = Writer::new().with_custom_header(header);
    w.write_records(&strings(vec![vec!["a"]]));
    assert_eq!(w.into_bytes(), b"a\n".to_vec());
}

#[derive(Debug, PartialEq, Default)]
struct Quote {
    symbol: String,
    price: String,
}

impl HeaderCSV for Quote {
    fn get_header() -> Vec<String> {
        vec![String::from("symbol"), String::from("price")]
    }
}

impl FromCSV for Quote {
    fn from_csv(header: &Vec<String>, record: &Vec<String>) -> Result<Self, String> {
        let mut q = Quote::default();
        for (k, v) in header.iter().zip(record.iter()) {
            match k.as_str() {
                "symbol" => q.symbol = v.clone(),
                "price" => q.price = v.clone(),
                _ => {}
            }
        }
        if q.symbol.is_empty() {
            return Err(String::from("missing symbol"));
        }
        Ok(q)
    }
}

impl ToCSV for Quote {
    fn to_csv(&self) -> Vec<String> {
        vec![self.symbol.clone(), self.price.clone()]
    }
}

#[test]
fn deserialize_with_type_header() {
    let mut rd = Reader::new(b"symbol,price\nZVZZT,10\n".to_vec()).with_skip_header(true);
    let v: Vec<Quote> = rd.deserialize().unwrap();
    assert_eq!(v, vec![Quote { symbol: String::from("ZVZZT"), price: String::from("10") }]);
}

#[test]
fn deserialize_with_custom_header() {
    let header = vec![String::from("price"), String::from("symbol")];
    let mut rd = Reader::new(b"10,ZVZZT\n".to_vec()).with_custom_header(header);
    let v: Vec<Quote> = rd.deserialize().unwrap();
    assert_eq!(v, vec![Quote { symbol: String::from("ZVZZT"), price: String::from("10") }]);
}

#[test]
fn deserialize_reports_field_error() {
    let header = vec![String::from("price"), String::from("other")];
    let mut rd = Reader::new(b"10,ZVZZT\n".to_vec()).with_custom_header(header);
    let v: Result<Vec<Quote>, CsvError> = rd.deserialize();
    assert_eq!(v.unwrap_err(), CsvError::Field(String::from("missing symbol")));
}

#[test]
fn from_records_counts() {
    let header = Quote::get_header();
    let v: Vec<Quote> = from_records(&header, &strings(vec![vec!["A", "1"], vec!["B", "2"]])).unwrap();
    assert_eq!(v.len(), 2);
    assert_eq!(v[1].symbol, "B");
}

#[test]
fn serialize_with_header() {
    let mut w = Writer::new().with_write_header(true);
    w.serialize(&vec![Quote { symbol: String::from("ZVZZT"), price: String::from("1,5") }]);
    assert_eq!(w.into_bytes(), b"symbol,price\nZVZZT,\"1,5\"\n".to_vec());
}

#[test]
fn error_messages() {
    assert_eq!(ErrorKind::ErrInvalidDelim.message(), "Invalid Delimiter");
    assert_eq!(ErrorKind::ErrEOF.message(), "EOF");
    assert_eq!(ErrorKind::ErrQuote(1, 2).message(), "line:1 col:2 Error Quote");
    assert_eq!(ErrorKind::ErrChar(3, 40, 34).message(), "line:3 col:40 Unexpected Character 34");
    assert_eq!(
        ErrorKind::ErrFieldNum(2, 3, 3, 2).message(),
        "line:2 col:3 Wrong Number Of Fields, Expect:3 Got:2"
    );
    assert_eq!(ErrorKind::ErrQuote(1234567, 0).message(), "line:1234567 col:0 Error Quote");
}

#[test]
fn round_trip_many_records() {
    let data = vec![vec!["a", "b\"c"], vec!["", "x\ny"], vec!["1,2", " "]];
    let mut w = Writer::new();
    w.write_records(&strings(data.clone()));
    let mut rd = Reader::new(w.into_bytes());
    assert_eq!(rd.string_records().unwrap(), strings(data));
}

#[test]
fn round_trip_many_records_crlf() {
    let data = vec![vec!["a\nb", "c"], vec!["d", "\"e\""]];
    let mut w = Writer::new().with_use_crlf(true);
    w.write_records(&strings(data.clone()));
    let bytes = w.into_bytes();
    assert_eq!(bytes, b"\"a\r\nb\",c\r\nd,\"\"\"e\"\"\"\r\n".to_vec());
    let mut rd = Reader::new(bytes);
    assert_eq!(rd.string_records().unwrap(), strings(data));
}

#[test]
fn blank_record_does_not_read_back() {
    let mut w = Writer::new();
    w.write_records(&strings(vec![vec![""], vec!["a"]]));
    let mut rd = Reader::new(w.into_bytes()).with_allow_diff_field_num(true);
    assert_eq!(rd.string_records().unwrap(), strings(vec![vec!["a"]]));
}

#[test]
fn reencode_keeps_records() {
    let input = b"\"a\",\"b\"\"c\"\r\n\r\nd,e\n".to_vec();
    let mut rd = Reader::new(input);
    let records = rd.string_records().unwrap();
    assert_eq!(records, strings(vec![vec!["a", "b\"c"], vec!["d", "e"]]));
    let mut w = Writer::new();
    w.write_records(&records);
    let again = w.into_bytes();
    assert_eq!(again, b"a,\"b\"\"c\"\nd,e\n".to_vec());
    let mut rd2 = Reader::new(again);
    assert_eq!(rd2.string_records().unwrap(), records);
}

#[test]
fn take_output_keeps_configuration() {
    let mut w = Writer::new().with_comma(b';').unwrap();
    w.write_records(&strings(vec![vec!["a", "b"]]));
    assert_eq!(w.take_output(), b"a;b\n".to_vec());
    w.write_records(&strings(vec![vec!["c", "d"]]));
    assert_eq!(w.take_output(), b"c;d\n".to_vec());
}

#[test]
fn end_of_source_flag() {
    let mut rd = Reader::new(b"a,b\nc,d".to_vec());
    let r1 = rd.read_record().unwrap();
    assert!(!r1.is_eof);
    let r2 = rd.read_record().unwrap();
    assert!(r2.is_eof);
    assert_eq!(r2.fields, vec![b"c".to_vec(), b"d".to_vec()]);
    let mut rd2 = Reader::new(b"c,d\r".to_vec());
    let r3 = rd2.read_record().unwrap();
    assert!(!r3.is_eof);
    assert_eq!(r3.fields, vec![b"c".to_vec(), b"d".to_vec()]);
    assert!(rd2.read_record().unwrap().is_eof);
}

#[test]
fn last_record_without_lf_is_kept_after_header() {
    let mut rd = Reader::new(b"h1,h2".to_vec()).with_skip_header(true);
    assert_eq!(rd.bytes_records().unwrap(), Vec::<Vec<Vec<u8>>>::new());
    let mut rd2 = Reader::new(b"h1,h2\na,b".to_vec()).with_skip_header(true);
    assert_eq!(rd2.bytes_records().unwrap(), byte_rows(vec![vec!["a", "b"]]));
}

#[test]
fn writer_field_with_delimiter() {
    let mut w = Writer::new();
    w.write_records(&strings(vec![vec!["a,b"]]));
    assert_eq!(w.into_bytes(), b"\"a,b\"\n".to_vec());
}

#[test]
fn delimiter_validity() {
    assert!(async_csv::reader::is_valid_delimiter(b','));
    assert!(async_csv::reader::is_valid_delimiter(b'\t'));
    assert!(!async_csv::reader::is_valid_delimiter(b'\n'));
    assert!(!async_csv::reader::is_valid_delimiter(b'\r'));
    assert!(!async_csv::reader::is_valid_delimiter(b'"'));
}

#[test]
fn to_encoding_decodes() {
    assert_eq!(async_csv::text::to_encoding(&[0xc4, 0xe3, 0x61], encoding_rs::GBK), "你a");
}

#[test]
fn canonical_input_with_crlf_rewrites_with_lf() {
    let input = b"a,\"b\r\nc\"\r\nd,e\n".to_vec();
    let mut rd = Reader::new(input);
    let records = rd.string_records().unwrap();
    assert_eq!(records, strings(vec![vec!["a", "b\nc"], vec!["d", "e"]]));
    let mut w = Writer::new();
    w.write_records(&records);
    assert_eq!(w.into_bytes(), b"a,\"b\nc\"\nd,e\n".to_vec());
}

#[test]
fn byte_offset_follows_lines() {
    let mut rd = Reader::new(b"a,b\r\n\nc\r".to_vec()).with_allow_diff_field_num(true);
    assert_eq!(rd.byte_offset(), 0);
    rd.read_record().unwrap();
    assert_eq!(rd.byte_offset(), 5);
    rd.read_record().unwrap();
    assert_eq!(rd.byte_offset(), 7);
    assert!(rd.read_record().unwrap().is_eof);
    assert_eq!(rd.byte_offset(), 7);
}

#[test]
fn byte_offset_over_quoted_lines() {
    let mut rd = Reader::new(b"\"x\ny\",z\nw".to_vec()).with_allow_diff_field_num(true);
    rd.read_record().unwrap();
    assert_eq!(rd.byte_offset(), 8);
    rd.read_record().unwrap();
    assert_eq!(rd.byte_offset(), 9);
}

#[test]
fn deserialize_empty_source() {
    let mut rd = Reader::new(Vec::new());
    let v: Vec<Quote> = rd.deserialize().unwrap();
    assert!(v.is_empty());
}

#[test]
fn deserialize_passes_utf8_error() {
    let mut rd = Reader::new(b"symbol,price\n\xff,1\n".to_vec());
    let v: Result<Vec<Quote>, CsvError> = rd.deserialize();
    assert_eq!(v.unwrap_err(), CsvError::Utf8 { record: 1, field: 0 });
}
