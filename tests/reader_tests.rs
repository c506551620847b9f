use async_csv::err::{CsvError, ErrorKind};
use async_csv::reader::Reader;
use encoding_rs::GBK;

fn read(data: &[u8]) -> Result<Vec<Vec<String>>, CsvError> {
    Reader::new(data.to_vec()).string_records()
}

fn rows(v: Vec<Vec<&str>>) -> Vec<Vec<String>> {
    v.into_iter().map(|r| r.into_iter().map(String::from).collect()).collect()
}

fn quote_err(line: usize, col: usize) -> CsvError {
    CsvError::Parse(ErrorKind::ErrQuote(line, col))
}

#[test]
fn reader_tests_test_simple() {
    assert_eq!(read(b"a,b,c\n").unwrap(), rows(vec![vec!["a", "b", "c"]]));
}

#[test]
fn reader_tests_test_crlf() {
    assert_eq!(read(b"a,b\r\nc,d\r\n").unwrap(), rows(vec![vec!["a", "b"], vec!["c", "d"]]));
}

#[test]
fn reader_tests_test_bare_cr() {
    assert_eq!(read(b"a,b\rc,d\r\n").unwrap(), rows(vec![vec!["a", "b\rc", "d"]]));
}

#[test]
fn reader_tests_test_rfc4180() {
    let data = "#field1,field2,field3\n\"aaa\",\"bb\nb\",\"ccc\"\n\"a,a\",\"b\"\"bb\",\"ccc\"\nzzz,yyy,xxx\n";
    assert_eq!(
        read(data.as_bytes()).unwrap(),
        rows(vec![
            vec!["#field1", "field2", "field3"],
            vec!["aaa", "bb\nb", "ccc"],
            vec!["a,a", "b\"bb", "ccc"],
            vec!["zzz", "yyy", "xxx"],
        ])
    );
}

#[test]
fn reader_tests_test_no_eol() {
    assert_eq!(read(b"a,b,c").unwrap(), rows(vec![vec!["a", "b", "c"]]));
}

#[test]
fn reader_tests_test_semicolon() {
    let mut rd = Reader::new(b"a;b;c\n".to_vec()).with_comma(b';').unwrap();
    assert_eq!(rd.string_records().unwrap(), rows(vec![vec!["a", "b", "c"]]));
}

#[test]
fn reader_tests_test_multiline() {
    let data = "\"two\nline\",\"one line\",\"three\nline\nfield\"";
    assert_eq!(
        read(data.as_bytes()).unwrap(),
        rows(vec![vec!["two\nline", "one line", "three\nline\nfield"]])
    );
}

#[test]
fn reader_tests_test_blank_line() {
    assert_eq!(
        read(b"a,b,c\n\nd,e,f\n\n").unwrap(),
        rows(vec![vec!["a", "b", "c"], vec!["d", "e", "f"]])
    );
}

#[test]
fn reader_tests_test_blank_line_field_count() {
    assert_eq!(
        read(b"a,b,c\n\nd,e,f\n\n").unwrap(),
        rows(vec![vec!["a", "b", "c"], vec!["d", "e", "f"]])
    );
}

#[test]
fn reader_tests_test_leading_space() {
    assert_eq!(read(b"a,  b,    c").unwrap(), rows(vec![vec!["a", "  b", "    c"]]));
}

#[test]
fn reader_tests_test_lazy_quote() {
    let mut rd = Reader::new(br#"a "word","1"2",a","b"#.to_vec()).with_lazy_quote(true);
    assert_eq!(
        rd.string_records().unwrap(),
        rows(vec![vec![r#"a "word""#, r#"1"2"#, r#"a""#, "b"]])
    );
}

#[test]
fn reader_tests_test_bare_quote() {
    let mut rd = Reader::new(br#"a "word","1"2",a""#.to_vec()).with_lazy_quote(true);
    assert_eq!(rd.string_records().unwrap(), rows(vec![vec![r#"a "word""#, r#"1"2"#, r#"a""#]]));
}

#[test]
fn reader_tests_test_bare_double_quote() {
    let mut rd = Reader::new(br#"a""b,c"#.to_vec()).with_lazy_quote(true);
    assert_eq!(rd.string_records().unwrap(), rows(vec![vec![r#"a""b"#, "c"]]));
}

#[test]
fn reader_tests_test_bad_double_quote() {
    assert_eq!(read(br#"a""b,c"#).unwrap_err(), quote_err(1, 2));
}

#[test]
fn reader_tests_test_bad_bare_quote() {
    assert_eq!(read(br#"a "word","b""#).unwrap_err(), quote_err(1, 3));
}

#[test]
fn reader_tests_test_bad_trailing_quote() {
    assert_eq!(read(br#""a word",b""#).unwrap_err(), quote_err(1, 11));
}

#[test]
fn reader_tests_test_extraneous_quote() {
    assert_eq!(read(br#""a "word","b""#).unwrap_err(), quote_err(1, 4));
}

#[test]
fn reader_tests_test_bad_field_count() {
    assert_eq!(read(b"a,b,c\nd,e").unwrap_err(), CsvError::Parse(ErrorKind::ErrFieldNum(2, 3, 3, 2)));
}

#[test]
fn reader_tests_test_bad_field_count_multiple() {
    assert_eq!(read(b"a,b,c\nd,e\nf").unwrap_err(), CsvError::Parse(ErrorKind::ErrFieldNum(2, 3, 3, 2)));
}

#[test]
fn reader_tests_test_field_count() {
    let mut rd = Reader::new(b"a,b,c\nd,e\nf".to_vec()).with_allow_diff_field_num(true);
    assert_eq!(
        rd.string_records().unwrap(),
        rows(vec![vec!["a", "b", "c"], vec!["d", "e"], vec!["f"]])
    );
}

#[test]
fn reader_tests_test_trailing_comma_eof() {
    assert_eq!(read(b"a,b,c,").unwrap(), rows(vec![vec!["a", "b", "c", ""]]));
}

#[test]
fn reader_tests_test_trailing_comma_eol() {
    assert_eq!(read(b"a,b,c,\n").unwrap(), rows(vec![vec!["a", "b", "c", ""]]));
}

#[test]
fn reader_tests_test_trailing_comma_space_eof() {
    assert_eq!(read(b"a,b,c, ").unwrap(), rows(vec![vec!["a", "b", "c", " "]]));
}

#[test]
fn reader_tests_test_trailing_comma_space_eol() {
    assert_eq!(read(b"a,b,c, \n").unwrap(), rows(vec![vec!["a", "b", "c", " "]]));
}

#[test]
fn reader_tests_test_trailing_comma_line3() {
    assert_eq!(
        read(b"a,b,c\nd,e,f\ng,hi,").unwrap(),
        rows(vec![vec!["a", "b", "c"], vec!["d", "e", "f"], vec!["g", "hi", ""]])
    );
}

#[test]
fn reader_tests_test_comma_field() {
    let data = "x,y,z,w\nx,y,z,\nx,y,,\nx,,,\n,,,\n\"x\",\"y\",\"z\",\"w\"\n\"x\",\"y\",\"z\",\"\"\n\"x\",\"y\",\"\",\"\"\n\"x\",\"\",\"\",\"\"\n\"\",\"\",\"\",\"\"\n";
    assert_eq!(
        read(data.as_bytes()).unwrap(),
        rows(vec![
            vec!["x", "y", "z", "w"],
            vec!["x", "y", "z", ""],
            vec!["x", "y", "", ""],
            vec!["x", "", "", ""],
            vec!["", "", "", ""],
            vec!["x", "y", "z", "w"],
            vec!["x", "y", "z", ""],
            vec!["x", "y", "", ""],
            vec!["x", "", "", ""],
            vec!["", "", "", ""],
        ])
    );
}

#[test]
fn reader_tests_test_trailing_comma() {
    assert_eq!(read(b"a,b,\nc,d,e").unwrap(), rows(vec![vec!["a", "b", ""], vec!["c", "d", "e"]]));
}

#[test]
fn reader_tests_test_start_line1() {
    assert_eq!(read(b"a,\"b\nc\"d,e").unwrap_err(), quote_err(2, 2));
}

#[test]
fn reader_tests_test_start_line2() {
    assert_eq!(read(b"a,b\n\"d\n\n,e").unwrap_err(), quote_err(4, 3));
}

#[test]
fn reader_tests_test_crlf_in_quoted_field() {
    assert_eq!(read(b"A,\"Hello\r\nHi\",B\r\n").unwrap(), rows(vec![vec!["A", "Hello\nHi", "B"]]));
}

#[test]
fn reader_tests_test_trailing_cr() {
    assert_eq!(read(b"field1,field2\r").unwrap(), rows(vec![vec!["field1", "field2"]]));
}

#[test]
fn reader_tests_test_quoted_trailing_cr() {
    assert_eq!(read(b"\"field\"\r").unwrap(), rows(vec![vec!["field"]]));
}

#[test]
fn reader_tests_test_quoted_trailing_crcr() {
    assert_eq!(read(b"\"field\"\r\r").unwrap_err(), quote_err(1, 7));
}

#[test]
fn reader_tests_test_field_cr() {
    assert_eq!(read(b"field\rfield").unwrap(), rows(vec![vec!["field\rfield"]]));
}

#[test]
fn reader_tests_test_field_crcr() {
    assert_eq!(read(b"field\r\rfield\r\r").unwrap(), rows(vec![vec!["field\r\rfield\r"]]));
}

#[test]
fn reader_tests_test_field_crcrlf() {
    assert_eq!(read(b"field\r\r\nfield\r\r\n").unwrap(), rows(vec![vec!["field\r"], vec!["field\r"]]));
}

#[test]
fn reader_tests_test_field_crcrlfcr() {
    assert_eq!(
        read(b"field\r\r\n\rfield\r\r\n\r").unwrap(),
        rows(vec![vec!["field\r"], vec!["\rfield\r"]])
    );
}

#[test]
fn reader_tests_test_field_crcrlfcrcr() {
    assert_eq!(
        read(b"field\r\r\n\r\rfield\r\r\n\r\r").unwrap(),
        rows(vec![vec!["field\r"], vec!["\r\rfield\r"], vec!["\r"]])
    );
}

#[test]
fn reader_tests_test_multi_field_crcrlfcrcr() {
    assert_eq!(
        read(b"field1,field2\r\r\n\r\rfield1,field2\r\r\n\r\r,").unwrap(),
        rows(vec![vec!["field1", "field2\r"], vec!["\r\rfield1", "field2\r"], vec!["\r\r", ""]])
    );
}

#[test]
fn reader_tests_test_quoted_field_multi_lf() {
    assert_eq!(read(b"\"\n\n\n\n\"").unwrap(), rows(vec![vec!["\n\n\n\n"]]));
}

#[test]
fn reader_tests_test_multi_crlf() {
    assert_eq!(read(b"\r\n\r\n\r\n\r\n").unwrap(), Vec::<Vec<String>>::new());
}

#[test]
fn reader_tests_test_quote_with_trailing_crlf() {
    assert_eq!(read(b"\"foo\"bar\"\r\n").unwrap_err(), quote_err(1, 5));
}

#[test]
fn reader_tests_test_lazy_quote_with_trailing_crlf() {
    let mut rd = Reader::new(b"\"foo\"\"bar\"\r\n".to_vec()).with_lazy_quote(true);
    assert_eq!(rd.string_records().unwrap(), rows(vec![vec!["foo\"bar"]]));
}

#[test]
fn reader_tests_test_double_quote_with_trailing_crlf() {
    assert_eq!(read(b"\"foo\"\"bar\"\r\n").unwrap(), rows(vec![vec!["foo\"bar"]]));
}

#[test]
fn reader_tests_test_even_quotes() {
    assert_eq!(read(br#""""""""""#).unwrap(), rows(vec![vec![r#"""""#]]));
}

#[test]
fn reader_tests_test_odd_quotes() {
    assert_eq!(read(br#"""""""""#).unwrap_err(), quote_err(1, 8));
}

#[test]
fn reader_tests_test_bad_comma1() {
    let rd = Reader::new(Vec::new()).with_comma(b'\n');
    assert_eq!(rd.err().unwrap(), ErrorKind::ErrInvalidDelim);
}

#[test]
fn reader_tests_test_bad_comma2() {
    let rd = Reader::new(Vec::new()).with_comma(b'\r');
    assert_eq!(rd.err().unwrap(), ErrorKind::ErrInvalidDelim);
}

#[test]
fn reader_tests_test_bad_comma3() {
    let rd = Reader::new(Vec::new()).with_comma(b'"');
    assert_eq!(rd.err().unwrap(), ErrorKind::ErrInvalidDelim);
}

#[test]
fn reader_tests_test_header() {
    let mut rd = Reader::new(b"h1,h2,h3\na,b,c\n".to_vec()).with_skip_header(true);
    assert_eq!(rd.string_records().unwrap(), rows(vec![vec!["a", "b", "c"]]));
}

#[test]
fn reader_tests_test_utf8() {
    let data = "‰Ω†Â•ΩÔºå,„Åì„Çì„Å´„Å°„ÅØüíñ";
    assert_eq!(read(data.as_bytes()).unwrap(), rows(vec![vec!["‰Ω†Â•ΩÔºå", "„Åì„Çì„Å´„Å°„ÅØüíñ"]]));
}

#[test]
fn reader_tests_test_gbk() {
    let (data, _, _) = GBK.encode("你好，,こんにちは");
    let mut rd = Reader::new(data.to_vec()).with_encoding(GBK);
    assert_eq!(rd.string_records().unwrap(), rows(vec![vec!["你好，", "こんにちは"]]));
}

#[test]
fn reader_tests_test_gbk2() {
    let (data, _, _) = GBK.encode("你\r好，,こんにちは\n\"世\n界\",\"再见\r\n\"");
    let mut rd = Reader::new(data.to_vec()).with_encoding(GBK);
    assert_eq!(
        rd.string_records().unwrap(),
        rows(vec![vec!["你\r好，", "こんにちは"], vec!["世\n界", "再见\n"]])
    );
}
