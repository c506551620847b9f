use async_csv::err::ErrorKind;
use async_csv::writer::Writer;
use encoding_rs::GBK;

fn rows(v: Vec<Vec<&str>>) -> Vec<Vec<String>> {
    v.into_iter().map(|r| r.into_iter().map(String::from).collect()).collect()
}

fn write(w: Writer, data: Vec<Vec<&str>>) -> Vec<u8> {
    let mut w = w;
    w.write_records(&rows(data));
    w.into_bytes()
}

#[test]
fn writer_tests_test_simple() {
    assert_eq!(write(Writer::new(), vec![vec!["abc"]]), b"abc\n".to_vec());
}

#[test]
fn test_simple_use_crlf() {
    assert_eq!(write(Writer::new().with_use_crlf(true), vec![vec!["abc"]]), b"abc\r\n".to_vec());
}

#[test]
fn test_quote1() {
    assert_eq!(write(Writer::new(), vec![vec![r#""abc""#]]), b"\"\"\"abc\"\"\"\n".to_vec());
}

#[test]
fn test_quote2() {
    assert_eq!(write(Writer::new(), vec![vec!["a\"b"]]), b"\"a\"\"b\"\n".to_vec());
}

#[test]
fn test_quote3() {
    assert_eq!(write(Writer::new(), vec![vec!["\"a\"b\""]]), b"\"\"\"a\"\"b\"\"\"\n".to_vec());
}

#[test]
fn test_space() {
    assert_eq!(write(Writer::new(), vec![vec![" abc"]]), b" abc\n".to_vec());
}

#[test]
fn test_field1() {
    assert_eq!(write(Writer::new(), vec![vec!["abc,def"]]), b"\"abc,def\"\n".to_vec());
}

#[test]
fn test_field2() {
    assert_eq!(write(Writer::new(), vec![vec!["abc", "def"]]), b"abc,def\n".to_vec());
}

#[test]
fn test_multiline1() {
    assert_eq!(write(Writer::new(), vec![vec!["abc"], vec!["def"]]), b"abc\ndef\n".to_vec());
}

#[test]
fn test_multiline2() {
    assert_eq!(write(Writer::new(), vec![vec!["abc\ndef"]]), b"\"abc\ndef\"\n".to_vec());
}

#[test]
fn test_use_crlf1() {
    assert_eq!(
        write(Writer::new().with_use_crlf(true), vec![vec!["abc\ndef"]]),
        b"\"abc\r\ndef\"\r\n".to_vec()
    );
}

#[test]
fn test_use_crlf2() {
    assert_eq!(
        write(Writer::new().with_use_crlf(true), vec![vec!["abc\rdef"]]),
        b"\"abcdef\"\r\n".to_vec()
    );
}

#[test]
fn test_no_use_crlf() {
    assert_eq!(write(Writer::new(), vec![vec!["abc\rdef"]]), b"\"abc\rdef\"\n".to_vec());
}

#[test]
fn test_empty1() {
    assert_eq!(write(Writer::new(), vec![vec![""]]), b"\n".to_vec());
}

#[test]
fn test_empty2() {
    assert_eq!(write(Writer::new(), vec![vec!["", ""]]), b",\n".to_vec());
}

#[test]
fn test_empty3() {
    assert_eq!(write(Writer::new(), vec![vec!["", "", ""]]), b",,\n".to_vec());
}

#[test]
fn test_empty4() {
    assert_eq!(write(Writer::new(), vec![vec!["", "", "a"]]), b",,a\n".to_vec());
}

#[test]
fn test_empty5() {
    assert_eq!(write(Writer::new(), vec![vec!["", "a", ""]]), b",a,\n".to_vec());
}

#[test]
fn test_empty6() {
    assert_eq!(write(Writer::new(), vec![vec!["", "a", "a"]]), b",a,a\n".to_vec());
}

#[test]
fn test_empty7() {
    assert_eq!(write(Writer::new(), vec![vec!["a", "", ""]]), b"a,,\n".to_vec());
}

#[test]
fn test_empty8() {
    assert_eq!(write(Writer::new(), vec![vec!["a", "", "a"]]), b"a,,a\n".to_vec());
}

#[test]
fn test_empty9() {
    assert_eq!(write(Writer::new(), vec![vec!["a", "a", ""]]), b"a,a,\n".to_vec());
}

#[test]
fn test_full() {
    assert_eq!(write(Writer::new(), vec![vec!["a", "a", "a"]]), b"a,a,a\n".to_vec());
}

#[test]
fn test_comma1() {
    assert_eq!(write(Writer::new().with_comma(b'|').unwrap(), vec![vec!["a", "a", ""]]), b"a|a|\n".to_vec());
}

#[test]
fn test_comma2() {
    assert_eq!(write(Writer::new().with_comma(b'|').unwrap(), vec![vec![",", ",", ""]]), b",|,|\n".to_vec());
}

#[test]
fn test_invalid_comma() {
    let wt = Writer::new().with_comma(b'"');
    assert_eq!(wt.err().unwrap(), ErrorKind::ErrInvalidDelim);
}

#[test]
fn writer_tests_test_header() {
    let header: Vec<String> = vec!["h1", "h2", "h3"].into_iter().map(String::from).collect();
    let w = Writer::new().with_custom_header(header).with_write_header(true);
    assert_eq!(write(w, vec![vec!["a", "b", "c"]]), b"h1,h2,h3\na,b,c\n".to_vec());
}

#[test]
fn writer_tests_test_utf8() {
    let out = write(Writer::new(), vec![vec!["‰Ω†Â•ΩÔºå", "„Åì„Çì„Å´„Å°„ÅØ", "üíñ"]]);
    assert_eq!(std::str::from_utf8(&out).unwrap(), "‰Ω†Â•ΩÔºå,„Åì„Çì„Å´„Å°„ÅØ,üíñ\n");
}

#[test]
fn writer_tests_test_gbk() {
    let out = write(Writer::new().with_encoding(GBK), vec![vec!["‰Ω†Â•ΩÔºå", "„Åì„Çì„Å´„Å°„ÅØ", ""]]);
    let (expect, _, _) = GBK.encode("‰Ω†Â•ΩÔºå,„Åì„Çì„Å´„Å°„ÅØ,\n");
    assert_eq!(out, expect.to_vec());
}
