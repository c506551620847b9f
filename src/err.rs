//! The errors that the codec reports.
use vstd::prelude::*;
use vstd::string::StringExecFns;

verus! {

/// A CSV error. Positions are 1-based: `line` counts physical lines consumed,
/// `col` counts bytes within the current physical line.
#[derive(Debug, Clone, Copy, PartialEq, Eq, Structural)]
pub enum ErrorKind {
    /// The delimiter was LF, CR or `"`.
    ErrInvalidDelim,
    /// Reserved for internal signalling.
    ErrEOF,
    /// A quote in an illegal position: (line, col).
    ErrQuote(usize, usize),
    /// An unexpected byte: (line, col, byte). Reserved.
    ErrChar(usize, usize, u8),
    /// A record whose field count differs from the first one:
    /// (line, col, expected, got).
    ErrFieldNum(usize, usize, usize, usize),
}

/// The character of a decimal digit.
pub open spec fn digit_char(d: nat) -> char {
    if d == 0 {
        '0'
    } else if d == 1 {
        '1'
    } else if d == 2 {
        '2'
    } else if d == 3 {
        '3'
    } else if d == 4 {
        '4'
    } else if d == 5 {
        '5'
    } else if d == 6 {
        '6'
    } else if d == 7 {
        '7'
    } else if d == 8 {
        '8'
    } else {
        '9'
    }
}

/// `n` written in decimal, without sign or leading zeros.
pub open spec fn decimal(n: nat) -> Seq<char>
    decreases n,
{
    if n < 10 {
        seq![digit_char(n)]
    } else {
        decimal(n / 10).push(digit_char(n % 10))
    }
}

/// Relies on `ToString` for `usize`, which writes the number in decimal.
#[verifier::external_body]
fn decimal_string(n: usize) -> (r: String)
    ensures
        r@ == decimal(n as nat),
{
    n.to_string()
}

/// The message that describes an error.
pub open spec fn message_of(e: ErrorKind) -> Seq<char> {
    match e {
        ErrorKind::ErrInvalidDelim => "Invalid Delimiter"@,
        ErrorKind::ErrEOF => "EOF"@,
        ErrorKind::ErrQuote(line, col) => "line:"@ + decimal(line as nat) + " col:"@ + decimal(col as nat)
            + " Error Quote"@,
        ErrorKind::ErrChar(line, col, ch) => "line:"@ + decimal(line as nat) + " col:"@ + decimal(col as nat)
            + " Unexpected Character "@ + decimal(ch as nat),
        ErrorKind::ErrFieldNum(line, col, expect, got) => "line:"@ + decimal(line as nat) + " col:"@ + decimal(
            col as nat,
        ) + " Wrong Number Of Fields, Expect:"@ + decimal(expect as nat) + " Got:"@ + decimal(got as nat),
    }
}

/// "line:<line> col:<col>"
fn position(line: usize, col: usize) -> (r: String)
    ensures
        r@ == "line:"@ + decimal(line as nat) + " col:"@ + decimal(col as nat),
{
    let mut s = String::from_str("line:");
    s.append(decimal_string(line).as_str());
    s.append(" col:");
    s.append(decimal_string(col).as_str());
    s
}

impl ErrorKind {
    /// The message that describes the error.
    pub fn message(&self) -> (r: String)
        ensures
            r@ == message_of(*self),
    {
        match *self {
            ErrorKind::ErrInvalidDelim => String::from_str("Invalid Delimiter"),
            ErrorKind::ErrEOF => String::from_str("EOF"),
            ErrorKind::ErrQuote(line, col) => {
                let mut s = position(line, col);
                s.append(" Error Quote");
                s
            },
            ErrorKind::ErrChar(line, col, ch) => {
                let mut s = position(line, col);
                s.append(" Unexpected Character ");
                s.append(decimal_string(ch as usize).as_str());
                s
            },
            ErrorKind::ErrFieldNum(line, col, expect, got) => {
                let mut s = position(line, col);
                s.append(" Wrong Number Of Fields, Expect:");
                s.append(decimal_string(expect).as_str());
                s.append(" Got:");
                s.append(decimal_string(got).as_str());
                s
            },
        }
    }
}

/// An error of the text layer or of the parser.
#[derive(Debug, PartialEq, Eq)]
pub enum CsvError {
    /// The bytes were malformed as CSV.
    Parse(ErrorKind),
    /// A field of the given record and index was not valid UTF-8.
    Utf8 { record: usize, field: usize },
    /// A record could not be turned into a value; the message says why.
    Field(String),
}

} // verus!
