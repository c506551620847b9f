//! A CSV codec: a reader that decodes delimited bytes into records and a
//! writer that encodes records into delimited bytes.
pub mod bytes;
pub mod err;
pub mod laws;
pub mod line;
pub mod parse;
pub mod reader;
pub mod roundtrip;
pub mod text;
pub mod writer;

use vstd::prelude::*;

verus! {

/// The field names of a record type, in field order.
pub trait HeaderCSV {
    fn get_header() -> Vec<String>;
}

/// Builds a value from a record whose fields are named by `header`; the
/// error says why the record does not fit.
pub trait FromCSV: Sized {
    fn from_csv(header: &Vec<String>, record: &Vec<String>) -> Result<Self, String>;
}

/// Turns a value into the fields of one record.
pub trait ToCSV {
    fn to_csv(&self) -> Vec<String>;
}

} // verus!
