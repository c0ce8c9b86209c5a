//! Reading population rows out of CSV text.

use vstd::prelude::*;

verus! {

/// The rows that the `csv` crate decodes from `text`, each a code and a
/// population, or `None` where it reports an error. Nothing more is said of
/// it here: what a text decodes to is the `csv` crate's business.
pub uninterp spec fn decoded_rows(text: Seq<char>) -> Option<Seq<(Seq<char>, u64)>>;

/// Decodes `text` with `csv::Reader::from_string` and `Reader::decode`, as
/// records of a string and a `u64`, with the reader's defaults: commas
/// between the fields, and a first record that is a header and is left out.
/// The contract only gives the outcome its name: the rows of `decoded_rows`
/// where the crate decodes every record, and its error where it does not.
#[verifier::external_body]
pub(crate) fn decode_rows(text: &str) -> (r: Result<Vec<(String, u64)>, csv::Error>)
    ensures
        match r {
            Ok(rows) => decoded_rows(text@) == Some(rows.deep_view()),
            Err(_) => decoded_rows(text@) is None,
        },
{
    let mut reader = csv::Reader::from_string(text);
    let rows: Result<Vec<(String, u64)>, csv::Error> = reader.decode().collect();
    rows
}

} // verus!
