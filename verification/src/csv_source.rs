//! Reading the rows of a comma-separated table with the `csv` crate.
use vstd::prelude::*;

verus! {

/// The error type of the `csv` crate, carried through without being looked into.
#[verifier::external_type_specification]
#[verifier::external_body]
pub struct ExCsvError(csv::Error);

/// The rows, each a list of raw fields, that the `csv` crate reads from `data`
/// with `,` as delimiter and no header row, up to the first row on which it
/// reports an error; and whether it stopped on such an error.
pub uninterp spec fn csv_rows(data: Seq<u8>) -> (Seq<Seq<Seq<u8>>>, bool);

/// Calls `csv::ReaderBuilder` (delimiter `,`, `has_headers(false)`) on `data`
/// and walks `Reader::byte_records`, each field copied into a `Vec<u8>`, until
/// the end or the first error. Claimed: the rows and the presence of an
/// error are those that `csv_rows` names for `data`. What the error holds is
/// not stated.
#[verifier::external_body]
pub(crate) fn read_csv_rows(data: &[u8]) -> (res: (Vec<Vec<Vec<u8>>>, Option<csv::Error>))
    ensures
        csv_rows(data@) == (res.0.deep_view(), res.1 is Some),
{
    let mut reader = csv::ReaderBuilder::new().delimiter(b',').has_headers(false).from_reader(data);
    let mut rows = Vec::new();
    for record in reader.byte_records() {
        match record {
            Ok(record) => rows.push(record.iter().map(|field| field.to_vec()).collect()),
            Err(error) => return (rows, Some(error)),
        }
    }
    (rows, None)
}

} // verus!
