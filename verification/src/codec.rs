//! Trusted boundary to the delimited-text codec and the id generator: the
//! library parses and encodes delimited records through the `csv` crate and
//! draws fresh ids through the `uuid` crate. Each item's contract states
//! only what those crates' sources show.

use vstd::prelude::*;

verus! {

/// The per-record outcomes of reading the text as delimited records: one
/// entry per record, holding the record's fields when it reads cleanly and
/// nothing when the csv crate refuses it (a ragged length, a bad encoding).
/// A function of the text and the header flag alone.
pub uninterp spec fn csv_records_of(text: Seq<char>, skip_header: bool) -> Seq<
    Option<Seq<Seq<char>>>,
>;

/// Relies on csv::Reader::records: reads the text record by record, skipping
/// the first record when `skip_header` is set. A record the reader refuses
/// yields an empty entry and reading continues with the next record, so one
/// bad record never hides the rest. Deterministic in its input; an empty
/// text yields no records.
#[verifier::external_body]
pub fn csv_parse_records(text: &str, skip_header: bool) -> (r: Vec<Option<Vec<String>>>)
    ensures
        r.deep_view() == csv_records_of(text@, skip_header),
        text@.len() == 0 ==> r.deep_view().len() == 0,
{
    let mut rdr = csv::ReaderBuilder::new().has_headers(skip_header).from_reader(
        text.as_bytes(),
    );
    let mut out: Vec<Option<Vec<String>>> = Vec::new();
    for rec in rdr.records() {
        match rec {
            Ok(rec) => out.push(Some(rec.iter().map(|f| f.to_string()).collect())),
            Err(_) => out.push(None),
        }
    }
    out
}

/// The delimited encoding the `csv` crate writes for these rows, without a
/// header: a function of the rows alone.
pub uninterp spec fn csv_encoding_of(rows: Seq<Seq<Seq<char>>>) -> Seq<char>;

/// Relies on csv::Writer::write_record: encodes the rows as delimited text.
#[verifier::external_body]
pub fn csv_encode(rows: &Vec<Vec<String>>) -> (r: String)
    ensures
        r@ == csv_encoding_of(rows.deep_view()),
{
    let mut wtr = csv::WriterBuilder::new().has_headers(false).from_writer(Vec::new());
    for row in rows {
        let _ = wtr.write_record(row);
    }
    String::from_utf8(wtr.into_inner().unwrap_or_default()).unwrap_or_default()
}

/// Relies on uuid::Uuid::new_v4 and its simple formatter: a fresh random
/// identifier rendered as exactly 32 hexadecimal characters. The value is
/// random; only its length is promised.
#[verifier::external_body]
pub fn fresh_uuid_simple() -> (r: String)
    ensures
        r@.len() == 32,
{
    uuid::Uuid::new_v4().simple().to_string()
}

} // verus!
