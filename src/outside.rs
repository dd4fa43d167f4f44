//! Declarations of the csv crate's items that the library relies on.
use vstd::prelude::*;

verus! {

#[verifier::external_type_specification]
#[verifier::external_body]
#[verifier::reject_recursive_types(R)]
pub struct ExReader<R>(csv::Reader<R>);

#[verifier::external_type_specification]
#[verifier::external_body]
pub struct ExStringRecord(csv::StringRecord);

#[verifier::external_type_specification]
#[verifier::external_body]
pub struct ExError(csv::Error);

/// The fields that a record holds, in order.
pub uninterp spec fn record_fields(r: csv::StringRecord) -> Seq<Seq<char>>;

/// Relies on csv::StringRecord::new: a new record has no fields.
pub assume_specification[ csv::StringRecord::new ]() -> (r: csv::StringRecord)
    ensures
        record_fields(r) == Seq::<Seq<char>>::empty(),
;

/// Relies on csv::StringRecord::len: the number of fields.
pub assume_specification[ csv::StringRecord::len ](r: &csv::StringRecord) -> (n: usize)
    ensures
        n == record_fields(*r).len(),
;

/// Relies on csv::StringRecord::get: the field at `i`, or `None` past the end.
pub assume_specification<'a>[ csv::StringRecord::get ](r: &'a csv::StringRecord, i: usize) -> (f: Option<&'a str>)
    ensures
        i < record_fields(*r).len() ==> f is Some && f->0@ == record_fields(*r)[i as int],
        i >= record_fields(*r).len() ==> f is None,
;

/// Relies on csv::ReaderBuilder (`new`, `delimiter`, `from_reader`): a
/// reader over `input` that splits fields on `delimiter` and treats the first
/// row as the header.
#[verifier::external_body]
pub(crate) fn open_reader<R: std::io::Read>(input: R, delimiter: u8) -> (r: csv::Reader<R>) {
    csv::ReaderBuilder::new().delimiter(delimiter).from_reader(input)
}

/// Relies on csv::Reader::headers: reads the header row, if not read yet, and
/// hands out a copy of it. What it holds depends on the stream.
#[verifier::external_body]
pub(crate) fn read_headers<R: std::io::Read>(reader: &mut csv::Reader<R>) -> (r: Result<csv::StringRecord, csv::Error>) {
    reader.headers().map(|h| h.clone())
}

/// Relies on csv::Reader::read_record: reads the next row into `record` and
/// tells whether there was one. What it reads depends on the stream; at the
/// end of the stream the record is left without fields.
#[verifier::external_body]
pub(crate) fn read_row<R: std::io::Read>(reader: &mut csv::Reader<R>, record: &mut csv::StringRecord) -> (r: Result<bool, csv::Error>)
    ensures
        r matches Ok(false) ==> record_fields(*final(record)) == Seq::<Seq<char>>::empty(),
{
    reader.read_record(record)
}

} // verus!
