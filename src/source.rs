//! Reading a header row and then data rows from a byte stream.
use vstd::prelude::*;
use crate::outside::{open_reader, read_headers, read_row, record_fields};
use crate::schema::{Record, Schema, SourceError};

verus! {

/// The state needed to read delimited input row by row.
#[verifier::reject_recursive_types(R)]
pub struct CsvSource<R> {
    reader: csv::Reader<R>,
}

impl<R: std::io::Read> CsvSource<R> {
    /// Opens `input`, split on `delimiter`, and reads its header row into a
    /// schema. Fails with `MissingHeader` on input without a header row, and
    /// with the reader's error where the header row cannot be read.
    pub fn new(input: R, delimiter: u8) -> (r: Result<(Self, Schema), SourceError>)
        ensures
            r matches Ok((_, schema)) ==> schema.wf() && schema.header_names().len() > 0,
    {
        let mut reader = open_reader(input, delimiter);
        let header = match read_headers(&mut reader) {
            Ok(header) => header,
            Err(e) => {
                return Err(SourceError::Csv(e));
            },
        };
        let schema = Schema::from_header(header)?;
        Ok((CsvSource { reader }, schema))
    }

    /// Reads the next row into `record`, overwriting its values. Returns
    /// `Ok(false)` at the end of the input, with no values left in `record`.
    pub fn read_record(&mut self, record: &mut Record) -> (r: Result<bool, SourceError>)
        ensures
            final(record).schema == old(record).schema,
            r matches Ok(false) ==> record_fields(final(record).values) == Seq::<Seq<char>>::empty(),
            r matches Err(e) ==> e is Csv,
    {
        match read_row(&mut self.reader, &mut record.values) {
            Ok(more) => Ok(more),
            Err(e) => Err(SourceError::Csv(e)),
        }
    }
}

} // verus!
