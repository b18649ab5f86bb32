//! The `csv` crate's reader, record and error as this library sees them.
//!
//! Nothing in this file is proved. Each item states what the rest of the
//! library takes on trust about the outside code.

use crate::model::same_but_first_text;
use vstd::prelude::*;

verus! {

/// `csv::Reader`, carried as an opaque value.
#[verifier::external_type_specification]
#[verifier::external_body]
#[verifier::reject_recursive_types(R)]
pub struct ExReader<R>(csv::Reader<R>);

/// `csv::StringRecord`, carried as an opaque value.
#[verifier::external_type_specification]
#[verifier::external_body]
pub struct ExStringRecord(csv::StringRecord);

/// `csv::Error`, carried as an opaque value.
#[verifier::external_type_specification]
#[verifier::external_body]
pub struct ExError(csv::Error);

/// What `csv::Reader::headers` yields for a reader over `data` that takes the
/// first record as the header and accepts rows of any length: the fields of
/// the first record, or the text of the failure.
pub uninterp spec fn parsed_header(data: Seq<u8>) -> Result<Seq<Seq<char>>, Seq<char>>;

/// What successive calls of `csv::Reader::read_record` yield, up to the end
/// of the input, for such a reader over `data` on which nothing else is
/// called: for each data row its fields, or the text of the failure.
pub uninterp spec fn parsed_records(data: Seq<u8>) -> Seq<Result<Seq<Seq<char>>, Seq<char>>>;

/// What successive calls of `csv::Reader::read_record` yield, up to the end
/// of the input, for such a reader over `data` once `csv::Reader::headers`
/// has been called on it. A failure's text tells where the reader stood
/// before the call, so the text of a failure at the first row is not the one
/// of `parsed_records`.
pub uninterp spec fn records_after_header(data: Seq<u8>) -> Seq<
    Result<Seq<Seq<char>>, Seq<char>>,
>;

/// The bytes that a reader was made over.
pub uninterp spec fn source(reader: csv::Reader<&[u8]>) -> Seq<u8>;

/// The outcomes that a reader has not handed out yet, next one first.
pub uninterp spec fn pending(reader: csv::Reader<&[u8]>) -> Seq<Result<Seq<Seq<char>>, Seq<char>>>;

/// The fields that a record holds, in order.
pub uninterp spec fn fields(record: csv::StringRecord) -> Seq<Seq<char>>;

/// The text that a reader's error displays as.
pub uninterp spec fn failure_text(error: csv::Error) -> Seq<char>;

/// `csv::ReaderBuilder::new`, `flexible` and `from_reader` on a byte slice.
/// Apart from `flexible` the reader has the crate's default configuration:
/// comma-delimited, the first record is the header. The names of this file
/// describe a reader that accepts rows of any length, so the caller has to
/// ask for one. The reader has handed out nothing yet.
#[verifier::external_body]
pub(crate) fn open_reader<'a>(data: &'a [u8], flexible: bool) -> (reader: csv::Reader<&'a [u8]>)
    requires
        flexible,
    ensures
        source(reader) == data@,
        pending(reader) == parsed_records(data@),
{
    csv::ReaderBuilder::new().flexible(flexible).from_reader(data)
}

/// `csv::Reader::headers`, with the header copied out of the reader.
///
/// Taking the header leaves the reader with as many rows to hand out as
/// before, the same ones failing, and every row that can be tokenised
/// unchanged. The text of a failure is unchanged too, except at the next row:
/// on a reader that has handed out nothing, the call moves the place that
/// such a text reports. What that reader yields afterwards is
/// `records_after_header`.
#[verifier::external_body]
pub(crate) fn read_header(reader: &mut csv::Reader<&[u8]>) -> (header: Result<
    csv::StringRecord,
    csv::Error,
>)
    ensures
        source(*final(reader)) == source(*old(reader)),
        same_but_first_text(pending(*old(reader)), pending(*final(reader))),
        pending(*old(reader)) == parsed_records(source(*old(reader))) ==> pending(*final(reader))
            == records_after_header(source(*old(reader))),
        match header {
            Ok(record) => parsed_header(source(*old(reader))) == Ok::<Seq<Seq<char>>, Seq<char>>(
                fields(record),
            ),
            Err(error) => parsed_header(source(*old(reader))) == Err::<Seq<Seq<char>>, Seq<char>>(
                failure_text(error),
            ),
        },
{
    reader.headers().cloned()
}

/// `csv::Reader::read_record`. `Ok(true)`: the next data record was stored in
/// `record`. `Ok(false)`: the input is exhausted, and stays so. `Err`: the
/// next data record could not be tokenised.
#[verifier::external_body]
pub(crate) fn read_record(reader: &mut csv::Reader<&[u8]>, record: &mut csv::StringRecord) -> (more:
    Result<bool, csv::Error>)
    ensures
        source(*final(reader)) == source(*old(reader)),
        match more {
            Ok(true) => {
                &&& pending(*old(reader)).len() > 0
                &&& pending(*old(reader))[0] == Ok::<Seq<Seq<char>>, Seq<char>>(
                    fields(*final(record)),
                )
                &&& pending(*final(reader)) == pending(*old(reader)).drop_first()
            },
            Ok(false) => pending(*old(reader)).len() == 0 && pending(*final(reader)).len() == 0,
            Err(error) => {
                &&& pending(*old(reader)).len() > 0
                &&& pending(*old(reader))[0] == Err::<Seq<Seq<char>>, Seq<char>>(
                    failure_text(error),
                )
            },
        },
{
    reader.read_record(record)
}

/// `csv::Error`'s `Display`, through `to_string`.
#[verifier::external_body]
pub(crate) fn describe(error: &csv::Error) -> (text: String)
    ensures
        text@ == failure_text(*error),
{
    error.to_string()
}

/// `csv::StringRecord::new`: a record without fields.
pub assume_specification[ csv::StringRecord::new ]() -> (record: csv::StringRecord)
    ensures
        fields(record).len() == 0,
;

/// `csv::StringRecord::len`: the number of fields.
pub assume_specification[ csv::StringRecord::len ](record: &csv::StringRecord) -> (n: usize)
    ensures
        n == fields(*record).len(),
;

/// `csv::StringRecord::get`: the field at position `i`, if there is one.
pub assume_specification<'a>[ csv::StringRecord::get ](
    record: &'a csv::StringRecord,
    i: usize,
) -> (field: Option<&'a str>)
    ensures
        match field {
            Some(text) => i < fields(*record).len() && text@ == fields(*record)[i as int],
            None => i >= fields(*record).len(),
        },
;

} // verus!
