//! CSV text, which the `csv` crate reads and writes.
use vstd::prelude::*;

use crate::text::views;

verus! {

/// A character that stands for whatever may follow in a record.
pub const NEXT_CHARACTER: u8 = 120;

/// The records that were written as CSV text so far: a `csv::Writer` into memory.
#[verifier::external_body]
pub struct CsvText {
    writer: csv::Writer<Vec<u8>>,
}

/// What the `csv` crate reads from bytes, without a header of its own: a record for each line
/// that is not blank, or the message that says why it is no record.
pub uninterp spec fn csv_reading(bytes: Seq<u8>) -> Seq<Result<Seq<Seq<char>>, Seq<char>>>;

/// The bytes that the `csv` crate writes records as.
pub uninterp spec fn csv_writing(records: Seq<Seq<Seq<char>>>) -> Seq<u8>;

/// The records that were written, in order.
pub uninterp spec fn written(text: CsvText) -> Seq<Seq<Seq<char>>>;

/// What a list of readings holds, by its texts.
pub open spec fn reading_views(readings: Seq<Result<Vec<String>, String>>) -> Seq<
    Result<Seq<Seq<char>>, Seq<char>>,
> {
    readings.map_values(|reading: Result<Vec<String>, String>| reading_view(reading))
}

/// What a reading holds, by its texts.
pub open spec fn reading_view(reading: Result<Vec<String>, String>) -> Result<
    Seq<Seq<char>>,
    Seq<char>,
> {
    match reading {
        Ok(record) => Ok(views(record@)),
        Err(message) => Err(message@),
    }
}

/// Whether these records form a table: each has the same number of cells, and at least one.
pub open spec fn is_table(records: Seq<Seq<Seq<char>>>) -> bool {
    forall|i: int|
        0 <= i < records.len() ==> (#[trigger] records[i]).len() > 0 && records[i].len()
            == records[0].len()
}

/// Whether the first cell of a table starts with a byte order mark, which readers leave out.
pub open spec fn starts_with_mark(records: Seq<Seq<Seq<char>>>) -> bool {
    records.len() > 0 && records[0].len() > 0 && records[0][0].len() > 0 && records[0][0][0]
        == '\u{feff}'
}

/// Whether these bytes are read as these records and nothing else.
pub open spec fn reads_back(bytes: Seq<u8>, records: Seq<Seq<Seq<char>>>) -> bool {
    csv_reading(bytes) == records.map_values(
        |record: Seq<Seq<char>>| Ok::<Seq<Seq<char>>, Seq<char>>(record),
    )
}

/// `csv::Reader::records` of a reader that takes no line for a header: what is read depends on the
/// bytes alone. An error is shown as its `Display` writes it.
#[verifier::external_body]
pub(crate) fn csv_records(bytes: &Vec<u8>) -> (readings: Vec<Result<Vec<String>, String>>)
    ensures
        reading_views(readings@) == csv_reading(bytes@),
{
    let mut reader = csv::ReaderBuilder::new().has_headers(false).from_reader(bytes.as_slice());
    reader
        .records()
        .map(|reading| match reading {
            Ok(record) => Ok(record.iter().map(|cell| cell.to_string()).collect()),
            Err(error) => Err(error.to_string()),
        })
        .collect()
}

/// The records that end before the bytes do: those that are read if one more character follows,
/// without the last one, which then holds that character.
pub open spec fn ended_reading(bytes: Seq<u8>) -> Seq<Result<Seq<Seq<char>>, Seq<char>>> {
    let readings = csv_reading(bytes.push(NEXT_CHARACTER));
    if readings.len() == 0 {
        readings
    } else {
        readings.drop_last()
    }
}

/// Reads the records that end before the bytes do.
pub(crate) fn ended_records(bytes: &Vec<u8>) -> (readings: Vec<Result<Vec<String>, String>>)
    ensures
        reading_views(readings@) == ended_reading(bytes@),
{
    let mut more = bytes.clone();
    assert(more@ =~= bytes@);
    more.push(NEXT_CHARACTER);
    let mut readings = csv_records(&more);
    let ghost all = readings@;
    assert(all.len() == reading_views(all).len());
    if readings.len() > 0 {
        readings.pop();
        assert(reading_views(readings@) =~= reading_views(all).drop_last());
    }
    readings
}

/// `csv::Writer::from_writer`: text into memory, without a record yet.
#[verifier::external_body]
fn empty_text() -> (text: CsvText)
    ensures
        written(text) == Seq::<Seq<Seq<char>>>::empty(),
{
    CsvText { writer: csv::Writer::from_writer(Vec::new()) }
}

/// `csv::Writer::write_record` into memory: the record is added behind those that were written.
/// The first record sets the number of cells, and one with another number would be an error.
#[verifier::external_body]
fn append_record(text: &mut CsvText, record: &Vec<String>)
    requires
        is_table(written(*old(text)).push(views(record@))),
    ensures
        written(*final(text)) == written(*old(text)).push(views(record@)),
{
    text.writer.write_record(record).expect("a record of the width of the table, into memory");
}

/// `csv::Writer::into_inner`: the bytes depend on the records that were written alone. Those of a
/// table read back as its records, unless its first cell starts with a byte order mark.
#[verifier::external_body]
fn text_bytes(text: CsvText) -> (bytes: Vec<u8>)
    ensures
        bytes@ == csv_writing(written(text)),
        is_table(written(text)) && !starts_with_mark(written(text)) ==> reads_back(
            bytes@,
            written(text),
        ),
{
    text.writer.into_inner().expect("memory takes all bytes")
}

impl CsvText {
    /// Text without a record.
    pub fn new() -> (text: Self)
        ensures
            written(text) == Seq::<Seq<Seq<char>>>::empty(),
    {
        empty_text()
    }

    /// Adds a record of the same width as those before.
    pub fn write_record(&mut self, record: &Vec<String>)
        requires
            is_table(written(*old(self)).push(views(record@))),
        ensures
            written(*final(self)) == written(*old(self)).push(views(record@)),
    {
        append_record(self, record)
    }

    /// The bytes of the text.
    pub fn into_bytes(self) -> (bytes: Vec<u8>)
        ensures
            bytes@ == csv_writing(written(self)),
            is_table(written(self)) && !starts_with_mark(written(self)) ==> reads_back(
                bytes@,
                written(self),
            ),
    {
        text_bytes(self)
    }
}

} // verus!
