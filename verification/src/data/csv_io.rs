use vstd::prelude::*;

use crate::data::encoding::{decode_to_utf8, detected_encoding, shift_jis_decoding, without_bom, DecodeError, SourceEncoding};

verus! {

/// The records the `csv` crate reads from a text with no header row and flexible record
/// lengths; `None` when it reports an error.
pub uninterp spec fn csv_records(text: Seq<char>) -> Option<Seq<Seq<Seq<char>>>>;

/// The bytes the `csv` crate writes for the records with `\n` as the record terminator;
/// `None` when it reports an error.
pub uninterp spec fn csv_output(rows: Seq<Seq<Seq<char>>>) -> Option<Seq<u8>>;

/// `csv::ReaderBuilder` with `has_headers(false)` and `flexible(true)` over the text:
/// every record, each as its fields. The error is the `csv` error's message.
#[verifier::external_body]
fn parse_csv_records(text: &str) -> (result: Result<Vec<Vec<String>>, String>)
    ensures
        match result {
            Ok(rows) => csv_records(text@) == Some(rows.deep_view()),
            Err(_) => csv_records(text@) is None,
        },
{
    let mut reader = csv::ReaderBuilder::new().has_headers(false).flexible(true).from_reader(
        text.as_bytes(),
    );
    let mut rows = Vec::new();
    for record in reader.records() {
        let record = record.map_err(|error| error.to_string())?;
        rows.push(record.iter().map(str::to_owned).collect());
    }
    Ok(rows)
}

/// `csv::WriterBuilder` with `Terminator::Any(b'\n')` writing every row as a record
/// into memory. The error is the `csv` error's message.
#[verifier::external_body]
fn write_csv_records(rows: &Vec<Vec<String>>) -> (result: Result<Vec<u8>, String>)
    ensures
        match result {
            Ok(bytes) => csv_output(rows.deep_view()) == Some(bytes@),
            Err(_) => csv_output(rows.deep_view()) is None,
        },
{
    let mut writer = csv::WriterBuilder::new().terminator(csv::Terminator::Any(b'\n')).from_writer(
        Vec::new(),
    );
    for row in rows {
        writer.write_record(row).map_err(|error| error.to_string())?;
    }
    writer.into_inner().map_err(|error| error.to_string())
}

#[derive(Debug, Clone, PartialEq, Eq)]
pub enum CsvIoError {
    Encoding(DecodeError),
    Csv(String),
}

/// A table read from a CSV file's bytes, with the encoding it was in.
pub struct LoadedCsv {
    pub rows: Vec<Vec<String>>,
    pub encoding: SourceEncoding,
}

/// The text of a CSV file's bytes as `decode_to_utf8` reads it, if it can be read.
pub open spec fn decoded_text(bytes: Seq<u8>) -> Option<(Seq<char>, SourceEncoding)> {
    if vstd::utf8::valid_utf8(without_bom(bytes)) {
        Some((vstd::utf8::decode_utf8(without_bom(bytes)), SourceEncoding::Utf8))
    } else if detected_encoding(bytes) == "Shift_JIS"@ && !shift_jis_decoding(bytes).1 {
        Some((shift_jis_decoding(bytes).0, SourceEncoding::ShiftJis))
    } else {
        None
    }
}

/// Reads a CSV file's bytes into rows of text cells.
pub fn read_csv(bytes: &[u8]) -> (result: Result<LoadedCsv, CsvIoError>)
    requires
        bytes@.len() <= usize::MAX / 4,
    ensures
        match result {
            Ok(loaded) => decoded_text(bytes@) matches Some((text, encoding)) && loaded.encoding
                == encoding && csv_records(text) == Some(loaded.rows.deep_view()),
            Err(CsvIoError::Encoding(_)) => decoded_text(bytes@) is None,
            Err(CsvIoError::Csv(_)) => decoded_text(bytes@) matches Some((text, encoding))
                && csv_records(text) is None,
        },
{
    let decoded = match decode_to_utf8(bytes) {
        Ok(decoded) => decoded,
        Err(error) => {
            return Err(CsvIoError::Encoding(error));
        },
    };
    match parse_csv_records(decoded.text.as_str()) {
        Ok(rows) => Ok(LoadedCsv { rows, encoding: decoded.encoding }),
        Err(message) => Err(CsvIoError::Csv(message)),
    }
}

/// The UTF-8 CSV bytes of a table, `\n`-terminated.
pub fn write_csv_utf8(rows: &Vec<Vec<String>>) -> (result: Result<Vec<u8>, CsvIoError>)
    ensures
        match result {
            Ok(bytes) => csv_output(rows.deep_view()) == Some(bytes@),
            Err(error) => csv_output(rows.deep_view()) is None && error is Csv,
        },
{
    match write_csv_records(rows) {
        Ok(bytes) => Ok(bytes),
        Err(message) => Err(CsvIoError::Csv(message)),
    }
}

} // verus!
