//! The output formats a result file can take, told apart by the
//! filename's suffix.

use crate::strings::spec_ends_with;
use crate::strings::str_ends_with;
use vstd::prelude::*;

verus! {

/// A serialisation format: one JSON document or one JSON zone per
/// line, plain or compressed.
#[derive(Debug, Clone, Copy, PartialEq, Eq, Structural)]
pub enum OutputFormat {
    Json,
    JsonGz,
    JsonSnappy,
    JsonStream,
    JsonStreamGz,
    JsonStreamSnappy,
}

/// A filename whose suffix names no known format.
#[derive(Debug, Clone, Copy, PartialEq, Eq, Structural)]
pub enum FileFormatError {
    UnknownExtension,
}

/// The filename suffix of a format.
pub open spec fn spec_extension(f: OutputFormat) -> Seq<char> {
    match f {
        OutputFormat::Json => ".json"@,
        OutputFormat::JsonStream => ".jsonl"@,
        OutputFormat::JsonGz => ".json.gz"@,
        OutputFormat::JsonStreamGz => ".jsonl.gz"@,
        OutputFormat::JsonSnappy => ".json.snappy"@,
        OutputFormat::JsonStreamSnappy => ".jsonl.snappy"@,
    }
}

/// The format a filename selects: the first format, in the fixed
/// order, whose extension ends the filename.
pub open spec fn spec_from_filename(name: Seq<char>) -> Option<OutputFormat> {
    if spec_ends_with(name, ".json"@) {
        Some(OutputFormat::Json)
    } else if spec_ends_with(name, ".jsonl"@) {
        Some(OutputFormat::JsonStream)
    } else if spec_ends_with(name, ".json.gz"@) {
        Some(OutputFormat::JsonGz)
    } else if spec_ends_with(name, ".jsonl.gz"@) {
        Some(OutputFormat::JsonStreamGz)
    } else if spec_ends_with(name, ".json.snappy"@) {
        Some(OutputFormat::JsonSnappy)
    } else if spec_ends_with(name, ".jsonl.snappy"@) {
        Some(OutputFormat::JsonStreamSnappy)
    } else {
        None
    }
}

impl OutputFormat {
    /// Every format, in the order extensions are tried.
    pub fn all() -> (r: Vec<OutputFormat>)
        ensures
            r@ == seq![
                OutputFormat::Json,
                OutputFormat::JsonStream,
                OutputFormat::JsonGz,
                OutputFormat::JsonStreamGz,
                OutputFormat::JsonSnappy,
                OutputFormat::JsonStreamSnappy,
            ],
    {
        let mut r: Vec<OutputFormat> = Vec::new();
        r.push(OutputFormat::Json);
        r.push(OutputFormat::JsonStream);
        r.push(OutputFormat::JsonGz);
        r.push(OutputFormat::JsonStreamGz);
        r.push(OutputFormat::JsonSnappy);
        r.push(OutputFormat::JsonStreamSnappy);
        proof {
            assert(r@ =~= seq![
                OutputFormat::Json,
                OutputFormat::JsonStream,
                OutputFormat::JsonGz,
                OutputFormat::JsonStreamGz,
                OutputFormat::JsonSnappy,
                OutputFormat::JsonStreamSnappy,
            ]);
        }
        r
    }

    /// The filename suffix of this format.
    pub fn get_extension(&self) -> (r: &'static str)
        ensures
            r@ == spec_extension(*self),
    {
        match self {
            OutputFormat::Json => ".json",
            OutputFormat::JsonStream => ".jsonl",
            OutputFormat::JsonGz => ".json.gz",
            OutputFormat::JsonStreamGz => ".jsonl.gz",
            OutputFormat::JsonSnappy => ".json.snappy",
            OutputFormat::JsonStreamSnappy => ".jsonl.snappy",
        }
    }

    /// The format a filename selects, or an error when no known
    /// extension ends it.
    pub fn from_filename(filename: &str) -> (r: Result<OutputFormat, FileFormatError>)
        ensures
            r == (match spec_from_filename(filename@) {
                Some(f) => Ok::<OutputFormat, FileFormatError>(f),
                None => Err::<OutputFormat, FileFormatError>(FileFormatError::UnknownExtension),
            }),
    {
        if str_ends_with(filename, ".json") {
            Ok(OutputFormat::Json)
        } else if str_ends_with(filename, ".jsonl") {
            Ok(OutputFormat::JsonStream)
        } else if str_ends_with(filename, ".json.gz") {
            Ok(OutputFormat::JsonGz)
        } else if str_ends_with(filename, ".jsonl.gz") {
            Ok(OutputFormat::JsonStreamGz)
        } else if str_ends_with(filename, ".json.snappy") {
            Ok(OutputFormat::JsonSnappy)
        } else if str_ends_with(filename, ".jsonl.snappy") {
            Ok(OutputFormat::JsonStreamSnappy)
        } else {
            Err(FileFormatError::UnknownExtension)
        }
    }
}

} // verus!
