//! The error that reading or writing a MEIF file reports, and what each failure says.
use vstd::prelude::*;
use vstd::string::*;
use crate::text::decimal;

verus! {

broadcast use vstd::string::to_string_from_display_ensures_for_str;

/// An error met while reading (or writing) a MEIF file; `message` says what went wrong.
pub struct MEIFParserError {
    pub message: String,
}

impl MEIFParserError {
    /// An error that carries `message`.
    pub fn new(message: &str) -> (e: Self)
        ensures
            e.message@ == message@,
    {
        MEIFParserError { message: message.to_string() }
    }

    /// The text the error shows when debug-printed: `MEIFParserError: ` and the message.
    pub fn debug_text(&self) -> (s: String)
        ensures
            s@ == "MEIFParserError: "@ + self.message@,
    {
        let mut s = String::from_str("MEIFParserError: ");
        s.append(self.message.as_str());
        s
    }
}

/// The ways in which reading a MEIF file can fail.
pub ghost enum ParseFailure {
    /// A byte was asked for past the end of the buffer.
    BufferOverflow,
    /// The file does not start with `MEIF`.
    InvalidHeader,
    /// The four zero bytes after `MEIF` are missing.
    MissingZeroQuad,
    /// The bytes `0x69 0x42` are missing.
    MissingSignature,
    /// The two zero bytes after the signature are missing.
    MissingZeroPair,
    /// The `DIMN` section is missing.
    MissingDimn,
    /// The `INDX` section is missing.
    MissingIndx,
    /// The `DATA` section is missing.
    MissingData,
    /// The file ends before `DONE!`.
    EndedAbruptly,
    /// A run header of the pixel data has no value byte after it.
    RunTruncated,
    /// A literal header of the pixel data announces more bytes than follow.
    LiteralTruncated,
    /// The pixel data does not hold `width * height` pixels.
    LengthMismatch { got: nat, expected: nat },
    /// A pixel names a palette entry that does not exist.
    InvalidIndex { value: u8, position: nat },
    /// Compressed data did not decompress to its source.
    CompressionMismatch,
}

/// The message that the error for `f` carries.
pub open spec fn failure_message(f: ParseFailure) -> Seq<char> {
    match f {
        ParseFailure::BufferOverflow => "Buffer overflow"@,
        ParseFailure::InvalidHeader => "Invalid MEIF header"@,
        ParseFailure::MissingZeroQuad => "Expected 4 0x00 bytes after MEIF header"@,
        ParseFailure::MissingSignature => "Expected \"\"\"nice + answer to life\"\"\" after 6 0x00 bytes"@,
        ParseFailure::MissingZeroPair => "Expected 2 0x00 bytes after \"\"\"nice + answer to life\"\"\""@,
        ParseFailure::MissingDimn => "Expected \"DIMN\" section"@,
        ParseFailure::MissingIndx => "Expected \"INDX\" section"@,
        ParseFailure::MissingData => "Expected \"DATA\" section"@,
        ParseFailure::EndedAbruptly => "File ended abruptly"@,
        ParseFailure::RunTruncated => "Unexpected end of input while decoding run"@,
        ParseFailure::LiteralTruncated => "Unexpected end of input while decoding literal"@,
        ParseFailure::LengthMismatch { got, expected } =>
            "Data length mismatch, got "@ + decimal(got) + " but expected "@ + decimal(expected) + "."@,
        ParseFailure::InvalidIndex { value, position } =>
            "Invalid index "@ + decimal(value as nat) + " at position "@ + decimal(position),
        ParseFailure::CompressionMismatch => "Compression failed: data mismatch"@,
    }
}

/// An error is the one that reports `f`.
pub open spec fn reports(e: MEIFParserError, f: ParseFailure) -> bool {
    e.message@ == failure_message(f)
}

} // verus!
