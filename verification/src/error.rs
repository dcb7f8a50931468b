//! Field-level and line-level parse errors, with the recoverable /
//! fatal distinction that a record-stream driver relies on.

use vstd::prelude::*;
use vstd::string::StringExecFns;

verus! {

/// A failure attributable to a single column of a record.
#[derive(Debug, Clone, PartialEq, Eq)]
pub enum ParseFieldError {
    /// A segment identity could not be parsed as an unsigned integer.
    UintIdError,
    /// Byte content was not valid UTF-8 where text was required.
    Utf8Error,
    /// A field could not be parsed into the requested type.
    ParseFromStringError,
    /// An orientation column held something other than `+` or `-`.
    OrientationError,
    /// A named required field was malformed; the name is kept for
    /// diagnostics.
    InvalidField(&'static str),
    /// The record ended before all required fields were seen.
    MissingFields,
    /// An unclassified field failure.
    Unknown,
}

impl ParseFieldError {
    /// The diagnostic text of this failure.
    pub open spec fn spec_message(&self) -> Seq<char> {
        match self {
            ParseFieldError::UintIdError => "Failed to parse a segment ID as an unsigned integer"@,
            ParseFieldError::Utf8Error => "Failed to parse a bytestring as a UTF-8 string"@,
            ParseFieldError::ParseFromStringError => "Failed to parse a field from a string"@,
            ParseFieldError::OrientationError => "Failed to parse an orientation character"@,
            ParseFieldError::InvalidField(field) => "Failed to parse field `"@ + field@ + "`"@,
            ParseFieldError::MissingFields => "Line is missing required fields"@,
            ParseFieldError::Unknown => "Unknown error when parsing a field"@,
        }
    }

    /// Renders the diagnostic text of this failure.
    pub fn message(&self) -> (r: String)
        ensures
            r@ == self.spec_message(),
    {
        match self {
            ParseFieldError::UintIdError => String::from_str(
                "Failed to parse a segment ID as an unsigned integer",
            ),
            ParseFieldError::Utf8Error => String::from_str(
                "Failed to parse a bytestring as a UTF-8 string",
            ),
            ParseFieldError::ParseFromStringError => String::from_str(
                "Failed to parse a field from a string",
            ),
            ParseFieldError::OrientationError => String::from_str(
                "Failed to parse an orientation character",
            ),
            ParseFieldError::InvalidField(field) => {
                let mut m = String::from_str("Failed to parse field `");
                m.append(field);
                m.append("`");
                m
            },
            ParseFieldError::MissingFields => String::from_str(
                "Line is missing required fields",
            ),
            ParseFieldError::Unknown => String::from_str("Unknown error when parsing a field"),
        }
    }
}

/// A failure concerning a whole input line.
#[derive(Debug)]
pub enum ParseError {
    /// The line began with an unrecognized record-kind marker.
    /// A driving loop may skip such a line.
    UnknownLineType,
    /// The line was empty. A driving loop may skip such a line.
    EmptyLine,
    /// A field of the line failed to parse; holds the field error and
    /// the offending line for diagnostics.
    InvalidLine(ParseFieldError, Vec<u8>),
    /// A bare field failure outside the context of a whole line.
    InvalidField(ParseFieldError),
    /// An I/O failure reported by the collaborator feeding lines in,
    /// carried as its message.
    IOError(String),
    /// An unclassified line failure.
    Unknown,
}

impl ParseError {
    /// The diagnostic text of this failure. The offending line itself
    /// is carried beside the text, as bytes, and is not embedded in it.
    pub open spec fn spec_message(&self) -> Seq<char> {
        match self {
            ParseError::UnknownLineType => "Line type was not one of 'H', 'S', 'L', 'C', 'P'"@,
            ParseError::EmptyLine => "Line was empty"@,
            ParseError::InvalidLine(e, _) => "Failed to parse line, error: "@ + e.spec_message(),
            ParseError::InvalidField(e) => "Failed to parse field: "@ + e.spec_message(),
            ParseError::IOError(msg) => "IO error: "@ + msg@,
            ParseError::Unknown => "Unknown error when parsing a line"@,
        }
    }

    /// Renders the diagnostic text of this failure.
    pub fn message(&self) -> (r: String)
        ensures
            r@ == self.spec_message(),
    {
        match self {
            ParseError::UnknownLineType => String::from_str(
                "Line type was not one of 'H', 'S', 'L', 'C', 'P'",
            ),
            ParseError::EmptyLine => String::from_str("Line was empty"),
            ParseError::InvalidLine(e, _) => {
                let mut m = String::from_str("Failed to parse line, error: ");
                let tail = e.message();
                m.append(tail.as_str());
                m
            },
            ParseError::InvalidField(e) => {
                let mut m = String::from_str("Failed to parse field: ");
                let tail = e.message();
                m.append(tail.as_str());
                m
            },
            ParseError::IOError(msg) => {
                let mut m = String::from_str("IO error: ");
                m.append(msg.as_str());
                m
            },
            ParseError::Unknown => String::from_str("Unknown error when parsing a line"),
        }
    }

    /// Wraps a field error together with a copy of the offending line.
    pub fn invalid_line(error: ParseFieldError, line: &[u8]) -> (r: Self)
        ensures
            r matches ParseError::InvalidLine(e, l) && e == error && l@ == line@,
    {
        let mut copy: Vec<u8> = Vec::new();
        let mut i: usize = 0;
        while i < line.len()
            invariant
                i <= line.len(),
                copy@ == line@.subrange(0, i as int),
            decreases line.len() - i,
        {
            copy.push(line[i]);
            i = i + 1;
        }
        proof {
            assert(copy@ == line@);
        }
        ParseError::InvalidLine(error, copy)
    }

    /// True exactly for the two recoverable kinds: an empty line and an
    /// unrecognized record-kind marker. Every other kind is fatal to a
    /// stream-processing loop.
    pub fn can_safely_continue(&self) -> (r: bool)
        ensures
            r == (*self is EmptyLine || *self is UnknownLineType),
    {
        match self {
            ParseError::EmptyLine => true,
            ParseError::UnknownLineType => true,
            _ => false,
        }
    }

    /// Consumes the error: `Ok(())` when a driving loop may skip it,
    /// `Err(self)` when it must stop.
    pub fn break_if_necessary(self) -> (r: Result<(), ParseError>)
        ensures
            (r is Ok) == (self is EmptyLine || self is UnknownLineType),
            r matches Err(e) ==> e == self,
    {
        if self.can_safely_continue() {
            Ok(())
        } else {
            Err(self)
        }
    }
}

} // verus!
