//! The errors that the operations of this crate report.

use crate::syntax::Fault;
use vstd::prelude::*;
use vstd::string::StringExecFns;

verus! {

/// A line of a hosts file that breaks the grammar.
#[derive(Clone, Copy, Debug, PartialEq, Eq, Structural)]
pub struct ParseError {
    /// The number of the line, counted from 1.
    pub line: usize,
    /// The number of the offending word in that line, counted from 0.
    pub token: usize,
    /// What is wrong with that word.
    pub fault: Fault,
}

/// Why a file could not be used.
#[derive(Clone, Debug, PartialEq, Eq)]
pub enum IoFault {
    /// The file does not exist.
    NotFound,
    /// The file does not hold UTF-8 text.
    InvalidData,
    /// The operating system refused an operation; the text says which.
    Other(String),
}

/// Why an archive could not be unpacked.
#[derive(Clone, Copy, Debug, PartialEq, Eq, Structural)]
pub enum ZipFault {
    /// Reading an entry failed, for instance on a wrong checksum.
    Io,
    /// The bytes are no zip archive.
    InvalidArchive,
    /// The archive uses a feature that is not supported.
    UnsupportedArchive,
    /// The archive has no entry of the name asked for.
    FileNotFound,
}

/// The failure of a background worker.
#[derive(Clone, Debug, PartialEq, Eq)]
pub struct ThreadError(pub String);

impl ThreadError {
    /// The worker's message.
    pub fn to_string(&self) -> (r: String)
        ensures
            r@ == self.0@,
    {
        self.0.clone()
    }
}

/// Every error of this crate. Each operation returns one of these instead of
/// ending the process.
#[derive(Clone, Debug, PartialEq, Eq)]
pub enum GenericError {
    /// A file is missing or unreadable.
    IOError(IoFault),
    /// A hosts file breaks the grammar.
    ParseError(ParseError),
    /// A release archive is corrupt or lacks the expected entry.
    ZipError(ZipFault),
    /// Changing a file's permissions failed.
    NixError(String),
    /// A transfer failed.
    NetworkError(String),
    /// A reply of the release feed could not be decoded.
    JsonError(String),
    /// The background worker did not complete.
    ThreadError(ThreadError),
    /// A downloaded artifact does not have the checksum that was declared
    /// for it.
    IntegrityError,
    /// The release has no artifact for the running platform.
    NoAsset,
    /// The updater was told of something that it was not waiting for.
    UnexpectedEvent,
    /// Anything else.
    Other(String),
}

/// The text of a decimal digit.
pub open spec fn digit_text(d: int) -> Seq<char> {
    if d == 0 {
        "0"@
    } else if d == 1 {
        "1"@
    } else if d == 2 {
        "2"@
    } else if d == 3 {
        "3"@
    } else if d == 4 {
        "4"@
    } else if d == 5 {
        "5"@
    } else if d == 6 {
        "6"@
    } else if d == 7 {
        "7"@
    } else if d == 8 {
        "8"@
    } else {
        "9"@
    }
}

/// A number written in decimal, without leading zeros.
pub open spec fn decimal(n: int) -> Seq<char>
    decreases n,
{
    if n < 10 {
        digit_text(n)
    } else {
        decimal(n / 10) + digit_text(n % 10)
    }
}

/// The text of a decimal digit.
pub fn digit_str(d: usize) -> (r: &'static str)
    requires
        d < 10,
    ensures
        r@ == digit_text(d as int),
{
    if d == 0 {
        "0"
    } else if d == 1 {
        "1"
    } else if d == 2 {
        "2"
    } else if d == 3 {
        "3"
    } else if d == 4 {
        "4"
    } else if d == 5 {
        "5"
    } else if d == 6 {
        "6"
    } else if d == 7 {
        "7"
    } else if d == 8 {
        "8"
    } else {
        "9"
    }
}

/// Adds a number in decimal at the end of a text.
pub fn push_decimal(out: &mut String, n: usize)
    ensures
        final(out)@ == old(out)@ + decimal(n as int),
    decreases n,
{
    if n >= 10 {
        push_decimal(out, n / 10);
    }
    out.append(digit_str(n % 10));
    assert(out@ =~= old(out)@ + decimal(n as int));
}

impl Fault {
    /// What is wrong, in words.
    pub open spec fn text(self) -> Seq<char> {
        match self {
            Fault::InvalidAddress => "invalid address"@,
            Fault::MissingHostName => "missing host name"@,
            Fault::InvalidHostName => "invalid host name"@,
        }
    }

    /// What is wrong, in words.
    pub fn describe(self) -> (r: &'static str)
        ensures
            r@ == self.text(),
    {
        match self {
            Fault::InvalidAddress => "invalid address",
            Fault::MissingHostName => "missing host name",
            Fault::InvalidHostName => "invalid host name",
        }
    }
}

impl ZipFault {
    /// What is wrong, in words.
    pub open spec fn text(self) -> Seq<char> {
        match self {
            ZipFault::Io => "entry cannot be read"@,
            ZipFault::InvalidArchive => "invalid Zip archive"@,
            ZipFault::UnsupportedArchive => "unsupported Zip archive"@,
            ZipFault::FileNotFound => "specified file not found in archive"@,
        }
    }

    /// What is wrong, in words.
    pub fn describe(self) -> (r: &'static str)
        ensures
            r@ == self.text(),
    {
        match self {
            ZipFault::Io => "entry cannot be read",
            ZipFault::InvalidArchive => "invalid Zip archive",
            ZipFault::UnsupportedArchive => "unsupported Zip archive",
            ZipFault::FileNotFound => "specified file not found in archive",
        }
    }
}

impl ParseError {
    /// Where the text breaks the grammar and how, in words.
    pub open spec fn text(self) -> Seq<char> {
        "line "@ + decimal(self.line as int) + ", word "@ + decimal(self.token as int) + ": "@
            + self.fault.text()
    }

    /// Where the text breaks the grammar and how, in words.
    pub fn to_string(&self) -> (r: String)
        ensures
            r@ == self.text(),
    {
        let mut out = String::from_str("line ");
        push_decimal(&mut out, self.line);
        out.append(", word ");
        push_decimal(&mut out, self.token);
        out.append(": ");
        out.append(self.fault.describe());
        out
    }
}

impl GenericError {
    /// The kind of the error and what it says, as shown to the user.
    pub open spec fn text(self) -> Seq<char> {
        match self {
            GenericError::IOError(IoFault::NotFound) => "IOError: file not found"@,
            GenericError::IOError(IoFault::InvalidData) => "IOError: file is not valid UTF-8"@,
            GenericError::IOError(IoFault::Other(s)) => "IOError: "@ + s@,
            GenericError::ParseError(e) => "ParseError: "@ + e.text(),
            GenericError::ZipError(f) => "ZipError: "@ + f.text(),
            GenericError::NixError(s) => "NixError: "@ + s@,
            GenericError::NetworkError(s) => "NetworkError: "@ + s@,
            GenericError::JsonError(s) => "JsonError: "@ + s@,
            GenericError::ThreadError(e) => "ThreadError: "@ + e.0@,
            GenericError::IntegrityError => "IntegrityError: download corrupt"@,
            GenericError::NoAsset => "OtherError: no artifact for this platform"@,
            GenericError::UnexpectedEvent => "OtherError: unexpected event"@,
            GenericError::Other(s) => "OtherError: "@ + s@,
        }
    }

    /// The kind of the error and what it says, as shown to the user.
    pub fn to_string(&self) -> (r: String)
        ensures
            r@ == self.text(),
    {
        match self {
            GenericError::IOError(IoFault::NotFound) => String::from_str(
                "IOError: file not found",
            ),
            GenericError::IOError(IoFault::InvalidData) => String::from_str(
                "IOError: file is not valid UTF-8",
            ),
            GenericError::IOError(IoFault::Other(s)) => String::from_str("IOError: ").concat(
                s.as_str(),
            ),
            GenericError::ParseError(e) => {
                let detail = e.to_string();
                String::from_str("ParseError: ").concat(detail.as_str())
            },
            GenericError::ZipError(f) => String::from_str("ZipError: ").concat(f.describe()),
            GenericError::NixError(s) => String::from_str("NixError: ").concat(s.as_str()),
            GenericError::NetworkError(s) => String::from_str("NetworkError: ").concat(
                s.as_str(),
            ),
            GenericError::JsonError(s) => String::from_str("JsonError: ").concat(s.as_str()),
            GenericError::ThreadError(e) => String::from_str("ThreadError: ").concat(
                e.0.as_str(),
            ),
            GenericError::IntegrityError => String::from_str("IntegrityError: download corrupt"),
            GenericError::NoAsset => String::from_str(
                "OtherError: no artifact for this platform",
            ),
            GenericError::UnexpectedEvent => String::from_str("OtherError: unexpected event"),
            GenericError::Other(s) => String::from_str("OtherError: ").concat(s.as_str()),
        }
    }
}

} // verus!
