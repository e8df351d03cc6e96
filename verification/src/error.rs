//! The errors that the store reports.

use vstd::prelude::*;
use vstd::string::StringExecFns;

verus! {

/// `bincode::ErrorKind`, the reason an encoding or a decoding failed.
#[verifier::external_type_specification]
#[verifier::external_body]
pub struct ExBincodeErrorKind(bincode::ErrorKind);

/// Why bytes could not be read.
#[derive(Clone, Copy, Debug, PartialEq, Eq, Structural)]
pub enum IoErrorKind {
    /// The data ended in the middle of a record.
    UnexpectedEof,
}

/// Why a file name is not a file id.
#[derive(Clone, Copy, Debug, PartialEq, Eq, Structural)]
pub enum ParseIntError {
    /// The name is empty.
    Empty,
    /// The name holds something that is no decimal digit, or a sign alone.
    InvalidDigit,
    /// The number does not fit a file id.
    PosOverflow,
}

/// What can go wrong in the store.
#[derive(Debug)]
pub enum Error {
    /// Reading or writing a file failed.
    IoError(IoErrorKind),
    /// A key or a value could not be encoded.
    SerializeError(SerializeError),
    /// A key or a value could not be decoded.
    DeserializeError(DeserializeError),
    /// A file name could not be read as a file id.
    ParseIntError(ParseIntError),
    /// The checksum stored in a record is not the checksum of its bytes.
    CorruptRecord,
}

/// An encoding failure, told apart from a decoding failure, which the
/// encoder's own error type does not do.
#[derive(Debug)]
pub struct SerializeError {
    pub msg: String,
    pub source: Box<bincode::ErrorKind>,
}

/// A decoding failure, told apart from an encoding failure, which the
/// encoder's own error type does not do.
#[derive(Debug)]
pub struct DeserializeError {
    pub msg: String,
    pub source: Box<bincode::ErrorKind>,
}

/// What `bincode::ErrorKind` says of itself, by its `Display`. Nothing is
/// claimed of the text.
#[verifier::external_body]
fn error_text(source: &bincode::ErrorKind) -> (text: String) {
    format!("{}", source)
}

/// `msg`, a colon and a space, and then what the encoder's error says.
fn describe(msg: &String, source: &bincode::ErrorKind) -> (text: String)
    ensures
        text@.len() >= msg@.len() + 2,
        text@.subrange(0, msg@.len() as int + 2) == msg@ + seq![':', ' '],
{
    let mut text = msg.clone();
    proof {
        reveal_strlit(": ");
        assert(": "@ =~= seq![':', ' ']);
    }
    text.append(": ");
    let ghost head = text@;
    let tail = error_text(source);
    text.append(tail.as_str());
    proof {
        assert(text@.subrange(0, msg@.len() as int + 2) =~= head);
    }
    text
}

impl SerializeError {
    /// The message, a colon and a space, and then what the encoder's error
    /// says.
    pub fn to_string(&self) -> (text: String)
        ensures
            text@.len() >= self.msg@.len() + 2,
            text@.subrange(0, self.msg@.len() as int + 2) == self.msg@ + seq![':', ' '],
    {
        describe(&self.msg, &self.source)
    }
}

impl DeserializeError {
    /// The message, a colon and a space, and then what the encoder's error
    /// says.
    pub fn to_string(&self) -> (text: String)
        ensures
            text@.len() >= self.msg@.len() + 2,
            text@.subrange(0, self.msg@.len() as int + 2) == self.msg@ + seq![':', ' '],
    {
        describe(&self.msg, &self.source)
    }
}

impl Error {
    /// What went wrong, in a few words.
    pub fn to_string(&self) -> (text: String)
        ensures
            text@ == self.message(),
    {
        match self {
            Error::IoError(_) => "io error occurred".to_string(),
            Error::SerializeError(_) => "could not serialize".to_string(),
            Error::DeserializeError(_) => "could not deserialize".to_string(),
            Error::ParseIntError(_) => "could not parse".to_string(),
            Error::CorruptRecord => "hash from input and computed hash do not match".to_string(),
        }
    }

    /// The words that `to_string` returns.
    pub open spec fn message(&self) -> Seq<char> {
        match self {
            Error::IoError(_) => "io error occurred"@,
            Error::SerializeError(_) => "could not serialize"@,
            Error::DeserializeError(_) => "could not deserialize"@,
            Error::ParseIntError(_) => "could not parse"@,
            Error::CorruptRecord => "hash from input and computed hash do not match"@,
        }
    }
}

} // verus!
