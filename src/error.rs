//! Errors of the codec.

use vstd::prelude::*;
use vstd::string::StringExecFns;

verus! {

/// The errors the codec reports.
#[derive(Debug)]
pub enum Error {
    /// The underlying byte stream failed.
    Io(String),
    /// Bad method byte, oversized or undersized frame, short read, checksum mismatch.
    Protocol(String),
    /// The compressor rejected its input.
    SerializeError(String),
    /// The decompressor rejected its payload.
    DeserializeError(String),
    /// A deserialization failure tagged with the column it happened in.
    DeserializeErrorWithColumn(String, String),
    /// A value of an unexpected type.
    UnexpectedType(String),
    /// An unexpected type tagged with its column.
    UnexpectedTypeWithColumn(String, String),
    /// An operation this codec does not support for the given data type.
    Unimplemented(String),
}

impl Error {
    /// Tags a deserialization or type error with the column it concerns; other
    /// errors pass through unchanged.
    pub fn with_column_name(self, name: &str) -> (r: Error)
        ensures
            (self matches Error::DeserializeError(e) ==> r matches Error::DeserializeErrorWithColumn(
                n,
                e2,
            ) && n@ == name@ && e2 == e),
            (self matches Error::UnexpectedType(t) ==> r matches Error::UnexpectedTypeWithColumn(
                n,
                t2,
            ) && n@ == name@ && t2 == t),
            !(self is DeserializeError || self is UnexpectedType) ==> r == self,
    {
        match self {
            Error::DeserializeError(e) => Error::DeserializeErrorWithColumn(String::from_str(name), e),
            Error::UnexpectedType(t) => Error::UnexpectedTypeWithColumn(String::from_str(name), t),
            x => x,
        }
    }

    /// The human-readable message of the error.
    pub fn to_string(&self) -> (r: String)
        ensures
            self matches Error::Protocol(m) ==> r@ == "protocol error: "@ + m@,
            self matches Error::Io(m) ==> r@ == "io error: "@ + m@,
            self matches Error::SerializeError(m) ==> r@ == "serialize error: "@ + m@,
            self matches Error::DeserializeError(m) ==> r@ == "deserialize error: "@ + m@,
            self matches Error::Unimplemented(m) ==> r@ == "Unimplemented: "@ + m@,
            self matches Error::DeserializeErrorWithColumn(c, m) ==> r@ == "deserialize error for column "@ + c@ + ": "@ + m@,
            self matches Error::UnexpectedType(t) ==> r@ == "unexpected type: "@ + t@,
            self matches Error::UnexpectedTypeWithColumn(c, t) ==> r@ == "unexpected type for column "@ + c@ + ": "@ + t@,
    {
        match self {
            Error::Io(m) => String::from_str("io error: ").concat(m.as_str()),
            Error::Protocol(m) => String::from_str("protocol error: ").concat(m.as_str()),
            Error::SerializeError(m) => String::from_str("serialize error: ").concat(m.as_str()),
            Error::DeserializeError(m) => String::from_str("deserialize error: ").concat(
                m.as_str(),
            ),
            Error::DeserializeErrorWithColumn(c, m) => String::from_str(
                "deserialize error for column ",
            ).concat(c.as_str()).concat(": ").concat(m.as_str()),
            Error::UnexpectedType(t) => String::from_str("unexpected type: ").concat(t.as_str()),
            Error::UnexpectedTypeWithColumn(c, t) => String::from_str(
                "unexpected type for column ",
            ).concat(c.as_str()).concat(": ").concat(t.as_str()),
            Error::Unimplemented(m) => String::from_str("Unimplemented: ").concat(m.as_str()),
        }
    }
}

} // verus!
