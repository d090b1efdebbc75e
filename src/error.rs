//! The ways an operation on the object store can fail.

use vstd::prelude::*;
use vstd::string::StringExecFns;
use vstd::utf8::{decode_utf8, valid_utf8};

use crate::text::decimal_chars;

verus! {

/// Why an object could not be read, parsed, resolved or stored.
#[derive(Debug, Clone, PartialEq, Eq)]
pub enum ObjectError {
    /// A hash or hash prefix has a length outside the accepted range.
    InvalidHash,
    /// No object matches the given hash or prefix.
    NotFound,
    /// More than one object matches the given prefix.
    AmbiguousHash,
    /// The type token of an object header is not `blob`, `tree` or `commit`;
    /// it holds the offending token.
    InvalidKind(Vec<u8>),
    /// A header, size or record boundary of an object is malformed; where the
    /// payload does not have the size the header gives, it holds that size.
    CorruptObject(Option<usize>),
    /// Bytes that must be text are not valid UTF-8.
    NotUtf8,
    /// A commit has no blank line between its metadata and its message.
    MissingMessage,
    /// A commit does not start with a `tree` line.
    MissingTree,
    /// A commit has no `author` line where one is required.
    MissingAuthor,
    /// The author line of a commit is malformed.
    InvalidAuthor,
    /// The committer line or the signature block of a commit is malformed.
    InvalidCommit,
    /// An object file is named by a hash other than the object's own.
    HashMismatch,
    /// A file stands where a bucket directory of the store belongs.
    NotADirectory,
    /// The file system refused an operation.
    IoError,
}

/// The text that describes an error: a fixed sentence per kind of error,
/// followed by the offending type token where it is valid UTF-8, or by the
/// size that a header gives where the payload does not have it.
pub open spec fn message_text(e: ObjectError) -> Seq<char> {
    match e {
        ObjectError::InvalidHash => "Invalid hash length"@,
        ObjectError::NotFound => "No object found"@,
        ObjectError::AmbiguousHash => "Ambiguous hash"@,
        ObjectError::InvalidKind(token) => if valid_utf8(token@) {
            "Invalid object type"@ + ": "@ + decode_utf8(token@)
        } else {
            "Invalid object type"@
        },
        ObjectError::CorruptObject(size) => match size {
            Some(n) => "Corrupt object"@ + " (invalid size: "@ + decimal_chars(n as nat) + ")"@,
            None => "Corrupt object"@,
        },
        ObjectError::NotUtf8 => "Not valid UTF-8"@,
        ObjectError::MissingMessage => "Missing commit message"@,
        ObjectError::MissingTree => "Expected tree hash"@,
        ObjectError::MissingAuthor => "Expected author"@,
        ObjectError::InvalidAuthor => "Invalid author format"@,
        ObjectError::InvalidCommit => "Invalid commit"@,
        ObjectError::HashMismatch => "Object hash does not match its file"@,
        ObjectError::NotADirectory => "File already exists instead of directory"@,
        ObjectError::IoError => "I/O error"@,
    }
}

impl ObjectError {
    /// A one-line description of the error, naming what it holds.
    pub fn message(&self) -> (r: String)
        ensures
            r@ == message_text(*self),
    {
        match self {
            ObjectError::InvalidHash => String::from_str("Invalid hash length"),
            ObjectError::NotFound => String::from_str("No object found"),
            ObjectError::AmbiguousHash => String::from_str("Ambiguous hash"),
            ObjectError::InvalidKind(token) => {
                let mut m = String::from_str("Invalid object type");
                match crate::text::utf8_string(token.as_slice()) {
                    Some(t) => {
                        m.append(": ");
                        m.append(t.as_str());
                        proof {
                            vstd::utf8::encode_utf8_decode_utf8(t@);
                        }
                    },
                    None => {},
                }
                m
            },
            ObjectError::CorruptObject(size) => {
                let mut m = String::from_str("Corrupt object");
                match size {
                    Some(n) => {
                        m.append(" (invalid size: ");
                        crate::text::push_decimal_text(&mut m, *n as u64);
                        m.append(")");
                    },
                    None => {},
                }
                m
            },
            ObjectError::NotUtf8 => String::from_str("Not valid UTF-8"),
            ObjectError::MissingMessage => String::from_str("Missing commit message"),
            ObjectError::MissingTree => String::from_str("Expected tree hash"),
            ObjectError::MissingAuthor => String::from_str("Expected author"),
            ObjectError::InvalidAuthor => String::from_str("Invalid author format"),
            ObjectError::InvalidCommit => String::from_str("Invalid commit"),
            ObjectError::HashMismatch => String::from_str("Object hash does not match its file"),
            ObjectError::NotADirectory => String::from_str(
                "File already exists instead of directory",
            ),
            ObjectError::IoError => String::from_str("I/O error"),
        }
    }
}

} // verus!
