//! Errors of the store: what a failed decode reports, and what the public
//! operations of the store report.

use vstd::prelude::*;

verus! {

/// `std::io::Error`, carried through [`KvError::Io`] by the code that reads
/// and writes files.
#[verifier::external_type_specification]
#[verifier::external_body]
pub struct ExIoError(std::io::Error);

/// Why a byte sequence is not a valid encoded entry.
#[derive(Debug, Clone, Copy, PartialEq, Eq, Structural)]
pub enum DecodeError {
    /// Fewer bytes than the fixed 13-byte header.
    SliceTooShortForHeader,
    /// The length field reaches past the available data.
    EntryTruncated,
    /// The length field is too small to hold the checksum and the tag.
    PayloadTruncated,
    /// The checksum of the payload does not match the stored one.
    ChecksumMismatch { computed: u32, stored: u32 },
    /// The tag byte names no value type.
    UnknownTypeTag(u8),
    /// An integer payload shorter than 8 bytes.
    MissingIntegerPayload,
    /// An empty bool payload.
    MissingBoolPayload,
    /// A text payload without its 8-byte length field.
    MissingTextLength,
    /// A text payload shorter than its length field says.
    MissingTextPayload,
    /// Text bytes that are not UTF-8.
    InvalidUtf8,
    /// A blob payload without its 8-byte length field.
    MissingBlobLength,
    /// A blob payload shorter than its length field says.
    MissingBlobPayload,
    /// A note blob that does not decode as a note.
    NoteDecodeFailed,
}

/// The error of the store's public operations.
#[derive(Debug)]
pub enum KvError {
    /// Stored or loaded data does not decode.
    Corrupted(DecodeError),
    /// Reading or writing a file failed.
    Io(std::io::Error),
    /// A key entry that is neither text nor integer, or a value of the wrong kind.
    InvalidKeyType,
    /// The data ends in the middle of a key/value pair.
    UnexpectedEof,
}

pub type KvResult<T> = Result<T, KvError>;

/// The model of the errors that the store's logic reports (all but `Io`).
pub enum KvFailure {
    Corrupted(DecodeError),
    InvalidKeyType,
    UnexpectedEof,
}

/// The error reported is the model's failure.
pub open spec fn reports(e: KvError, f: KvFailure) -> bool {
    match (e, f) {
        (KvError::Corrupted(a), KvFailure::Corrupted(b)) => a == b,
        (KvError::InvalidKeyType, KvFailure::InvalidKeyType) => true,
        (KvError::UnexpectedEof, KvFailure::UnexpectedEof) => true,
        _ => false,
    }
}

} // verus!
