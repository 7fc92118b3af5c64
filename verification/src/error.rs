//! The error type shared by every operation of the library.

use vstd::prelude::*;

verus! {

/// The coarse classes of failure that callers tell apart.
#[derive(Clone, Copy, Debug, PartialEq, Eq, Structural)]
pub enum ErrorKind {
    /// No administrative directory on any ancestor.
    NotARepository,
    /// An object name that is too short or not lowercase hex.
    BadName,
    /// What was expected to exist does not.
    NotFound,
    /// Unparseable header, unknown tree mode, commit without a tree line.
    Malformed,
    /// A declared size does not match the bytes produced or consumed.
    SizeMismatch,
    /// A packfile footer or a delta base does not match.
    ChecksumMismatch,
    /// A feature that is deliberately not handled.
    Unsupported,
    /// A violation of the pkt-line or side-band framing.
    Protocol,
    /// Anything else.
    Io,
}

/// Every way an operation of this library can fail.
#[derive(Clone, Copy, Debug, PartialEq, Eq, Structural)]
pub enum Error {
    /// No ancestor directory holds an administrative directory.
    NotARepository,
    /// The object name is shorter than four characters or is not
    /// lowercase hex.
    BadName,
    /// The store holds no object of that name.
    NotFound,
    /// A header, a tree entry, a commit or a delta cannot be parsed.
    Malformed,
    /// The object named where a tree was expected is of another type.
    NotATree,
    /// The stream ended before the declared number of bytes.
    UnexpectedEof,
    /// The stream holds more bytes than the object declares.
    SizeMismatch,
    /// Bytes follow the declared payload of an object.
    TrailingBytes,
    /// More payload was written than the writer was created for.
    SizeExceeded,
    /// Less payload was written than the writer was created for.
    SizeShort,
    /// The packfile footer, or the size of a delta base, does not match.
    ChecksumMismatch,
    /// The pack entry is an offset delta.
    OfsDeltaUnsupported,
    /// The tree entry points at a submodule.
    SubmoduleUnsupported,
    /// The file is neither regular, nor a directory, nor a symlink.
    UnsupportedFileType,
    /// The request or the response has a shape that is not handled.
    Unsupported,
    /// The pkt-line or side-band framing is violated.
    Protocol,
    /// The compressed stream is corrupt.
    CorruptStream,
    /// The tree is nested deeper than the given limit.
    TooDeep,
}

impl Error {
    /// The class of this error.
    pub open spec fn spec_kind(self) -> ErrorKind {
        match self {
            Error::NotARepository => ErrorKind::NotARepository,
            Error::BadName => ErrorKind::BadName,
            Error::NotFound => ErrorKind::NotFound,
            Error::Malformed => ErrorKind::Malformed,
            Error::NotATree => ErrorKind::Malformed,
            Error::UnexpectedEof => ErrorKind::SizeMismatch,
            Error::SizeMismatch => ErrorKind::SizeMismatch,
            Error::TrailingBytes => ErrorKind::SizeMismatch,
            Error::SizeExceeded => ErrorKind::SizeMismatch,
            Error::SizeShort => ErrorKind::SizeMismatch,
            Error::ChecksumMismatch => ErrorKind::ChecksumMismatch,
            Error::OfsDeltaUnsupported => ErrorKind::Unsupported,
            Error::SubmoduleUnsupported => ErrorKind::Unsupported,
            Error::UnsupportedFileType => ErrorKind::Unsupported,
            Error::Unsupported => ErrorKind::Unsupported,
            Error::Protocol => ErrorKind::Protocol,
            Error::CorruptStream => ErrorKind::Io,
            Error::TooDeep => ErrorKind::Io,
        }
    }

    /// The class of this error.
    #[verifier::when_used_as_spec(spec_kind)]
    pub fn kind(self) -> (k: ErrorKind)
        ensures
            k == self.spec_kind(),
    {
        match self {
            Error::NotARepository => ErrorKind::NotARepository,
            Error::BadName => ErrorKind::BadName,
            Error::NotFound => ErrorKind::NotFound,
            Error::Malformed => ErrorKind::Malformed,
            Error::NotATree => ErrorKind::Malformed,
            Error::UnexpectedEof => ErrorKind::SizeMismatch,
            Error::SizeMismatch => ErrorKind::SizeMismatch,
            Error::TrailingBytes => ErrorKind::SizeMismatch,
            Error::SizeExceeded => ErrorKind::SizeMismatch,
            Error::SizeShort => ErrorKind::SizeMismatch,
            Error::ChecksumMismatch => ErrorKind::ChecksumMismatch,
            Error::OfsDeltaUnsupported => ErrorKind::Unsupported,
            Error::SubmoduleUnsupported => ErrorKind::Unsupported,
            Error::UnsupportedFileType => ErrorKind::Unsupported,
            Error::Unsupported => ErrorKind::Unsupported,
            Error::Protocol => ErrorKind::Protocol,
            Error::CorruptStream => ErrorKind::Io,
            Error::TooDeep => ErrorKind::Io,
        }
    }
}

} // verus!
