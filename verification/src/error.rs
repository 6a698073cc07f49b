use vstd::prelude::*;

verus! {

/// The ways in which reading a block-compressed alignment stream can fail.
#[derive(Clone, Copy, Debug, PartialEq, Eq, Structural)]
pub enum BamErrorKind {
    NoBAMFile,
    BlockCorrupted,
    ExceedExpectedSize,
    IncorrectMagicNumber,
    IncorrectGzipMagicNumber,
    BufferTerminated,
    InconsistentChecksum,
    InconsistentBlockSize,
}

/// The numeric code of each kind of failure.
pub open spec fn kind_code(kind: BamErrorKind) -> int {
    match kind {
        BamErrorKind::NoBAMFile => 0,
        BamErrorKind::BlockCorrupted => 1,
        BamErrorKind::ExceedExpectedSize => 2,
        BamErrorKind::IncorrectMagicNumber => 3,
        BamErrorKind::BufferTerminated => 4,
        BamErrorKind::IncorrectGzipMagicNumber => 5,
        BamErrorKind::InconsistentChecksum => 6,
        BamErrorKind::InconsistentBlockSize => 7,
    }
}

/// The text that describes each kind of failure.
pub open spec fn kind_text(kind: BamErrorKind) -> Seq<char> {
    match kind {
        BamErrorKind::NoBAMFile => "BAM file does not exist."@,
        BamErrorKind::BlockCorrupted => "Block corrupted"@,
        BamErrorKind::ExceedExpectedSize => "Exceed expected block size"@,
        BamErrorKind::IncorrectMagicNumber => "Incorrect magic number was given"@,
        BamErrorKind::IncorrectGzipMagicNumber => "Gzip magic number incorrect"@,
        BamErrorKind::BufferTerminated => "Buffer terminated"@,
        BamErrorKind::InconsistentChecksum => "Inconsist CRC32 checksum"@,
        BamErrorKind::InconsistentBlockSize => "Actual size is different size"@,
    }
}

impl BamErrorKind {
    /// The numeric code of this kind.
    pub fn code(&self) -> (code: u8)
        ensures
            code as int == kind_code(*self),
    {
        match self {
            BamErrorKind::NoBAMFile => 0,
            BamErrorKind::BlockCorrupted => 1,
            BamErrorKind::ExceedExpectedSize => 2,
            BamErrorKind::IncorrectMagicNumber => 3,
            BamErrorKind::BufferTerminated => 4,
            BamErrorKind::IncorrectGzipMagicNumber => 5,
            BamErrorKind::InconsistentChecksum => 6,
            BamErrorKind::InconsistentBlockSize => 7,
        }
    }

    /// The text that describes this kind.
    pub fn description(&self) -> (text: &'static str)
        ensures
            text@ == kind_text(*self),
    {
        match self {
            BamErrorKind::NoBAMFile => "BAM file does not exist.",
            BamErrorKind::BlockCorrupted => "Block corrupted",
            BamErrorKind::ExceedExpectedSize => "Exceed expected block size",
            BamErrorKind::IncorrectMagicNumber => "Incorrect magic number was given",
            BamErrorKind::IncorrectGzipMagicNumber => "Gzip magic number incorrect",
            BamErrorKind::BufferTerminated => "Buffer terminated",
            BamErrorKind::InconsistentChecksum => "Inconsist CRC32 checksum",
            BamErrorKind::InconsistentBlockSize => "Actual size is different size",
        }
    }
}

/// A failure together with the place in the byte source where it was noticed.
#[derive(Clone, Copy, Debug, PartialEq, Eq, Structural)]
pub struct BamHandleError {
    /// What went wrong.
    pub kind: BamErrorKind,
    /// The position of the read cursor when the failure was raised, where
    /// there is one.
    pub offset: Option<usize>,
}

impl BamHandleError {
    /// A failure of the given kind, noticed with the cursor at `offset`.
    pub fn at(kind: BamErrorKind, offset: usize) -> (e: BamHandleError)
        ensures
            e == (BamHandleError { kind, offset: Some(offset) }),
    {
        BamHandleError { kind, offset: Some(offset) }
    }

    /// A failure of the given kind that belongs to no place in the source.
    pub fn new(kind: BamErrorKind) -> (e: BamHandleError)
        ensures
            e == (BamHandleError { kind, offset: None }),
    {
        BamHandleError { kind, offset: None }
    }

    /// The text that describes this failure: that of its kind.
    pub fn message(&self) -> (text: String)
        ensures
            text@ == kind_text(self.kind),
    {
        self.kind.description().to_owned()
    }
}

} // verus!
