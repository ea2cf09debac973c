use vstd::prelude::*;

verus! {

/// Everything that can go wrong inside the log.
#[derive(Debug, Clone, Copy, PartialEq, Eq)]
pub enum Error {
    /// An underlying codec failure, with a static context tag.  The library
    /// itself performs no file input or output; callers that persist the
    /// file image report their own failures separately.
    Io(&'static str),
    /// Reopen mismatch for the auxiliary uncompressed file variant.
    WrongOffset { expected: u64, found: u64 },
    /// Unrecognized on-disk format version.
    WrongStreamVersion(u32),
    /// Payload schema mismatch between caller and file.
    WrongUserVersion { expected: u32, found: u32 },
    /// A size or offset computation would exceed its type.
    NumericOverflow(&'static str),
    /// Alignment fault, missing magic, out-of-range field, length mismatch.
    DataCorruption { message: &'static str, found: u64, expected: u64 },
    /// A stream index outside the stored byte range.
    DataNotPresent { message: &'static str, offset: u64, boundary: u64 },
    /// Attempt to write past the end of the file image.
    WriteBeyondEnd,
}

impl Error {
    pub fn wrong_offset(expected: u64, found: u64) -> (r: Self)
        ensures
            r == (Error::WrongOffset { expected, found }),
    {
        Error::WrongOffset { expected, found }
    }

    pub fn wrong_stream_version(version: u32) -> (r: Self)
        ensures
            r == Error::WrongStreamVersion(version),
    {
        Error::WrongStreamVersion(version)
    }

    pub fn wrong_user_version(expected: u32, found: u32) -> (r: Self)
        ensures
            r == (Error::WrongUserVersion { expected, found }),
    {
        Error::WrongUserVersion { expected, found }
    }

    pub fn numeric_overflow(msg: &'static str) -> (r: Self)
        ensures
            r == Error::NumericOverflow(msg),
    {
        Error::NumericOverflow(msg)
    }

    pub fn data_corruption(message: &'static str, found: u64, expected: u64) -> (r: Self)
        ensures
            r == (Error::DataCorruption { message, found, expected }),
    {
        Error::DataCorruption { message, found, expected }
    }

    pub fn data_not_present(message: &'static str, offset: u64, boundary: u64) -> (r: Self)
        ensures
            r == (Error::DataNotPresent { message, offset, boundary }),
    {
        Error::DataNotPresent { message, offset, boundary }
    }

    pub fn write_beyond_end() -> (r: Self)
        ensures
            r == Error::WriteBeyondEnd,
    {
        Error::WriteBeyondEnd
    }
}

} // verus!
