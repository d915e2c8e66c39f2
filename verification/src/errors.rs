//! Error taxonomy of the archive codec.

use vstd::prelude::*;

verus! {

/// Everything that can go wrong while reading, probing or writing an archive.
#[derive(Clone, Copy, Debug, PartialEq, Eq, Structural)]
pub enum CodecError {
    /// The underlying byte source ended before the requested data.
    IoShort,
    /// A seek target lies outside the underlying byte source.
    IoSeek,
    /// The stored header checksum does not match `version + file_cnt`.
    HeaderChecksum,
    /// The header fields fail the sanity gates (`version >= 10` or
    /// `file_cnt >= 50_000`).
    HeaderInsane,
    /// An entry's stored name length is zero or above 4096 code units.
    EntryNameLength,
    /// An entry's stored checksum does not match the sum of its fields.
    EntryChecksum,
    /// zlib inflation failed, or the inflated size does not match
    /// `original_size`.
    InflateFailed,
    /// Every candidate salt/offset combination was tried and none parsed.
    ParametersExhausted,
    /// An entry name is not well-formed UTF-16.
    Utf16Decode,
    /// A filter string is not a valid regular expression.
    InvalidRegex,
    /// A path has no final file-name component.
    InvalidPath,
    /// No candidate salts were supplied at all.
    NoSalts,
    /// The header version is not the supported value 2.
    VersionUnsupported,
}

impl CodecError {
    /// A short human-readable description, for front-ends to print.
    pub fn message(&self) -> &'static str {
        match self {
            CodecError::IoShort => "short read from the underlying stream",
            CodecError::IoSeek => "seek outside the underlying stream",
            CodecError::HeaderChecksum => "header checksum wrong",
            CodecError::HeaderInsane => "header fields out of sane range",
            CodecError::EntryNameLength => "suspicious entry name length",
            CodecError::EntryChecksum => "entry checksum wrong",
            CodecError::InflateFailed => "zlib decompression failed or size mismatch",
            CodecError::ParametersExhausted => "no working salt/offset parameters found",
            CodecError::Utf16Decode => "entry name is not valid UTF-16",
            CodecError::InvalidRegex => "invalid filter regular expression",
            CodecError::InvalidPath => "not a valid file path",
            CodecError::NoSalts => "no salt keys provided or loaded",
            CodecError::VersionUnsupported => "header version not supported",
        }
    }
}

} // verus!
