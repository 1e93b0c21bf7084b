use vstd::prelude::*;

verus! {

/// Every way in which decoding a stream or reading an archive index can fail.
#[derive(Debug, Clone, Copy, PartialEq, Eq, Structural)]
pub enum NwaError {
    /// The input ended while more bytes or bits were needed.
    UnexpectedEof,
    /// The block count is not in `1..=1_000_000`.
    BadBlockCount,
    /// A compressed stream carries no block offsets.
    MissingOffsets,
    /// The channel count is neither 1 nor 2.
    BadChannels,
    /// The bit depth is neither 8 nor 16.
    BadBitDepth,
    /// The data size differs from sample count times bytes per sample.
    BadDataSize,
    /// The sample count differs from what the block layout gives.
    BadSampleCount,
    /// The compression level is outside `-1..=5`.
    BadCompressionLevel,
    /// The last block offset is not below the compressed payload size.
    OffsetOverrun,
    /// Two consecutive block offsets decrease, or a block size is negative.
    BadBlockLayout,
    /// The archive index count is not positive.
    BadIndexCount,
    /// An archive index entry has a non-positive offset or size.
    BadIndexEntry,
    /// A file name names none of the known kinds of file.
    UnknownFileType,
}

} // verus!
