use vstd::prelude::*;
use crate::bytes::{le_i16, le_i32, read_i16_le, read_i32_le};
use crate::error::NwaError;

verus! {

/// Size of the fixed part of a stream header, in bytes.
pub const FIXED_HEADER_LEN: usize = 44;

/// Samples per block of a stored (uncompressed) stream.
pub const STORED_BLOCK_SIZE: i32 = 65536;

/// The largest block count accepted.
pub const MAX_BLOCKS: i32 = 1_000_000;

/// The header of one stream.
pub struct NWAHeader {
    pub channels: i16,
    pub bps: i16,
    pub freq: i32,
    pub complevel: i32,
    pub userunlength: i32,
    pub blocks: i32,
    pub datasize: i32,
    pub compdatasize: i32,
    pub samplecount: i32,
    pub blocksize: i32,
    pub restsize: i32,
    pub offsets: Vec<i32>,
}

/// The fields of a header as plain values.
pub struct HeaderModel {
    pub channels: int,
    pub bps: int,
    pub freq: int,
    pub complevel: int,
    pub userunlength: int,
    pub blocks: int,
    pub datasize: int,
    pub compdatasize: int,
    pub samplecount: int,
    pub blocksize: int,
    pub restsize: int,
    pub offsets: Seq<int>,
}

impl NWAHeader {
    pub open spec fn view(&self) -> HeaderModel {
        HeaderModel {
            channels: self.channels as int,
            bps: self.bps as int,
            freq: self.freq as int,
            complevel: self.complevel as int,
            userunlength: self.userunlength as int,
            blocks: self.blocks as int,
            datasize: self.datasize as int,
            compdatasize: self.compdatasize as int,
            samplecount: self.samplecount as int,
            blocksize: self.blocksize as int,
            restsize: self.restsize as int,
            offsets: self.offsets@.map_values(|o: i32| o as int),
        }
    }
}

/// Bytes per sample of a header whose bit depth is valid.
pub open spec fn bytes_per_sample(h: HeaderModel) -> int {
    h.bps / 8
}

/// The stored (uncompressed) layout: the last block's sample count and the
/// block count follow from the data size.
pub open spec fn stored_restsize(datasize: int, byps: int) -> int {
    (datasize % (STORED_BLOCK_SIZE * byps)) / byps
}

pub open spec fn stored_blocks(datasize: int, byps: int) -> int {
    datasize / (STORED_BLOCK_SIZE * byps) + if stored_restsize(datasize, byps) > 0 {
        1int
    } else {
        0int
    }
}

/// Length in bytes of the header of `h`, offsets table included.
pub open spec fn header_len(h: HeaderModel) -> int {
    if h.complevel == -1 {
        FIXED_HEADER_LEN as int
    } else {
        FIXED_HEADER_LEN + 4 * h.blocks
    }
}

/// What parsing the start of `s` as a stream header gives.
pub open spec fn spec_parse_header(s: Seq<u8>) -> Result<HeaderModel, NwaError> {
    if s.len() < FIXED_HEADER_LEN {
        Err(NwaError::UnexpectedEof)
    } else {
        let bps = le_i16(s, 2);
        let complevel = le_i32(s, 8);
        let datasize = le_i32(s, 20);
        let stored = complevel == -1;
        if stored && bps != 8 && bps != 16 {
            Err(NwaError::BadBitDepth)
        } else if stored && datasize < 0 {
            Err(NwaError::BadBlockCount)
        } else {
            let byps = bps / 8;
            let blocks = if stored {
                stored_blocks(datasize, byps)
            } else {
                le_i32(s, 16)
            };
            if blocks <= 0 || blocks > MAX_BLOCKS {
                Err(NwaError::BadBlockCount)
            } else if !stored && s.len() < FIXED_HEADER_LEN + 4 * blocks {
                Err(NwaError::UnexpectedEof)
            } else {
                Ok(
                    HeaderModel {
                        channels: le_i16(s, 0),
                        bps,
                        freq: le_i32(s, 4),
                        complevel,
                        userunlength: le_i32(s, 12),
                        blocks,
                        datasize,
                        compdatasize: le_i32(s, 24),
                        samplecount: le_i32(s, 28),
                        blocksize: if stored {
                            STORED_BLOCK_SIZE as int
                        } else {
                            le_i32(s, 32)
                        },
                        restsize: if stored {
                            stored_restsize(datasize, byps)
                        } else {
                            le_i32(s, 36)
                        },
                        offsets: if stored {
                            Seq::empty()
                        } else {
                            Seq::new(
                                blocks as nat,
                                |i: int| le_i32(s, FIXED_HEADER_LEN + 4 * i),
                            )
                        },
                    },
                )
            }
        }
    }
}

/// Which invariant of a header fails first, if any.
pub open spec fn spec_check(h: HeaderModel) -> Result<(), NwaError> {
    if h.blocks <= 0 || h.blocks > MAX_BLOCKS {
        Err(NwaError::BadBlockCount)
    } else if h.complevel != -1 && h.offsets.len() != h.blocks {
        Err(NwaError::MissingOffsets)
    } else if h.channels != 1 && h.channels != 2 {
        Err(NwaError::BadChannels)
    } else if h.bps != 8 && h.bps != 16 {
        Err(NwaError::BadBitDepth)
    } else if h.complevel < -1 || h.complevel > 5 {
        Err(NwaError::BadCompressionLevel)
    } else if h.complevel != -1 && h.offsets[h.blocks - 1] >= h.compdatasize {
        Err(NwaError::OffsetOverrun)
    } else if h.datasize != h.samplecount * bytes_per_sample(h) {
        Err(NwaError::BadDataSize)
    } else if h.samplecount != (h.blocks - 1) * h.blocksize + h.restsize {
        Err(NwaError::BadSampleCount)
    } else {
        Ok(())
    }
}

impl NWAHeader {
    /// Parses a stream header at the start of `input`. A stored stream
    /// (compression level -1) has its block size fixed and its block count and
    /// last block size derived from the data size; a compressed one is followed
    /// by one offset per block.
    pub fn new(input: &[u8]) -> (r: Result<NWAHeader, NwaError>)
        ensures
            match r {
                Ok(h) => spec_parse_header(input@) == Ok::<HeaderModel, NwaError>(h@),
                Err(e) => spec_parse_header(input@) == Err::<HeaderModel, NwaError>(e),
            },
    {
        if input.len() < FIXED_HEADER_LEN {
            return Err(NwaError::UnexpectedEof);
        }
        let channels = read_i16_le(input, 0);
        let bps = read_i16_le(input, 2);
        let freq = read_i32_le(input, 4);
        let complevel = read_i32_le(input, 8);
        let userunlength = read_i32_le(input, 12);
        let mut blocks = read_i32_le(input, 16);
        let datasize = read_i32_le(input, 20);
        let compdatasize = read_i32_le(input, 24);
        let samplecount = read_i32_le(input, 28);
        let mut blocksize = read_i32_le(input, 32);
        let mut restsize = read_i32_le(input, 36);
        let stored = complevel == -1;
        if stored {
            if bps != 8 && bps != 16 {
                return Err(NwaError::BadBitDepth);
            }
            if datasize < 0 {
                return Err(NwaError::BadBlockCount);
            }
            let byps: i32 = bps as i32 / 8;
            blocksize = STORED_BLOCK_SIZE;
            let unit: i32 = blocksize * byps;
            restsize = (datasize % unit) / byps;
            let rest: i32 = if restsize > 0 {
                1
            } else {
                0
            };
            blocks = datasize / unit + rest;
        }
        if blocks <= 0 || blocks > MAX_BLOCKS {
            return Err(NwaError::BadBlockCount);
        }
        let mut offsets: Vec<i32> = Vec::new();
        if !stored {
            let count = blocks as usize;
            if input.len() - FIXED_HEADER_LEN < 4 * count {
                return Err(NwaError::UnexpectedEof);
            }
            let mut i: usize = 0;
            while i < count
                invariant
                    i <= count,
                    count == blocks,
                    count <= MAX_BLOCKS,
                    FIXED_HEADER_LEN + 4 * count <= input@.len(),
                    offsets@.len() == i,
                    forall|j: int|
                        0 <= j < i ==> offsets@[j] as int == le_i32(
                            input@,
                            FIXED_HEADER_LEN + 4 * j,
                        ),
                decreases count - i,
            {
                offsets.push(read_i32_le(input, FIXED_HEADER_LEN + 4 * i));
                i = i + 1;
            }
        }
        let h = NWAHeader {
            channels,
            bps,
            freq,
            complevel,
            userunlength,
            blocks,
            datasize,
            compdatasize,
            samplecount,
            blocksize,
            restsize,
            offsets,
        };
        assert(h@.offsets =~= spec_parse_header(input@).unwrap().offsets);
        Ok(h)
    }

    /// Checks the header's invariants, in a fixed order, and names the first
    /// one that fails.
    pub fn check(&self) -> (r: Result<(), NwaError>)
        ensures
            r == spec_check(self@),
    {
        if self.blocks <= 0 || self.blocks > MAX_BLOCKS {
            return Err(NwaError::BadBlockCount);
        }
        if self.complevel != -1 && self.offsets.len() != self.blocks as usize {
            return Err(NwaError::MissingOffsets);
        }
        if self.channels != 1 && self.channels != 2 {
            return Err(NwaError::BadChannels);
        }
        if self.bps != 8 && self.bps != 16 {
            return Err(NwaError::BadBitDepth);
        }
        if self.complevel < -1 || self.complevel > 5 {
            return Err(NwaError::BadCompressionLevel);
        }
        if self.complevel != -1 && self.offsets[self.blocks as usize - 1] >= self.compdatasize {
            return Err(NwaError::OffsetOverrun);
        }
        let byps: i64 = if self.bps == 8 {
            1
        } else {
            2
        };
        if self.datasize as i64 != self.samplecount as i64 * byps {
            return Err(NwaError::BadDataSize);
        }
        let full: i64 = self.blocks as i64 - 1;
        let bs: i64 = self.blocksize as i64;
        proof {
            assert(-0x10_0000_0000_0000 < full * bs < 0x10_0000_0000_0000) by (nonlinear_arith)
                requires
                    0 <= full < 1_000_000,
                    -0x8000_0000 <= bs < 0x8000_0000,
            ;
        }
        if self.samplecount as i64 != full * bs + self.restsize as i64 {
            return Err(NwaError::BadSampleCount);
        }
        Ok(())
    }

    /// Where the payload starts, after the header and its offsets.
    pub fn data_offset(&self) -> (r: usize)
        requires
            0 < self.blocks <= MAX_BLOCKS,
        ensures
            r == header_len(self@),
    {
        if self.complevel == -1 {
            FIXED_HEADER_LEN
        } else {
            FIXED_HEADER_LEN + 4 * (self.blocks as usize)
        }
    }
}

} // verus!
