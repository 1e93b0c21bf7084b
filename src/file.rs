use vstd::prelude::*;
use crate::decoder::{block_output, lemma_block_output_wf, lemma_block_channel, decodable, decode_block, initial_state, DecoderState};
use crate::error::NwaError;
use crate::header::{header_len, spec_check, spec_parse_header, HeaderModel, NWAHeader};
use crate::wave::{wave_header, write_wave_header};
use crate::bytes::{le16_bytes, le32_bytes, le_i32, lemma_le32_round_trip};

verus! {

/// Compressed bytes of block `i`: the distance to the next offset, or for the
/// last block twice the size of a full decoded block.
pub open spec fn comp_size(h: HeaderModel, i: int) -> int {
    if i < h.blocks - 1 {
        h.offsets[i + 1] - h.offsets[i]
    } else {
        2 * h.blocksize * (h.bps / 8)
    }
}

/// Sample slots of block `i`.
pub open spec fn block_samples(h: HeaderModel, i: int) -> int {
    if i < h.blocks - 1 {
        h.blocksize
    } else {
        h.restsize
    }
}

/// Decoding the first `n` blocks of a compressed payload: the bytes emitted,
/// the state after them and the payload position reached. A block takes its
/// compressed bytes from where the previous one ended, up to the end of the
/// payload.
pub open spec fn decode_blocks(h: HeaderModel, payload: Seq<u8>, n: nat) -> Result<
    (Seq<u8>, DecoderState, int),
    NwaError,
>
    decreases n,
{
    if n == 0 {
        Ok((Seq::empty(), initial_state(), 0))
    } else {
        match decode_blocks(h, payload, (n - 1) as nat) {
            Err(e) => Err(e),
            Ok((out, st, pos)) => {
                let i = n - 1;
                let size = comp_size(h, i);
                let count = block_samples(h, i);
                if size < 0 || count < 0 {
                    Err(NwaError::BadBlockLayout)
                } else {
                    let end = if pos + size < payload.len() {
                        pos + size
                    } else {
                        payload.len() as int
                    };
                    match block_output(h, st, payload.subrange(pos, end), count as nat) {
                        None => Err(NwaError::UnexpectedEof),
                        Some((o, st2)) => Ok((out + o, st2, end)),
                    }
                }
            },
        }
    }
}

/// What decoding a whole stream gives: a WAVE file, or the first error met.
/// A stored stream's payload is copied as it stands; it must hold at least
/// the declared data size.
pub open spec fn spec_decode_file(input: Seq<u8>) -> Result<Seq<u8>, NwaError> {
    match spec_parse_header(input) {
        Err(e) => Err(e),
        Ok(h) => match spec_check(h) {
            Err(e) => Err(e),
            Ok(_) => {
                let payload = input.subrange(header_len(h), input.len() as int);
                if h.complevel == -1 {
                    if payload.len() < h.datasize {
                        Err(NwaError::UnexpectedEof)
                    } else {
                        Ok(wave_header(h) + payload)
                    }
                } else {
                    match decode_blocks(h, payload, h.blocks as nat) {
                        Err(e) => Err(e),
                        Ok((o, _, _)) => Ok(wave_header(h) + o),
                    }
                }
            },
        },
    }
}

/// A stored stream decodes to a WAVE file whose declared sizes agree with its
/// header: the RIFF chunk size is the data size plus 36, the byte rate is
/// bytes per sample times sample rate times channels, the block alignment is
/// bytes per sample times channels, the data chunk declares the data size,
/// and the payload follows unchanged; this for mono and stereo, 8 and 16 bits.
pub proof fn lemma_stored_framing(input: Seq<u8>)
    requires
        spec_parse_header(input) matches Ok(h) && h.complevel == -1,
        spec_decode_file(input) is Ok,
    ensures
        ({
            let h = spec_parse_header(input).unwrap();
            let out = spec_decode_file(input).unwrap();
            let byps = h.bps / 8;
            &&& h.channels == 1 || h.channels == 2
            &&& byps == 1 || byps == 2
            &&& h.datasize == h.samplecount * byps
            &&& out.len() == 44 + input.len() - 44
            &&& out.len() >= 44 + h.datasize
            &&& out.subrange(4, 8) == le32_bytes(h.datasize + 36)
            &&& out.subrange(22, 24) == le16_bytes(h.channels)
            &&& out.subrange(24, 28) == le32_bytes(h.freq)
            &&& out.subrange(28, 32) == le32_bytes(byps * h.freq * h.channels)
            &&& out.subrange(32, 34) == le16_bytes(byps * h.channels)
            &&& out.subrange(34, 36) == le16_bytes(h.bps)
            &&& out.subrange(40, 44) == le32_bytes(h.datasize)
            &&& out.subrange(44, out.len() as int) == input.subrange(44, input.len() as int)
            &&& le_i32(out, 40) == h.datasize
            &&& le_i32(out, 24) == h.freq
            &&& h.datasize + 36 < 0x8000_0000 ==> le_i32(out, 4) == h.datasize + 36
            &&& -0x8000_0000 <= byps * h.freq * h.channels < 0x8000_0000 ==> le_i32(out, 28)
                == byps * h.freq * h.channels
        }),
{
    let h = spec_parse_header(input).unwrap();
    let out = spec_decode_file(input).unwrap();
    let w = wave_header(h);
    let byps = h.bps / 8;
    assert((h.bps + 7) / 8 == byps);
    assert(w.len() == 44);
    assert(out == w + input.subrange(44, input.len() as int));
    assert(out.subrange(4, 8) =~= le32_bytes(h.datasize + 36));
    assert(out.subrange(22, 24) =~= le16_bytes(h.channels));
    assert(out.subrange(24, 28) =~= le32_bytes(h.freq));
    assert(out.subrange(28, 32) =~= le32_bytes(byps * h.freq * h.channels));
    assert(out.subrange(32, 34) =~= le16_bytes(byps * h.channels));
    assert(out.subrange(34, 36) =~= le16_bytes(h.bps));
    assert(out.subrange(40, 44) =~= le32_bytes(h.datasize));
    assert(out.subrange(44, out.len() as int) =~= input.subrange(44, input.len() as int));
    lemma_le32_round_trip(h.datasize);
    lemma_le32_round_trip(h.freq);
    assert(le_i32(out, 40) == le_i32(out.subrange(40, 44), 0));
    assert(le_i32(out, 24) == le_i32(out.subrange(24, 28), 0));
    if h.datasize + 36 < 0x8000_0000 {
        lemma_le32_round_trip(h.datasize + 36);
        assert(le_i32(out, 4) == le_i32(out.subrange(4, 8), 0));
    }
    if -0x8000_0000 <= byps * h.freq * h.channels < 0x8000_0000 {
        lemma_le32_round_trip(byps * h.freq * h.channels);
        assert(le_i32(out, 28) == le_i32(out.subrange(28, 32), 0));
    }
}

/// Sample slots in the first `n` blocks.
pub open spec fn slots_before(h: HeaderModel, n: nat) -> int
    decreases n,
{
    if n == 0 {
        0
    } else {
        slots_before(h, (n - 1) as nat) + block_samples(h, n - 1)
    }
}

/// In a stereo stream the channels alternate over the whole stream, across
/// block boundaries: after `n` blocks the channel whose turn it is, is the
/// parity of the number of slots decoded so far.
pub proof fn lemma_stereo_across_blocks(h: HeaderModel, payload: Seq<u8>, n: nat)
    requires
        h.channels == 2,
    ensures
        decode_blocks(h, payload, n) matches Ok((_, st, _)) ==> st.channel == slots_before(h, n)
            % 2,
    decreases n,
{
    if n > 0 {
        lemma_stereo_across_blocks(h, payload, (n - 1) as nat);
        lemma_decode_blocks_pos(h, payload, (n - 1) as nat);
        if let Ok((_, st, pos)) = decode_blocks(h, payload, (n - 1) as nat) {
            let i = n - 1;
            let size = comp_size(h, i);
            let count = block_samples(h, i);
            if size >= 0 && count >= 0 {
                let end = if pos + size < payload.len() {
                    pos + size
                } else {
                    payload.len() as int
                };
                lemma_block_channel(h, st, payload.subrange(pos, end), count as nat);
                vstd::arithmetic::div_mod::lemma_add_mod_noop(
                    slots_before(h, (n - 1) as nat),
                    count,
                    2,
                );
            }
        }
    }
}

proof fn lemma_decode_blocks_pos(h: HeaderModel, payload: Seq<u8>, n: nat)
    ensures
        decode_blocks(h, payload, n) matches Ok((_, st, pos)) ==> 0 <= pos <= payload.len()
            && st.wf(),
    decreases n,
{
    if n > 0 {
        lemma_decode_blocks_pos(h, payload, (n - 1) as nat);
        if let Ok((_, st, pos)) = decode_blocks(h, payload, (n - 1) as nat) {
            let i = n - 1;
            let size = comp_size(h, i);
            let count = block_samples(h, i);
            if size >= 0 && count >= 0 {
                let end = if pos + size < payload.len() {
                    pos + size
                } else {
                    payload.len() as int
                };
                lemma_block_output_wf(h, st, payload.subrange(pos, end), count as nat);
            }
        }
    }
}

proof fn lemma_decode_blocks_err_after(h: HeaderModel, payload: Seq<u8>, a: nat, b: nat)
    requires
        a <= b,
        decode_blocks(h, payload, a) is Err,
    ensures
        decode_blocks(h, payload, b) == decode_blocks(h, payload, a),
    decreases b - a,
{
    if a < b {
        lemma_decode_blocks_err_after(h, payload, a, (b - 1) as nat);
    }
}

fn copy_range(s: &[u8], a: usize, b: usize) -> (r: Vec<u8>)
    requires
        a <= b <= s@.len(),
    ensures
        r@ == s@.subrange(a as int, b as int),
{
    let mut v: Vec<u8> = Vec::new();
    let mut i: usize = a;
    while i < b
        invariant
            a <= i <= b,
            b <= s@.len(),
            v@ == s@.subrange(a as int, i as int),
        decreases b - i,
    {
        v.push(s[i]);
        i = i + 1;
        assert(v@ =~= s@.subrange(a as int, i as int));
    }
    v
}

/// Decodes every block of a compressed payload.
pub fn decode_payload(h: &NWAHeader, payload: &[u8]) -> (r: Result<Vec<u8>, NwaError>)
    requires
        decodable(h@),
        spec_check(h@) is Ok,
    ensures
        match decode_blocks(h@, payload@, h@.blocks as nat) {
            Ok((o, _, _)) => r matches Ok(v) && v@ == o,
            Err(e) => r == Err::<Vec<u8>, NwaError>(e),
        },
{
    let mut out: Vec<u8> = Vec::new();
    let mut st = DecoderState::new();
    let mut pos: usize = 0;
    let mut i: i32 = 0;
    let len = payload.len();
    while i < h.blocks
        invariant
            0 <= i <= h@.blocks,
            decodable(h@),
            spec_check(h@) is Ok,
            len == payload@.len(),
            pos <= len,
            st.wf(),
            decode_blocks(h@, payload@, i as nat) == Ok::<
                (Seq<u8>, DecoderState, int),
                NwaError,
            >((out@, st, pos as int)),
        decreases h@.blocks - i,
    {
        proof {
            lemma_decode_blocks_pos(h@, payload@, (i + 1) as nat);
        }
        let byps: i64 = if h.bps == 8 {
            1
        } else {
            2
        };
        let last = i == h.blocks - 1;
        let size: i64 = if !last {
            h.offsets[i as usize + 1] as i64 - h.offsets[i as usize] as i64
        } else {
            2 * h.blocksize as i64 * byps
        };
        let count: i32 = if !last {
            h.blocksize
        } else {
            h.restsize
        };
        if size < 0 || count < 0 {
            proof {
                assert(decode_blocks(h@, payload@, (i + 1) as nat) == Err::<
                    (Seq<u8>, DecoderState, int),
                    NwaError,
                >(NwaError::BadBlockLayout));
                lemma_decode_blocks_err_after(h@, payload@, (i + 1) as nat, h@.blocks as nat);
            }
            return Err(NwaError::BadBlockLayout);
        }
        let end: usize = if (size as u64) < ((len - pos) as u64) {
            pos + size as usize
        } else {
            len
        };
        let buf = copy_range(payload, pos, end);
        let ghost before = out@;
        match decode_block(h, &mut st, buf, count as usize, &mut out) {
            Ok(()) => {},
            Err(e) => {
                proof {
                    assert(decode_blocks(h@, payload@, (i + 1) as nat) == Err::<
                        (Seq<u8>, DecoderState, int),
                        NwaError,
                    >(e));
                    lemma_decode_blocks_err_after(h@, payload@, (i + 1) as nat, h@.blocks as nat);
                }
                return Err(e);
            },
        }
        pos = end;
        i = i + 1;
    }
    Ok(out)
}

/// A decoded stream: its header and the WAVE file that it decodes to.
pub struct NWAFile {
    pub header: NWAHeader,
    data: Vec<u8>,
}

impl NWAFile {
    /// The WAVE file's bytes.
    pub closed spec fn bytes(&self) -> Seq<u8> {
        self.data@
    }

    /// The stream's header as plain values.
    pub closed spec fn header_model(&self) -> HeaderModel {
        self.header@
    }

    /// Parses, checks and decodes a whole stream.
    pub fn new(input: &[u8]) -> (r: Result<NWAFile, NwaError>)
        ensures
            match r {
                Ok(f) => spec_parse_header(input@) == Ok::<HeaderModel, NwaError>(f.header_model())
                    && spec_decode_file(input@) == Ok::<Seq<u8>, NwaError>(f.bytes()),
                Err(e) => spec_decode_file(input@) == Err::<Seq<u8>, NwaError>(e),
            },
    {
        let header = NWAHeader::new(input)?;
        header.check()?;
        let mut data = write_wave_header(&header);
        let start = header.data_offset();
        let len = input.len();
        if header.complevel == -1 {
            if ((len - start) as u64) < (header.datasize as u64) {
                return Err(NwaError::UnexpectedEof);
            }
            let mut rest = copy_range(input, start, len);
            data.append(&mut rest);
        } else {
            let payload = vstd::slice::slice_subrange(input, start, len);
            let mut body = decode_payload(&header, payload)?;
            data.append(&mut body);
        }
        Ok(NWAFile { header, data })
    }

    /// The WAVE file's bytes.
    pub fn data(&self) -> (r: &[u8])
        ensures
            r@ == self.bytes(),
    {
        self.data.as_slice()
    }
}

} // verus!
