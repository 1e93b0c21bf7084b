use vstd::prelude::*;
use crate::bytes::{le16_bytes, le32_bytes, push_le16, push_le32};
use crate::header::{HeaderModel, NWAHeader};

verus! {

/// The 44-byte header of an uncompressed PCM WAVE file for the stream `h`:
/// the RIFF chunk size is the data size plus 36, the byte rate is bytes per
/// sample times sample rate times channels, the block alignment is bytes per
/// sample times channels. Every field is little-endian, modulo its width.
pub open spec fn wave_header(h: HeaderModel) -> Seq<u8> {
    let byps = (h.bps + 7) / 8;
    seq![0x52u8, 0x49, 0x46, 0x46] + le32_bytes(h.datasize + 0x24) + seq![
        0x57u8,
        0x41,
        0x56,
        0x45,
        0x66,
        0x6d,
        0x74,
        0x20,
        16,
        0,
        0,
        0,
        1,
        0,
    ] + le16_bytes(h.channels) + le32_bytes(h.freq) + le32_bytes(byps * h.freq * h.channels)
        + le16_bytes(byps * h.channels) + le16_bytes(h.bps) + seq![0x64u8, 0x61, 0x74, 0x61]
        + le32_bytes(h.datasize)
}

fn push_all(out: &mut Vec<u8>, b: [u8; 4])
    ensures
        final(out)@ == old(out)@ + b@,
{
    out.push(b[0]);
    out.push(b[1]);
    out.push(b[2]);
    out.push(b[3]);
    assert(final(out)@ =~= old(out)@ + b@);
}

/// Writes the WAVE header of the stream `h` to a new buffer.
pub fn write_wave_header(h: &NWAHeader) -> (r: Vec<u8>)
    requires
        h@.bps == 8 || h@.bps == 16,
        h@.channels == 1 || h@.channels == 2,
    ensures
        r@ == wave_header(h@),
{
    let byps: i64 = (h.bps as i64 + 7) / 8;
    let mut out: Vec<u8> = Vec::new();
    push_all(&mut out, [0x52u8, 0x49, 0x46, 0x46]);
    push_le32(&mut out, h.datasize as i64 + 0x24);
    push_all(&mut out, [0x57u8, 0x41, 0x56, 0x45]);
    push_all(&mut out, [0x66u8, 0x6d, 0x74, 0x20]);
    push_all(&mut out, [16u8, 0, 0, 0]);
    push_le16(&mut out, 1);
    push_le16(&mut out, h.channels as i32);
    push_le32(&mut out, h.freq as i64);
    push_le32(&mut out, byps * h.freq as i64 * h.channels as i64);
    push_le16(&mut out, (byps * h.channels as i64) as i32);
    push_le16(&mut out, h.bps as i32);
    push_all(&mut out, [0x64u8, 0x61, 0x74, 0x61]);
    push_le32(&mut out, h.datasize as i64);
    proof {
        assert(le16_bytes(1) =~= seq![1u8, 0]);
        assert(out@ =~= wave_header(h@));
    }
    out
}

} // verus!
