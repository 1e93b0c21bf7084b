use vstd::prelude::*;
use crate::bitreader::{bits_value, lemma_bits_value_bound, BitReader};
use vstd::arithmetic::power2::{pow2, lemma2_to64, lemma_pow2_strictly_increases};
use crate::bytes::{le16_bytes, le_u16, push_le16, push_low8, read_u16_le};
use crate::error::NwaError;
use crate::header::{HeaderModel, NWAHeader};

verus! {

/// The decoding state carried from sample to sample and from block to block:
/// one prediction accumulator per channel, the channel whose sample comes
/// next, and how many more samples repeat the current value.
#[derive(Clone, Copy, Debug, PartialEq, Eq, Structural)]
pub struct DecoderState {
    pub acc0: i32,
    pub acc1: i32,
    pub channel: usize,
    pub run: u32,
}

impl DecoderState {
    pub open spec fn wf(&self) -> bool {
        self.channel <= 1
    }

    /// The state at the start of a stream.
    pub fn new() -> (r: DecoderState)
        ensures
            r == initial_state(),
    {
        DecoderState { acc0: 0, acc1: 0, channel: 0, run: 0 }
    }
}

pub open spec fn initial_state() -> DecoderState {
    DecoderState { acc0: 0, acc1: 0, channel: 0, run: 0 }
}

/// The accumulator of the channel whose sample comes next.
pub open spec fn active(st: DecoderState) -> i32 {
    if st.channel == 0 {
        st.acc0
    } else {
        st.acc1
    }
}

pub open spec fn set_active(st: DecoderState, v: i32) -> DecoderState {
    if st.channel == 0 {
        DecoderState { acc0: v, ..st }
    } else {
        DecoderState { acc1: v, ..st }
    }
}

pub open spec fn with_run(st: DecoderState, run: u32) -> DecoderState {
    DecoderState { run, ..st }
}

/// After a sample is emitted a stereo stream turns to the other channel.
pub open spec fn advance_channel(h: HeaderModel, st: DecoderState) -> DecoderState {
    if h.channels == 2 {
        DecoderState { channel: (1 - st.channel) as usize, ..st }
    } else {
        st
    }
}

/// Width in bits of an ordinary delta field (exponent 1 to 6).
pub open spec fn normal_width(level: int) -> u32 {
    if level >= 3 {
        (level + 3) as u32
    } else {
        (5 - level) as u32
    }
}

pub open spec fn normal_shift(level: int, exponent: u32) -> u32 {
    if level >= 3 {
        (1 + exponent) as u32
    } else {
        (2 + exponent + level) as u32
    }
}

/// Width in bits of a large delta field (exponent 7).
pub open spec fn wide_width(level: int) -> u32 {
    if level >= 3 {
        8
    } else {
        (8 - level) as u32
    }
}

pub open spec fn wide_shift(level: int) -> u32 {
    if level >= 3 {
        9
    } else {
        (9 + level) as u32
    }
}

/// A sign-and-magnitude field of `width` bits: the top bit is the sign, the
/// others the magnitude, which is shifted left by `shift` and added to or
/// taken from `acc` (modulo 2^32).
pub open spec fn apply_delta(acc: i32, b: u32, width: u32, shift: u32) -> i32 {
    let sign = 1u32 << (width - 1) as u32;
    let mag = ((b & ((sign - 1) as u32)) << shift) as i32;
    if b & sign != 0 {
        acc.wrapping_sub(mag)
    } else {
        acc.wrapping_add(mag)
    }
}

/// Whether `n` bits are left in `s` from bit `pos` on.
pub open spec fn has_bits(s: Seq<u8>, pos: int, n: int) -> bool {
    pos + n <= 8 * s.len()
}

pub open spec fn take(s: Seq<u8>, pos: int, n: u32) -> u32 {
    bits_value(s, pos, n as nat) as u32
}

/// One sample slot: the state after it and the bit position after its code,
/// or `None` where the bits run out.
pub open spec fn step(h: HeaderModel, st: DecoderState, s: Seq<u8>, pos: int) -> Option<
    (DecoderState, int),
> {
    if st.run > 0 {
        Some((with_run(st, (st.run - 1) as u32), pos))
    } else if !has_bits(s, pos, 3) {
        None
    } else {
        let e = take(s, pos, 3);
        let p = pos + 3;
        if e == 0 {
            if h.userunlength != 1 {
                Some((st, p))
            } else if !has_bits(s, p, 1) {
                None
            } else if take(s, p, 1) == 0 {
                Some((st, p + 1))
            } else if !has_bits(s, p + 1, 2) {
                None
            } else if take(s, p + 1, 2) != 3 {
                Some((with_run(st, take(s, p + 1, 2)), p + 3))
            } else if !has_bits(s, p + 3, 8) {
                None
            } else {
                Some((with_run(st, take(s, p + 3, 8)), p + 11))
            }
        } else if e == 7 {
            if !has_bits(s, p, 1) {
                None
            } else if take(s, p, 1) == 1 {
                Some((set_active(st, 0), p + 1))
            } else {
                let w = wide_width(h.complevel);
                if !has_bits(s, p + 1, w as int) {
                    None
                } else {
                    Some(
                        (
                            set_active(
                                st,
                                apply_delta(
                                    active(st),
                                    take(s, p + 1, w),
                                    w,
                                    wide_shift(h.complevel),
                                ),
                            ),
                            p + 1 + w,
                        ),
                    )
                }
            }
        } else {
            let w = normal_width(h.complevel);
            if !has_bits(s, p, w as int) {
                None
            } else {
                Some(
                    (
                        set_active(
                            st,
                            apply_delta(active(st), take(s, p, w), w, normal_shift(h.complevel, e)),
                        ),
                        p + w,
                    ),
                )
            }
        }
    }
}

/// The bytes of one emitted sample: 8-bit samples are the low byte of the
/// accumulator, 16-bit ones its low two bytes, little-endian.
pub open spec fn encode_sample(h: HeaderModel, v: i32) -> Seq<u8> {
    if h.bps == 8 {
        seq![(v as int % 0x100) as u8]
    } else {
        le16_bytes(v as int)
    }
}

/// Decoding `count` sample slots from bit `pos` of `s`: the bytes emitted,
/// the state and the bit position after them, or `None` where the bits run out.
pub open spec fn run_samples(
    h: HeaderModel,
    st: DecoderState,
    s: Seq<u8>,
    pos: int,
    count: nat,
) -> Option<(Seq<u8>, DecoderState, int)>
    decreases count,
{
    if count == 0 {
        Some((Seq::empty(), st, pos))
    } else {
        match run_samples(h, st, s, pos, (count - 1) as nat) {
            None => None,
            Some((out, st1, pos_1)) => match step(h, st1, s, pos_1) {
                None => None,
                Some((st2, pos_2)) => Some(
                    (out + encode_sample(h, active(st2)), advance_channel(h, st2), pos_2),
                ),
            },
        }
    }
}

/// Parameters under which the decoding loop runs.
pub open spec fn decodable(h: HeaderModel) -> bool {
    &&& 0 <= h.complevel <= 5
    &&& h.channels == 1 || h.channels == 2
    &&& h.bps == 8 || h.bps == 16
}

proof fn lemma_shift_bound(w: u32)
    requires
        1 <= w <= 8,
    ensures
        (1u32 << (w - 1) as u32) >= 1,
{
    assert((1u32 << (w - 1) as u32) >= 1) by (bit_vector)
        requires
            1 <= w <= 8,
    ;
}

/// Reads a sign-and-magnitude field of `width` bits and applies it to the
/// active accumulator.
fn read_delta(st: &mut DecoderState, reader: &mut BitReader, width: u32, shift: u32) -> (r: Result<
    (),
    NwaError,
>)
    requires
        old(reader).wf(),
        old(st).wf(),
        1 <= width <= 8,
        shift <= 11,
    ensures
        final(reader).wf(),
        final(reader).source() == old(reader).source(),
        final(st).wf(),
        has_bits(old(reader).source(), old(reader).position(), width as int) ==> r is Ok
            && final(reader).position() == old(reader).position() + width && *final(st)
            == set_active(
            *old(st),
            apply_delta(
                active(*old(st)),
                take(old(reader).source(), old(reader).position(), width),
                width,
                shift,
            ),
        ),
        !has_bits(old(reader).source(), old(reader).position(), width as int) ==> r
            == Err::<(), NwaError>(NwaError::UnexpectedEof),
{
    let b = match reader.read_bits(width) {
        Ok(b) => b,
        Err(e) => return Err(e),
    };
    proof {
        lemma_shift_bound(width);
    }
    let sign: u32 = 1u32 << (width - 1);
    let mag = ((b & (sign - 1)) << shift) as i32;
    if st.channel == 0 {
        st.acc0 = if b & sign != 0 {
            st.acc0.wrapping_sub(mag)
        } else {
            st.acc0.wrapping_add(mag)
        };
    } else {
        st.acc1 = if b & sign != 0 {
            st.acc1.wrapping_sub(mag)
        } else {
            st.acc1.wrapping_add(mag)
        };
    }
    Ok(())
}

/// Reads `n` bits, with the failure that running out gives.
fn take_bits(reader: &mut BitReader, n: u32) -> (r: Result<u32, NwaError>)
    requires
        old(reader).wf(),
        1 <= n <= 8,
    ensures
        final(reader).wf(),
        final(reader).source() == old(reader).source(),
        has_bits(old(reader).source(), old(reader).position(), n as int) ==> r == Ok::<
            u32,
            NwaError,
        >(take(old(reader).source(), old(reader).position(), n)) && final(reader).position()
            == old(reader).position() + n,
        !has_bits(old(reader).source(), old(reader).position(), n as int) ==> r == Err::<
            u32,
            NwaError,
        >(NwaError::UnexpectedEof),
        r matches Ok(v) ==> v < 256 && v < pow2(n as nat),
{
    proof {
        lemma_bits_value_bound(reader.source(), reader.position(), n as nat);
        lemma2_to64();
        if n < 8 {
            lemma_pow2_strictly_increases(n as nat, 8);
        }
    }
    reader.read_bits(n)
}

/// Decodes one sample slot: reads its code unless a run is in progress and
/// updates the state as [`step`] says.
fn decode_step(h: &NWAHeader, st: &mut DecoderState, reader: &mut BitReader) -> (r: Result<
    (),
    NwaError,
>)
    requires
        old(reader).wf(),
        old(st).wf(),
        decodable(h@),
    ensures
        final(reader).wf(),
        final(reader).source() == old(reader).source(),
        final(st).wf(),
        match step(h@, *old(st), old(reader).source(), old(reader).position()) {
            Some((st2, pos_2)) => r is Ok && *final(st) == st2 && final(reader).position() == pos_2,
            None => r == Err::<(), NwaError>(NwaError::UnexpectedEof),
        },
{
    if st.run > 0 {
        st.run = st.run - 1;
        return Ok(());
    }
    let exponent = take_bits(reader, 3)?;
    proof {
        lemma2_to64();
    }
    let level = h.complevel;
    if exponent == 0 {
        if h.userunlength == 1 {
            if take_bits(reader, 1)? == 1 {
                let count = take_bits(reader, 2)?;
                st.run = if count == 3 {
                    take_bits(reader, 8)?
                } else {
                    count
                };
            }
        }
        Ok(())
    } else if exponent == 7 {
        if take_bits(reader, 1)? == 1 {
            if st.channel == 0 {
                st.acc0 = 0;
            } else {
                st.acc1 = 0;
            }
            Ok(())
        } else {
            let (width, shift) = if level >= 3 {
                (8u32, 9u32)
            } else {
                ((8 - level) as u32, (9 + level) as u32)
            };
            read_delta(st, reader, width, shift)
        }
    } else {
        let (width, shift) = if level >= 3 {
            ((level + 3) as u32, 1 + exponent)
        } else {
            ((5 - level) as u32, 2 + exponent + level as u32)
        };
        read_delta(st, reader, width, shift)
    }
}

/// Decodes `count` sample slots, appending each emitted sample to `out`.
pub fn decode_samples(
    h: &NWAHeader,
    st: &mut DecoderState,
    reader: &mut BitReader,
    count: usize,
    out: &mut Vec<u8>,
) -> (r: Result<(), NwaError>)
    requires
        old(reader).wf(),
        old(st).wf(),
        decodable(h@),
    ensures
        final(reader).wf(),
        final(st).wf(),
        match run_samples(h@, *old(st), old(reader).source(), old(reader).position(), count as nat) {
            Some((o, st2, pos_2)) => r is Ok && final(out)@ == old(out)@ + o && *final(st) == st2
                && final(reader).position() == pos_2,
            None => r == Err::<(), NwaError>(NwaError::UnexpectedEof),
        },
{
    let ghost s = reader.source();
    let ghost st0 = *st;
    let ghost pos_0 = reader.position();
    let ghost out0 = out@;
    let mut i: usize = 0;
    while i < count
        invariant
            i <= count,
            reader.wf(),
            st.wf(),
            decodable(h@),
            reader.source() == s,
            run_samples(h@, st0, s, pos_0, i as nat) == Some(
                (out@.subrange(out0.len() as int, out@.len() as int), *st, reader.position()),
            ),
            out@.len() >= out0.len(),
            out@.subrange(0, out0.len() as int) == out0,
            st0 == *old(st),
            pos_0 == old(reader).position(),
            s == old(reader).source(),
            out0 == old(out)@,
        decreases count - i,
    {
        let ghost before = out@;
        let ghost st_b = *st;
        let ghost p_b = reader.position();
        let r = decode_step(h, st, reader);
        if r.is_err() {
            proof {
                assert(step(h@, st_b, s, p_b) is None);
                assert(run_samples(h@, st0, s, pos_0, (i + 1) as nat) is None);
                lemma_run_samples_none_after(h@, st0, s, pos_0, (i + 1) as nat, count as nat);
                assert(run_samples(h@, st0, s, pos_0, count as nat) is None);
            }
            return Err(NwaError::UnexpectedEof);
        }
        let v = if st.channel == 0 {
            st.acc0
        } else {
            st.acc1
        };
        if h.bps == 8 {
            push_low8(out, v);
        } else {
            push_le16(out, v);
        }
        if h.channels == 2 {
            st.channel = 1 - st.channel;
        }
        assert(out@.subrange(out0.len() as int, out@.len() as int) =~= before.subrange(
            out0.len() as int,
            before.len() as int,
        ) + encode_sample(h@, v));
        assert(out@.subrange(0, out0.len() as int) =~= before.subrange(0, out0.len() as int));
        i = i + 1;
    }
    assert(out@ =~= out0 + out@.subrange(out0.len() as int, out@.len() as int));
    Ok(())
}

/// Once decoding fails it fails for any longer count.
proof fn lemma_run_samples_none_after(
    h: HeaderModel,
    st: DecoderState,
    s: Seq<u8>,
    pos: int,
    a: nat,
    b: nat,
)
    requires
        a <= b,
        run_samples(h, st, s, pos, a) is None,
    ensures
        run_samples(h, st, s, pos, b) is None,
    decreases b - a,
{
    if a < b {
        lemma_run_samples_none_after(h, st, s, pos, a, (b - 1) as nat);
    }
}

/// `b` repeated `j` times.
pub open spec fn repeat_bytes(b: Seq<u8>, j: nat) -> Seq<u8>
    decreases j,
{
    if j == 0 {
        Seq::empty()
    } else {
        repeat_bytes(b, (j - 1) as nat) + b
    }
}

/// A run in progress repeats values without reading: while `k` repeats
/// remain, each of the next `j <= k` slots consumes no bits and leaves both
/// accumulators as they were; in a mono stream every one of them emits the
/// accumulator's value once more.
pub proof fn lemma_run_fidelity(
    h: HeaderModel,
    st: DecoderState,
    s: Seq<u8>,
    pos: int,
    j: nat,
)
    requires
        st.wf(),
        j <= st.run,
    ensures
        run_samples(h, st, s, pos, j) matches Some((out, st2, pos_2)) && pos_2 == pos && st2.acc0
            == st.acc0 && st2.acc1 == st.acc1 && st2.run == st.run - j && (h.channels != 2
            ==> st2.channel == st.channel) && (h.channels == 1 ==> out == repeat_bytes(
            encode_sample(h, active(st)),
            j,
        )),
    decreases j,
{
    if j > 0 {
        lemma_run_fidelity(h, st, s, pos, (j - 1) as nat);
        let (out1, st1, pos_1) = run_samples(h, st, s, pos, (j - 1) as nat).unwrap();
        assert(st1.run > 0);
        let st2 = with_run(st1, (st1.run - 1) as u32);
        assert(step(h, st1, s, pos_1) == Some((st2, pos_1)));
        assert(active(st2) == active(st1));
        if h.channels == 1 {
            assert(active(st1) == active(st));
        }
    }
}

/// With run-length coding on, an exponent-0 code starts a run: a 0 flag
/// gives no run (4 bits read), a 1 flag followed by a 2-bit count below 3
/// gives that count (6 bits read), and a count of 3 gives the 8 bits that
/// follow (14 bits read). The slot itself keeps the accumulators, so it and
/// the run's slots after it emit the same values (see `lemma_run_fidelity`).
pub proof fn lemma_run_trigger(h: HeaderModel, st: DecoderState, s: Seq<u8>, pos: int)
    requires
        st.run == 0,
        h.userunlength == 1,
        has_bits(s, pos, 3),
        take(s, pos, 3) == 0,
    ensures
        has_bits(s, pos + 3, 1) && take(s, pos + 3, 1) == 0 ==> step(h, st, s, pos) == Some(
            (st, pos + 4),
        ),
        has_bits(s, pos + 3, 3) && take(s, pos + 3, 1) == 1 && take(s, pos + 4, 2) != 3 ==> step(
            h,
            st,
            s,
            pos,
        ) == Some((with_run(st, take(s, pos + 4, 2)), pos + 6)),
        has_bits(s, pos + 3, 11) && take(s, pos + 3, 1) == 1 && take(s, pos + 4, 2) == 3
            ==> step(h, st, s, pos) == Some((with_run(st, take(s, pos + 6, 8)), pos + 14)),
        step(h, st, s, pos) matches Some((st2, _)) ==> st2.acc0 == st.acc0 && st2.acc1
            == st.acc1 && st2.channel == st.channel,
{
}

/// An exponent-7 code whose reset bit is set makes the active channel's
/// accumulator exactly zero, and the sample emitted for it is zero, at every
/// compression level.
pub proof fn lemma_zero_reset(h: HeaderModel, st: DecoderState, s: Seq<u8>, pos: int)
    requires
        st.run == 0,
        has_bits(s, pos, 4),
        take(s, pos, 3) == 7,
        take(s, pos + 3, 1) == 1,
    ensures
        step(h, st, s, pos) == Some((set_active(st, 0), pos + 4)),
        active(set_active(st, 0)) == 0,
        encode_sample(h, active(set_active(st, 0))) == if h.bps == 8 {
            seq![0u8]
        } else {
            seq![0u8, 0u8]
        },
{
    assert(encode_sample(h, 0i32) =~= if h.bps == 8 {
        seq![0u8]
    } else {
        seq![0u8, 0u8]
    });
}

/// A slot changes only the accumulator of the channel whose turn it is.
pub proof fn lemma_step_touches_active(h: HeaderModel, st: DecoderState, s: Seq<u8>, pos: int)
    requires
        st.wf(),
    ensures
        step(h, st, s, pos) matches Some((st2, _)) ==> st2.channel == st.channel && (st.channel
            == 0 ==> st2.acc1 == st.acc1) && (st.channel == 1 ==> st2.acc0 == st.acc0),
{
}

/// In a stereo stream the channels take turns: after `j` slots the channel
/// whose turn it is has moved on by `j`, whatever codes were read; and the
/// accumulator of a channel changes only on its own turns.
pub proof fn lemma_stereo_interleaving(
    h: HeaderModel,
    st: DecoderState,
    s: Seq<u8>,
    pos: int,
    j: nat,
)
    requires
        st.wf(),
        h.channels == 2,
    ensures
        run_samples(h, st, s, pos, j) matches Some((_, st2, _)) ==> st2.channel == (st.channel
            + j) % 2,
        run_samples(h, st, s, pos, (j + 1) as nat) matches Some((_, st3, _)) ==> (
        run_samples(h, st, s, pos, j) matches Some((_, st2, _)) && (st2.channel == 0 ==> st3.acc1
            == st2.acc1) && (st2.channel == 1 ==> st3.acc0 == st2.acc0)),
    decreases j,
{
    if j > 0 {
        lemma_stereo_interleaving(h, st, s, pos, (j - 1) as nat);
    }
    lemma_run_samples_wf(h, st, s, pos, j);
    if let Some((_, st2, pos_2)) = run_samples(h, st, s, pos, j) {
        lemma_step_touches_active(h, st2, s, pos_2);
    }
}

/// A block keeps the channel whose turn it is; in a stereo stream it then
/// moves on by one for each of the block's slots.
pub proof fn lemma_block_channel(h: HeaderModel, st: DecoderState, buf: Seq<u8>, count: nat)
    requires
        st.wf(),
    ensures
        block_output(h, st, buf, count) matches Some((_, st2)) ==> st2.channel == if h.channels
            == 2 {
            (st.channel + count) % 2
        } else {
            st.channel as int
        },
{
    if buf.len() >= initial_len(h) {
        let st0 = start_block(h, st, buf);
        if h.channels == 2 {
            lemma_stereo_interleaving(h, st0, buf, 8 * initial_len(h), count);
        } else {
            lemma_channel_kept(h, st0, buf, 8 * initial_len(h), count);
        }
    }
}

/// A mono stream never changes channel.
proof fn lemma_channel_kept(h: HeaderModel, st: DecoderState, s: Seq<u8>, pos: int, count: nat)
    requires
        h.channels != 2,
    ensures
        run_samples(h, st, s, pos, count) matches Some((_, st2, _)) ==> st2.channel == st.channel,
    decreases count,
{
    if count > 0 {
        lemma_channel_kept(h, st, s, pos, (count - 1) as nat);
    }
}

/// Bytes of the block's first samples, stored with full precision: one per channel.
pub open spec fn initial_len(h: HeaderModel) -> int {
    (h.bps / 8) * h.channels
}

/// A first sample stored at byte `at`: 8-bit unsigned or 16-bit unsigned little-endian.
pub open spec fn first_value(h: HeaderModel, buf: Seq<u8>, at: int) -> i32 {
    if h.bps == 8 {
        buf[at] as i32
    } else {
        le_u16(buf, at) as i32
    }
}

/// The state at the start of a block's sample slots: the accumulators take
/// the block's first samples; the channel and the run carry over.
pub open spec fn start_block(h: HeaderModel, st: DecoderState, buf: Seq<u8>) -> DecoderState {
    let st1 = DecoderState { acc0: first_value(h, buf, 0), ..st };
    if h.channels == 2 {
        DecoderState { acc1: first_value(h, buf, h.bps / 8), ..st1 }
    } else {
        st1
    }
}

/// Decoding a block of `count` sample slots from its compressed bytes `buf`.
pub open spec fn block_output(h: HeaderModel, st: DecoderState, buf: Seq<u8>, count: nat) -> Option<
    (Seq<u8>, DecoderState),
> {
    if buf.len() < initial_len(h) {
        None
    } else {
        match run_samples(h, start_block(h, st, buf), buf, 8 * initial_len(h), count) {
            None => None,
            Some((o, st2, _)) => Some((o, st2)),
        }
    }
}

proof fn lemma_run_samples_wf(
    h: HeaderModel,
    st: DecoderState,
    s: Seq<u8>,
    pos: int,
    count: nat,
)
    requires
        st.wf(),
    ensures
        run_samples(h, st, s, pos, count) matches Some((_, st2, _)) ==> st2.wf(),
    decreases count,
{
    if count > 0 {
        lemma_run_samples_wf(h, st, s, pos, (count - 1) as nat);
    }
}

pub proof fn lemma_block_output_wf(h: HeaderModel, st: DecoderState, buf: Seq<u8>, count: nat)
    requires
        st.wf(),
    ensures
        block_output(h, st, buf, count) matches Some((_, st2)) ==> st2.wf(),
{
    if buf.len() >= initial_len(h) {
        lemma_run_samples_wf(h, start_block(h, st, buf), buf, 8 * initial_len(h), count);
    }
}

fn read_first(h: &NWAHeader, buf: &Vec<u8>, at: usize) -> (r: i32)
    requires
        decodable(h@),
        at + h@.bps / 8 <= buf@.len(),
    ensures
        r == first_value(h@, buf@, at as int),
{
    if h.bps == 8 {
        buf[at] as i32
    } else {
        read_u16_le(buf.as_slice(), at) as i32
    }
}

/// Decodes one block of `count` sample slots from its compressed bytes,
/// appending the emitted samples to `out`.
pub fn decode_block(
    h: &NWAHeader,
    st: &mut DecoderState,
    buf: Vec<u8>,
    count: usize,
    out: &mut Vec<u8>,
) -> (r: Result<(), NwaError>)
    requires
        old(st).wf(),
        decodable(h@),
    ensures
        final(st).wf(),
        match block_output(h@, *old(st), buf@, count as nat) {
            Some((o, st2)) => r is Ok && final(out)@ == old(out)@ + o && *final(st) == st2,
            None => r == Err::<(), NwaError>(NwaError::UnexpectedEof),
        },
{
    let byps: usize = if h.bps == 8 {
        1
    } else {
        2
    };
    let head: usize = byps * (h.channels as usize);
    if buf.len() < head {
        return Err(NwaError::UnexpectedEof);
    }
    st.acc0 = read_first(h, &buf, 0);
    if h.channels == 2 {
        st.acc1 = read_first(h, &buf, byps);
    }
    let mut reader = BitReader::starting_at(buf, head);
    decode_samples(h, st, &mut reader, count, out)
}

} // verus!
