use vstd::prelude::*;

verus! {

/// The little-endian signed 16-bit integer at `at` in `s`.
pub open spec fn le_i16(s: Seq<u8>, at: int) -> int {
    let v = s[at] as int + 256 * s[at + 1] as int;
    if v >= 0x8000 {
        v - 0x1_0000
    } else {
        v
    }
}

/// The little-endian unsigned 16-bit integer at `at` in `s`.
pub open spec fn le_u16(s: Seq<u8>, at: int) -> int {
    s[at] as int + 256 * s[at + 1] as int
}

/// The little-endian signed 32-bit integer at `at` in `s`.
pub open spec fn le_i32(s: Seq<u8>, at: int) -> int {
    let v = s[at] as int + 0x100 * s[at + 1] as int + 0x1_0000 * s[at + 2] as int + 0x100_0000
        * s[at + 3] as int;
    if v >= 0x8000_0000 {
        v - 0x1_0000_0000
    } else {
        v
    }
}

/// `v` reduced modulo 2^32.
pub open spec fn wrap32(v: int) -> int {
    v % 0x1_0000_0000
}

/// The four little-endian bytes of `v` modulo 2^32.
pub open spec fn le32_bytes(v: int) -> Seq<u8> {
    let u = wrap32(v);
    seq![
        (u % 0x100) as u8,
        ((u / 0x100) % 0x100) as u8,
        ((u / 0x1_0000) % 0x100) as u8,
        ((u / 0x100_0000) % 0x100) as u8,
    ]
}

/// Reading back the four bytes written for a value that fits in 32 signed
/// bits gives that value.
pub proof fn lemma_le32_round_trip(v: int)
    requires
        -0x8000_0000 <= v < 0x8000_0000,
    ensures
        le_i32(le32_bytes(v), 0) == v,
{
    let u = wrap32(v);
    assert(u == if v >= 0 { v } else { v + 0x1_0000_0000 }) by {
        if v >= 0 {
            vstd::arithmetic::div_mod::lemma_small_mod(v as nat, 0x1_0000_0000);
        } else {
            vstd::arithmetic::div_mod::lemma_fundamental_div_mod_converse(
                v,
                0x1_0000_0000,
                -1,
                v + 0x1_0000_0000,
            );
        }
    }
    let b0 = u % 0x100;
    let b1 = (u / 0x100) % 0x100;
    let b2 = (u / 0x1_0000) % 0x100;
    let b3 = (u / 0x100_0000) % 0x100;
    assert(b0 + 0x100 * b1 + 0x1_0000 * b2 + 0x100_0000 * b3 == u) by (nonlinear_arith)
        requires
            0 <= u < 0x1_0000_0000,
            b0 == u % 0x100,
            b1 == (u / 0x100) % 0x100,
            b2 == (u / 0x1_0000) % 0x100,
            b3 == (u / 0x100_0000) % 0x100,
    ;
}

/// The two little-endian bytes of `v` modulo 2^16.
pub open spec fn le16_bytes(v: int) -> Seq<u8> {
    let u = v % 0x1_0000;
    seq![(u % 0x100) as u8, (u / 0x100) as u8]
}

pub fn read_i16_le(s: &[u8], at: usize) -> (r: i16)
    requires
        at + 2 <= s@.len(),
    ensures
        r as int == le_i16(s@, at as int),
{
    let v: u32 = s[at] as u32 + 256 * (s[at + 1] as u32);
    if v >= 0x8000 {
        (v as i32 - 0x1_0000) as i16
    } else {
        v as i16
    }
}

pub fn read_u16_le(s: &[u8], at: usize) -> (r: u16)
    requires
        at + 2 <= s@.len(),
    ensures
        r as int == le_u16(s@, at as int),
{
    s[at] as u16 + 256 * (s[at + 1] as u16)
}

pub fn read_i32_le(s: &[u8], at: usize) -> (r: i32)
    requires
        at + 4 <= s@.len(),
    ensures
        r as int == le_i32(s@, at as int),
{
    let v: i64 = s[at] as i64 + 0x100 * (s[at + 1] as i64) + 0x1_0000 * (s[at + 2] as i64)
        + 0x100_0000 * (s[at + 3] as i64);
    if v >= 0x8000_0000 {
        (v - 0x1_0000_0000) as i32
    } else {
        v as i32
    }
}

/// `v` modulo 2^32, for `v` of any sign.
fn wrap_u32(v: i64) -> (r: u32)
    ensures
        r as int == wrap32(v as int),
{
    if v >= 0 {
        (v % 0x1_0000_0000) as u32
    } else {
        let m: i64 = (-(v as i128) % 0x1_0000_0000) as i64;
        proof {
            let q = (-(v as int)) / 0x1_0000_0000;
            vstd::arithmetic::div_mod::lemma_fundamental_div_mod(-(v as int), 0x1_0000_0000);
            if m == 0 {
                vstd::arithmetic::div_mod::lemma_fundamental_div_mod_converse(
                    v as int,
                    0x1_0000_0000,
                    -q,
                    0,
                );
            } else {
                vstd::arithmetic::div_mod::lemma_fundamental_div_mod_converse(
                    v as int,
                    0x1_0000_0000,
                    -q - 1,
                    0x1_0000_0000 - m,
                );
            }
        }
        if m == 0 {
            0
        } else {
            (0x1_0000_0000 - m) as u32
        }
    }
}

/// Appends the four little-endian bytes of `v` modulo 2^32.
pub fn push_le32(out: &mut Vec<u8>, v: i64)
    ensures
        final(out)@ == old(out)@ + le32_bytes(v as int),
{
    let u = wrap_u32(v);
    out.push((u % 0x100) as u8);
    out.push(((u / 0x100) % 0x100) as u8);
    out.push(((u / 0x1_0000) % 0x100) as u8);
    out.push(((u / 0x100_0000) % 0x100) as u8);
    assert(final(out)@ =~= old(out)@ + le32_bytes(v as int));
}

/// Appends the two little-endian bytes of `v` modulo 2^16.
pub fn push_le16(out: &mut Vec<u8>, v: i32)
    ensures
        final(out)@ == old(out)@ + le16_bytes(v as int),
{
    let u = wrap_u32(v as i64) % 0x1_0000;
    proof {
        vstd::arithmetic::div_mod::lemma_mod_mod(v as int, 0x1_0000, 0x1_0000);
    }
    out.push((u % 0x100) as u8);
    out.push((u / 0x100) as u8);
    assert(final(out)@ =~= old(out)@ + le16_bytes(v as int));
}

/// Appends the low byte of `v`, that is `v` modulo 2^8.
pub fn push_low8(out: &mut Vec<u8>, v: i32)
    ensures
        final(out)@ == old(out)@ + seq![(v as int % 0x100) as u8],
{
    let u = wrap_u32(v as i64) % 0x100;
    proof {
        vstd::arithmetic::div_mod::lemma_mod_mod(v as int, 0x100, 0x100_0000);
    }
    out.push(u as u8);
    assert(final(out)@ =~= old(out)@ + seq![(v as int % 0x100) as u8]);
}

} // verus!
