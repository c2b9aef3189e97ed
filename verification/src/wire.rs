//! Big-endian byte-order primitives and 16-byte alignment arithmetic,
//! shared by every codec in the crate.

use vstd::prelude::*;

verus! {

/// The value of two big-endian bytes.
pub open spec fn spec_u16_from_be_bytes(s: Seq<u8>) -> u16
    recommends
        s.len() == 2,
{
    ((s[0] as u16) << 8 | (s[1] as u16)) as u16
}

/// The two big-endian bytes of a `u16`.
pub open spec fn spec_u16_to_be_bytes(x: u16) -> Seq<u8> {
    seq![((x >> 8) & 0xff) as u8, (x & 0xff) as u8]
}

/// The value of four big-endian bytes.
pub open spec fn spec_u32_from_be_bytes(s: Seq<u8>) -> u32
    recommends
        s.len() == 4,
{
    ((s[0] as u32) << 24 | (s[1] as u32) << 16 | (s[2] as u32) << 8 | (s[3] as u32)) as u32
}

/// The four big-endian bytes of a `u32`.
pub open spec fn spec_u32_to_be_bytes(x: u32) -> Seq<u8> {
    seq![
        ((x >> 24) & 0xff) as u8,
        ((x >> 16) & 0xff) as u8,
        ((x >> 8) & 0xff) as u8,
        (x & 0xff) as u8,
    ]
}

/// The value of eight big-endian bytes.
pub open spec fn spec_u64_from_be_bytes(s: Seq<u8>) -> u64
    recommends
        s.len() == 8,
{
    ((s[0] as u64) << 56 | (s[1] as u64) << 48 | (s[2] as u64) << 40 | (s[3] as u64) << 32
        | (s[4] as u64) << 24 | (s[5] as u64) << 16 | (s[6] as u64) << 8 | (s[7] as u64)) as u64
}

/// The eight big-endian bytes of a `u64`.
pub open spec fn spec_u64_to_be_bytes(x: u64) -> Seq<u8> {
    seq![
        ((x >> 56) & 0xff) as u8,
        ((x >> 48) & 0xff) as u8,
        ((x >> 40) & 0xff) as u8,
        ((x >> 32) & 0xff) as u8,
        ((x >> 24) & 0xff) as u8,
        ((x >> 16) & 0xff) as u8,
        ((x >> 8) & 0xff) as u8,
        (x & 0xff) as u8,
    ]
}

/// Reading back the bytes of a `u16` yields the original value.
pub proof fn lemma_u16_be_bytes_value(x: u16)
    ensures
        spec_u16_to_be_bytes(x).len() == 2,
        spec_u16_from_be_bytes(spec_u16_to_be_bytes(x)) == x,
{
    assert(((((x >> 8) & 0xff) as u8 as u16) << 8 | ((x & 0xff) as u8 as u16)) == x)
        by (bit_vector);
}

/// Reading back the bytes of a `u32` yields the original value.
pub proof fn lemma_u32_be_bytes_value(x: u32)
    ensures
        spec_u32_to_be_bytes(x).len() == 4,
        spec_u32_from_be_bytes(spec_u32_to_be_bytes(x)) == x,
{
    assert(((((x >> 24) & 0xff) as u8 as u32) << 24 | (((x >> 16) & 0xff) as u8 as u32) << 16 | (((
    x >> 8) & 0xff) as u8 as u32) << 8 | ((x & 0xff) as u8 as u32)) == x) by (bit_vector);
}

/// Reading back the bytes of a `u64` yields the original value.
pub proof fn lemma_u64_be_bytes_value(x: u64)
    ensures
        spec_u64_to_be_bytes(x).len() == 8,
        spec_u64_from_be_bytes(spec_u64_to_be_bytes(x)) == x,
{
    assert(((((x >> 56) & 0xff) as u8 as u64) << 56 | (((x >> 48) & 0xff) as u8 as u64) << 48 | (((
    x >> 40) & 0xff) as u8 as u64) << 40 | (((x >> 32) & 0xff) as u8 as u64) << 32 | (((x >> 24)
        & 0xff) as u8 as u64) << 24 | (((x >> 16) & 0xff) as u8 as u64) << 16 | (((x >> 8)
        & 0xff) as u8 as u64) << 8 | ((x & 0xff) as u8 as u64)) == x) by (bit_vector);
}

/// Read a big-endian `u16` from `s` at byte offset `off`.
pub fn u16_from_be_at(s: &[u8], off: usize) -> (x: u16)
    requires
        off + 2 <= s@.len(),
    ensures
        x == spec_u16_from_be_bytes(s@.subrange(off as int, off + 2)),
{
    let x = (s[off] as u16) << 8 | (s[off + 1] as u16);
    proof {
        let sub = s@.subrange(off as int, off + 2);
        assert(sub[0] == s@[off as int] && sub[1] == s@[off + 1]);
    }
    x
}

/// Read a big-endian `u32` from `s` at byte offset `off`.
pub fn u32_from_be_at(s: &[u8], off: usize) -> (x: u32)
    requires
        off + 4 <= s@.len(),
    ensures
        x == spec_u32_from_be_bytes(s@.subrange(off as int, off + 4)),
{
    let x = (s[off] as u32) << 24 | (s[off + 1] as u32) << 16 | (s[off + 2] as u32) << 8 | (s[off
        + 3] as u32);
    proof {
        let sub = s@.subrange(off as int, off + 4);
        assert(sub[0] == s@[off as int] && sub[1] == s@[off + 1] && sub[2] == s@[off + 2] && sub[3]
            == s@[off + 3]);
    }
    x
}

/// Read a big-endian `u64` from `s` at byte offset `off`.
pub fn u64_from_be_at(s: &[u8], off: usize) -> (x: u64)
    requires
        off + 8 <= s@.len(),
    ensures
        x == spec_u64_from_be_bytes(s@.subrange(off as int, off + 8)),
{
    let x = (s[off] as u64) << 56 | (s[off + 1] as u64) << 48 | (s[off + 2] as u64) << 40 | (s[off
        + 3] as u64) << 32 | (s[off + 4] as u64) << 24 | (s[off + 5] as u64) << 16 | (s[off
        + 6] as u64) << 8 | (s[off + 7] as u64);
    proof {
        let sub = s@.subrange(off as int, off + 8);
        assert(forall|i: int| 0 <= i < 8 ==> sub[i] == s@[off + i]);
    }
    x
}

/// Append the big-endian bytes of a `u16` to `out`.
pub fn push_u16_be(out: &mut Vec<u8>, x: u16)
    ensures
        final(out)@ == old(out)@ + spec_u16_to_be_bytes(x),
{
    out.push(((x >> 8) & 0xff) as u8);
    out.push((x & 0xff) as u8);
    assert(out@ =~= old(out)@ + spec_u16_to_be_bytes(x));
}

/// Append the big-endian bytes of a `u32` to `out`.
pub fn push_u32_be(out: &mut Vec<u8>, x: u32)
    ensures
        final(out)@ == old(out)@ + spec_u32_to_be_bytes(x),
{
    out.push(((x >> 24) & 0xff) as u8);
    out.push(((x >> 16) & 0xff) as u8);
    out.push(((x >> 8) & 0xff) as u8);
    out.push((x & 0xff) as u8);
    assert(out@ =~= old(out)@ + spec_u32_to_be_bytes(x));
}

/// Append the big-endian bytes of a `u64` to `out`.
pub fn push_u64_be(out: &mut Vec<u8>, x: u64)
    ensures
        final(out)@ == old(out)@ + spec_u64_to_be_bytes(x),
{
    out.push(((x >> 56) & 0xff) as u8);
    out.push(((x >> 48) & 0xff) as u8);
    out.push(((x >> 40) & 0xff) as u8);
    out.push(((x >> 32) & 0xff) as u8);
    out.push(((x >> 24) & 0xff) as u8);
    out.push(((x >> 16) & 0xff) as u8);
    out.push(((x >> 8) & 0xff) as u8);
    out.push((x & 0xff) as u8);
    assert(out@ =~= old(out)@ + spec_u64_to_be_bytes(x));
}

/// `n` rounded up to the next multiple of 16.
pub open spec fn spec_align16(n: int) -> int {
    if n % 16 == 0 {
        n
    } else {
        n + (16 - n % 16)
    }
}

/// Basic facts about rounding up to a multiple of 16.
pub proof fn lemma_align16(n: int)
    requires
        n >= 0,
    ensures
        spec_align16(n) % 16 == 0,
        n <= spec_align16(n) < n + 16,
        n % 16 == 0 ==> spec_align16(n) == n,
{
}

/// Round `n` up to the next multiple of 16.
pub fn align16(n: u64) -> (r: u64)
    requires
        n + 15 <= u64::MAX,
    ensures
        r == spec_align16(n as int),
{
    let rem = n % 16;
    if rem == 0 {
        n
    } else {
        n + (16 - rem)
    }
}

/// Append `count` zero bytes to `out`.
pub fn push_zeros(out: &mut Vec<u8>, count: usize)
    ensures
        final(out)@ == old(out)@ + Seq::new(count as nat, |i: int| 0u8),
{
    let mut k: usize = 0;
    while k < count
        invariant
            k <= count,
            out@ == old(out)@ + Seq::new(k as nat, |i: int| 0u8),
        decreases count - k,
    {
        out.push(0u8);
        assert(out@ =~= old(out)@ + Seq::new((k + 1) as nat, |i: int| 0u8));
        k = k + 1;
    }
    assert(out@ =~= old(out)@ + Seq::new(count as nat, |i: int| 0u8));
}

} // verus!
