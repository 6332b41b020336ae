//! Little-endian integer fields, as used by every structure in the ICO and RIFF
//! containers.
use vstd::prelude::*;

verus! {

/// The two bytes of `v`, least significant first.
pub open spec fn le16(v: u16) -> Seq<u8> {
    seq![(v % 256) as u8, (v / 256) as u8]
}

/// The four bytes of `v`, least significant first.
pub open spec fn le32(v: u32) -> Seq<u8> {
    seq![(v % 256) as u8, ((v / 256) % 256) as u8, ((v / 65536) % 256) as u8, (v / 16777216) as u8]
}

/// The value of a little-endian `u16` stored at `o`.
pub open spec fn u16_at(d: Seq<u8>, o: int) -> u16 {
    (d[o] + 256 * d[o + 1]) as u16
}

/// The value of a little-endian `u32` stored at `o`.
pub open spec fn u32_at(d: Seq<u8>, o: int) -> u32 {
    (d[o] + 256 * d[o + 1] + 65536 * d[o + 2] + 16777216 * d[o + 3]) as u32
}

/// Reading back a stored `u16` gives the value that was stored.
pub proof fn lemma_le16(v: u16, d: Seq<u8>, o: int)
    requires
        0 <= o,
        o + 2 <= d.len(),
        d.subrange(o, o + 2) == le16(v),
    ensures
        u16_at(d, o) == v,
{
    assert(d[o] == le16(v)[0]);
    assert(d[o + 1] == le16(v)[1]);
}

/// Reading back a stored `u32` gives the value that was stored.
pub proof fn lemma_le32(v: u32, d: Seq<u8>, o: int)
    requires
        0 <= o,
        o + 4 <= d.len(),
        d.subrange(o, o + 4) == le32(v),
    ensures
        u32_at(d, o) == v,
{
    assert(d[o] == le32(v)[0]);
    assert(d[o + 1] == le32(v)[1]);
    assert(d[o + 2] == le32(v)[2]);
    assert(d[o + 3] == le32(v)[3]);
}

/// Append `v` as two little-endian bytes.
pub fn push_u16(out: &mut Vec<u8>, v: u16)
    ensures
        final(out)@ == old(out)@ + le16(v),
{
    out.push((v % 256) as u8);
    out.push((v / 256) as u8);
    assert(final(out)@ =~= old(out)@ + le16(v));
}

/// Append `v` as four little-endian bytes.
pub fn push_u32(out: &mut Vec<u8>, v: u32)
    ensures
        final(out)@ == old(out)@ + le32(v),
{
    out.push((v % 256) as u8);
    out.push(((v / 256) % 256) as u8);
    out.push(((v / 65536) % 256) as u8);
    out.push((v / 16777216) as u8);
    assert(final(out)@ =~= old(out)@ + le32(v));
}

/// The little-endian `u16` at `o`.
pub fn read_u16(d: &[u8], o: usize) -> (r: u16)
    requires
        o + 2 <= d@.len(),
    ensures
        r == u16_at(d@, o as int),
{
    d[o] as u16 + 256 * (d[o + 1] as u16)
}

/// The little-endian `u32` at `o`.
pub fn read_u32(d: &[u8], o: usize) -> (r: u32)
    requires
        o + 4 <= d@.len(),
    ensures
        r == u32_at(d@, o as int),
{
    d[o] as u32 + 256 * (d[o + 1] as u32) + 65536 * (d[o + 2] as u32) + 16777216 * (d[o + 3] as u32)
}

} // verus!
