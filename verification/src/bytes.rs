//! Byte-sequence utilities shared by the device model and the on-disk codecs:
//! overwriting a window of a sequence, little-endian 16- and 32-bit fields,
//! and the frame lemmas that carry "these bytes did not change" through writes.

use vstd::prelude::*;

verus! {

/// The sequence `s` with the window starting at `at` overwritten by `v`.
/// Indices outside the window keep their old bytes; the length is unchanged.
pub open spec fn seq_write(s: Seq<u8>, at: int, v: Seq<u8>) -> Seq<u8> {
    Seq::new(s.len(), |i: int| if at <= i < at + v.len() { v[i - at] } else { s[i] })
}

/// A run of `n` zero bytes.
pub open spec fn zeros(n: nat) -> Seq<u8> {
    Seq::new(n, |i: int| 0u8)
}

/// The unsigned 16-bit value stored little-endian in two bytes.
pub open spec fn spec_le16(b0: u8, b1: u8) -> int {
    b0 + 256 * b1
}

/// The unsigned 32-bit value stored little-endian in four bytes.
pub open spec fn spec_le32(b0: u8, b1: u8, b2: u8, b3: u8) -> int {
    b0 + 0x100 * b1 + 0x1_0000 * b2 + 0x100_0000 * b3
}

/// Reads a little-endian 16-bit field.
pub fn le16(b0: u8, b1: u8) -> (r: u32)
    ensures
        r == spec_le16(b0, b1),
        r < 0x1_0000,
{
    b0 as u32 + 256 * (b1 as u32)
}

/// Reads a little-endian 32-bit field.
pub fn le32(b0: u8, b1: u8, b2: u8, b3: u8) -> (r: u32)
    ensures
        r == spec_le32(b0, b1, b2, b3),
{
    b0 as u32 + 0x100 * (b1 as u32) + 0x1_0000 * (b2 as u32) + 0x100_0000 * (b3 as u32)
}

/// A freshly allocated run of `n` zero bytes.
pub fn zero_vec(n: usize) -> (r: Vec<u8>)
    ensures
        r@ == zeros(n as nat),
{
    let mut v: Vec<u8> = Vec::new();
    while v.len() < n
        invariant
            v@.len() <= n,
            v@ == zeros(v@.len()),
        decreases n - v@.len(),
    {
        v.push(0u8);
        proof {
            assert(v@ =~= zeros(v@.len()));
        }
    }
    v
}

/// Two writes that follow each other seamlessly are one write of the two
/// buffers joined.
pub proof fn lemma_seq_write_append(s: Seq<u8>, at: int, v: Seq<u8>, w: Seq<u8>)
    requires
        0 <= at,
    ensures
        seq_write(seq_write(s, at, v), at + v.len(), w) == seq_write(s, at, v + w),
{
    assert(seq_write(seq_write(s, at, v), at + v.len(), w) =~= seq_write(s, at, v + w));
}

/// Reading back exactly the window that was written yields the written bytes.
pub proof fn lemma_seq_write_read(s: Seq<u8>, at: int, v: Seq<u8>)
    requires
        0 <= at,
        at + v.len() <= s.len(),
    ensures
        seq_write(s, at, v).subrange(at, at + v.len()) == v,
{
    assert(seq_write(s, at, v).subrange(at, at + v.len()) =~= v);
}

} // verus!
