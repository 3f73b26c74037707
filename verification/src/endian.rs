//! Big-endian encoding of the 16-bit and 32-bit integers that appear in the
//! block and table layouts, with verified readers and writers.

use vstd::prelude::*;

verus! {

broadcast use vstd::slice::group_slice_axioms;

/// The integer denoted by two bytes in big-endian order.
pub open spec fn be16(b0: u8, b1: u8) -> int {
    b0 * 256 + b1
}

/// The integer denoted by four bytes in big-endian order.
pub open spec fn be32(b0: u8, b1: u8, b2: u8, b3: u8) -> int {
    ((b0 * 256 + b1) * 256 + b2) * 256 + b3
}

/// The two-byte big-endian image of a 16-bit integer.
pub open spec fn u16_bytes(n: u16) -> Seq<u8> {
    seq![(n / 256) as u8, (n % 256) as u8]
}

/// The four-byte big-endian image of a 32-bit integer.
pub open spec fn u32_bytes(n: u32) -> Seq<u8> {
    seq![
        (n / 0x1000000) as u8,
        ((n / 0x10000) % 256) as u8,
        ((n / 256) % 256) as u8,
        (n % 256) as u8,
    ]
}

/// Reading back the two bytes of `u16_bytes(n)` yields `n`.
pub proof fn lemma_u16_bytes_roundtrip(n: u16)
    ensures
        be16(u16_bytes(n)[0], u16_bytes(n)[1]) == n,
{
}

/// Appends the two-byte big-endian image of `n` to `buf`.
pub fn push_u16_be(buf: &mut Vec<u8>, n: u16)
    ensures
        final(buf)@ == old(buf)@ + u16_bytes(n),
{
    buf.push((n / 256) as u8);
    buf.push((n % 256) as u8);
    assert(buf@ =~= old(buf)@ + u16_bytes(n));
}

/// Appends the four-byte big-endian image of `n` to `buf`.
pub fn push_u32_be(buf: &mut Vec<u8>, n: u32)
    ensures
        final(buf)@ == old(buf)@ + u32_bytes(n),
{
    buf.push((n / 0x1000000) as u8);
    buf.push(((n / 0x10000) % 256) as u8);
    buf.push(((n / 256) % 256) as u8);
    buf.push((n % 256) as u8);
    assert(buf@ =~= old(buf)@ + u32_bytes(n));
}

/// Reads the 16-bit big-endian integer stored at `off` in `data`.
pub fn read_u16_be(data: &[u8], off: usize) -> (r: u16)
    requires
        off + 2 <= data@.len(),
    ensures
        r == be16(data@[off as int], data@[off + 1]),
{
    let _len: usize = data.len();
    let b0 = *vstd::slice::slice_index_get(data, off);
    let b1 = *vstd::slice::slice_index_get(data, off + 1);
    (b0 as u16) * 256 + (b1 as u16)
}

/// Reads the 32-bit big-endian integer stored at `off` in `data`.
pub fn read_u32_be(data: &[u8], off: usize) -> (r: u32)
    requires
        off + 4 <= data@.len(),
    ensures
        r == be32(data@[off as int], data@[off + 1], data@[off + 2], data@[off + 3]),
{
    let _len: usize = data.len();
    let b0 = *vstd::slice::slice_index_get(data, off);
    let b1 = *vstd::slice::slice_index_get(data, off + 1);
    let b2 = *vstd::slice::slice_index_get(data, off + 2);
    let b3 = *vstd::slice::slice_index_get(data, off + 3);
    (((b0 as u32) * 256 + (b1 as u32)) * 256 + (b2 as u32)) * 256 + (b3 as u32)
}

/// Appends a byte slice to a buffer.
pub fn push_bytes(buf: &mut Vec<u8>, src: &[u8])
    ensures
        final(buf)@ == old(buf)@ + src@,
{
    let n: usize = src.len();
    let mut i: usize = 0;
    while i < n
        invariant
            i <= n,
            n == src@.len(),
            buf@ == old(buf)@ + src@.take(i as int),
        decreases n - i,
    {
        let ghost prev = buf@;
        buf.push(*vstd::slice::slice_index_get(src, i));
        proof {
            assert(prev.push(src@[i as int]) =~= old(buf)@ + src@.take(i + 1));
        }
        i = i + 1;
    }
    assert(src@.take(n as int) =~= src@);
}

/// Appends `n` zero bytes to a buffer (slot padding).
pub fn push_zeros(buf: &mut Vec<u8>, n: usize)
    ensures
        final(buf)@ == old(buf)@ + Seq::new(n as nat, |i: int| 0u8),
{
    let mut i: usize = 0;
    assert(buf@ =~= old(buf)@ + Seq::new(0 as nat, |j: int| 0u8));
    while i < n
        invariant
            i <= n,
            buf@ == old(buf)@ + Seq::new(i as nat, |j: int| 0u8),
        decreases n - i,
    {
        let ghost prev = buf@;
        buf.push(0u8);
        proof {
            assert(prev.push(0u8) =~= old(buf)@ + Seq::new((i + 1) as nat, |j: int| 0u8));
        }
        i = i + 1;
    }
    assert(buf@ == old(buf)@ + Seq::new(n as nat, |j: int| 0u8));
}

} // verus!
