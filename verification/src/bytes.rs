//! Big-endian integers on the wire, read and written through `byteorder`.

use byteorder::{BigEndian, ReadBytesExt, WriteBytesExt};
use vstd::prelude::*;

verus! {

/// The four bytes of `v`, most significant first.
pub open spec fn be_bytes(v: u32) -> Seq<u8> {
    seq![
        ((v >> 24u32) & 0xffu32) as u8,
        ((v >> 16u32) & 0xffu32) as u8,
        ((v >> 8u32) & 0xffu32) as u8,
        (v & 0xffu32) as u8,
    ]
}

/// The value of the first four bytes of `b`, read most significant first.
pub open spec fn be_value(b: Seq<u8>) -> u32
    recommends
        b.len() >= 4,
{
    ((b[0] as u32) << 24u32) | ((b[1] as u32) << 16u32) | ((b[2] as u32) << 8u32) | (b[3] as u32)
}

/// Reading back the bytes of a value gives the value.
pub proof fn lemma_be_value_of_bytes(v: u32)
    ensures
        be_value(be_bytes(v)) == v,
{
    let b0 = ((v >> 24u32) & 0xffu32) as u8;
    let b1 = ((v >> 16u32) & 0xffu32) as u8;
    let b2 = ((v >> 8u32) & 0xffu32) as u8;
    let b3 = (v & 0xffu32) as u8;
    assert(be_bytes(v)[0] == b0 && be_bytes(v)[1] == b1 && be_bytes(v)[2] == b2 && be_bytes(v)[3]
        == b3);
    assert(((b0 as u32) << 24u32) | ((b1 as u32) << 16u32) | ((b2 as u32) << 8u32) | (b3 as u32)
        == v) by (bit_vector)
        requires
            b0 == ((v >> 24u32) & 0xffu32) as u8,
            b1 == ((v >> 16u32) & 0xffu32) as u8,
            b2 == ((v >> 8u32) & 0xffu32) as u8,
            b3 == (v & 0xffu32) as u8,
    ;
}

/// Writing the value of four bytes gives those bytes back.
pub proof fn lemma_be_bytes_of_value(b: Seq<u8>)
    requires
        b.len() == 4,
    ensures
        be_bytes(be_value(b)) == b,
{
    let (b0, b1, b2, b3) = (b[0], b[1], b[2], b[3]);
    let v = be_value(b);
    assert(v == ((b0 as u32) << 24u32) | ((b1 as u32) << 16u32) | ((b2 as u32) << 8u32) | (
    b3 as u32));
    assert(((v >> 24u32) & 0xffu32) as u8 == b0 && ((v >> 16u32) & 0xffu32) as u8 == b1 && ((v
        >> 8u32) & 0xffu32) as u8 == b2 && (v & 0xffu32) as u8 == b3) by (bit_vector)
        requires
            v == ((b0 as u32) << 24u32) | ((b1 as u32) << 16u32) | ((b2 as u32) << 8u32) | (
            b3 as u32),
    ;
    assert(be_bytes(v) =~= b);
}

/// The bytes of a value are its base-256 digits, most significant first.
pub proof fn lemma_be_bytes_are_digits(v: u32)
    ensures
        be_bytes(v).len() == 4,
        be_bytes(v)[0] as int == v as int / 0x1000000,
        be_bytes(v)[1] as int == (v as int / 0x10000) % 0x100,
        be_bytes(v)[2] as int == (v as int / 0x100) % 0x100,
        be_bytes(v)[3] as int == v as int % 0x100,
{
    assert(((v >> 24u32) & 0xffu32) as u8 == v / 0x1000000) by (bit_vector);
    assert(((v >> 16u32) & 0xffu32) as u8 == (v / 0x10000) % 0x100) by (bit_vector);
    assert(((v >> 8u32) & 0xffu32) as u8 == (v / 0x100) % 0x100) by (bit_vector);
    assert((v & 0xffu32) as u8 == v % 0x100) by (bit_vector);
}

/// Four bytes read as a value weigh the first byte most.
pub proof fn lemma_be_value_is_weighted_sum(b: Seq<u8>)
    requires
        b.len() >= 4,
    ensures
        be_value(b) as int == b[0] as int * 0x1000000 + b[1] as int * 0x10000 + b[2] as int * 0x100
            + b[3] as int,
{
    let (b0, b1, b2, b3) = (b[0], b[1], b[2], b[3]);
    assert(((b0 as u32) << 24u32) | ((b1 as u32) << 16u32) | ((b2 as u32) << 8u32) | (b3 as u32)
        == b0 as u32 * 0x1000000 + b1 as u32 * 0x10000 + b2 as u32 * 0x100 + b3 as u32)
        by (bit_vector);
}

/// Only the first four bytes count.
pub proof fn lemma_be_value_prefix(a: Seq<u8>, b: Seq<u8>)
    requires
        a.len() >= 4,
        b.len() >= 4,
        a.take(4) == b.take(4),
    ensures
        be_value(a) == be_value(b),
{
    assert(a[0] == a.take(4)[0] && a[1] == a.take(4)[1] && a[2] == a.take(4)[2] && a[3] == a.take(
        4,
    )[3]);
    assert(b[0] == b.take(4)[0] && b[1] == b.take(4)[1] && b[2] == b.take(4)[2] && b[3] == b.take(
        4,
    )[3]);
}

/// Appends the bytes of `src` to `dst`.
pub(crate) fn append_bytes(dst: &mut Vec<u8>, src: &[u8])
    ensures
        final(dst)@ == old(dst)@ + src@,
{
    let ghost start = dst@;
    let mut i: usize = 0;
    while i < src.len()
        invariant
            i <= src@.len(),
            dst@ == start + src@.take(i as int),
        decreases src@.len() - i,
    {
        dst.push(src[i]);
        i = i + 1;
        assert(src@.take(i as int) == src@.take(i - 1).push(src@[i - 1]));
    }
    assert(src@.take(i as int) == src@);
}

/// Fills `dst` with the bytes of `src` from `start` on.
pub(crate) fn fill_from(dst: &mut [u8], src: &[u8], start: usize)
    requires
        start + old(dst)@.len() <= src@.len(),
    ensures
        final(dst)@ == src@.subrange(start as int, start + old(dst)@.len()),
{
    let n = dst.len();
    let m = src.len();
    let mut i: usize = 0;
    while i < n
        invariant
            n == dst@.len(),
            m == src@.len(),
            start + n <= m,
            i <= n,
            forall|k: int| 0 <= k < i ==> dst@[k] == src@[start + k],
        decreases n - i,
    {
        dst[i] = src[start + i];
        i = i + 1;
    }
    assert(dst@ =~= src@.subrange(start as int, start + n));
}

/// Appends `v` to `buf` with `byteorder`'s `WriteBytesExt::write_u32::<BigEndian>`.
/// The contract claims that the four big-endian bytes of `v` are appended and
/// nothing else changes: byteorder encodes with `u32::to_be_bytes` and hands
/// the bytes to `write_all`, which on a `Vec<u8>` appends them and never fails.
#[verifier::external_body]
pub(crate) fn append_u32_be(buf: &mut Vec<u8>, v: u32)
    ensures
        final(buf)@ == old(buf)@ + be_bytes(v),
{
    match buf.write_u32::<BigEndian>(v) {
        Ok(()) => {},
        Err(_) => {},
    }
}

/// Reads a big-endian `u32` at `pos` with `byteorder`'s
/// `ReadBytesExt::read_u32::<BigEndian>` on the rest of `bytes`. The contract
/// claims `None` exactly when fewer than four bytes are left (byteorder's
/// `read_exact` then fails) and otherwise the value of the next four bytes.
#[verifier::external_body]
pub(crate) fn read_u32_be(bytes: &[u8], pos: usize) -> (r: Option<u32>)
    requires
        pos <= bytes@.len(),
    ensures
        r == (if bytes@.len() - pos >= 4 {
            Some(be_value(bytes@.skip(pos as int)))
        } else {
            None::<u32>
        }),
{
    let mut rest: &[u8] = &bytes[pos..];
    rest.read_u32::<BigEndian>().ok()
}

} // verus!
