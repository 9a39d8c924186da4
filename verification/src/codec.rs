//! Big-endian integer codec over byte sequences.
//!
//! The whisper wire format is big-endian throughout.  Everything here is
//! plain arithmetic over bytes, stated against the mathematical value of a
//! byte string and proved to round-trip.

use vstd::prelude::*;

verus! {

/// Mathematical value of a 4-byte big-endian string.
pub open spec fn spec_be32(b: Seq<u8>) -> int
    recommends
        b.len() == 4,
{
    ((b[0] * 256 + b[1]) * 256 + b[2]) * 256 + b[3]
}

/// Mathematical value of an 8-byte big-endian string.
pub open spec fn spec_be64(b: Seq<u8>) -> int
    recommends
        b.len() == 8,
{
    spec_be32(b.take(4)) * 0x1_0000_0000 + spec_be32(b.skip(4))
}

/// The 4-byte big-endian encoding of `x`, truncated to its low 32 bits.
pub open spec fn spec_be32_bytes(x: u64) -> Seq<u8> {
    seq![
        ((x / 0x100_0000) % 256) as u8,
        ((x / 0x1_0000) % 256) as u8,
        ((x / 0x100) % 256) as u8,
        (x % 256) as u8,
    ]
}

/// The 8-byte big-endian encoding of `x`.
pub open spec fn spec_be64_bytes(x: u64) -> Seq<u8> {
    spec_be32_bytes(x / 0x1_0000_0000) + spec_be32_bytes(x)
}

/// Decoding the 4-byte encoding of `x` yields `x`'s low 32 bits.
pub proof fn lemma_be32_roundtrip(x: u64)
    ensures
        spec_be32(spec_be32_bytes(x)) == x % 0x1_0000_0000,
{
    let b = spec_be32_bytes(x);
    assert(spec_be32(b) == ((x / 0x100_0000) % 256) * 0x100_0000 + ((x / 0x1_0000) % 256)
        * 0x1_0000 + ((x / 0x100) % 256) * 0x100 + x % 256);
    // Peel the four bytes off `x % 2^32` one at a time:
    // x % (y*z) == y * ((x/y) % z) + x % y.
    vstd::arithmetic::div_mod::lemma_breakdown(x as int, 0x100_0000, 0x100);
    vstd::arithmetic::div_mod::lemma_breakdown(x as int, 0x1_0000, 0x100);
    vstd::arithmetic::div_mod::lemma_breakdown(x as int, 0x100, 0x100);
    assert(x % 0x1_0000_0000 == 0x100_0000 * ((x as int / 0x100_0000) % 0x100) + x % 0x100_0000);
    assert(x % 0x100_0000 == 0x1_0000 * ((x as int / 0x1_0000) % 0x100) + x % 0x1_0000);
    assert(x % 0x1_0000 == 0x100 * ((x as int / 0x100) % 0x100) + x % 0x100);
}

/// Decoding the 8-byte encoding of `x` yields `x` exactly.
pub proof fn lemma_be64_roundtrip(x: u64)
    ensures
        spec_be64(spec_be64_bytes(x)) == x,
{
    let hi = x / 0x1_0000_0000;
    let b = spec_be64_bytes(x);
    assert(b.take(4) =~= spec_be32_bytes(hi));
    assert(b.skip(4) =~= spec_be32_bytes(x));
    lemma_be32_roundtrip(hi);
    lemma_be32_roundtrip(x);
    assert(hi % 0x1_0000_0000 == hi) by (nonlinear_arith)
        requires
            hi == x / 0x1_0000_0000,
    ;
    assert(hi * 0x1_0000_0000 + x % 0x1_0000_0000 == x) by (nonlinear_arith)
        requires
            hi == x / 0x1_0000_0000,
    ;
}

/// Reads the 4-byte big-endian integer at `pos`.
pub fn load_be32(data: &[u8], pos: usize) -> (r: u32)
    requires
        pos + 4 <= data@.len(),
    ensures
        r == spec_be32(data@.subrange(pos as int, pos + 4)),
{
    let ghost b = data@.subrange(pos as int, pos + 4);
    let r = ((data[pos] as u32) * 0x100_0000) + ((data[pos + 1] as u32) * 0x1_0000) + ((data[pos
        + 2] as u32) * 0x100) + (data[pos + 3] as u32);
    assert(b[0] == data@[pos as int] && b[1] == data@[pos + 1] && b[2] == data@[pos + 2] && b[3]
        == data@[pos + 3]);
    r
}

/// Reads the 8-byte big-endian integer at `pos`.
pub fn load_be64(data: &[u8], pos: usize) -> (r: u64)
    requires
        pos + 8 <= data@.len(),
    ensures
        r == spec_be64(data@.subrange(pos as int, pos + 8)),
{
    let n = data.len();
    proof {
        assert(pos + 8 <= n);
    }
    let hi = load_be32(data, pos);
    let lo = load_be32(data, pos + 4);
    let ghost b = data@.subrange(pos as int, pos + 8);
    proof {
        assert(b.take(4) =~= data@.subrange(pos as int, pos + 4));
        assert(b.skip(4) =~= data@.subrange(pos + 4, pos + 8));
    }
    (hi as u64) * 0x1_0000_0000 + (lo as u64)
}

/// The value of 4 bytes always fits in 32 bits.
pub proof fn lemma_be32_bounds(b: Seq<u8>)
    requires
        b.len() == 4,
    ensures
        0 <= spec_be32(b) < 0x1_0000_0000,
{
}

/// Replaces `patch.len()` bytes of `data` at `pos`, leaving the rest alone.
pub open spec fn spec_splice(data: Seq<u8>, pos: int, patch: Seq<u8>) -> Seq<u8> {
    data.take(pos) + patch + data.skip(pos + patch.len())
}

/// What each byte of a spliced sequence is.
pub proof fn lemma_splice(data: Seq<u8>, pos: int, patch: Seq<u8>)
    requires
        0 <= pos,
        pos + patch.len() <= data.len(),
    ensures
        spec_splice(data, pos, patch).len() == data.len(),
        forall|i: int|
            0 <= i < data.len() ==> #[trigger] spec_splice(data, pos, patch)[i] == if pos <= i
                < pos + patch.len() {
                patch[i - pos]
            } else {
                data[i]
            },
{
}

/// Writes the 4-byte big-endian encoding of `x`'s low 32 bits at `pos`.
pub fn store_be32(data: &mut Vec<u8>, pos: usize, x: u64)
    requires
        pos + 4 <= old(data)@.len(),
    ensures
        final(data)@ == spec_splice(old(data)@, pos as int, spec_be32_bytes(x)),
{
    let n = data.len();
    proof {
        assert(pos + 4 <= n);
    }
    let b0: u8 = ((x / 0x100_0000) % 256) as u8;
    let b1: u8 = ((x / 0x1_0000) % 256) as u8;
    let b2: u8 = ((x / 0x100) % 256) as u8;
    let b3: u8 = (x % 256) as u8;
    data[pos] = b0;
    data[pos + 1] = b1;
    data[pos + 2] = b2;
    data[pos + 3] = b3;
    proof {
        assert(data@ =~= spec_splice(old(data)@, pos as int, spec_be32_bytes(x)));
    }
}

/// Writes the 8-byte big-endian encoding of `x` at `pos`.
pub fn store_be64(data: &mut Vec<u8>, pos: usize, x: u64)
    requires
        pos + 8 <= old(data)@.len(),
    ensures
        final(data)@ == spec_splice(old(data)@, pos as int, spec_be64_bytes(x)),
{
    let n = data.len();
    proof {
        assert(pos + 8 <= n);
    }
    store_be32(data, pos, x / 0x1_0000_0000);
    store_be32(data, pos + 4, x);
    proof {
        assert(data@ =~= spec_splice(old(data)@, pos as int, spec_be64_bytes(x)));
    }
}

} // verus!
