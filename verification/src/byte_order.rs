//! Native-endian encoding of the 64-bit length that prefixes every framed
//! message.  The node targets 64-bit machines, where a `usize` length is
//! eight bytes wide.
use vstd::bytes::*;
use vstd::endian::{endianness, Endian};
use vstd::prelude::*;

verus! {

/// The eight bytes of `x` in the byte order of the machine that runs the node.
pub open spec fn native_bytes(x: u64) -> Seq<u8> {
    match endianness() {
        Endian::Little => spec_u64_to_le_bytes(x),
        Endian::Big => spec_u64_to_le_bytes(x).reverse(),
    }
}

/// The number that eight bytes stand for in the byte order of the machine.
pub open spec fn native_value(bytes: Seq<u8>) -> u64 {
    match endianness() {
        Endian::Little => spec_u64_from_le_bytes(bytes),
        Endian::Big => spec_u64_from_le_bytes(bytes.reverse()),
    }
}

proof fn lemma_reverse_twice(s: Seq<u8>)
    ensures
        s.reverse().reverse() == s,
        s.reverse().len() == s.len(),
{
    if s.len() != 0 {
        assert(s.reverse().len() == s.len());
        assert(s.reverse().reverse() =~= s);
    } else {
        assert(s.reverse().reverse() =~= s);
    }
}

/// Encoding a number and decoding its bytes gives the number back, and the
/// encoding is always eight bytes long.
pub proof fn lemma_native_roundtrip(x: u64)
    ensures
        native_bytes(x).len() == 8,
        native_value(native_bytes(x)) == x,
{
    lemma_auto_spec_u64_to_from_le_bytes();
    lemma_reverse_twice(spec_u64_to_le_bytes(x));
}

/// Eight zero bytes stand for zero, whatever the byte order.
pub proof fn lemma_native_value_zero()
    ensures
        native_value(Seq::new(8, |i: int| 0u8)) == 0,
{
    let zeros = Seq::new(8, |i: int| 0u8);
    lemma_auto_spec_u64_to_from_le_bytes();
    spec_u64_to_le_bytes_to_open(0);
    assert(0u64 & 0xff == 0) by (bit_vector);
    assert((0u64 >> 8u64) & 0xff == 0) by (bit_vector);
    assert((0u64 >> 16u64) & 0xff == 0) by (bit_vector);
    assert((0u64 >> 24u64) & 0xff == 0) by (bit_vector);
    assert((0u64 >> 32u64) & 0xff == 0) by (bit_vector);
    assert((0u64 >> 40u64) & 0xff == 0) by (bit_vector);
    assert((0u64 >> 48u64) & 0xff == 0) by (bit_vector);
    assert((0u64 >> 56u64) & 0xff == 0) by (bit_vector);
    assert(spec_u64_to_le_bytes_open(0) =~= zeros);
    assert(zeros.reverse() =~= zeros);
}

/// `u64::to_ne_bytes`: the memory representation of `x` in the byte order of
/// the machine (on the 64-bit machines the node targets, the same bytes as
/// `usize::to_ne_bytes` gives for a length).
#[verifier::external_body]
pub(crate) fn u64_to_ne_bytes(x: u64) -> (r: [u8; 8])
    ensures
        r@ == native_bytes(x),
{
    x.to_ne_bytes()
}

/// `u64::from_ne_bytes`: the number whose memory representation in the byte
/// order of the machine is `bytes`.
#[verifier::external_body]
pub(crate) fn u64_from_ne_bytes(bytes: [u8; 8]) -> (r: u64)
    ensures
        r == native_value(bytes@),
{
    u64::from_ne_bytes(bytes)
}

} // verus!
