//! Bit sequences, held in `bit_vec::BitVec`, and the byte layout used to pack them.
use bit_vec::BitVec;
use vstd::prelude::*;

verus! {

#[verifier::external_type_specification]
#[verifier::external_body]
#[verifier::reject_recursive_types(B)]
pub struct ExBitVec<B>(BitVec<B>);

/// The bits that a bit vector holds, in order.
pub uninterp spec fn bits_of(v: BitVec) -> Seq<bool>;

/// Bit `k` (0 is the most significant) of byte `x`.
pub open spec fn byte_bit(x: u8, k: int) -> bool {
    ((x >> ((7 - k) as u8)) & 1u8) == 1u8
}

/// The eight bits of `x`, most significant first.
pub open spec fn byte_bits(x: u8) -> Seq<bool> {
    Seq::new(8, |k: int| byte_bit(x, k))
}

/// The bits of a byte sequence, eight per byte, most significant first.
pub open spec fn bytes_bits(b: Seq<u8>) -> Seq<bool> {
    Seq::new(8 * b.len(), |j: int| byte_bit(b[j / 8], j % 8))
}

/// Two bytes with the same eight bits are equal.
pub proof fn lemma_byte_bits_injective(x: u8, y: u8)
    requires
        byte_bits(x) == byte_bits(y),
    ensures
        x == y,
{
    assert forall|k: int| 0 <= k < 8 implies #[trigger] byte_bit(x, k) == byte_bit(y, k) by {
        assert(byte_bits(x)[k] == byte_bit(x, k));
        assert(byte_bits(y)[k] == byte_bit(y, k));
    }
    assert(byte_bit(x, 0) == (((x >> 7u8) & 1u8) == 1u8) && byte_bit(y, 0) == (((y >> 7u8) & 1u8) == 1u8));
    assert(byte_bit(x, 1) == (((x >> 6u8) & 1u8) == 1u8) && byte_bit(y, 1) == (((y >> 6u8) & 1u8) == 1u8));
    assert(byte_bit(x, 2) == (((x >> 5u8) & 1u8) == 1u8) && byte_bit(y, 2) == (((y >> 5u8) & 1u8) == 1u8));
    assert(byte_bit(x, 3) == (((x >> 4u8) & 1u8) == 1u8) && byte_bit(y, 3) == (((y >> 4u8) & 1u8) == 1u8));
    assert(byte_bit(x, 4) == (((x >> 3u8) & 1u8) == 1u8) && byte_bit(y, 4) == (((y >> 3u8) & 1u8) == 1u8));
    assert(byte_bit(x, 5) == (((x >> 2u8) & 1u8) == 1u8) && byte_bit(y, 5) == (((y >> 2u8) & 1u8) == 1u8));
    assert(byte_bit(x, 6) == (((x >> 1u8) & 1u8) == 1u8) && byte_bit(y, 6) == (((y >> 1u8) & 1u8) == 1u8));
    assert(byte_bit(x, 7) == (((x >> 0u8) & 1u8) == 1u8) && byte_bit(y, 7) == (((y >> 0u8) & 1u8) == 1u8));
    assert(x == y) by (bit_vector)
        requires
            (((x >> 7u8) & 1u8) == 1u8) == (((y >> 7u8) & 1u8) == 1u8),
            (((x >> 6u8) & 1u8) == 1u8) == (((y >> 6u8) & 1u8) == 1u8),
            (((x >> 5u8) & 1u8) == 1u8) == (((y >> 5u8) & 1u8) == 1u8),
            (((x >> 4u8) & 1u8) == 1u8) == (((y >> 4u8) & 1u8) == 1u8),
            (((x >> 3u8) & 1u8) == 1u8) == (((y >> 3u8) & 1u8) == 1u8),
            (((x >> 2u8) & 1u8) == 1u8) == (((y >> 2u8) & 1u8) == 1u8),
            (((x >> 1u8) & 1u8) == 1u8) == (((y >> 1u8) & 1u8) == 1u8),
            (((x >> 0u8) & 1u8) == 1u8) == (((y >> 0u8) & 1u8) == 1u8),
    ;
}

/// Relies on `BitVec::new`: an empty bit vector.
#[verifier::external_body]
pub fn bv_new() -> (r: BitVec)
    ensures
        bits_of(r) == Seq::<bool>::empty(),
{
    BitVec::new()
}

/// Relies on `BitVec::len`: the number of bits held.
#[verifier::external_body]
pub fn bv_len(v: &BitVec) -> (r: usize)
    ensures
        r == bits_of(*v).len(),
{
    v.len()
}

/// Relies on `BitVec`'s `Index<usize>`: the bit at position `i`.
#[verifier::external_body]
pub(crate) fn bv_get(v: &BitVec, i: usize) -> (r: bool)
    requires
        i < bits_of(*v).len(),
    ensures
        r == bits_of(*v)[i as int],
{
    v[i]
}

/// Relies on `BitVec::push`: appends one bit (it panics only when the length overflows).
#[verifier::external_body]
pub fn bv_push(v: &mut BitVec, b: bool)
    requires
        bits_of(*old(v)).len() < usize::MAX,
    ensures
        bits_of(*final(v)) == bits_of(*old(v)).push(b),
{
    v.push(b)
}

/// Relies on `BitVec`'s `Extend<bool>` and `BitVec::iter`: appends the bits of `b`.
#[verifier::external_body]
pub(crate) fn bv_extend(a: &mut BitVec, b: &BitVec)
    requires
        bits_of(*old(a)).len() + bits_of(*b).len() < usize::MAX,
    ensures
        bits_of(*final(a)) == bits_of(*old(a)) + bits_of(*b),
{
    a.extend(b.iter())
}

/// Relies on `BitVec::clone`: the same bits.
#[verifier::external_body]
pub(crate) fn bv_clone(v: &BitVec) -> (r: BitVec)
    ensures
        bits_of(r) == bits_of(*v),
{
    v.clone()
}

/// Relies on `BitVec::truncate`: keeps the first `len` bits, or all when there are fewer.
#[verifier::external_body]
pub(crate) fn bv_truncate(v: &mut BitVec, len: usize)
    ensures
        len < bits_of(*old(v)).len() ==> bits_of(*final(v)) == bits_of(*old(v)).subrange(0, len as int),
        len >= bits_of(*old(v)).len() ==> bits_of(*final(v)) == bits_of(*old(v)),
{
    v.truncate(len)
}

/// Relies on `BitVec::from_bytes`: eight bits per byte, the most significant first
/// (it panics only when the bit count overflows).
#[verifier::external_body]
pub(crate) fn bv_from_bytes(b: &[u8]) -> (r: BitVec)
    requires
        8 * b@.len() <= usize::MAX,
    ensures
        bits_of(r) == bytes_bits(b@),
{
    BitVec::from_bytes(b)
}

/// Relies on `BitVec::to_bytes`: the first bit becomes the high-order bit of the
/// first byte, and the last byte is filled with `false` bits.
#[verifier::external_body]
pub(crate) fn bv_to_bytes(v: &BitVec) -> (r: Vec<u8>)
    ensures
        r@.len() == bits_of(*v).len() / 8 + (if bits_of(*v).len() % 8 == 0 { 0int } else { 1int }),
        forall|j: int|
            0 <= j < 8 * r@.len() ==> #[trigger] byte_bit(r@[j / 8], j % 8) == (j < bits_of(*v).len()
                && bits_of(*v)[j]),
{
    v.to_bytes()
}

} // verus!
