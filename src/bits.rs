//! Bit strings, and their packing into bytes, most significant bit first.
//!
//! Bit strings are `bit_vec::BitVec`s; the byte streams of the Huffman coder
//! are written and read by `bitstream`'s length-padded writer and reader: the
//! packed bits, the last byte zero-padded, then one byte that counts the valid
//! bits of the byte before it (8 when the bits filled whole bytes).
use vstd::prelude::*;
use bit_vec::BitVec;
use bitstream::{BitReader, BitWriter, LengthPadding};

verus! {

#[verifier::external_type_specification]
#[verifier::external_body]
#[verifier::reject_recursive_types(B)]
pub struct ExBitVec<B>(BitVec<B>);

/// The bits that a bit vector holds, first to last.
pub uninterp spec fn bits_of(v: BitVec) -> Seq<bool>;

/// Bit `i` of byte `b`, counting from the most significant one.
pub open spec fn msb_bit(b: u8, i: int) -> bool {
    ((b >> ((7 - i) as u8)) & 1u8) == 1u8
}

/// Bit `i` of a byte string that is read most significant bit first.
pub open spec fn bit_at(bytes: Seq<u8>, i: int) -> bool {
    msb_bit(bytes[i / 8], i % 8)
}

/// The bits of a byte string, most significant bit of each byte first.
pub open spec fn bytes_bits(bytes: Seq<u8>) -> Seq<bool> {
    Seq::new(8 * bytes.len(), |i: int| bit_at(bytes, i))
}

/// `bytes` holds `bits`, most significant bit first, the last byte zero-padded.
pub open spec fn packs(bytes: Seq<u8>, bits: Seq<bool>) -> bool {
    &&& bytes.len() == (bits.len() + 7) / 8
    &&& forall|i: int|
        0 <= i < 8 * bytes.len() ==> #[trigger] bit_at(bytes, i) == (i < bits.len() && bits[i])
}

/// The byte that ends a length-padded stream of `n` bits: how many bits of the
/// byte before it are valid.
pub open spec fn tail_count(n: nat) -> u8 {
    if n % 8 == 0 {
        8
    } else {
        (n % 8) as u8
    }
}

/// `bytes` is the length-padded form of `bits`.
pub open spec fn length_padded(bytes: Seq<u8>, bits: Seq<bool>) -> bool {
    &&& bytes.len() >= 1
    &&& packs(bytes.drop_last(), bits)
    &&& bytes.last() == tail_count(bits.len())
}

/// Whether the count byte at the end of `bytes` can be followed by a reader.
pub open spec fn well_padded(bytes: Seq<u8>) -> bool {
    bytes.len() >= 2 ==> bytes.last() <= 8
}

/// How many bits a length-padded reader yields from `bytes`.
pub open spec fn padded_bit_count(bytes: Seq<u8>) -> int {
    if bytes.len() < 2 {
        0
    } else {
        8 * (bytes.len() - 2) + bytes.last()
    }
}

/// The bits that a length-padded reader yields from `bytes`.
pub open spec fn unpadded(bytes: Seq<u8>) -> Seq<bool> {
    Seq::new(padded_bit_count(bytes) as nat, |i: int| bit_at(bytes, i))
}

/// Reading back the length-padded form of a bit string gives the bit string.
pub proof fn lemma_unpad_padded(bytes: Seq<u8>, bits: Seq<bool>)
    requires
        length_padded(bytes, bits),
    ensures
        well_padded(bytes),
        unpadded(bytes) == bits,
{
    let body = bytes.drop_last();
    let n = bits.len();
    assert(padded_bit_count(bytes) == n);
    assert forall|i: int| 0 <= i < n implies #[trigger] bit_at(bytes, i) == bits[i] by {
        assert(bit_at(body, i) == (i < n && bits[i]));
        assert(bytes[i / 8] == body[i / 8]);
    }
    assert(unpadded(bytes) =~= bits);
}

/// Relies on `BitVec::new`: a new bit vector is empty.
#[verifier::external_body]
pub(crate) fn bits_new() -> (r: BitVec)
    ensures
        bits_of(r) == Seq::<bool>::empty(),
{
    BitVec::new()
}

/// Relies on `BitVec::push`: the bit goes after the others; it panics only
/// when the length would pass `usize::MAX`.
#[verifier::external_body]
pub(crate) fn bits_push(v: &mut BitVec, bit: bool)
    requires
        bits_of(*old(v)).len() < usize::MAX,
    ensures
        bits_of(*final(v)) == bits_of(*old(v)).push(bit),
{
    v.push(bit)
}

/// Relies on `BitVec::len`: the number of bits held.
#[verifier::external_body]
pub(crate) fn bits_len(v: &BitVec) -> (r: usize)
    ensures
        r == bits_of(*v).len(),
{
    v.len()
}

/// Relies on `BitVec::get`: the bit at `i`, `None` past the end.
#[verifier::external_body]
pub(crate) fn bits_get(v: &BitVec, i: usize) -> (r: Option<bool>)
    ensures
        i < bits_of(*v).len() ==> r == Some(bits_of(*v)[i as int]),
        i >= bits_of(*v).len() ==> r is None,
{
    v.get(i)
}

/// Relies on `BitVec`'s `Clone`: the copy holds the same bits.
#[verifier::external_body]
pub(crate) fn bits_clone(v: &BitVec) -> (r: BitVec)
    ensures
        bits_of(r) == bits_of(*v),
{
    v.clone()
}

/// Relies on `BitVec::to_bytes`: the bits, most significant bit first,
/// zero-padded to whole bytes.
#[verifier::external_body]
pub(crate) fn bits_to_bytes(v: &BitVec) -> (r: Vec<u8>)
    ensures
        packs(r@, bits_of(*v)),
{
    v.to_bytes()
}

/// Relies on `BitVec::from_bytes`: eight bits per byte, most significant first.
#[verifier::external_body]
pub(crate) fn bits_from_bytes(bytes: &[u8]) -> (r: BitVec)
    ensures
        bits_of(r) == bytes_bits(bytes@),
{
    BitVec::from_bytes(bytes)
}

/// Relies on `bitstream::BitWriter` with `LengthPadding`: it writes the bits
/// most significant bit first and, when dropped, the zero-padded last byte (if
/// any bits are left over) and the count byte. Writing to a `Vec` cannot fail.
#[verifier::external_body]
pub(crate) fn pack_length_padded(bits: &BitVec) -> (r: Vec<u8>)
    ensures
        length_padded(r@, bits_of(*bits)),
{
    let mut out: Vec<u8> = Vec::new();
    {
        let mut writer = BitWriter::with_padding(&mut out, LengthPadding::new());
        for bit in bits.iter() {
            let _ = writer.write_bit(bit);
        }
    }
    out
}

/// Relies on `bitstream::BitReader` with `LengthPadding`: it yields all bits of
/// the bytes but the last two, then as many bits of the second-to-last byte as
/// the last byte counts; fewer than two bytes yield nothing. A count above 8,
/// which its writer never makes, would have it read the count byte as data and,
/// once it runs out of buffered bytes, underflow its fill count; such input is
/// left out.
#[verifier::external_body]
pub(crate) fn unpack_length_padded(bytes: &[u8]) -> (r: BitVec)
    requires
        well_padded(bytes@),
    ensures
        bits_of(r) == unpadded(bytes@),
{
    BitReader::with_padding(bytes, LengthPadding::new()).collect()
}

} // verus!
