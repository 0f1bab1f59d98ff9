//! 16-bit symbols stored as little-endian byte pairs.
use vstd::prelude::*;

verus! {

/// The words that the byte pairs of `b` spell, low byte first; a last odd
/// byte is ignored.
pub open spec fn le_words(b: Seq<u8>) -> Seq<u16> {
    Seq::new(b.len() / 2, |i: int| (b[2 * i] + 256 * b[2 * i + 1]) as u16)
}

/// The bytes of the words of `w`, low byte first.
pub open spec fn le_bytes(w: Seq<u16>) -> Seq<u8> {
    Seq::new(
        2 * w.len(),
        |i: int|
            if i % 2 == 0 {
                (w[i / 2] % 256) as u8
            } else {
                (w[i / 2] / 256) as u8
            },
    )
}

/// Reads little-endian words back from their bytes.
pub proof fn lemma_words_round_trip(w: Seq<u16>)
    ensures
        le_words(le_bytes(w)) == w,
{
    let b = le_bytes(w);
    assert forall|i: int| 0 <= i < w.len() implies le_words(b)[i] == w[i] by {
        assert((2 * i) / 2 == i);
        assert((2 * i + 1) / 2 == i);
        assert((2 * i) % 2 == 0);
        assert((2 * i + 1) % 2 == 1);
    }
    assert(le_words(b) =~= w);
}

/// The words that the byte pairs of `b` spell, low byte first.
pub fn words_from_le_bytes(b: &[u8]) -> (r: Vec<u16>)
    ensures
        r@ == le_words(b@),
{
    let n = b.len() / 2;
    let mut out: Vec<u16> = Vec::new();
    let mut i: usize = 0;
    while i < n
        invariant
            n == b@.len() / 2,
            b@.len() <= usize::MAX,
            i <= n,
            out@ =~= le_words(b@).subrange(0, i as int),
        decreases n - i,
    {
        proof {
            assert(2 * i + 1 < b@.len());
        }
        let w = b[2 * i] as u16 + 256 * (b[2 * i + 1] as u16);
        out.push(w);
        i += 1;
    }
    out
}

/// The bytes of the words of `w`, low byte first.
pub fn words_to_le_bytes(w: &[u16]) -> (r: Vec<u8>)
    ensures
        r@ == le_bytes(w@),
{
    let mut out: Vec<u8> = Vec::new();
    let mut i: usize = 0;
    while i < w.len()
        invariant
            i <= w@.len(),
            out@ =~= le_bytes(w@).subrange(0, 2 * i),
        decreases w@.len() - i,
    {
        let x = w[i];
        out.push((x % 256) as u8);
        out.push((x / 256) as u8);
        proof {
            assert((2 * i) as int / 2 == i);
            assert((2 * i + 1) as int / 2 == i);
        }
        i += 1;
    }
    out
}

} // verus!
