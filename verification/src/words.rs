//! Little-endian words: how the bytes of a vertex are read as numbers.

use vstd::prelude::*;

verus! {

/// Bytes in one 32-bit word.
pub const WORD_SIZE: usize = 4;

/// Bytes in one vertex: three words, one per axis.
pub const VEC_SIZE: usize = 12;

/// The number that the first four bytes of `s` spell, least significant byte first.
pub open spec fn le_word(s: Seq<u8>) -> nat
    recommends
        s.len() >= 4,
{
    (s[0] as nat) + 0x100 * (s[1] as nat) + 0x1_0000 * (s[2] as nat) + 0x100_0000 * (s[3] as nat)
}

/// The three words of a vertex: its coordinates, as bit patterns.
pub open spec fn decode(s: Seq<u8>) -> Seq<u32>
    recommends
        s.len() >= 12,
{
    seq![
        le_word(s.subrange(0, 4)) as u32,
        le_word(s.subrange(4, 8)) as u32,
        le_word(s.subrange(8, 12)) as u32,
    ]
}

/// One number for three words: the content of a vertex as a single 96-bit value.
pub open spec fn pack(w: Seq<u32>) -> nat
    recommends
        w.len() == 3,
{
    (w[0] as nat) + 0x1_0000_0000 * (w[1] as nat) + 0x1_0000_0000_0000_0000 * (w[2] as nat)
}

/// A word never exceeds 32 bits.
pub proof fn lemma_le_word_bound(s: Seq<u8>)
    ensures
        le_word(s) <= u32::MAX,
{
}

/// Four bytes are determined by the word they spell.
pub proof fn lemma_le_word_injective(a: Seq<u8>, b: Seq<u8>)
    requires
        a.len() == 4,
        b.len() == 4,
        le_word(a) == le_word(b),
    ensures
        a == b,
{
    assert(a[0] == b[0] && a[1] == b[1] && a[2] == b[2] && a[3] == b[3]);
    assert(a =~= b);
}

/// Twelve bytes are determined by the three words they spell.
pub proof fn lemma_decode_injective(a: Seq<u8>, b: Seq<u8>)
    requires
        a.len() == 12,
        b.len() == 12,
        decode(a) == decode(b),
    ensures
        a == b,
{
    assert(decode(a)[0] == decode(b)[0]);
    assert(decode(a)[1] == decode(b)[1]);
    assert(decode(a)[2] == decode(b)[2]);
    lemma_le_word_bound(a.subrange(0, 4));
    lemma_le_word_bound(b.subrange(0, 4));
    lemma_le_word_bound(a.subrange(4, 8));
    lemma_le_word_bound(b.subrange(4, 8));
    lemma_le_word_bound(a.subrange(8, 12));
    lemma_le_word_bound(b.subrange(8, 12));
    lemma_le_word_injective(a.subrange(0, 4), b.subrange(0, 4));
    lemma_le_word_injective(a.subrange(4, 8), b.subrange(4, 8));
    lemma_le_word_injective(a.subrange(8, 12), b.subrange(8, 12));
    assert forall|i: int| 0 <= i < 12 implies a[i] == b[i] by {
        if i < 4 {
            assert(a[i] == a.subrange(0, 4)[i]);
            assert(b[i] == b.subrange(0, 4)[i]);
        } else if i < 8 {
            assert(a[i] == a.subrange(4, 8)[i - 4]);
            assert(b[i] == b.subrange(4, 8)[i - 4]);
        } else {
            assert(a[i] == a.subrange(8, 12)[i - 8]);
            assert(b[i] == b.subrange(8, 12)[i - 8]);
        }
    }
    assert(a =~= b);
}

/// Three words are determined by the number they pack into.
pub proof fn lemma_pack_injective(v: Seq<u32>, w: Seq<u32>)
    requires
        v.len() == 3,
        w.len() == 3,
        pack(v) == pack(w),
    ensures
        v == w,
{
    assert(v[0] == w[0] && v[1] == w[1] && v[2] == w[2]);
    assert(v =~= w);
}

/// Reads one little-endian word from the front of `bytes` with `nom::le_u32`.
///
/// Trusted: with fewer than four bytes nom reports that it needs more input,
/// which comes back as `None`; otherwise it sums the first four bytes, each
/// shifted to its place, which is `le_word`.
#[verifier::external_body]
pub(crate) fn le_u32(bytes: &[u8]) -> (r: Option<u32>)
    ensures
        bytes@.len() < 4 ==> r is None,
        bytes@.len() >= 4 ==> r == Some(le_word(bytes@) as u32),
{
    match nom::le_u32(bytes) {
        Ok((_, word)) => Some(word),
        Err(_) => None,
    }
}

/// Reads the three words of a vertex from the front of `bytes`.
///
/// Returns `None` exactly when fewer than twelve bytes are there.
pub fn parse_vec(bytes: &[u8]) -> (r: Option<[u32; 3]>)
    ensures
        bytes@.len() < 12 ==> r is None,
        bytes@.len() >= 12 ==> r is Some && r.unwrap()@ == decode(bytes@.subrange(0, 12)),
{
    let n = bytes.len();
    if n < VEC_SIZE {
        return None;
    }
    let x = le_u32(&bytes[0..n]);
    let y = le_u32(&bytes[4..n]);
    let z = le_u32(&bytes[8..n]);
    match (x, y, z) {
        (Some(x), Some(y), Some(z)) => {
            let w = [x, y, z];
            proof {
                let s = bytes@.subrange(0, 12);
                assert(le_word(bytes@.subrange(0, n as int)) == le_word(s.subrange(0, 4)));
                assert(le_word(bytes@.subrange(4, n as int)) == le_word(s.subrange(4, 8)));
                assert(le_word(bytes@.subrange(8, n as int)) == le_word(s.subrange(8, 12)));
                assert(w@ =~= decode(s));
            }
            Some(w)
        },
        _ => None,
    }
}

/// Packs three words into the one number that identifies their content.
pub fn pack_words(w: &[u32; 3]) -> (c: u128)
    ensures
        c == pack(w@),
{
    let lo: u128 = w[0] as u128;
    let mid: u128 = w[1] as u128;
    let hi: u128 = w[2] as u128;
    lo + 0x1_0000_0000u128 * mid + 0x1_0000_0000_0000_0000u128 * hi
}

} // verus!
