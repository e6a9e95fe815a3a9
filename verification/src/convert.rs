//! Stateless conversions between byte sequences, 32-bit word sequences and
//! bit sequences, most-significant bit first.
//!
//! These are pure, total functions: packing consumes bits in groups of 8
//! (or 32) and drops any trailing remainder shorter than a group.

use vstd::prelude::*;

verus! {

/// Numeric value of one bit.
pub open spec fn bitval(b: bool) -> int {
    if b {
        1
    } else {
        0
    }
}

/// Bit `k` of a byte, most-significant first (`k == 0` is the top bit).
pub open spec fn bit_of_byte(b: u8, k: int) -> bool {
    (b >> ((7 - k) as u8)) & 1 == 1
}

/// Bit `k` of a 32-bit word, most-significant first.
pub open spec fn bit_of_word(w: u32, k: int) -> bool {
    (w >> ((31 - k) as u32)) & 1 == 1
}

/// The bit stream of a byte sequence: 8 bits per byte, MSB first.
pub open spec fn spec_bits_of_bytes(s: Seq<u8>) -> Seq<bool> {
    Seq::new(s.len() * 8, |i: int| bit_of_byte(s[i / 8], i % 8))
}

/// The bit stream of a word sequence: 32 bits per word, MSB first.
pub open spec fn spec_bits_of_words(s: Seq<u32>) -> Seq<bool> {
    Seq::new(s.len() * 32, |i: int| bit_of_word(s[i / 32], i % 32))
}

/// The byte assembled from 8 bits, MSB first.
pub open spec fn spec_byte_of_bits(bits: Seq<bool>) -> u8 {
    (bitval(bits[0]) * 128 + bitval(bits[1]) * 64 + bitval(bits[2]) * 32 + bitval(bits[3]) * 16
        + bitval(bits[4]) * 8 + bitval(bits[5]) * 4 + bitval(bits[6]) * 2 + bitval(bits[7])) as u8
}

/// The word assembled from 32 bits, MSB first: its four bytes weighted by
/// powers of 256.
pub open spec fn spec_word_of_bits(bits: Seq<bool>) -> u32 {
    (spec_byte_of_bits(bits.subrange(0, 8)) * 0x1000000 + spec_byte_of_bits(bits.subrange(8, 16))
        * 0x10000 + spec_byte_of_bits(bits.subrange(16, 24)) * 0x100 + spec_byte_of_bits(
        bits.subrange(24, 32),
    )) as u32
}

/// The byte sequence packed from a bit stream in groups of 8, MSB first;
/// a trailing remainder shorter than 8 bits is dropped.
pub open spec fn spec_bytes_of_bits(bits: Seq<bool>) -> Seq<u8> {
    Seq::new(bits.len() / 8, |j: int| spec_byte_of_bits(bits.subrange(8 * j, 8 * j + 8)))
}

/// The word sequence packed from a bit stream in groups of 32, MSB first;
/// a trailing remainder shorter than 32 bits is dropped.
pub open spec fn spec_words_of_bits(bits: Seq<bool>) -> Seq<u32> {
    Seq::new(bits.len() / 32, |j: int| spec_word_of_bits(bits.subrange(32 * j, 32 * j + 32)))
}

/// Reassembling the 8 bits of a byte gives the byte back.
pub proof fn lemma_byte_bits_identity(b: u8)
    ensures
        spec_byte_of_bits(Seq::new(8, |k: int| bit_of_byte(b, k))) == b,
{
    let s = Seq::new(8, |k: int| bit_of_byte(b, k));
    assert((b >> 7u8) & 1 <= 1 && (b >> 6u8) & 1 <= 1 && (b >> 5u8) & 1 <= 1 && (b >> 4u8) & 1 <= 1
        && (b >> 3u8) & 1 <= 1 && (b >> 2u8) & 1 <= 1 && (b >> 1u8) & 1 <= 1 && (b >> 0u8) & 1
        <= 1) by (bit_vector);
    assert(((b >> 7u8) & 1) * 128 + ((b >> 6u8) & 1) * 64 + ((b >> 5u8) & 1) * 32 + ((b >> 4u8) & 1)
        * 16 + ((b >> 3u8) & 1) * 8 + ((b >> 2u8) & 1) * 4 + ((b >> 1u8) & 1) * 2 + ((b >> 0u8) & 1)
        == b) by (bit_vector);
    assert(bitval(s[0]) == ((b >> 7u8) & 1));
    assert(bitval(s[1]) == ((b >> 6u8) & 1));
    assert(bitval(s[2]) == ((b >> 5u8) & 1));
    assert(bitval(s[3]) == ((b >> 4u8) & 1));
    assert(bitval(s[4]) == ((b >> 3u8) & 1));
    assert(bitval(s[5]) == ((b >> 2u8) & 1));
    assert(bitval(s[6]) == ((b >> 1u8) & 1));
    assert(bitval(s[7]) == ((b >> 0u8) & 1));
}

/// Reassembling the 32 bits of a word gives the word back.
pub proof fn lemma_word_bits_identity(w: u32)
    ensures
        spec_word_of_bits(Seq::new(32, |k: int| bit_of_word(w, k))) == w,
{
    let s = Seq::new(32, |k: int| bit_of_word(w, k));
    assert((w >> 31u32) & 1 <= 1 && (w >> 30u32) & 1 <= 1 && (w >> 29u32) & 1 <= 1 && (w >> 28u32)
        & 1 <= 1 && (w >> 27u32) & 1 <= 1 && (w >> 26u32) & 1 <= 1 && (w >> 25u32) & 1 <= 1 && (w
        >> 24u32) & 1 <= 1 && (w >> 23u32) & 1 <= 1 && (w >> 22u32) & 1 <= 1 && (w >> 21u32) & 1
        <= 1 && (w >> 20u32) & 1 <= 1 && (w >> 19u32) & 1 <= 1 && (w >> 18u32) & 1 <= 1 && (w
        >> 17u32) & 1 <= 1 && (w >> 16u32) & 1 <= 1 && (w >> 15u32) & 1 <= 1 && (w >> 14u32) & 1
        <= 1 && (w >> 13u32) & 1 <= 1 && (w >> 12u32) & 1 <= 1 && (w >> 11u32) & 1 <= 1 && (w
        >> 10u32) & 1 <= 1 && (w >> 9u32) & 1 <= 1 && (w >> 8u32) & 1 <= 1 && (w >> 7u32) & 1 <= 1
        && (w >> 6u32) & 1 <= 1 && (w >> 5u32) & 1 <= 1 && (w >> 4u32) & 1 <= 1 && (w >> 3u32) & 1
        <= 1 && (w >> 2u32) & 1 <= 1 && (w >> 1u32) & 1 <= 1 && (w >> 0u32) & 1 <= 1) by (bit_vector);
    let q0 = s.subrange(0, 8);
    let q1 = s.subrange(8, 16);
    let q2 = s.subrange(16, 24);
    let q3 = s.subrange(24, 32);
    assert(((w >> 31u32) & 1) * 128 + ((w >> 30u32) & 1) * 64 + ((w >> 29u32) & 1) * 32 + ((w
        >> 28u32) & 1) * 16 + ((w >> 27u32) & 1) * 8 + ((w >> 26u32) & 1) * 4 + ((w >> 25u32) & 1)
        * 2 + ((w >> 24u32) & 1) == (w >> 24u32) & 0xFF) by (bit_vector);
    assert(((w >> 23u32) & 1) * 128 + ((w >> 22u32) & 1) * 64 + ((w >> 21u32) & 1) * 32 + ((w
        >> 20u32) & 1) * 16 + ((w >> 19u32) & 1) * 8 + ((w >> 18u32) & 1) * 4 + ((w >> 17u32) & 1)
        * 2 + ((w >> 16u32) & 1) == (w >> 16u32) & 0xFF) by (bit_vector);
    assert(((w >> 15u32) & 1) * 128 + ((w >> 14u32) & 1) * 64 + ((w >> 13u32) & 1) * 32 + ((w
        >> 12u32) & 1) * 16 + ((w >> 11u32) & 1) * 8 + ((w >> 10u32) & 1) * 4 + ((w >> 9u32) & 1)
        * 2 + ((w >> 8u32) & 1) == (w >> 8u32) & 0xFF) by (bit_vector);
    assert(((w >> 7u32) & 1) * 128 + ((w >> 6u32) & 1) * 64 + ((w >> 5u32) & 1) * 32 + ((w >> 4u32)
        & 1) * 16 + ((w >> 3u32) & 1) * 8 + ((w >> 2u32) & 1) * 4 + ((w >> 1u32) & 1) * 2 + ((w
        >> 0u32) & 1) == (w >> 0u32) & 0xFF) by (bit_vector);
    assert(((w >> 24u32) & 0xFF) * 0x1000000 + ((w >> 16u32) & 0xFF) * 0x10000 + ((w >> 8u32)
        & 0xFF) * 0x100 + ((w >> 0u32) & 0xFF) == w) by (bit_vector);
    assert(bitval(q0[0]) == ((w >> 31u32) & 1));
    assert(bitval(q0[1]) == ((w >> 30u32) & 1));
    assert(bitval(q0[2]) == ((w >> 29u32) & 1));
    assert(bitval(q0[3]) == ((w >> 28u32) & 1));
    assert(bitval(q0[4]) == ((w >> 27u32) & 1));
    assert(bitval(q0[5]) == ((w >> 26u32) & 1));
    assert(bitval(q0[6]) == ((w >> 25u32) & 1));
    assert(bitval(q0[7]) == ((w >> 24u32) & 1));
    assert(spec_byte_of_bits(q0) == (w >> 24u32) & 0xFF);
    assert(bitval(q1[0]) == ((w >> 23u32) & 1));
    assert(bitval(q1[1]) == ((w >> 22u32) & 1));
    assert(bitval(q1[2]) == ((w >> 21u32) & 1));
    assert(bitval(q1[3]) == ((w >> 20u32) & 1));
    assert(bitval(q1[4]) == ((w >> 19u32) & 1));
    assert(bitval(q1[5]) == ((w >> 18u32) & 1));
    assert(bitval(q1[6]) == ((w >> 17u32) & 1));
    assert(bitval(q1[7]) == ((w >> 16u32) & 1));
    assert(spec_byte_of_bits(q1) == (w >> 16u32) & 0xFF);
    assert(bitval(q2[0]) == ((w >> 15u32) & 1));
    assert(bitval(q2[1]) == ((w >> 14u32) & 1));
    assert(bitval(q2[2]) == ((w >> 13u32) & 1));
    assert(bitval(q2[3]) == ((w >> 12u32) & 1));
    assert(bitval(q2[4]) == ((w >> 11u32) & 1));
    assert(bitval(q2[5]) == ((w >> 10u32) & 1));
    assert(bitval(q2[6]) == ((w >> 9u32) & 1));
    assert(bitval(q2[7]) == ((w >> 8u32) & 1));
    assert(spec_byte_of_bits(q2) == (w >> 8u32) & 0xFF);
    assert(bitval(q3[0]) == ((w >> 7u32) & 1));
    assert(bitval(q3[1]) == ((w >> 6u32) & 1));
    assert(bitval(q3[2]) == ((w >> 5u32) & 1));
    assert(bitval(q3[3]) == ((w >> 4u32) & 1));
    assert(bitval(q3[4]) == ((w >> 3u32) & 1));
    assert(bitval(q3[5]) == ((w >> 2u32) & 1));
    assert(bitval(q3[6]) == ((w >> 1u32) & 1));
    assert(bitval(q3[7]) == ((w >> 0u32) & 1));
    assert(spec_byte_of_bits(q3) == (w >> 0u32) & 0xFF);
}

/// Packing the bit stream of a byte sequence back into bytes restores the
/// sequence exactly: `bits_to_bytes(bytes_to_bits(B)) == B`.
pub proof fn lemma_bytes_round_trip(bytes: Seq<u8>)
    ensures
        spec_bytes_of_bits(spec_bits_of_bytes(bytes)) == bytes,
{
    let bits = spec_bits_of_bytes(bytes);
    assert forall|j: int| 0 <= j < bytes.len() implies spec_byte_of_bits(
        bits.subrange(8 * j, 8 * j + 8),
    ) == bytes[j] by {
        assert(bits.subrange(8 * j, 8 * j + 8) =~= Seq::new(
            8,
            |k: int| bit_of_byte(bytes[j], k),
        )) by {
            assert forall|k: int| 0 <= k < 8 implies bits[8 * j + k] == bit_of_byte(
                bytes[j],
                k,
            ) by {
                assert((8 * j + k) / 8 == j);
                assert((8 * j + k) % 8 == k);
            }
        }
        lemma_byte_bits_identity(bytes[j]);
    }
    assert(spec_bytes_of_bits(bits) =~= bytes);
}

/// Packing the bit stream of a word sequence back into words restores the
/// sequence exactly: `bits_to_words(words_to_bits(W)) == W`.
pub proof fn lemma_words_round_trip(words: Seq<u32>)
    ensures
        spec_words_of_bits(spec_bits_of_words(words)) == words,
{
    let bits = spec_bits_of_words(words);
    assert forall|j: int| 0 <= j < words.len() implies spec_word_of_bits(
        bits.subrange(32 * j, 32 * j + 32),
    ) == words[j] by {
        assert(bits.subrange(32 * j, 32 * j + 32) =~= Seq::new(
            32,
            |k: int| bit_of_word(words[j], k),
        )) by {
            assert forall|k: int| 0 <= k < 32 implies bits[32 * j + k] == bit_of_word(
                words[j],
                k,
            ) by {
                assert((32 * j + k) / 32 == j);
                assert((32 * j + k) % 32 == k);
            }
        }
        lemma_word_bits_identity(words[j]);
    }
    assert(spec_words_of_bits(bits) =~= words);
}

/// Expands each byte into its 8 bits, most-significant bit first.
pub fn rip_binary(byte_data: Vec<u8>) -> (r: Vec<bool>)
    ensures
        r@ == spec_bits_of_bytes(byte_data@),
{
    let mut binary_data: Vec<bool> = Vec::new();
    let mut i: usize = 0;
    while i < byte_data.len()
        invariant
            i <= byte_data.len(),
            binary_data@ == spec_bits_of_bytes(byte_data@.take(i as int)),
        decreases byte_data.len() - i,
    {
        let b: u8 = byte_data[i];
        binary_data.push((b >> 7u8) & 1 == 1);
        binary_data.push((b >> 6u8) & 1 == 1);
        binary_data.push((b >> 5u8) & 1 == 1);
        binary_data.push((b >> 4u8) & 1 == 1);
        binary_data.push((b >> 3u8) & 1 == 1);
        binary_data.push((b >> 2u8) & 1 == 1);
        binary_data.push((b >> 1u8) & 1 == 1);
        binary_data.push((b >> 0u8) & 1 == 1);
        proof {
            let pre = byte_data@.take(i as int);
            let post = byte_data@.take(i as int + 1);
            assert forall|t: int| 0 <= t < post.len() * 8 implies spec_bits_of_bytes(post)[t]
                == binary_data@[t] by {
                if t < 8 * i {
                    assert(t / 8 < i as int);
                    assert(post[t / 8] == pre[t / 8]);
                } else {
                    assert(t / 8 == i as int);
                    assert(t % 8 == t - 8 * (i as int));
                }
            }
            assert(binary_data@ =~= spec_bits_of_bytes(post));
        }
        i = i + 1;
    }
    proof {
        assert(byte_data@.take(byte_data@.len() as int) =~= byte_data@);
    }
    binary_data
}

/// Expands each 32-bit word into its 32 bits, most-significant bit first.
pub fn rip_binary_u32(bytes: Vec<u32>) -> (r: Vec<bool>)
    ensures
        r@ == spec_bits_of_words(bytes@),
{
    let mut binary_data: Vec<bool> = Vec::new();
    let mut i: usize = 0;
    while i < bytes.len()
        invariant
            i <= bytes.len(),
            binary_data@ == spec_bits_of_words(bytes@.take(i as int)),
        decreases bytes.len() - i,
    {
        let w: u32 = bytes[i];
        let mut k: u32 = 0;
        while k < 32
            invariant
                k <= 32,
                binary_data@ == spec_bits_of_words(bytes@.take(i as int)) + Seq::new(
                    k as nat,
                    |t: int| bit_of_word(w, t),
                ),
            decreases 32 - k,
        {
            binary_data.push((w >> ((31 - k) as u32)) & 1 == 1);
            proof {
                assert(bit_of_word(w, k as int) == ((w >> ((31 - k as int) as u32)) & 1 == 1));
                assert(binary_data@ =~= spec_bits_of_words(bytes@.take(i as int)) + Seq::new(
                    k as nat + 1,
                    |t: int| bit_of_word(w, t),
                ));
            }
            k = k + 1;
        }
        proof {
            let pre = bytes@.take(i as int);
            let post = bytes@.take(i as int + 1);
            assert forall|t: int| 0 <= t < post.len() * 32 implies spec_bits_of_words(post)[t]
                == binary_data@[t] by {
                if t < 32 * i {
                    assert(t / 32 < i as int);
                    assert(post[t / 32] == pre[t / 32]);
                } else {
                    assert(t / 32 == i as int);
                    assert(t % 32 == t - 32 * (i as int));
                }
            }
            assert(binary_data@ =~= spec_bits_of_words(post));
        }
        i = i + 1;
    }
    proof {
        assert(bytes@.take(bytes@.len() as int) =~= bytes@);
    }
    binary_data
}

/// The byte packed from `bits[p .. p + 8]`, MSB first.
fn byte_from(bits: &Vec<bool>, p: usize) -> (r: u8)
    requires
        p + 8 <= bits@.len(),
    ensures
        r == spec_byte_of_bits(bits@.subrange(p as int, p as int + 8)),
{
    let n: usize = bits.len();
    let byte: u8 = (if bits[p] {
        128u8
    } else {
        0u8
    }) + (if bits[p + 1] {
        64u8
    } else {
        0u8
    }) + (if bits[p + 2] {
        32u8
    } else {
        0u8
    }) + (if bits[p + 3] {
        16u8
    } else {
        0u8
    }) + (if bits[p + 4] {
        8u8
    } else {
        0u8
    }) + (if bits[p + 5] {
        4u8
    } else {
        0u8
    }) + (if bits[p + 6] {
        2u8
    } else {
        0u8
    }) + (if bits[p + 7] {
        1u8
    } else {
        0u8
    });
    proof {
        let grp = bits@.subrange(p as int, p as int + 8);
        assert(grp[0] == bits@[p as int]);
        assert(byte == spec_byte_of_bits(grp));
    }
    byte
}

/// Packs bits into bytes in groups of 8, MSB first; a trailing remainder
/// shorter than 8 bits is dropped.
pub fn translate_u8(binary_data: Vec<bool>) -> (r: Vec<u8>)
    ensures
        r@ == spec_bytes_of_bits(binary_data@),
{
    let mut byte_data: Vec<u8> = Vec::new();
    let total: usize = binary_data.len();
    let groups: usize = total / 8;
    let mut j: usize = 0;
    while j < groups
        invariant
            j <= groups,
            total == binary_data@.len(),
            groups == binary_data@.len() / 8,
            byte_data@.len() == j,
            forall|t: int|
                0 <= t < j ==> byte_data@[t] == spec_byte_of_bits(
                    binary_data@.subrange(8 * t, 8 * t + 8),
                ),
        decreases groups - j,
    {
        proof {
            assert(8 * (j as int) + 8 <= binary_data@.len());
        }
        let byte: u8 = byte_from(&binary_data, 8 * j);
        byte_data.push(byte);
        j = j + 1;
    }
    proof {
        assert(byte_data@ =~= spec_bytes_of_bits(binary_data@));
    }
    byte_data
}

/// Packs bits into 32-bit words in groups of 32, MSB first; a trailing
/// remainder shorter than 32 bits is dropped.
pub fn translate_u32(binary_data: Vec<bool>) -> (r: Vec<u32>)
    ensures
        r@ == spec_words_of_bits(binary_data@),
{
    let mut word_data: Vec<u32> = Vec::new();
    let total: usize = binary_data.len();
    let groups: usize = total / 32;
    let mut j: usize = 0;
    while j < groups
        invariant
            j <= groups,
            total == binary_data@.len(),
            groups == binary_data@.len() / 32,
            word_data@.len() == j,
            forall|t: int|
                0 <= t < j ==> word_data@[t] == spec_word_of_bits(
                    binary_data@.subrange(32 * t, 32 * t + 32),
                ),
        decreases groups - j,
    {
        proof {
            assert(32 * (j as int) + 32 <= binary_data@.len());
        }
        let p: usize = 32 * j;
        let b0: u8 = byte_from(&binary_data, p);
        let b1: u8 = byte_from(&binary_data, p + 8);
        let b2: u8 = byte_from(&binary_data, p + 16);
        let b3: u8 = byte_from(&binary_data, p + 24);
        let word: u32 = 0x1000000 * (b0 as u32) + 0x10000 * (b1 as u32) + 0x100 * (b2 as u32) + (
        b3 as u32);
        proof {
            let grp = binary_data@.subrange(32 * j as int, 32 * j as int + 32);
            assert(grp.subrange(0, 8) =~= binary_data@.subrange(p as int, p as int + 8));
            assert(grp.subrange(8, 16) =~= binary_data@.subrange(p as int + 8, p as int + 16));
            assert(grp.subrange(16, 24) =~= binary_data@.subrange(p as int + 16, p as int + 24));
            assert(grp.subrange(24, 32) =~= binary_data@.subrange(p as int + 24, p as int + 32));
            assert(word == spec_word_of_bits(grp));
        }
        word_data.push(word);
        j = j + 1;
    }
    proof {
        assert(word_data@ =~= spec_words_of_bits(binary_data@));
    }
    word_data
}

} // verus!
