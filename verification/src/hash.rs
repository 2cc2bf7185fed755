//! The 256-bit digests of the commitment scheme and the compression function
//! that combines two of them with SHA-256.
use crate::field::FieldElement;
use vstd::prelude::*;

verus! {

/// A 256-bit digest held as two 128-bit halves.
#[derive(Clone, Copy, Debug, PartialEq, Eq, Structural)]
pub struct HashDigest {
    pub h0: u128,
    pub h1: u128,
}

impl Default for HashDigest {
    fn default() -> (r: HashDigest)
        ensures
            r == digest_zero(),
    {
        HashDigest { h0: 0, h1: 0 }
    }
}

pub open spec fn digest_zero() -> HashDigest {
    HashDigest { h0: 0, h1: 0 }
}

/// The SHA-256 digest of a byte string: the result of `ring`'s SHA-256.
pub uninterp spec fn sha256_spec(data: Seq<u8>) -> Seq<u8>;

/// `ring::digest::digest(&SHA256, data)`, the one-shot SHA-256 of `data`.
/// Claimed: the digest is the named function of the input bytes, and it is
/// 32 bytes long (`SHA256.output_len`).
#[verifier::external_body]
fn sha256(data: &[u8]) -> (r: Vec<u8>)
    ensures
        r@ == sha256_spec(data@),
        r@.len() == 32,
{
    ring::digest::digest(&ring::digest::SHA256, data).as_ref().to_vec()
}

/// `s.push(c)` of `String`: appends one character.
#[verifier::external_body]
fn string_push(s: &mut String, c: char)
    ensures
        final(s)@ == old(s)@.push(c),
{
    s.push(c)
}

/// The 16 big-endian bytes of a 128-bit word.
pub open spec fn u128_be_bytes(x: u128) -> Seq<u8> {
    Seq::new(16, |i: int| ((x >> ((8 * (15 - i)) as u128)) & 0xff) as u8)
}

/// The 128-bit word of 16 big-endian bytes.
pub open spec fn u128_from_be(bytes: Seq<u8>) -> int
    decreases bytes.len(),
{
    if bytes.len() == 0 {
        0
    } else {
        u128_from_be(bytes.drop_last()) * 256 + bytes.last()
    }
}

/// The bytes that are hashed for a pair of digests.
pub open spec fn digest_pair_bytes(src: [HashDigest; 2]) -> Seq<u8> {
    u128_be_bytes(src[0].h0) + u128_be_bytes(src[0].h1) + u128_be_bytes(src[1].h0)
        + u128_be_bytes(src[1].h1)
}

/// The digest of a pair: SHA-256 of the 64 big-endian bytes, read back as two
/// big-endian halves.
pub open spec fn hash_pair(src: [HashDigest; 2]) -> HashDigest {
    let d = sha256_spec(digest_pair_bytes(src));
    HashDigest {
        h0: u128_from_be(d.subrange(0, 16)) as u128,
        h1: u128_from_be(d.subrange(16, 32)) as u128,
    }
}

proof fn lemma_from_be_bound(bytes: Seq<u8>)
    ensures
        0 <= u128_from_be(bytes) < vstd::arithmetic::power2::pow2(8 * bytes.len()),
    decreases bytes.len(),
{
    vstd::arithmetic::power2::lemma2_to64();
    if bytes.len() > 0 {
        lemma_from_be_bound(bytes.drop_last());
        let n = (8 * (bytes.len() - 1)) as nat;
        vstd::arithmetic::power2::lemma_pow2_adds(n, 8);
        assert(8 * bytes.len() == n + 8);
        let v = u128_from_be(bytes.drop_last());
        let b = bytes.last() as int;
        assert(v * 256 + b < vstd::arithmetic::power2::pow2(n) * 256) by (nonlinear_arith)
            requires
                v < vstd::arithmetic::power2::pow2(n),
                0 <= b < 256,
        ;
    }
}

fn push_be_bytes(out: &mut Vec<u8>, x: u128)
    ensures
        final(out)@ == old(out)@ + u128_be_bytes(x),
{
    let ghost start = out@;
    let mut i: usize = 0;
    while i < 16
        invariant
            i <= 16,
            out@ == start + u128_be_bytes(x).subrange(0, i as int),
        decreases 16 - i,
    {
        let shift: u128 = (8 * (15 - i)) as u128;
        out.push(((x >> shift) & 0xff) as u8);
        proof {
            assert(u128_be_bytes(x).subrange(0, (i + 1) as int) =~= u128_be_bytes(x).subrange(
                0,
                i as int,
            ).push(u128_be_bytes(x)[i as int]));
        }
        i += 1;
    }
    assert(u128_be_bytes(x).subrange(0, 16) =~= u128_be_bytes(x));
}

fn read_be_u128(bytes: &Vec<u8>, start: usize) -> (r: u128)
    requires
        start + 16 <= bytes@.len(),
    ensures
        r as int == u128_from_be(bytes@.subrange(start as int, start + 16)),
{
    let mut acc: u128 = 0;
    let mut i: usize = 0;
    while i < 16
        invariant
            i <= 16,
            start + 16 <= bytes@.len(),
            acc as int == u128_from_be(bytes@.subrange(start as int, start + i)),
        decreases 16 - i,
    {
        proof {
            let s = bytes@.subrange(start as int, start + i + 1);
            assert(s.drop_last() =~= bytes@.subrange(start as int, start + i));
            lemma_from_be_bound(s);
            vstd::arithmetic::power2::lemma2_to64();
            vstd::arithmetic::power2::lemma_pow2_adds(64, 64);
            if i + 1 < 16 {
                vstd::arithmetic::power2::lemma_pow2_strictly_increases(
                    (8 * (i + 1)) as nat,
                    128,
                );
            }
            assert(vstd::arithmetic::power2::pow2(128) == 0x1_0000_0000_0000_0000_0000_0000_0000_0000nat);
        }
        assert(bytes@.len() == bytes.len());
        let b = bytes[start + i];
        acc = acc * 256 + b as u128;
        i += 1;
    }
    acc
}

/// Compresses two digests into one with SHA-256.
pub fn my_hash(src: [HashDigest; 2]) -> (r: HashDigest)
    ensures
        r == hash_pair(src),
{
    let mut bytes: Vec<u8> = Vec::new();
    push_be_bytes(&mut bytes, src[0].h0);
    push_be_bytes(&mut bytes, src[0].h1);
    push_be_bytes(&mut bytes, src[1].h0);
    push_be_bytes(&mut bytes, src[1].h1);
    assert(bytes@ =~= digest_pair_bytes(src));
    let digest = sha256(bytes.as_slice());
    let h0 = read_be_u128(&digest, 0);
    let h1 = read_be_u128(&digest, 16);
    HashDigest { h0, h1 }
}

/// The lowercase hexadecimal digit of a value below 16.
pub open spec fn hex_char(d: int) -> char {
    if d < 10 {
        (d + 48) as char
    } else {
        (d + 87) as char
    }
}

/// The 16 zero-padded lowercase hexadecimal digits of a word.
pub open spec fn hex16(x: u64) -> Seq<char> {
    Seq::new(16, |i: int| hex_char(((x >> ((60 - 4 * i) as u64)) & 15) as int))
}

fn push_hex16(s: &mut String, x: u64)
    ensures
        final(s)@ == old(s)@ + hex16(x),
{
    let ghost start = s@;
    let mut i: usize = 0;
    while i < 16
        invariant
            i <= 16,
            s@ == start + hex16(x).subrange(0, i as int),
        decreases 16 - i,
    {
        let shift: u64 = (60 - 4 * i) as u64;
        let d: u64 = (x >> shift) & 15;
        assert(((x >> shift) & 15) <= 15) by (bit_vector);
        let c: char = if d < 10 {
            ((d + 48) as u8) as char
        } else {
            ((d + 87) as u8) as char
        };
        string_push(s, c);
        proof {
            assert(hex16(x).subrange(0, (i + 1) as int) =~= hex16(x).subrange(0, i as int).push(
                hex16(x)[i as int],
            ));
        }
        i += 1;
    }
    assert(hex16(x).subrange(0, 16) =~= hex16(x));
}

impl HashDigest {
    /// The digest from four 64-bit words, low word first in each half.
    pub fn new_from_c(h0_0: u64, h0_1: u64, h1_0: u64, h1_1: u64) -> (r: HashDigest)
        ensures
            r.h0 as int == h0_1 as int * 0x1_0000_0000_0000_0000 + h0_0 as int,
            r.h1 as int == h1_1 as int * 0x1_0000_0000_0000_0000 + h1_0 as int,
    {
        assert(((h0_1 as u128) << 64u128) | (h0_0 as u128) == h0_1 as u128 * 0x1_0000_0000_0000_0000u128
            + h0_0 as u128) by (bit_vector);
        assert(((h1_1 as u128) << 64u128) | (h1_0 as u128) == h1_1 as u128 * 0x1_0000_0000_0000_0000u128
            + h1_0 as u128) by (bit_vector);
        HashDigest {
            h0: ((h0_1 as u128) << 64) | (h0_0 as u128),
            h1: ((h1_1 as u128) << 64) | (h1_0 as u128),
        }
    }

    /// The digest that holds the two coordinates of an element in its first half.
    pub fn memcpy_from_field_element(field_element: FieldElement) -> (r: HashDigest)
        ensures
            r == digest_of_element(field_element),
    {
        HashDigest {
            h0: ((field_element.real as u128) << 64) | (field_element.img as u128),
            h1: 0,
        }
    }

    /// The digest that holds two elements, one per half.
    pub fn memcpy_from_field_elements(field_elements: [FieldElement; 2]) -> (r: HashDigest)
        ensures
            r == digest_of_elements(field_elements[0], field_elements[1]),
    {
        HashDigest {
            h0: ((field_elements[0].real as u128) << 64) | (field_elements[0].img as u128),
            h1: ((field_elements[1].real as u128) << 64) | (field_elements[1].img as u128),
        }
    }

    /// The two halves of a 128-bit word in hexadecimal, high word first,
    /// each after `0x`, separated by a space (as in
    /// `0x760a6c50ad47cbae 0xf8101008f3bfebd5`).
    pub fn format_h(h: u128) -> (r: String)
        ensures
            r@ == seq!['0', 'x'] + hex16((h >> 64u128) as u64) + seq![' ', '0', 'x'] + hex16(h as u64),
    {
        let upper = (h >> 64) as u64;
        let lower = h as u64;
        let mut s = String::new();
        string_push(&mut s, '0');
        string_push(&mut s, 'x');
        push_hex16(&mut s, upper);
        string_push(&mut s, ' ');
        string_push(&mut s, '0');
        string_push(&mut s, 'x');
        push_hex16(&mut s, lower);
        s
    }
}

/// The 128-bit word `real * 2^64 + img`, as the bit pattern `real : img`.
pub open spec fn element_word(x: FieldElement) -> u128 {
    ((x.real as u128) << 64u128) | (x.img as u128)
}

pub open spec fn digest_of_element(x: FieldElement) -> HashDigest {
    HashDigest { h0: element_word(x), h1: 0 }
}

pub open spec fn digest_of_elements(x: FieldElement, y: FieldElement) -> HashDigest {
    HashDigest { h0: element_word(x), h1: element_word(y) }
}

/// The word of an element is `real * 2^64 + img`.
pub proof fn lemma_element_word(x: FieldElement)
    ensures
        element_word(x) as int == x.real as int * 0x1_0000_0000_0000_0000 + x.img as int,
{
    let (a, b) = (x.real, x.img);
    assert(((a as u128) << 64u128) | (b as u128) == a as u128 * 0x1_0000_0000_0000_0000u128
        + b as u128) by (bit_vector);
}

} // verus!
