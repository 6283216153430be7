//! The 64-bit FNV-1a hash, over bytes and over the UTF-8 form of characters.
//!
//! The hash starts from `FNV_OFFSET` and takes the bytes in order: each byte
//! is combined into the state by exclusive or, and the state is then
//! multiplied by `FNV_PRIME`, modulo 2^64.

use vstd::prelude::*;
use vstd::utf8::*;

verus! {

/// The state from which the hash starts.
pub const FNV_OFFSET: u64 = 1469598103934665603;

/// The factor by which the state is multiplied after each byte.
pub const FNV_PRIME: u64 = 1099511628211;

/// The state after `byte` has been taken into the state `h`.
pub open spec fn fnv_step(h: u64, byte: u8) -> u64 {
    (((h ^ (byte as u64)) as nat * FNV_PRIME as nat) % 0x1_0000_0000_0000_0000) as u64
}

/// The state after `bytes` have been taken into the state `h`, first byte
/// first.
pub open spec fn fnv_fold(h: u64, bytes: Seq<u8>) -> u64
    decreases bytes.len(),
{
    if bytes.len() == 0 {
        h
    } else {
        fnv_step(fnv_fold(h, bytes.drop_last()), bytes.last())
    }
}

/// The hash of `bytes`.
pub open spec fn fnv1a(bytes: Seq<u8>) -> u64 {
    fnv_fold(FNV_OFFSET, bytes)
}

/// The hash of a text: the hash of its UTF-8 form.
pub open spec fn text_hash(text: Seq<char>) -> u64 {
    fnv1a(encode_utf8(text))
}

/// Taking in `a` and then `b` is taking in `a + b`.
pub proof fn lemma_fold_concat(h: u64, a: Seq<u8>, b: Seq<u8>)
    ensures
        fnv_fold(h, a + b) == fnv_fold(fnv_fold(h, a), b),
    decreases b.len(),
{
    if b.len() == 0 {
        assert(a + b =~= a);
    } else {
        assert((a + b).drop_last() =~= a + b.drop_last());
        assert((a + b).last() == b.last());
        lemma_fold_concat(h, a, b.drop_last());
    }
}

/// The UTF-8 form of a text followed by one more character is the form of
/// the text followed by the form of the character.
pub proof fn lemma_encode_push(text: Seq<char>, c: char)
    ensures
        encode_utf8(text.push(c)) == encode_utf8(text) + encode_scalar(c as u32),
    decreases text.len(),
{
    if text.len() == 0 {
        assert(text.push(c).drop_first() =~= Seq::<char>::empty());
        assert(encode_utf8(text.push(c)) =~= encode_scalar(c as u32) + encode_utf8(
            Seq::<char>::empty(),
        ));
        assert(encode_utf8(text) + encode_scalar(c as u32) =~= encode_scalar(c as u32));
        assert(encode_scalar(c as u32) + encode_utf8(Seq::<char>::empty()) =~= encode_scalar(
            c as u32,
        ));
    } else {
        assert(text.push(c).drop_first() =~= text.drop_first().push(c));
        assert(text.push(c)[0] == text[0]);
        lemma_encode_push(text.drop_first(), c);
        assert(encode_scalar(text[0] as u32) + (encode_utf8(text.drop_first()) + encode_scalar(
            c as u32,
        )) =~= (encode_scalar(text[0] as u32) + encode_utf8(text.drop_first())) + encode_scalar(
            c as u32,
        ));
    }
}

/// The hash of a text with one more character is the hash of the text with
/// the character's UTF-8 form taken in.
pub proof fn lemma_text_hash_push(text: Seq<char>, c: char)
    ensures
        text_hash(text.push(c)) == fnv_fold(text_hash(text), encode_scalar(c as u32)),
{
    lemma_encode_push(text, c);
    lemma_fold_concat(FNV_OFFSET, encode_utf8(text), encode_scalar(c as u32));
}

/// Takes one byte into the state.
pub fn step(h: u64, byte: u8) -> (r: u64)
    ensures
        r == fnv_step(h, byte),
{
    (h ^ (byte as u64)).wrapping_mul(FNV_PRIME)
}

/// Hashes `bytes`.
pub fn hash_bytes(bytes: &[u8]) -> (h: u64)
    ensures
        h == fnv1a(bytes@),
{
    let mut h: u64 = FNV_OFFSET;
    let mut i: usize = 0;
    while i < bytes.len()
        invariant
            i <= bytes@.len(),
            h == fnv1a(bytes@.take(i as int)),
        decreases bytes@.len() - i,
    {
        assert(bytes@.take(i + 1).drop_last() == bytes@.take(i as int));
        h = step(h, bytes[i]);
        i += 1;
    }
    assert(bytes@.take(bytes@.len() as int) == bytes@);
    h
}

/// Takes the UTF-8 form of `c` into the state: one to four bytes.
pub fn absorb_char(h: u64, c: char) -> (r: u64)
    ensures
        r == fnv_fold(h, encode_scalar(c as u32)),
{
    let u: u32 = c as u32;
    let ghost bytes = encode_scalar(u);
    let last: u8 = 0x80 | (u & 0x3F) as u8;
    if u <= 0x7F {
        let r = step(h, (u & 0x7F) as u8);
        proof {
            reveal_with_fuel(fnv_fold, 2);
            assert(bytes.drop_last() =~= Seq::<u8>::empty());
        }
        r
    } else if u <= 0x7FF {
        let b0: u8 = 0xC0 | ((u >> 6) & 0x1F) as u8;
        let r = step(step(h, b0), last);
        proof {
            reveal_with_fuel(fnv_fold, 3);
            assert(bytes.drop_last() =~= seq![b0]);
            assert(seq![b0].drop_last() =~= Seq::<u8>::empty());
        }
        r
    } else if u <= 0xFFFF {
        let b0: u8 = 0xE0 | ((u >> 12) & 0x0F) as u8;
        let b1: u8 = 0x80 | ((u >> 6) & 0x3F) as u8;
        let r = step(step(step(h, b0), b1), last);
        proof {
            reveal_with_fuel(fnv_fold, 4);
            assert(bytes.drop_last() =~= seq![b0, b1]);
            assert(seq![b0, b1].drop_last() =~= seq![b0]);
            assert(seq![b0].drop_last() =~= Seq::<u8>::empty());
        }
        r
    } else {
        let b0: u8 = 0xF0 | ((u >> 18) & 0x7) as u8;
        let b1: u8 = 0x80 | ((u >> 12) & 0x3F) as u8;
        let b2: u8 = 0x80 | ((u >> 6) & 0x3F) as u8;
        let r = step(step(step(step(h, b0), b1), b2), last);
        proof {
            reveal_with_fuel(fnv_fold, 5);
            assert(bytes.drop_last() =~= seq![b0, b1, b2]);
            assert(seq![b0, b1, b2].drop_last() =~= seq![b0, b1]);
            assert(seq![b0, b1].drop_last() =~= seq![b0]);
            assert(seq![b0].drop_last() =~= Seq::<u8>::empty());
        }
        r
    }
}

} // verus!
