//! The embedder: a text becomes a vector of `DIM` counts.
//!
//! Each word of the text is hashed, the low bits of the hash pick one of
//! `DIM` buckets, and the vector holds how many words fell into each bucket.
//! This is the embedding in integer form. The unit vector that similarity
//! is measured with is these counts divided by their Euclidean norm; that
//! division is left to the caller, who works in floating point.

use crate::hash::{absorb_char, lemma_text_hash_push, text_hash, FNV_OFFSET};
use crate::text::{
    is_blank_text, is_space, is_whitespace, lemma_no_words, lemma_not_empty, lemma_words_concat,
    words,
};
use vstd::prelude::*;
use vstd::std_specs::iter::IteratorSpec;
use vstd::utf8::*;

verus! {

/// The number of buckets, a power of two.
pub const DIM: usize = 256;

/// The bucket that `word` falls into: the low eight bits of its hash.
pub open spec fn bucket(word: Seq<char>) -> int {
    (text_hash(word) & 0xFF) as int
}

/// How many of `words` fall into bucket `b`.
pub open spec fn tally(words: Seq<Seq<char>>, b: int) -> nat
    decreases words.len(),
{
    if words.len() == 0 {
        0
    } else {
        tally(words.drop_last(), b) + if bucket(words.last()) == b {
            1nat
        } else {
            0nat
        }
    }
}

/// The embedding of `text`: for each bucket, how many words of the text
/// fall into it.
pub open spec fn embedding(text: Seq<char>) -> Seq<nat> {
    Seq::new(DIM as nat, |b: int| tally(words(text), b))
}

/// Whether `counts` is the embedding of `text`.
pub open spec fn is_embedding(counts: Seq<u64>, text: Seq<char>) -> bool {
    &&& counts.len() == DIM
    &&& forall|b: int|
        #![trigger counts[b]]
        #![trigger embedding(text)[b]]
        0 <= b < DIM ==> counts[b] as nat == embedding(text)[b]
}

/// A text has at most as many words as characters.
pub proof fn lemma_words_len(s: Seq<char>)
    ensures
        words(s).len() <= s.len(),
    decreases s.len(),
{
    if s.len() > 0 {
        lemma_words_len(s.drop_last());
        lemma_not_empty(s.drop_last());
        if s.len() >= 2 {
            assert(s.drop_last().last() == s[s.len() - 2]);
        }
    }
}

/// No bucket holds more words than there are.
pub proof fn lemma_tally_le(ws: Seq<Seq<char>>, b: int)
    ensures
        tally(ws, b) <= ws.len(),
    decreases ws.len(),
{
    if ws.len() > 0 {
        lemma_tally_le(ws.drop_last(), b);
    }
}

/// The UTF-8 form of a text has at least one byte for each character.
pub proof fn lemma_encode_len(s: Seq<char>)
    ensures
        s.len() <= encode_utf8(s).len(),
    decreases s.len(),
{
    if s.len() > 0 {
        lemma_encode_len(s.drop_first());
    }
}

/// Each word falls into one of the `DIM` buckets.
pub proof fn lemma_bucket_range(word: Seq<char>)
    ensures
        0 <= bucket(word) < DIM,
{
    let h = text_hash(word);
    assert(h & 0xFF < 256) by (bit_vector);
}

/// The words of two lists together fill each bucket with what the lists
/// fill it with apart.
pub proof fn lemma_tally_concat(x: Seq<Seq<char>>, y: Seq<Seq<char>>, b: int)
    ensures
        tally(x + y, b) == tally(x, b) + tally(y, b),
    decreases y.len(),
{
    if y.len() == 0 {
        assert(x + y =~= x);
    } else {
        assert((x + y).drop_last() =~= x + y.drop_last());
        assert((x + y).last() == y.last());
        lemma_tally_concat(x, y.drop_last(), b);
    }
}

/// The embedding does not know the order of the words: two texts that are
/// set one behind the other, with white space between them, embed alike
/// whichever comes first.
pub proof fn lemma_embedding_swaps(a: Seq<char>, gap: char, b: Seq<char>)
    requires
        is_space(gap),
    ensures
        embedding(a.push(gap) + b) == embedding(b.push(gap) + a),
{
    lemma_words_concat(a.push(gap), b);
    lemma_words_concat(b.push(gap), a);
    assert(a.push(gap).drop_last() =~= a);
    assert(b.push(gap).drop_last() =~= b);
    assert(words(a.push(gap)) == words(a));
    assert(words(b.push(gap)) == words(b));
    assert forall|i: int| 0 <= i < DIM implies embedding(a.push(gap) + b)[i] == embedding(
        b.push(gap) + a,
    )[i] by {
        lemma_tally_concat(words(a), words(b), i);
        lemma_tally_concat(words(b), words(a), i);
    }
    assert(embedding(a.push(gap) + b) =~= embedding(b.push(gap) + a));
}

/// The embedding is the zero vector exactly where the text has no word:
/// where it is empty or holds nothing but white space.
pub proof fn lemma_embedding_zero(text: Seq<char>)
    ensures
        is_blank_text(text) <==> forall|b: int|
            0 <= b < DIM ==> #[trigger] embedding(text)[b] == 0,
{
    lemma_no_words(text);
    let ws = words(text);
    if ws.len() > 0 {
        let at = bucket(ws.last());
        lemma_bucket_range(ws.last());
        assert(embedding(text)[at] == tally(ws, at));
        assert(tally(ws, at) >= 1);
    } else {
        assert forall|b: int| 0 <= b < DIM implies #[trigger] embedding(text)[b] == 0 by {
            assert(tally(ws, b) == 0);
        }
    }
}

/// Counts one more word in the bucket that the hash `h` picks.
fn count_word(counts: &mut Vec<u64>, h: u64, Ghost(ws): Ghost<Seq<Seq<char>>>)
    requires
        ws.len() > 0,
        ws.len() <= usize::MAX,
        h == text_hash(ws.last()),
        old(counts)@.len() == DIM,
        forall|b: int| 0 <= b < DIM ==> old(counts)@[b] as nat == tally(ws.drop_last(), b),
    ensures
        final(counts)@.len() == DIM,
        forall|b: int| 0 <= b < DIM ==> final(counts)@[b] as nat == tally(ws, b),
{
    assert(h & 0xFF < 256) by (bit_vector);
    let at: usize = (h & 0xFF) as usize;
    proof {
        lemma_tally_le(ws.drop_last(), at as int);
    }
    let n: u64 = counts[at];
    counts.set(at, n + 1);
    assert forall|b: int| 0 <= b < DIM implies counts@[b] as nat == tally(ws, b) by {
        assert(old(counts)@[b] as nat == tally(ws.drop_last(), b));
        assert(bucket(ws.last()) == at as int);
    }
}

/// Embeds `text`: returns, for each of the `DIM` buckets, the number of
/// words of `text` whose hash picks it. The result depends on the text
/// alone.
pub fn embed(text: &str) -> (counts: Vec<u64>)
    ensures
        is_embedding(counts@, text@),
{
    let mut counts: Vec<u64> = vec![0u64; 256];
    let mut h: u64 = FNV_OFFSET;
    let mut open = false;
    let limit: usize = text.as_bytes().len();
    proof {
        lemma_encode_len(text@);
    }
    for c in it: text.chars()
        invariant
            it.seq() == text@,
            text@.len() <= limit,
            counts@.len() == DIM,
            open == (it.index() > 0 && !is_space(text@[it.index() - 1])),
            open ==> words(text@.take(it.index() as int)).len() > 0 && h == text_hash(
                words(text@.take(it.index() as int)).last(),
            ) && forall|b: int|
                0 <= b < DIM ==> counts@[b] as nat == tally(
                    words(text@.take(it.index() as int)).drop_last(),
                    b,
                ),
            !open ==> h == FNV_OFFSET && forall|b: int|
                0 <= b < DIM ==> counts@[b] as nat == tally(
                    words(text@.take(it.index() as int)),
                    b,
                ),
    {
        let ghost i = it.index() as int;
        let ghost before = text@.take(i);
        let ghost now = text@.take(i + 1);
        proof {
            assert(now.drop_last() == before);
            assert(now.last() == c);
            assert(i > 0 ==> now[now.len() - 2] == text@[i - 1]);
            lemma_words_len(before);
            lemma_not_empty(before);
        }
        if is_whitespace(c) {
            if open {
                count_word(&mut counts, h, Ghost(words(before)));
                h = FNV_OFFSET;
                open = false;
            }
        } else {
            proof {
                if open {
                    lemma_text_hash_push(words(before).last(), c);
                    assert(words(now).drop_last() =~= words(before).drop_last());
                } else {
                    lemma_text_hash_push(Seq::<char>::empty(), c);
                    assert(Seq::<char>::empty().push(c) =~= seq![c]);
                    assert(encode_utf8(Seq::<char>::empty()) =~= Seq::<u8>::empty());
                    assert(words(now).drop_last() =~= words(before));
                }
            }
            h = absorb_char(h, c);
            open = true;
        }
    }
    assert(text@.take(text@.len() as int) == text@);
    if open {
        proof {
            lemma_words_len(text@);
            lemma_not_empty(text@);
        }
        count_word(&mut counts, h, Ghost(words(text@)));
    }
    counts
}

} // verus!
