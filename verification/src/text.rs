//! White space, words and pieces of a text.
//!
//! A text is modelled as its sequence of characters. White space is the set
//! of characters with the Unicode property `White_Space`; a word is a maximal
//! run of characters that are not white space.

use vstd::prelude::*;
use vstd::std_specs::iter::IteratorSpec;
use vstd::utf8::*;

verus! {

/// Whether `c` is white space: one of the characters that carry the Unicode
/// property `White_Space`.
pub open spec fn is_space(c: char) -> bool {
    let u = c as u32;
    ||| 0x09 <= u <= 0x0D
    ||| u == 0x20
    ||| u == 0x85
    ||| u == 0xA0
    ||| u == 0x1680
    ||| 0x2000 <= u <= 0x200A
    ||| u == 0x2028
    ||| u == 0x2029
    ||| u == 0x202F
    ||| u == 0x205F
    ||| u == 0x3000
}

/// Whether no character of `s` is white space.
pub open spec fn is_solid(s: Seq<char>) -> bool {
    forall|i: int| 0 <= i < s.len() ==> !is_space(#[trigger] s[i])
}

/// Whether every character of `s` is white space.
pub open spec fn is_blank_text(s: Seq<char>) -> bool {
    forall|i: int| 0 <= i < s.len() ==> is_space(#[trigger] s[i])
}

/// The words of `s`, in the order in which they occur: its maximal runs of
/// characters that are not white space.
///
/// A character that is white space adds nothing. Any other character
/// lengthens the last word if the character before it belongs to a word, and
/// starts a new word if not.
pub open spec fn words(s: Seq<char>) -> Seq<Seq<char>>
    decreases s.len(),
{
    if s.len() == 0 {
        Seq::empty()
    } else {
        let before = words(s.drop_last());
        let c = s.last();
        if is_space(c) {
            before
        } else if s.len() >= 2 && !is_space(s[s.len() - 2]) {
            before.drop_last().push(before.last().push(c))
        } else {
            before.push(seq![c])
        }
    }
}

/// The pieces of `s`: each white space character by itself, and each word
/// whole, in the order in which they occur.
pub open spec fn pieces(s: Seq<char>) -> Seq<Seq<char>>
    decreases s.len(),
{
    if s.len() == 0 {
        Seq::empty()
    } else {
        let before = pieces(s.drop_last());
        let c = s.last();
        if !is_space(c) && s.len() >= 2 && !is_space(s[s.len() - 2]) {
            before.drop_last().push(before.last().push(c))
        } else {
            before.push(seq![c])
        }
    }
}

/// The texts in `parts`, one after the other.
pub open spec fn joined(parts: Seq<Seq<char>>) -> Seq<char>
    decreases parts.len(),
{
    if parts.len() == 0 {
        Seq::empty()
    } else {
        joined(parts.drop_last()) + parts.last()
    }
}

/// What each string of `strings` holds.
pub open spec fn texts(strings: Seq<String>) -> Seq<Seq<char>> {
    Seq::new(strings.len(), |i: int| strings[i]@)
}

/// A text that is not empty has pieces, and a text that does not end in
/// white space has words.
pub proof fn lemma_not_empty(s: Seq<char>)
    ensures
        s.len() > 0 ==> pieces(s).len() > 0,
        s.len() > 0 && !is_space(s.last()) ==> words(s).len() > 0,
    decreases s.len(),
{
    if s.len() > 0 {
        lemma_not_empty(s.drop_last());
        if s.len() >= 2 {
            assert(s.drop_last().last() == s[s.len() - 2]);
        }
    }
}

/// Splitting drops nothing: the pieces of a text, joined, are the text.
pub proof fn lemma_pieces_joined(s: Seq<char>)
    ensures
        joined(pieces(s)) == s,
    decreases s.len(),
{
    if s.len() > 0 {
        let front = s.drop_last();
        let before = pieces(front);
        let c = s.last();
        lemma_pieces_joined(front);
        lemma_not_empty(front);
        if !is_space(c) && s.len() >= 2 && !is_space(s[s.len() - 2]) {
            let grown = before.drop_last().push(before.last().push(c));
            assert(grown.drop_last() =~= before.drop_last());
            assert(joined(grown) =~= joined(before.drop_last()) + before.last() + seq![c]);
            assert(joined(grown) =~= front.push(c));
        } else {
            assert(before.push(seq![c]).drop_last() =~= before);
            assert(joined(before.push(seq![c])) =~= front.push(c));
        }
        assert(front.push(c) =~= s);
    } else {
        assert(joined(pieces(s)) =~= s);
    }
}

/// Each piece of a text is one white space character or a run of other
/// characters. The last piece is such a run where the text does not end in
/// white space.
pub proof fn lemma_pieces_shape(s: Seq<char>)
    ensures
        forall|i: int|
            0 <= i < pieces(s).len() ==> {
                ||| (#[trigger] pieces(s)[i]).len() == 1 && is_space(pieces(s)[i][0])
                ||| pieces(s)[i].len() > 0 && is_solid(pieces(s)[i])
            },
        s.len() > 0 && !is_space(s.last()) ==> pieces(s).len() > 0 && is_solid(pieces(s).last()),
    decreases s.len(),
{
    if s.len() > 0 {
        let front = s.drop_last();
        let before = pieces(front);
        let c = s.last();
        lemma_pieces_shape(front);
        lemma_not_empty(front);
        if s.len() >= 2 {
            assert(front.last() == s[s.len() - 2]);
        }
        if !is_space(c) && s.len() >= 2 && !is_space(s[s.len() - 2]) {
            let run = before.last().push(c);
            assert forall|j: int| 0 <= j < run.len() implies !is_space(#[trigger] run[j]) by {
                if j < before.last().len() {
                    assert(run[j] == before.last()[j]);
                }
            }
            assert forall|i: int| 0 <= i < pieces(s).len() implies {
                ||| (#[trigger] pieces(s)[i]).len() == 1 && is_space(pieces(s)[i][0])
                ||| pieces(s)[i].len() > 0 && is_solid(pieces(s)[i])
            } by {
                if i < before.len() - 1 {
                    assert(pieces(s)[i] == before[i]);
                }
            }
        } else {
            assert forall|i: int| 0 <= i < pieces(s).len() implies {
                ||| (#[trigger] pieces(s)[i]).len() == 1 && is_space(pieces(s)[i][0])
                ||| pieces(s)[i].len() > 0 && is_solid(pieces(s)[i])
            } by {
                if i < before.len() {
                    assert(pieces(s)[i] == before[i]);
                }
            }
        }
    }
}

/// No word is empty, and no word holds white space.
pub proof fn lemma_words_solid(s: Seq<char>)
    ensures
        forall|i: int|
            0 <= i < words(s).len() ==> (#[trigger] words(s)[i]).len() > 0 && is_solid(words(s)[i]),
    decreases s.len(),
{
    if s.len() > 0 {
        let front = s.drop_last();
        let before = words(front);
        let c = s.last();
        lemma_words_solid(front);
        lemma_not_empty(front);
        if s.len() >= 2 {
            assert(front.last() == s[s.len() - 2]);
        }
        if is_space(c) {
        } else if s.len() >= 2 && !is_space(s[s.len() - 2]) {
            let run = before.last().push(c);
            assert forall|j: int| 0 <= j < run.len() implies !is_space(#[trigger] run[j]) by {
                if j < before.last().len() {
                    assert(run[j] == before.last()[j]);
                }
            }
            assert forall|i: int| 0 <= i < words(s).len() implies (#[trigger] words(s)[i]).len() > 0
                && is_solid(words(s)[i]) by {
                if i < before.len() - 1 {
                    assert(words(s)[i] == before[i]);
                }
            }
        } else {
            assert forall|i: int| 0 <= i < words(s).len() implies (#[trigger] words(s)[i]).len() > 0
                && is_solid(words(s)[i]) by {
                if i < before.len() {
                    assert(words(s)[i] == before[i]);
                }
            }
        }
    }
}

/// A text has no words exactly where it holds nothing but white space.
pub proof fn lemma_no_words(s: Seq<char>)
    ensures
        words(s).len() == 0 <==> is_blank_text(s),
    decreases s.len(),
{
    if s.len() > 0 {
        let front = s.drop_last();
        lemma_no_words(front);
        lemma_not_empty(front);
        if s.len() >= 2 {
            assert(front.last() == s[s.len() - 2]);
        }
        if is_blank_text(s) {
            assert(is_space(s[s.len() - 1]));
            assert forall|i: int| 0 <= i < front.len() implies is_space(#[trigger] front[i]) by {
                assert(front[i] == s[i]);
            }
        }
        if words(s).len() == 0 {
            assert(is_space(s.last()));
            assert forall|i: int| 0 <= i < s.len() implies is_space(#[trigger] s[i]) by {
                if i < front.len() {
                    assert(s[i] == front[i]);
                }
            }
        }
    }
}

/// A run of characters without white space is one word.
pub proof fn lemma_one_word(w: Seq<char>)
    requires
        w.len() > 0,
        is_solid(w),
    ensures
        words(w) == seq![w],
    decreases w.len(),
{
    let front = w.drop_last();
    if front.len() == 0 {
        assert(words(front) =~= Seq::<Seq<char>>::empty());
        assert(seq![w.last()] =~= w);
        assert(words(w) =~= seq![w]);
    } else {
        assert forall|i: int| 0 <= i < front.len() implies !is_space(#[trigger] front[i]) by {
            assert(front[i] == w[i]);
        }
        lemma_one_word(front);
        assert(!is_space(w[w.len() - 2]));
        assert(!is_space(w[w.len() - 1]));
        assert(seq![front].drop_last().push(front.push(w.last())) =~= seq![w]) by {
            assert(front.push(w.last()) =~= w);
        }
    }
}

/// Behind white space the words start afresh: where `a` is empty or ends
/// in white space, the words of `a + b` are those of `a` and then those of
/// `b`.
pub proof fn lemma_words_concat(a: Seq<char>, b: Seq<char>)
    requires
        a.len() == 0 || is_space(a.last()),
    ensures
        words(a + b) == words(a) + words(b),
    decreases b.len(),
{
    if b.len() == 0 {
        assert(a + b =~= a);
        assert(words(a) + words(b) =~= words(a));
    } else {
        let whole = a + b;
        let c = b.last();
        assert(whole.drop_last() =~= a + b.drop_last());
        assert(whole.last() == c);
        lemma_words_concat(a, b.drop_last());
        lemma_not_empty(b.drop_last());
        let wa = words(a);
        let wb = words(b.drop_last());
        if is_space(c) {
        } else if b.len() >= 2 {
            assert(whole[whole.len() - 2] == b[b.len() - 2]);
            assert(b.drop_last().last() == b[b.len() - 2]);
            if !is_space(b[b.len() - 2]) {
                assert((wa + wb).drop_last().push((wa + wb).last().push(c)) =~= wa
                    + wb.drop_last().push(wb.last().push(c)));
            } else {
                assert((wa + wb).push(seq![c]) =~= wa + wb.push(seq![c]));
            }
        } else {
            assert(b.drop_last() =~= Seq::<char>::empty());
            if a.len() > 0 {
                assert(whole[whole.len() - 2] == a.last());
            }
            assert((wa + wb).push(seq![c]) =~= wa + wb.push(seq![c]));
        }
    }
}

/// Tells whether `c` is white space.
pub fn is_whitespace(c: char) -> (b: bool)
    ensures
        b == is_space(c),
{
    let u: u32 = c as u32;
    (0x09 <= u && u <= 0x0D) || u == 0x20 || u == 0x85 || u == 0xA0 || u == 0x1680 || (0x2000 <= u
        && u <= 0x200A) || u == 0x2028 || u == 0x2029 || u == 0x202F || u == 0x205F || u == 0x3000
}

/// Appends `c` to `s`, by `String::push`, which puts the character at the
/// end of the string and changes nothing else.
#[verifier::external_body]
pub(crate) fn push_char(s: &mut String, c: char)
    ensures
        final(s)@ == old(s)@.push(c),
{
    s.push(c)
}

/// Tells whether `a` and `b` hold the same text.
pub fn same_text(a: &str, b: &str) -> (same: bool)
    ensures
        same == (a@ == b@),
{
    let x = a.as_bytes();
    let y = b.as_bytes();
    proof {
        encode_utf8_decode_utf8(a@);
        encode_utf8_decode_utf8(b@);
    }
    if x.len() != y.len() {
        return false;
    }
    let mut i: usize = 0;
    while i < x.len()
        invariant
            i <= x@.len(),
            x@.len() == y@.len(),
            forall|j: int| 0 <= j < i ==> x@[j] == y@[j],
            a@ == b@ ==> x@ == y@,
        decreases x@.len() - i,
    {
        if x[i] != y[i] {
            return false;
        }
        i += 1;
    }
    assert(x@ =~= y@);
    true
}

/// Tells whether `text` holds nothing but white space; the empty text does.
pub fn is_blank(text: &str) -> (blank: bool)
    ensures
        blank == is_blank_text(text@),
{
    for c in it: text.chars()
        invariant
            it.seq() == text@,
            forall|j: int| 0 <= j < it.index() ==> is_space(#[trigger] text@[j]),
    {
        if !is_whitespace(c) {
            return false;
        }
    }
    true
}

/// Splits `s` into its pieces: every white space character becomes a piece
/// of its own, and every word one piece. Nothing is dropped, so the pieces
/// joined give `s` back (see `lemma_pieces_joined`).
pub fn split_preserve_whitespace(s: &str) -> (out: Vec<String>)
    ensures
        texts(out@) == pieces(s@),
{
    let mut out: Vec<String> = Vec::new();
    let mut buf = String::new();
    let mut open = false;
    for c in it: s.chars()
        invariant
            it.seq() == s@,
            open == (it.index() > 0 && !is_space(s@[it.index() - 1])),
            open ==> buf@.len() > 0 && pieces(s@.take(it.index() as int)).len() > 0
                && pieces(s@.take(it.index() as int)).last() == buf@ && texts(out@) == pieces(
                s@.take(it.index() as int),
            ).drop_last(),
            !open ==> buf@.len() == 0 && texts(out@) == pieces(s@.take(it.index() as int)),
    {
        let ghost i = it.index() as int;
        let ghost before = s@.take(i);
        let ghost now = s@.take(i + 1);
        proof {
            assert(now.drop_last() == before);
            assert(now.last() == c);
            assert(i > 0 ==> now[now.len() - 2] == s@[i - 1]);
        }
        if is_whitespace(c) {
            if open {
                let ghost held = texts(out@);
                out.push(buf);
                buf = String::new();
                assert(texts(out@) == pieces(before)) by {
                    assert(texts(out@) =~= held.push(pieces(before).last()));
                    assert(pieces(before) =~= pieces(before).drop_last().push(
                        pieces(before).last(),
                    ));
                }
            }
            let ghost held = texts(out@);
            let mut single = String::new();
            push_char(&mut single, c);
            out.push(single);
            open = false;
            assert(texts(out@) == pieces(now)) by {
                assert(single@ =~= seq![c]);
                assert(texts(out@) =~= held.push(seq![c]));
            }
        } else {
            push_char(&mut buf, c);
            open = true;
        }
    }
    assert(s@.take(s@.len() as int) == s@);
    if open {
        let ghost held = texts(out@);
        out.push(buf);
        assert(texts(out@) == pieces(s@)) by {
            assert(texts(out@) =~= held.push(pieces(s@).last()));
            assert(pieces(s@) =~= pieces(s@).drop_last().push(pieces(s@).last()));
        }
    }
    out
}

} // verus!
