//! Byte offsets into text, stated over characters.
//!
//! The tokenizer walks its source by byte offset, while everything it promises
//! is stated over sequences of characters. The definitions and lemmas here
//! connect the two through the UTF-8 encoding.

use vstd::prelude::*;
use vstd::utf8::*;

verus! {

/// `n` is a byte offset of `text` that does not fall inside a character.
pub open spec fn on_boundary(text: Seq<char>, n: int) -> bool {
    0 <= n <= encode_utf8(text).len() && is_char_boundary(encode_utf8(text), n)
}

/// The characters that the first `n` bytes of `text` encode.
pub open spec fn chars_before(text: Seq<char>, n: int) -> Seq<char> {
    decode_utf8(encode_utf8(text).subrange(0, n))
}

/// The characters that the bytes of `text` from offset `n` on encode.
pub open spec fn chars_from(text: Seq<char>, n: int) -> Seq<char> {
    decode_utf8(encode_utf8(text).subrange(n, encode_utf8(text).len() as int))
}

/// Encoding distributes over concatenation.
pub proof fn lemma_encode_concat(a: Seq<char>, b: Seq<char>)
    ensures
        encode_utf8(a + b) == encode_utf8(a) + encode_utf8(b),
    decreases a.len(),
{
    if a.len() == 0 {
        assert(a + b =~= b);
        assert(encode_utf8(a) + encode_utf8(b) =~= encode_utf8(b));
    } else {
        lemma_encode_concat(a.drop_first(), b);
        assert((a + b).drop_first() =~= a.drop_first() + b);
        assert(encode_utf8(a + b) =~= encode_utf8(a) + encode_utf8(b));
    }
}

/// The place where two texts are joined is a character boundary of the whole.
pub proof fn lemma_boundary_concat(a: Seq<char>, b: Seq<char>)
    ensures
        on_boundary(a + b, encode_utf8(a).len() as int),
    decreases a.len(),
{
    lemma_encode_concat(a, b);
    encode_utf8_valid_utf8(a + b);
    if a.len() == 0 {
    } else {
        let whole = encode_utf8(a + b);
        encode_utf8_first_scalar(a + b);
        encode_utf8_first_scalar(a);
        assert((a + b).drop_first() =~= a.drop_first() + b);
        assert(pop_first_scalar(whole) =~= encode_utf8(a.drop_first() + b));
        lemma_boundary_concat(a.drop_first(), b);
        assert(encode_utf8(a).len() == encode_scalar(a[0] as u32).len() + encode_utf8(
            a.drop_first(),
        ).len());
        assert(length_of_first_scalar(whole) > 0);
    }
}

/// Cutting a text at a boundary and joining the two parts gives the text back,
/// and the first part takes up exactly the bytes before the cut.
pub proof fn lemma_split(text: Seq<char>, n: int)
    requires
        on_boundary(text, n),
    ensures
        text == chars_before(text, n) + chars_from(text, n),
        encode_utf8(chars_before(text, n)) == encode_utf8(text).subrange(0, n),
        encode_utf8(chars_from(text, n)) == encode_utf8(text).subrange(
            n,
            encode_utf8(text).len() as int,
        ),
{
    let bytes = encode_utf8(text);
    encode_utf8_valid_utf8(text);
    encode_utf8_decode_utf8(text);
    valid_utf8_split(bytes, n);
    decode_utf8_split(bytes, n);
    decode_utf8_encode_utf8(bytes.subrange(0, n));
    decode_utf8_encode_utf8(bytes.subrange(n, bytes.len() as int));
}

/// Cutting a joined text where it was joined gives the two parts back.
pub proof fn lemma_join(a: Seq<char>, b: Seq<char>)
    ensures
        on_boundary(a + b, encode_utf8(a).len() as int),
        chars_before(a + b, encode_utf8(a).len() as int) == a,
        chars_from(a + b, encode_utf8(a).len() as int) == b,
{
    lemma_boundary_concat(a, b);
    lemma_encode_concat(a, b);
    let ea = encode_utf8(a);
    let eb = encode_utf8(b);
    assert((ea + eb).subrange(0, ea.len() as int) =~= ea);
    assert((ea + eb).subrange(ea.len() as int, (ea + eb).len() as int) =~= eb);
    encode_utf8_decode_utf8(a);
    encode_utf8_decode_utf8(b);
}

/// Two cuts in a row are one cut at the sum of their offsets.
pub proof fn lemma_advance(text: Seq<char>, at: int, n: int)
    requires
        on_boundary(text, at),
        on_boundary(chars_from(text, at), n),
    ensures
        on_boundary(text, at + n),
        chars_from(text, at + n) == chars_from(chars_from(text, at), n),
{
    let done = chars_before(text, at);
    let rest = chars_from(text, at);
    let taken = chars_before(rest, n);
    let left = chars_from(rest, n);
    lemma_split(text, at);
    lemma_split(rest, n);
    lemma_encode_concat(done, taken);
    assert(text =~= (done + taken) + left);
    lemma_join(done + taken, left);
}

/// A text has no more characters than bytes.
pub proof fn lemma_chars_fit(a: Seq<char>)
    ensures
        a.len() <= encode_utf8(a).len(),
    decreases a.len(),
{
    if a.len() > 0 {
        lemma_chars_fit(a.drop_first());
        lemma_encode_nonempty(seq![a[0]]);
        assert(seq![a[0]] + a.drop_first() =~= a);
        lemma_encode_concat(seq![a[0]], a.drop_first());
    }
}

/// A text that is not empty takes up at least one byte.
pub proof fn lemma_encode_nonempty(a: Seq<char>)
    ensures
        (a.len() == 0) == (encode_utf8(a).len() == 0),
{
    if a.len() > 0 {
        encode_utf8_first_scalar(a);
        assert(encode_utf8(a).len() == encode_scalar(a[0] as u32).len() + encode_utf8(
            a.drop_first(),
        ).len());
    }
}

} // verus!
