//! Characters, UTF-8 byte offsets and slicing of string slices.

use vstd::prelude::*;
use vstd::utf8::*;
use vstd::string::*;

verus! {

/// Whether `char::is_whitespace` holds of `c`.
pub uninterp spec fn whitespace(c: char) -> bool;

/// Whether `char::is_alphanumeric` holds of `c`.
pub uninterp spec fn alphanumeric(c: char) -> bool;

/// The characters that `char::to_lowercase` yields for `c`, in order.
pub uninterp spec fn lowercase(c: char) -> Seq<char>;

/// `char::is_whitespace`: the Unicode `White_Space` property of `c`.  The
/// contract only names the answer.
pub assume_specification[ char::is_whitespace ](c: char) -> (r: bool)
    ensures
        r == whitespace(c),
;

/// `char::is_alphanumeric`: whether `c` is alphabetic or numeric in Unicode.
/// The contract only names the answer.
pub assume_specification[ char::is_alphanumeric ](c: char) -> (r: bool)
    ensures
        r == alphanumeric(c),
;

/// `char::len_utf8`: the number of bytes that `c` takes in UTF-8, which is
/// the length of its encoding as `vstd::utf8` defines it (between one and
/// four).
pub assume_specification[ char::len_utf8 ](c: char) -> (r: usize)
    ensures
        r == encode_scalar(c as u32).len(),
;

/// `char::to_lowercase`, gathered into a `String`: the lowercase mapping of
/// `c`, which may be more than one character.  The contract only names the
/// result.
#[verifier::external_body]
pub(crate) fn lowercase_of(c: char) -> (r: String)
    ensures
        r@ == lowercase(c),
{
    c.to_lowercase().collect()
}

/// The number of bytes that `text` takes in UTF-8.
pub open spec fn byte_len(text: Seq<char>) -> int {
    encode_utf8(text).len() as int
}

/// The number of bytes of `text`.
pub fn byte_length(text: &str) -> (n: usize)
    ensures
        n == byte_len(text@),
{
    text.as_bytes().len()
}

/// The text held by the bytes of `text` from offset `from` up to `to`.
pub open spec fn byte_slice(text: Seq<char>, from: int, to: int) -> Seq<char> {
    decode_utf8(encode_utf8(text).subrange(from, to))
}

/// Encoding distributes over concatenation.
pub proof fn lemma_encode_concat(a: Seq<char>, b: Seq<char>)
    ensures
        encode_utf8(a + b) == encode_utf8(a) + encode_utf8(b),
    decreases a.len(),
{
    if a.len() == 0 {
        assert(a + b =~= b);
        assert(encode_utf8(a) + encode_utf8(b) =~= encode_utf8(b));
    } else {
        lemma_encode_concat(a.drop_first(), b);
        assert((a + b).drop_first() =~= a.drop_first() + b);
        assert(encode_utf8(a + b) =~= encode_utf8(a) + encode_utf8(b));
    }
}

/// The end of an encoded prefix is a character boundary of the whole.
pub proof fn lemma_boundary_after_prefix(a: Seq<char>, b: Seq<char>)
    ensures
        is_char_boundary(encode_utf8(a + b), byte_len(a)),
    decreases a.len(),
{
    broadcast use encode_utf8_valid_utf8;
    let whole = encode_utf8(a + b);
    if a.len() == 0 {
    } else {
        lemma_encode_concat(a, b);
        lemma_encode_concat(a.drop_first(), b);
        encode_utf8_first_scalar(a + b);
        assert((a + b).drop_first() =~= a.drop_first() + b);
        assert(pop_first_scalar(whole) =~= encode_utf8(a.drop_first() + b));
        lemma_boundary_after_prefix(a.drop_first(), b);
        assert(byte_len(a) == length_of_first_scalar(whole) + byte_len(a.drop_first()));
        assert(length_of_first_scalar(whole) >= 1);
    }
}

/// Every character takes between one and four bytes.
pub proof fn lemma_scalar_width(c: char)
    ensures
        1 <= encode_scalar(c as u32).len() <= 4,
{
}

/// Appending one character lengthens the encoding by that character's width.
pub proof fn lemma_byte_len_take(text: Seq<char>, k: int)
    requires
        0 <= k < text.len(),
    ensures
        byte_len(text.take(k + 1)) == byte_len(text.take(k)) + encode_scalar(text[k] as u32).len(),
        byte_len(text.take(k + 1)) <= byte_len(text),
{
    let one = seq![text[k]];
    assert(text.take(k + 1) =~= text.take(k) + one);
    lemma_encode_concat(text.take(k), one);
    assert(one.drop_first() =~= Seq::<char>::empty());
    assert(encode_utf8(one) =~= encode_scalar(text[k] as u32)) by {
        reveal_with_fuel(encode_utf8, 2);
    }
    assert(text =~= text.take(k + 1) + text.skip(k + 1));
    lemma_encode_concat(text.take(k + 1), text.skip(k + 1));
}

/// The bytes between two prefix ends are the encoding of the characters
/// between them, and both ends are character boundaries.
pub proof fn lemma_char_range_bytes(text: Seq<char>, a: int, b: int)
    requires
        0 <= a <= b <= text.len(),
    ensures
        0 <= byte_len(text.take(a)) <= byte_len(text.take(b)) <= byte_len(text),
        byte_len(text.take(b)) == byte_len(text.take(a)) + byte_len(text.subrange(a, b)),
        encode_utf8(text).subrange(byte_len(text.take(a)), byte_len(text.take(b))) == encode_utf8(
            text.subrange(a, b),
        ),
        is_char_boundary(encode_utf8(text), byte_len(text.take(a))),
        is_char_boundary(encode_utf8(text), byte_len(text.take(b))),
        byte_slice(text, byte_len(text.take(a)), byte_len(text.take(b))) == text.subrange(a, b),
        a < b ==> byte_len(text.take(a)) < byte_len(text.take(b)),
{
    broadcast use encode_utf8_decode_utf8;
    if a < b {
        lemma_byte_len_take(text, a);
        lemma_scalar_width(text[a]);
        assert(text.take(b) =~= text.take(a + 1) + text.subrange(a + 1, b));
        lemma_encode_concat(text.take(a + 1), text.subrange(a + 1, b));
    }
    let pre = text.take(a);
    let mid = text.subrange(a, b);
    let post = text.skip(b);
    assert(text.take(b) =~= pre + mid);
    assert(text =~= text.take(b) + post);
    assert(text =~= pre + text.skip(a));
    lemma_encode_concat(pre, mid);
    lemma_encode_concat(text.take(b), post);
    lemma_boundary_after_prefix(pre, text.skip(a));
    lemma_boundary_after_prefix(text.take(b), post);
    assert(encode_utf8(text).subrange(byte_len(pre), byte_len(text.take(b))) =~= encode_utf8(mid));
}

/// The part of `text` between the byte offsets `from` and `to`, which must
/// both lie on character boundaries.
pub fn slice<'a>(text: &'a str, from: usize, to: usize) -> (part: &'a str)
    requires
        from <= to <= byte_len(text@),
        is_char_boundary(encode_utf8(text@), from as int),
        is_char_boundary(encode_utf8(text@), to as int),
    ensures
        part@ == byte_slice(text@, from as int, to as int),
        encode_utf8(part@) == encode_utf8(text@).subrange(from as int, to as int),
{
    broadcast use encode_utf8_valid_utf8, encode_utf8_decode_utf8;
    let ghost bytes = encode_utf8(text@);
    let (head, _) = text.split_at(to);
    proof {
        valid_utf8_split(bytes, to as int);
        let hb = bytes.subrange(0, to as int);
        assert(head.spec_bytes() == hb);
        if from < to {
            is_char_boundary_iff_not_is_continuation_byte(bytes, from as int);
            is_char_boundary_iff_not_is_continuation_byte(hb, from as int);
        } else {
            is_char_boundary_start_end_of_seq(hb);
        }
    }
    let (_, part) = head.split_at(from);
    proof {
        assert(part.spec_bytes() =~= bytes.subrange(from as int, to as int));
    }
    part
}

} // verus!
