//! Text as characters and as bytes: cutting a string where a character count
//! says, and comparing strings, on top of what the standard library offers on
//! byte offsets.
use vstd::prelude::*;
use vstd::string::StringExecFns;
use vstd::utf8::*;

verus! {

/// The number of bytes that `text` takes in UTF-8.
pub open spec fn utf8_len(text: Seq<char>) -> nat {
    encode_utf8(text).len()
}

/// The encoding of a concatenation is the concatenation of the encodings.
pub proof fn lemma_encode_concat(a: Seq<char>, b: Seq<char>)
    ensures
        encode_utf8(a + b) == encode_utf8(a) + encode_utf8(b),
    decreases a.len(),
{
    if a.len() == 0 {
        assert(a + b =~= b);
        assert(encode_utf8(a) + encode_utf8(b) =~= encode_utf8(b));
    } else {
        lemma_encode_concat(a.drop_first(), b);
        assert((a + b).drop_first() =~= a.drop_first() + b);
        assert(encode_utf8(a + b) =~= encode_utf8(a) + encode_utf8(b));
    }
}

/// The encoding of `text` is that of its first `count` characters followed by
/// that of the others.
pub proof fn lemma_encode_split(text: Seq<char>, count: int)
    requires
        0 <= count <= text.len(),
    ensures
        encode_utf8(text) == encode_utf8(text.take(count)) + encode_utf8(text.skip(count)),
        encode_utf8(text).subrange(0, utf8_len(text.take(count)) as int) == encode_utf8(
            text.take(count),
        ),
        encode_utf8(text).subrange(
            utf8_len(text.take(count)) as int,
            encode_utf8(text).len() as int,
        ) == encode_utf8(text.skip(count)),
        utf8_len(text.take(count)) <= utf8_len(text),
{
    assert(text =~= text.take(count) + text.skip(count));
    lemma_encode_concat(text.take(count), text.skip(count));
    let head = encode_utf8(text.take(count));
    let tail = encode_utf8(text.skip(count));
    assert((head + tail).subrange(0, head.len() as int) =~= head);
    assert((head + tail).subrange(head.len() as int, (head + tail).len() as int) =~= tail);
}

/// The bytes of the first `to` characters are those of the first `from` and
/// those of the characters between.
pub proof fn lemma_utf8_len_range(text: Seq<char>, from: int, to: int)
    requires
        0 <= from <= to <= text.len(),
    ensures
        utf8_len(text.take(to)) == utf8_len(text.take(from)) + utf8_len(text.subrange(from, to)),
{
    assert(text.take(to) =~= text.take(from) + text.subrange(from, to));
    lemma_encode_concat(text.take(from), text.subrange(from, to));
}

/// Of two positions in a text, the earlier one stands at the earlier byte.
pub proof fn lemma_utf8_len_order(text: Seq<char>, from: int, to: int)
    requires
        0 <= from <= text.len(),
        0 <= to <= text.len(),
    ensures
        (from < to) == (utf8_len(text.take(from)) < utf8_len(text.take(to))),
{
    if from <= to {
        lemma_utf8_len_range(text, from, to);
        lemma_utf8_len_at_least(text.subrange(from, to));
    } else {
        lemma_utf8_len_range(text, to, from);
        lemma_utf8_len_at_least(text.subrange(to, from));
    }
}

/// A whole number of characters ends on a character boundary.
pub proof fn lemma_prefix_boundary(text: Seq<char>, count: int)
    requires
        0 <= count <= text.len(),
    ensures
        is_char_boundary(encode_utf8(text), utf8_len(text.take(count)) as int),
    decreases count,
{
    broadcast use encode_utf8_valid_utf8;

    let bytes = encode_utf8(text);
    if count == 0 {
        assert(text.take(0) =~= Seq::<char>::empty());
    } else {
        let rest = text.drop_first();
        encode_utf8_first_scalar(text);
        assert(pop_first_scalar(bytes) =~= encode_utf8(rest));
        lemma_prefix_boundary(rest, count - 1);
        assert(text.take(count).drop_first() =~= rest.take(count - 1));
        assert(text.take(count)[0] == text[0]);
        assert(utf8_len(text.take(count)) == encode_scalar(text[0] as u32).len() + utf8_len(
            rest.take(count - 1),
        ));
        lemma_encode_split(text, count);
    }
}

/// Two texts with one encoding are one text.
pub proof fn lemma_encode_injective(a: Seq<char>, b: Seq<char>)
    requires
        encode_utf8(a) == encode_utf8(b),
    ensures
        a == b,
{
    encode_utf8_decode_utf8(a);
    encode_utf8_decode_utf8(b);
}

/// Cuts `text` after its first `count` characters, which end at byte `mid`.
pub(crate) fn split_at_char<'a>(text: &'a str, mid: usize, Ghost(count): Ghost<int>) -> (parts: (
    &'a str,
    &'a str,
))
    requires
        0 <= count <= text@.len(),
        mid == utf8_len(text@.take(count)),
    ensures
        parts.0@ == text@.take(count),
        parts.1@ == text@.skip(count),
{
    proof {
        lemma_prefix_boundary(text@, count);
        lemma_encode_split(text@, count);
    }
    let parts = text.split_at(mid);
    proof {
        lemma_encode_injective(parts.0@, text@.take(count));
        lemma_encode_injective(parts.1@, text@.skip(count));
    }
    parts
}

/// A text takes at least one byte for each character.
pub proof fn lemma_utf8_len_at_least(text: Seq<char>)
    ensures
        text.len() <= utf8_len(text),
    decreases text.len(),
{
    if text.len() > 0 {
        lemma_utf8_len_at_least(text.drop_first());
    }
}

/// A text of ASCII characters takes one byte for each.
pub proof fn lemma_utf8_len_ascii(text: Seq<char>)
    requires
        is_ascii_chars(text),
    ensures
        utf8_len(text) == text.len(),
{
    is_ascii_chars_encode_utf8(text);
}

/// `text` begins with `prefix`.
pub open spec fn has_prefix(text: Seq<char>, prefix: Seq<char>) -> bool {
    prefix.len() <= text.len() && text.take(prefix.len() as int) == prefix
}

/// The length of `text` in bytes, which bounds its length in characters.
pub fn byte_len(text: &str) -> (len: usize)
    ensures
        len == utf8_len(text@),
        text@.len() <= len,
{
    proof {
        lemma_utf8_len_at_least(text@);
    }
    text.as_bytes().len()
}

/// Whether `text` begins with `prefix`.
pub fn starts_with(text: &str, prefix: &str) -> (found: bool)
    ensures
        found == has_prefix(text@, prefix@),
{
    let mid = byte_len(prefix);
    let len = byte_len(text);
    let ghost count = prefix@.len() as int;
    proof {
        if has_prefix(text@, prefix@) {
            lemma_encode_split(text@, count);
            lemma_prefix_boundary(text@, count);
        }
    }
    if mid > len || !text.is_char_boundary(mid) {
        return false;
    }
    let parts = text.split_at(mid);
    let found = str_eq(parts.0, prefix);
    proof {
        broadcast use encode_utf8_valid_utf8;

        let bytes = encode_utf8(text@);
        if found {
            decode_utf8_split(bytes, mid as int);
            encode_utf8_decode_utf8(text@);
            encode_utf8_decode_utf8(parts.0@);
            let rest = decode_utf8(bytes.subrange(mid as int, bytes.len() as int));
            assert(text@ == parts.0@ + rest);
            assert(text@.take(count) =~= prefix@);
        } else if has_prefix(text@, prefix@) {
            lemma_encode_injective(parts.0@, prefix@);
        }
    }
    found
}

/// `text` without its characters from `from` up to `to`, with `insert` in
/// their place.
pub open spec fn spliced(text: Seq<char>, from: int, to: int, insert: Seq<char>) -> Seq<char> {
    text.take(from) + insert + text.skip(to)
}

/// Puts `insert` in place of the characters of `text` from `from` up to `to`,
/// which stand at the bytes from `lo` up to `hi`.
pub(crate) fn splice(
    text: &str,
    lo: usize,
    hi: usize,
    insert: &str,
    Ghost(from): Ghost<int>,
    Ghost(to): Ghost<int>,
) -> (out: String)
    requires
        0 <= from <= to <= text@.len(),
        lo == utf8_len(text@.take(from)),
        hi == utf8_len(text@.take(to)),
    ensures
        out@ == spliced(text@, from, to, insert@),
{
    let head = split_at_char(text, lo, Ghost(from)).0;
    let tail = split_at_char(text, hi, Ghost(to)).1;
    let mut out = String::from_str(head);
    out.append(insert);
    out.append(tail);
    out
}

/// Calls `String::push`, which appends one character.
#[verifier::external_body]
pub(crate) fn push_char(text: &mut String, c: char)
    ensures
        final(text)@ == old(text)@.push(c),
{
    text.push(c)
}

/// Calls `char::from_u32`: the character with the given code, which exists
/// where the code is a Unicode scalar value.
#[verifier::external_body]
pub(crate) fn char_from_u32(code: u32) -> (c: Option<char>)
    ensures
        c == if is_scalar(code) {
            Some(code as char)
        } else {
            None
        },
{
    char::from_u32(code)
}

/// Whether two strings hold the same characters.
pub fn str_eq(a: &str, b: &str) -> (same: bool)
    ensures
        same == (a@ == b@),
{
    let left = a.as_bytes();
    let right = b.as_bytes();
    if left.len() != right.len() {
        return false;
    }
    let mut i: usize = 0;
    while i < left.len()
        invariant
            i <= left@.len(),
            left@.len() == right@.len(),
            left@ == encode_utf8(a@),
            right@ == encode_utf8(b@),
            forall|k: int| 0 <= k < i ==> left@[k] == right@[k],
        decreases left@.len() - i,
    {
        if left[i] != right[i] {
            return false;
        }
        i += 1;
    }
    proof {
        assert(left@ =~= right@);
        lemma_encode_injective(a@, b@);
    }
    true
}

} // verus!
