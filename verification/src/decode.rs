//! Cleaning the text of a giveaway: markup is cut out and escaped characters
//! are put back.
//!
//! A page carries its texts in one of two wrappings. Where the text was read
//! out of the page's JSON payload it holds HTML, and [`decode_html`] cleans it.
//! Where it was cut out of a script as it stood, its markup and its ampersands
//! are still escaped as `\uXXXX`, and [`decode_script`] cleans it. The steps of
//! each are fixed, and so is their order.
use crate::number::parse_u64;
use crate::number::parsed_u64;
use crate::scan::after;
use crate::scan::before;
use crate::scan::find;
use crate::scan::index_between_strict;
use crate::scan::lemma_find;
use crate::scan::lemma_find_from;
use crate::scan::lemma_span_bounds;
use crate::scan::occurs_at;
use crate::scan::span_bounds;
use crate::text::byte_len;
use crate::text::char_from_u32;
use crate::text::has_prefix;
use crate::text::lemma_encode_split;
use crate::text::lemma_utf8_len_at_least;
use crate::text::lemma_utf8_len_order;
use crate::text::lemma_utf8_len_range;
use crate::text::push_char;
use crate::text::splice;
use crate::text::split_at_char;
use crate::text::starts_with;
use crate::text::spliced;
use crate::text::utf8_len;
use vstd::prelude::*;
use vstd::string::StringExecFns;
use vstd::utf8::is_scalar;

verus! {

/// `text` after the span from the first `open` to the first `close` behind it
/// has been cut out, markers and all, again and again until no such span is
/// left. Each search starts over at the beginning of what the last cut left.
pub open spec fn without_spans(text: Seq<char>, open: Seq<char>, close: Seq<char>) -> Seq<char>
    decreases text.len(),
    via without_spans_decreases
{
    match span_bounds(text, open, close) {
        Some((from, to)) => if open.len() + close.len() > 0 {
            without_spans(
                spliced(text, from - open.len(), to + close.len(), Seq::empty()),
                open,
                close,
            )
        } else {
            text
        },
        None => text,
    }
}

#[via_fn]
proof fn without_spans_decreases(text: Seq<char>, open: Seq<char>, close: Seq<char>) {
    lemma_span_bounds(text, open, close);
}

/// `text` with `with` in place of each `pattern`, the patterns taken from the
/// left and none overlapping another. An empty pattern is in no text.
pub open spec fn replaced(text: Seq<char>, pattern: Seq<char>, with: Seq<char>) -> Seq<char>
    decreases text.len(),
    via replaced_decreases
{
    match find(text, pattern) {
        Some(at) => if pattern.len() > 0 {
            text.take(at) + with + replaced(text.skip(at + pattern.len()), pattern, with)
        } else {
            text
        },
        None => text,
    }
}

#[via_fn]
proof fn replaced_decreases(text: Seq<char>, pattern: Seq<char>, with: Seq<char>) {
    lemma_find(text, pattern);
}

/// The character that a numeric reference with the digits `code` stands for:
/// the one whose Unicode scalar value the digits write.
pub open spec fn reference_char(code: Seq<char>) -> Option<char> {
    match parsed_u64(code) {
        Some(value) => if value <= 0x10ffff && is_scalar(value as u32) {
            Some(value as u32 as char)
        } else {
            None
        },
        None => None,
    }
}

/// A numeric character reference in a text: where it starts, and where its
/// digits start and end. The `;` that closes it stands where the digits end.
pub struct Reference {
    pub start: int,
    pub from: int,
    pub to: int,
}

/// The leftmost numeric character reference of `text`, in either form: `&#`
/// or `\u0026#`, then anything up to the next `;`.
pub open spec fn first_reference(text: Seq<char>) -> Option<Reference> {
    let plain = span_bounds(text, "&#"@, ";"@);
    let escaped = span_bounds(text, "\\u0026#"@, ";"@);
    match (plain, escaped) {
        (Some(p), Some(e)) => if p.0 - "&#"@.len() < e.0 - "\\u0026#"@.len() {
            Some(Reference { start: p.0 - "&#"@.len(), from: p.0, to: p.1 })
        } else {
            Some(Reference { start: e.0 - "\\u0026#"@.len(), from: e.0, to: e.1 })
        },
        (Some(p), None) => Some(Reference { start: p.0 - "&#"@.len(), from: p.0, to: p.1 }),
        (None, Some(e)) => Some(
            Reference { start: e.0 - "\\u0026#"@.len(), from: e.0, to: e.1 },
        ),
        (None, None) => None,
    }
}

/// `text` with each numeric character reference resolved to its character,
/// the leftmost first, up to the first whose digits stand for no character:
/// from there on the text is left as it is.
pub open spec fn without_references(text: Seq<char>) -> Seq<char>
    decreases text.len(),
    via without_references_decreases
{
    match first_reference(text) {
        Some(reference) => match reference_char(text.subrange(reference.from, reference.to)) {
            Some(c) => without_references(
                spliced(text, reference.start, reference.to + 1, seq![c]),
            ),
            None => text,
        },
        None => text,
    }
}

#[via_fn]
proof fn without_references_decreases(text: Seq<char>) {
    lemma_first_reference(text);
}

/// Where a reference lies in its text.
pub proof fn lemma_first_reference(text: Seq<char>)
    ensures
        match first_reference(text) {
            Some(reference) => {
                &&& 0 <= reference.start
                &&& reference.start + 2 <= reference.from <= reference.to < text.len()
                &&& text[reference.to] == ';'
                &&& (reference.from - reference.start == 2 || reference.from - reference.start
                    == 7)
            },
            None => true,
        },
{
    reveal_strlit("&#");
    reveal_strlit("\\u0026#");
    reveal_strlit(";");
    lemma_span_bounds(text, "&#"@, ";"@);
    lemma_span_bounds(text, "\\u0026#"@, ";"@);
    lemma_find_from(text, ";"@, 0);
    match span_bounds(text, "&#"@, ";"@) {
        Some(p) => {
            lemma_find_from(text, ";"@, p.0);
            assert(text.subrange(p.1, p.1 + 1)[0] == ';');
        },
        None => {},
    }
    match span_bounds(text, "\\u0026#"@, ";"@) {
        Some(e) => {
            lemma_find_from(text, ";"@, e.0);
            assert(text.subrange(e.1, e.1 + 1)[0] == ';');
        },
        None => {},
    }
}

/// The text of a page's payload, cleaned: tags from `<` to `>` are cut out,
/// each no-break space becomes a line break, and each `&#39;` an apostrophe.
pub open spec fn decoded_html(raw: Seq<char>) -> Seq<char> {
    replaced(replaced(without_spans(raw, "<"@, ">"@), "\u{a0}"@, "\n"@), "&#39;"@, "'"@)
}

/// `c` is a digit of a number to the base sixteen.
pub open spec fn is_hex_digit(c: char) -> bool {
    ('0' <= c && c <= '9') || ('a' <= c && c <= 'f') || ('A' <= c && c <= 'F')
}

/// The first `count` characters of `text` are hex digits.
pub open spec fn hex_digits(text: Seq<char>, count: int) -> bool {
    count <= text.len() && forall|k: int| 0 <= k < count ==> is_hex_digit(#[trigger] text[k])
}

/// A `\u` at `at` begins an escape that is neither whole nor harmless: fewer
/// than four hex digits follow it, or it is the `\u003c` that opens a tag.
pub open spec fn broken_escape_at(text: Seq<char>, at: int) -> bool {
    &&& occurs_at(text, "\\u"@, at)
    &&& (!hex_digits(text.skip(at + 2), 4) || has_prefix(text.skip(at + 2), "003c"@))
}

/// The first position, not before `from`, of a broken escape.
pub open spec fn first_broken_escape(text: Seq<char>, from: int) -> Option<int>
    decreases text.len() + 1 - from,
{
    if from < 0 || from + 2 > text.len() {
        None
    } else if broken_escape_at(text, from) {
        Some(from)
    } else {
        first_broken_escape(text, from + 1)
    }
}

/// `text` up to its first broken escape; all of it where it has none.
pub open spec fn before_broken_escape(text: Seq<char>) -> Seq<char> {
    match first_broken_escape(text, 0) {
        Some(at) => text.take(at),
        None => text,
    }
}

/// The text of a script, cleaned: tags from `\u003c` to `\u003e` are cut out,
/// what is left ends before the first escape that is broken (a `\u003c` that
/// nothing closes, or a `\u` that the end of the text cut short), each `&#39;`
/// becomes an apostrophe, and numeric references are resolved.
pub open spec fn decoded_script(raw: Seq<char>) -> Seq<char> {
    without_references(
        replaced(
            before_broken_escape(without_spans(raw, "\\u003c"@, "\\u003e"@)),
            "&#39;"@,
            "'"@,
        ),
    )
}

/// Where no broken escape stands from `from` up to `to`, the first one from
/// `from` on is the first one from `to` on.
proof fn lemma_no_broken_escape(text: Seq<char>, from: int, to: int)
    requires
        0 <= from <= to,
        forall|at: int| from <= at < to ==> !broken_escape_at(text, at),
    ensures
        first_broken_escape(text, from) == first_broken_escape(text, to),
    decreases to - from,
{
    if from < to {
        lemma_no_broken_escape(text, from + 1, to);
        if from + 2 > text.len() {
            lemma_broken_escape_end(text, from + 1);
        }
    }
}

/// No escape begins in the last character of a text or behind it.
proof fn lemma_broken_escape_end(text: Seq<char>, from: int)
    requires
        from + 2 > text.len(),
    ensures
        first_broken_escape(text, from) is None,
{
}

/// Cuts every span from `open` to `close` out of `text`.
pub fn strip_spans(text: &str, open: &str, close: &str) -> (out: String)
    ensures
        out@ == without_spans(text@, open@, close@),
{
    let mut current = String::from_str(text);
    let open_len = byte_len(open);
    let close_len = byte_len(close);
    if open_len == 0 && close_len == 0 {
        proof {
            lemma_utf8_len_at_least(open@);
            lemma_utf8_len_at_least(close@);
        }
        return current;
    }
    loop
        invariant
            without_spans(current@, open@, close@) == without_spans(text@, open@, close@),
            open_len == utf8_len(open@),
            close_len == utf8_len(close@),
            open@.len() + close@.len() > 0,
        ensures
            current@ == without_spans(text@, open@, close@),
        decreases current@.len(),
    {
        match index_between_strict(current.as_str(), open, close) {
            Some((lo, hi)) => {
                let ghost bounds = span_bounds(current@, open@, close@)->0;
                let ghost from = bounds.0 - open@.len();
                let ghost to = bounds.1 + close@.len();
                proof {
                    lemma_span_bounds(current@, open@, close@);
                    lemma_find(current@, open@);
                    lemma_find_from(current@, close@, bounds.0);
                    lemma_utf8_len_range(current@, from, bounds.0);
                    lemma_utf8_len_range(current@, bounds.1, to);
                    lemma_encode_split(current@, to);
                    assert(current@.subrange(from, bounds.0) == open@);
                    assert(current@.subrange(bounds.1, to) == close@);
                }
                let len = byte_len(current.as_str());
                assert(hi + close_len <= len);
                current = splice(
                    current.as_str(),
                    lo - open_len,
                    hi + close_len,
                    "",
                    Ghost(from),
                    Ghost(to),
                );
                proof {
                    reveal_strlit("");
                    assert(""@ =~= Seq::<char>::empty());
                }
            },
            None => {
                break ;
            },
        }
    }
    current
}

/// Puts `with` in place of each `pattern` in `text`.
pub fn replace_all(text: &str, pattern: &str, with: &str) -> (out: String)
    ensures
        out@ == replaced(text@, pattern@, with@),
{
    let mut out = String::new();
    let mut rest = text;
    if byte_len(pattern) == 0 {
        proof {
            lemma_utf8_len_at_least(pattern@);
            lemma_find(text@, pattern@);
        }
        return String::from_str(text);
    }
    loop
        invariant_except_break
            replaced(text@, pattern@, with@) == out@ + replaced(rest@, pattern@, with@),
        invariant
            pattern@.len() > 0,
        ensures
            out@ == replaced(text@, pattern@, with@),
        decreases rest@.len(),
    {
        let head = before(rest, pattern);
        proof {
            lemma_find(rest@, pattern@);
            lemma_utf8_len_at_least(pattern@);
            match find(rest@, pattern@) {
                Some(at) => {
                    lemma_utf8_len_range(rest@, at, rest@.len() as int);
                    assert(rest@.take(rest@.len() as int) =~= rest@);
                    lemma_utf8_len_at_least(rest@.subrange(at, rest@.len() as int));
                },
                None => {},
            }
        }
        if byte_len(head) == byte_len(rest) {
            out.append(rest);
            break ;
        }
        out.append(head);
        out.append(with);
        rest = after(rest, pattern);
    }
    out
}

/// Finds the leftmost numeric reference of `text`: the bytes at which it
/// starts, at which its digits start, and at which they end.
fn locate_reference(text: &str) -> (found: Option<(usize, usize, usize)>)
    ensures
        match found {
            Some((start, from, to)) => {
                &&& first_reference(text@) matches Some(reference)
                &&& start == utf8_len(text@.take(reference.start))
                &&& from == utf8_len(text@.take(reference.from))
                &&& to == utf8_len(text@.take(reference.to))
            },
            None => first_reference(text@) is None,
        },
{
    let plain = index_between_strict(text, "&#", ";");
    let escaped = index_between_strict(text, "\\u0026#", ";");
    let plain_len = byte_len("&#");
    let escaped_len = byte_len("\\u0026#");
    proof {
        lemma_span_bounds(text@, "&#"@, ";"@);
        lemma_span_bounds(text@, "\\u0026#"@, ";"@);
        lemma_find(text@, "&#"@);
        lemma_find(text@, "\\u0026#"@);
        match span_bounds(text@, "&#"@, ";"@) {
            Some(p) => {
                lemma_utf8_len_range(text@, p.0 - "&#"@.len(), p.0);
            },
            None => {},
        }
        match span_bounds(text@, "\\u0026#"@, ";"@) {
            Some(e) => {
                lemma_utf8_len_range(text@, e.0 - "\\u0026#"@.len(), e.0);
            },
            None => {},
        }
        match (span_bounds(text@, "&#"@, ";"@), span_bounds(text@, "\\u0026#"@, ";"@)) {
            (Some(p), Some(e)) => {
                lemma_utf8_len_order(
                    text@,
                    p.0 - "&#"@.len(),
                    e.0 - "\\u0026#"@.len(),
                );
            },
            _ => {},
        }
    }
    match (plain, escaped) {
        (Some(p), Some(e)) => if p.0 - plain_len < e.0 - escaped_len {
            Some((p.0 - plain_len, p.0, p.1))
        } else {
            Some((e.0 - escaped_len, e.0, e.1))
        },
        (Some(p), None) => Some((p.0 - plain_len, p.0, p.1)),
        (None, Some(e)) => Some((e.0 - escaped_len, e.0, e.1)),
        (None, None) => None,
    }
}

/// The character that the digits `code` stand for in a numeric reference.
pub fn char_of_reference(code: &str) -> (c: Option<char>)
    ensures
        c == reference_char(code@),
{
    match parse_u64(code) {
        Some(value) => if value <= 0x10ffff {
            char_from_u32(value as u32)
        } else {
            None
        },
        None => None,
    }
}

/// Resolves the numeric character references of `text`, from the left, up to
/// the first that stands for no character.
pub fn resolve_references(text: &str) -> (out: String)
    ensures
        out@ == without_references(text@),
{
    let mut current = String::from_str(text);
    loop
        invariant
            without_references(current@) == without_references(text@),
        ensures
            current@ == without_references(text@),
        decreases current@.len(),
    {
        match locate_reference(current.as_str()) {
            Some((start, from, to)) => {
                let ghost reference = first_reference(current@)->0;
                proof {
                    lemma_first_reference(current@);
                    reveal_strlit(";");
                    lemma_utf8_len_range(current@, reference.to, reference.to + 1);
                    assert(current@.subrange(reference.to, reference.to + 1) =~= ";"@);
                    lemma_encode_split(current@, reference.to + 1);
                    assert(current@.take(reference.to).take(reference.from) =~= current@.take(
                        reference.from,
                    ));
                    assert(current@.take(reference.to).skip(reference.from)
                        =~= current@.subrange(reference.from, reference.to));
                }
                let len = byte_len(current.as_str());
                assert(to + utf8_len(";"@) <= len);
                let end = to + byte_len(";");
                let upto = split_at_char(current.as_str(), to, Ghost(reference.to)).0;
                let code = split_at_char(upto, from, Ghost(reference.from)).1;
                match char_of_reference(code) {
                    Some(c) => {
                        let mut insert = String::new();
                        push_char(&mut insert, c);
                        assert(insert@ =~= seq![c]);
                        current = splice(
                            current.as_str(),
                            start,
                            end,
                            insert.as_str(),
                            Ghost(reference.start),
                            Ghost(reference.to + 1),
                        );
                    },
                    None => {
                        break ;
                    },
                }
            },
            None => {
                break ;
            },
        }
    }
    current
}

/// Whether `c` is a digit of a number to the base sixteen.
pub fn hex_digit(c: char) -> (hex: bool)
    ensures
        hex == is_hex_digit(c),
{
    ('0' <= c && c <= '9') || ('a' <= c && c <= 'f') || ('A' <= c && c <= 'F')
}

/// Whether `text` begins with four hex digits.
fn starts_with_hex(text: &str) -> (whole: bool)
    ensures
        whole == hex_digits(text@, 4),
{
    let mut count: usize = 0;
    for c in it: text.chars()
        invariant
            it.seq() == text@,
            count == it.index(),
            count < 4,
            forall|k: int| 0 <= k < count ==> is_hex_digit(text@[k]),
    {
        if !hex_digit(c) {
            return false;
        }
        count += 1;
        if count == 4 {
            return true;
        }
    }
    false
}

/// Cuts `text` off before its first broken escape.
pub fn cut_broken_escape(text: &str) -> (kept: &str)
    ensures
        kept@ == before_broken_escape(text@),
{
    let len = byte_len(text);
    let marker_len = byte_len("\\u");
    let mut rest = text;
    let mut consumed: usize = 0;
    let ghost mut base: int = 0;
    proof {
        reveal_strlit("\\u");
        reveal_strlit("003c");
        lemma_utf8_len_at_least("\\u"@);
        assert(text@.skip(0) =~= text@);
        assert(text@.take(0) =~= Seq::<char>::empty());
    }
    loop
        invariant
            "\\u"@.len() == 2,
            "\\u"@[0] == '\\',
            "\\u"@[1] == 'u',
            marker_len == utf8_len("\\u"@),
            marker_len >= 2,
            len == utf8_len(text@),
            0 <= base <= text@.len(),
            rest@ == text@.skip(base),
            consumed == utf8_len(text@.take(base)),
            first_broken_escape(text@, 0) == first_broken_escape(text@, base),
        decreases rest@.len(),
    {
        let head = before(rest, "\\u");
        let head_len = byte_len(head);
        proof {
            lemma_find(rest@, "\\u"@);
            assert forall|k: int| 0 <= k implies occurs_at(rest@, "\\u"@, k) == occurs_at(
                text@,
                "\\u"@,
                base + k,
            ) by {
                if k + 2 <= rest@.len() {
                    assert(rest@.subrange(k, k + 2) =~= text@.subrange(base + k, base + k + 2));
                }
            }
            match find(rest@, "\\u"@) {
                Some(at) => {
                    lemma_utf8_len_range(rest@, at, rest@.len() as int);
                    assert(rest@.take(rest@.len() as int) =~= rest@);
                    lemma_utf8_len_at_least(rest@.subrange(at, rest@.len() as int));
                    lemma_utf8_len_range(text@, base, base + at);
                    assert(text@.subrange(base, base + at) =~= rest@.take(at));
                    lemma_utf8_len_range(text@, base + at, base + at + 2);
                    assert(text@.subrange(base + at, base + at + 2) == "\\u"@);
                    lemma_encode_split(text@, base + at + 2);
                    assert forall|k: int| base <= k < base + at implies !broken_escape_at(
                        text@,
                        k,
                    ) by {
                        assert(!occurs_at(rest@, "\\u"@, k - base));
                    }
                    lemma_no_broken_escape(text@, base, base + at);
                },
                None => {
                    assert forall|k: int| base <= k < text@.len() implies !broken_escape_at(
                        text@,
                        k,
                    ) by {
                        assert(!occurs_at(rest@, "\\u"@, k - base));
                    }
                    lemma_no_broken_escape(text@, base, text@.len() as int);
                    lemma_broken_escape_end(text@, text@.len() as int);
                },
            }
        }
        if head_len == byte_len(rest) {
            return text;
        }
        let ghost at = find(rest@, "\\u"@)->0;
        let tail = after(rest, "\\u");
        proof {
            assert(tail@ =~= text@.skip(base + at + 2));
        }
        if !starts_with_hex(tail) || starts_with(tail, "003c") {
            return split_at_char(text, consumed + head_len, Ghost(base + at)).0;
        }
        proof {
            assert(text@[base + at + 1] == text@.subrange(base + at, base + at + 2)[1]);
            assert(!occurs_at(text@, "\\u"@, base + at + 1)) by {
                if occurs_at(text@, "\\u"@, base + at + 1) {
                    assert(text@.subrange(base + at + 1, base + at + 3)[0] == text@[base + at
                        + 1]);
                }
            }
            lemma_no_broken_escape(text@, base + at, base + at + 2);
            base = base + at + 2;
        }
        consumed = consumed + head_len + marker_len;
        rest = tail;
    }
}

/// Cleans a text that was cut out of a script.
pub fn decode_script(raw: &str) -> (out: String)
    ensures
        out@ == decoded_script(raw@),
{
    let stripped = strip_spans(raw, "\\u003c", "\\u003e");
    let kept = cut_broken_escape(stripped.as_str());
    let plain = replace_all(kept, "&#39;", "'");
    resolve_references(plain.as_str())
}

/// Cleans a text that was read out of a page's payload.
pub fn decode_html(raw: &str) -> (out: String)
    ensures
        out@ == decoded_html(raw@),
{
    let stripped = strip_spans(raw, "<", ">");
    let spaced = replace_all(stripped.as_str(), "\u{a0}", "\n");
    replace_all(spaced.as_str(), "&#39;", "'")
}

} // verus!
