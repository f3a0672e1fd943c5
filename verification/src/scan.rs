//! Leftmost-occurrence scanning of text for markers.
//!
//! A marker is found where it first stands in the text, read from the left;
//! nothing here parses. The searching itself is done by the `string_tools`
//! crate; this module says what it finds.
use crate::text::split_at_char;
use crate::text::utf8_len;
use vstd::prelude::*;

verus! {

/// `marker` stands in `text` at position `at`.
pub open spec fn occurs_at(text: Seq<char>, marker: Seq<char>, at: int) -> bool {
    &&& 0 <= at
    &&& at + marker.len() <= text.len()
    &&& text.subrange(at, at + marker.len()) == marker
}

/// The first position, not before `from`, at which `marker` stands in `text`.
pub open spec fn find_from(text: Seq<char>, marker: Seq<char>, from: int) -> Option<int>
    decreases text.len() + 1 - from,
{
    if from < 0 || from + marker.len() > text.len() {
        None
    } else if occurs_at(text, marker, from) {
        Some(from)
    } else {
        find_from(text, marker, from + 1)
    }
}

/// The first position at which `marker` stands in `text`.
pub open spec fn find(text: Seq<char>, marker: Seq<char>) -> Option<int> {
    find_from(text, marker, 0)
}

/// What stands before the first `marker`, if there is one.
pub open spec fn prefix_before_strict(text: Seq<char>, marker: Seq<char>) -> Option<Seq<char>> {
    match find(text, marker) {
        Some(at) => Some(text.take(at)),
        None => None,
    }
}

/// What stands after the first `marker`, if there is one.
pub open spec fn suffix_after_strict(text: Seq<char>, marker: Seq<char>) -> Option<Seq<char>> {
    match find(text, marker) {
        Some(at) => Some(text.skip(at + marker.len())),
        None => None,
    }
}

/// What stands before the first `marker`; the whole text if there is none.
pub open spec fn prefix_before(text: Seq<char>, marker: Seq<char>) -> Seq<char> {
    match prefix_before_strict(text, marker) {
        Some(prefix) => prefix,
        None => text,
    }
}

/// What stands after the first `marker`; nothing if there is none.
pub open spec fn suffix_after(text: Seq<char>, marker: Seq<char>) -> Seq<char> {
    match suffix_after_strict(text, marker) {
        Some(suffix) => suffix,
        None => Seq::empty(),
    }
}

/// What stands between the first `begin` and the first `end` that follows it,
/// each marker taken as absent where it is: without `begin` nothing is left,
/// without `end` everything after `begin` is.
pub open spec fn span_between(text: Seq<char>, begin: Seq<char>, end: Seq<char>) -> Seq<char> {
    prefix_before(suffix_after(text, begin), end)
}

/// What stands between the first `begin` and the first `end` that follows it,
/// if both are there.
pub open spec fn span_between_strict(text: Seq<char>, begin: Seq<char>, end: Seq<char>) -> Option<
    Seq<char>,
> {
    match suffix_after_strict(text, begin) {
        Some(rest) => prefix_before_strict(rest, end),
        None => None,
    }
}

/// Where the span of [`span_between_strict`] starts and ends in `text`, counted
/// in characters: the first position after `begin`, and the position of `end`.
pub open spec fn span_bounds(text: Seq<char>, begin: Seq<char>, end: Seq<char>) -> Option<
    (int, int),
> {
    match find(text, begin) {
        Some(at) => match find(text.skip(at + begin.len()), end) {
            Some(len) => Some((at + begin.len(), at + begin.len() + len)),
            None => None,
        },
        None => None,
    }
}

/// [`find_from`] gives the least position that it may, and none only where
/// there is none.
pub proof fn lemma_find_from(text: Seq<char>, marker: Seq<char>, from: int)
    requires
        0 <= from,
    ensures
        match find_from(text, marker, from) {
            Some(at) => {
                &&& from <= at
                &&& occurs_at(text, marker, at)
                &&& forall|earlier: int| from <= earlier < at ==> !occurs_at(text, marker, earlier)
            },
            None => forall|at: int| from <= at ==> !occurs_at(text, marker, at),
        },
    decreases text.len() + 1 - from,
{
    if from + marker.len() > text.len() {
    } else if occurs_at(text, marker, from) {
    } else {
        lemma_find_from(text, marker, from + 1);
    }
}

/// [`find`] gives the first occurrence, and none only where there is none.
pub proof fn lemma_find(text: Seq<char>, marker: Seq<char>)
    ensures
        match find(text, marker) {
            Some(at) => {
                &&& occurs_at(text, marker, at)
                &&& forall|earlier: int| 0 <= earlier < at ==> !occurs_at(text, marker, earlier)
            },
            None => forall|at: int| !occurs_at(text, marker, at),
        },
{
    lemma_find_from(text, marker, 0);
}

/// To search what follows position `start` is to search the text from there.
pub proof fn lemma_find_skip(text: Seq<char>, marker: Seq<char>, start: int)
    requires
        0 <= start <= text.len(),
    ensures
        find(text.skip(start), marker) == match find_from(text, marker, start) {
            Some(at) => Some(at - start),
            None => None,
        },
{
    let rest = text.skip(start);
    assert forall|at: int| 0 <= at implies occurs_at(rest, marker, at) == occurs_at(
        text,
        marker,
        start + at,
    ) by {
        if at + marker.len() <= rest.len() {
            assert(rest.subrange(at, at + marker.len()) =~= text.subrange(
                start + at,
                start + at + marker.len(),
            ));
        }
    }
    lemma_find(rest, marker);
    lemma_find_from(text, marker, start);
    match find_from(text, marker, start) {
        Some(at) => {
            assert(occurs_at(rest, marker, at - start));
            match find(rest, marker) {
                Some(found) => {
                    assert(occurs_at(text, marker, start + found));
                    if found < at - start {
                        assert(!occurs_at(text, marker, start + found));
                    }
                    if at - start < found {
                        assert(!occurs_at(rest, marker, at - start));
                    }
                },
                None => {},
            }
        },
        None => {
            match find(rest, marker) {
                Some(found) => {
                    assert(occurs_at(text, marker, start + found));
                },
                None => {},
            }
        },
    }
}

/// The span between two markers is the text between its bounds.
pub proof fn lemma_span_bounds(text: Seq<char>, begin: Seq<char>, end: Seq<char>)
    ensures
        match span_bounds(text, begin, end) {
            Some((from, to)) => {
                &&& 0 <= from <= to <= text.len()
                &&& begin.len() <= from
                &&& to + end.len() <= text.len()
                &&& find(text, begin) == Some(from - begin.len())
                &&& find_from(text, end, from) == Some(to)
                &&& span_between_strict(text, begin, end) == Some(text.subrange(from, to))
            },
            None => span_between_strict(text, begin, end) is None,
        },
{
    lemma_find(text, begin);
    match find(text, begin) {
        Some(at) => {
            let from = at + begin.len();
            let rest = text.skip(from);
            lemma_find(rest, end);
            lemma_find_skip(text, end, from);
            match find(rest, end) {
                Some(len) => {
                    assert(rest.take(len) =~= text.subrange(from, from + len));
                },
                None => {},
            }
        },
        None => {},
    }
}

/// Where `begin` stands in the text and `end` stands somewhere after it, the
/// strict span is exactly what lies between the first `begin` and the first
/// `end` that follows it.
pub proof fn law_between_strict(text: Seq<char>, begin: Seq<char>, end: Seq<char>)
    requires
        exists|i: int, j: int|
            occurs_at(text, begin, i) && occurs_at(text, end, j) && i + begin.len() <= j,
    ensures
        find(text, begin) is Some,
        find_from(text, end, find(text, begin)->0 + begin.len()) is Some,
        ({
            let first = find(text, begin)->0;
            let from = first + begin.len();
            let to = find_from(text, end, from)->0;
            &&& occurs_at(text, begin, first)
            &&& forall|earlier: int| 0 <= earlier < first ==> !occurs_at(text, begin, earlier)
            &&& from <= to
            &&& occurs_at(text, end, to)
            &&& forall|earlier: int| from <= earlier < to ==> !occurs_at(text, end, earlier)
            &&& span_between_strict(text, begin, end) == Some(text.subrange(from, to))
        }),
{
    let (i, j) = choose|i: int, j: int|
        occurs_at(text, begin, i) && occurs_at(text, end, j) && i + begin.len() <= j;
    lemma_find(text, begin);
    let first = find(text, begin)->0;
    let from = first + begin.len();
    lemma_find_from(text, end, from);
    lemma_span_bounds(text, begin, end);
    lemma_find_skip(text, end, from);
}

/// Without `begin` nothing lies between the markers; without `end` nothing does
/// where nothing follows `begin`. (Text that follows a `begin` with no `end`
/// after it is the span itself.)
pub proof fn law_between_absent(text: Seq<char>, begin: Seq<char>, end: Seq<char>)
    requires
        find(text, begin) is None || find(text, end) is None,
        find(text, begin) is Some ==> suffix_after(text, begin).len() == 0,
    ensures
        span_between(text, begin, end) == Seq::<char>::empty(),
{
    let rest = suffix_after(text, begin);
    assert(rest =~= Seq::<char>::empty());
    lemma_find(rest, end);
    match find(rest, end) {
        Some(at) => {
            assert(rest.take(at) =~= Seq::<char>::empty());
        },
        None => {},
    }
}

/// Calls `string_tools::get_all_before`: the part of `text` before the first
/// `marker`, or all of `text` where `marker` does not occur in it.
#[verifier::external_body]
pub(crate) fn before<'a>(text: &'a str, marker: &str) -> (prefix: &'a str)
    ensures
        prefix@ == prefix_before(text@, marker@),
{
    string_tools::get_all_before(text, marker)
}

/// Calls `string_tools::get_all_after`: the part of `text` after the first
/// `marker`, or the empty string where `marker` does not occur in it.
#[verifier::external_body]
pub(crate) fn after<'a>(text: &'a str, marker: &str) -> (suffix: &'a str)
    ensures
        suffix@ == suffix_after(text@, marker@),
{
    string_tools::get_all_after(text, marker)
}

/// Calls `string_tools::get_all_between`, which is `get_all_before` of
/// `get_all_after`.
#[verifier::external_body]
pub(crate) fn between<'a>(text: &'a str, begin: &str, end: &str) -> (span: &'a str)
    ensures
        span@ == span_between(text@, begin@, end@),
{
    string_tools::get_all_between(text, begin, end)
}

/// Calls `string_tools::get_all_between_strict`: the part of `text` after the
/// first `begin` and before the first `end` behind it, or `None` where either
/// is missing.
#[verifier::external_body]
pub(crate) fn between_strict<'a>(text: &'a str, begin: &str, end: &str) -> (span: Option<
    &'a str,
>)
    ensures
        match span {
            Some(span) => span_between_strict(text@, begin@, end@) == Some(span@),
            None => span_between_strict(text@, begin@, end@) is None,
        },
{
    string_tools::get_all_between_strict(text, begin, end)
}

/// Calls `string_tools::get_idx_between_strict`: the byte offsets in `text` at
/// which the span of `get_all_between_strict` starts and ends, or `None` where
/// there is no such span. A byte offset is the length in UTF-8 of the
/// characters before it.
#[verifier::external_body]
pub(crate) fn index_between_strict(text: &str, begin: &str, end: &str) -> (range: Option<
    (usize, usize),
>)
    ensures
        match range {
            Some((from, to)) => {
                &&& span_bounds(text@, begin@, end@) matches Some(bounds)
                &&& from == utf8_len(text@.take(bounds.0))
                &&& to == utf8_len(text@.take(bounds.1))
            },
            None => span_bounds(text@, begin@, end@) is None,
        },
{
    string_tools::get_idx_between_strict(text, begin, end)
}

/// Finds the span between the first `begin` and the first `end` behind it, and
/// hands it out with the text that follows it: the text from `end` on, from
/// which a next search can go on.
pub fn next_span<'a>(text: &'a str, begin: &str, end: &str) -> (found: Option<(&'a str, &'a str)>)
    ensures
        match found {
            Some((span, rest)) => {
                &&& span_bounds(text@, begin@, end@) matches Some(bounds)
                &&& span@ == text@.subrange(bounds.0, bounds.1)
                &&& rest@ == text@.skip(bounds.1)
            },
            None => span_bounds(text@, begin@, end@) is None,
        },
{
    match index_between_strict(text, begin, end) {
        Some((lo, hi)) => {
            let ghost bounds = span_bounds(text@, begin@, end@)->0;
            proof {
                lemma_span_bounds(text@, begin@, end@);
                assert(text@.take(bounds.1).take(bounds.0) =~= text@.take(bounds.0));
                assert(text@.take(bounds.1).skip(bounds.0) =~= text@.subrange(bounds.0, bounds.1));
            }
            let parts = split_at_char(text, hi, Ghost(bounds.1));
            let span = split_at_char(parts.0, lo, Ghost(bounds.0)).1;
            Some((span, parts.1))
        },
        None => None,
    }
}

} // verus!
