use gleam_finder::scan::next_span;

#[test]
fn next_span_is_between_the_first_begin_and_the_next_end() {
    assert_eq!(
        next_span("azertyuiopqsdfghjklmwxcvbn", "tyu", "klm"),
        Some(("iopqsdfghj", "klmwxcvbn"))
    );
    assert_eq!(
        next_span("str1str2str3str4str5", "str2", "str5"),
        Some(("str3str4", "str5"))
    );
    // An end before the first begin does not count, a later begin neither.
    assert_eq!(
        next_span("str5str1str2str3str4str5str2str3str5", "str2", "str5"),
        Some(("str3str4", "str5str2str3str5"))
    );
    assert_eq!(next_span("a(b(c)d)e", "(", ")"), Some(("b(c", ")d)e")));
}

#[test]
fn next_span_needs_both_markers_in_their_order() {
    assert_eq!(next_span("azertyuiopqsdfghjklmwxcvbn", "klm", "tyu"), None);
    assert_eq!(next_span("azertyuiopqsdfghjklmwxcvbn", "123", "klm"), None);
    assert_eq!(next_span("azertyuiopqsdfghjklmwxcvbn", "tyu", "123"), None);
    assert_eq!(next_span("", "a", "b"), None);
    assert_eq!(next_span("ab", "ab", "b"), None);
    // The end may not overlap the begin.
    assert_eq!(next_span("aba", "ab", "ba"), None);
}

#[test]
fn next_span_may_be_empty() {
    assert_eq!(next_span("()", "(", ")"), Some(("", ")")));
    assert_eq!(next_span("x()y", "(", ")"), Some(("", ")y")));
    assert_eq!(next_span("aa", "a", "a"), Some(("", "a")));
}

#[test]
fn next_span_with_an_empty_marker() {
    // An empty marker stands at the beginning of every text.
    assert_eq!(next_span("abc", "", ""), Some(("", "abc")));
    assert_eq!(next_span("abc", "", "c"), Some(("ab", "c")));
    assert_eq!(next_span("abc", "a", ""), Some(("", "bc")));
    assert_eq!(next_span("", "", ""), Some(("", "")));
}

#[test]
fn next_span_counts_characters_of_any_width() {
    assert_eq!(next_span("é«ü»ö", "«", "»"), Some(("ü", "»ö")));
    assert_eq!(next_span("\u{1F5A4}[é]\u{1F5A4}", "[", "]"), Some(("é", "]\u{1F5A4}")));
}

#[test]
fn next_span_goes_on_from_the_end_of_the_span() {
    let mut rest = "<a><b><c>";
    let mut spans = Vec::new();
    while let Some((span, behind)) = next_span(rest, "<", ">") {
        spans.push(span);
        rest = behind;
    }
    assert_eq!(spans, vec!["a", "b", "c"]);
    assert_eq!(rest, ">");
}
