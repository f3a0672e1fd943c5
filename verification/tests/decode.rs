use gleam_finder::decode::char_of_reference;
use gleam_finder::decode::cut_broken_escape;
use gleam_finder::decode::decode_html;
use gleam_finder::decode::decode_script;
use gleam_finder::decode::hex_digit;
use gleam_finder::decode::replace_all;
use gleam_finder::decode::resolve_references;
use gleam_finder::decode::strip_spans;
use gleam_finder::number::is_digit_char;
use gleam_finder::number::parse_u64;
use gleam_finder::number::push_decimal;
use gleam_finder::text::byte_len;
use gleam_finder::text::starts_with;
use gleam_finder::text::str_eq;

#[test]
fn decode_script_cuts_escaped_tags() {
    assert_eq!(
        decode_script("\\u003ch2\\u003eWin $1000\\u003c/h2\\u003e"),
        "Win $1000"
    );
}

#[test]
fn decode_script_apostrophe() {
    assert_eq!(decode_script("It&#39;s fun"), "It's fun");
    assert_eq!(decode_script("It\\u0026#39;s fun"), "It's fun");
}

#[test]
fn decode_html_apostrophe() {
    assert_eq!(decode_html("It&#39;s fun"), "It's fun");
}

#[test]
fn decode_script_numeric_reference() {
    assert_eq!(decode_script("\\u0026#128420;"), "\u{1F5A4}");
    assert_eq!(decode_script("\\u0026#128420;").chars().count(), 1);
    assert_eq!(decode_script("&#128420;"), "\u{1F5A4}");
    assert_eq!(decode_script("a&#65;b\\u0026#66;c&#67;"), "aAbBcC");
}

#[test]
fn decode_script_stops_at_a_code_that_is_no_character() {
    // 55296 is 0xD800, a surrogate.
    assert_eq!(decode_script("a&#65;b&#55296;c&#66;"), "aAb&#55296;c&#66;");
    assert_eq!(decode_script("\\u0026#1114112;&#65;"), "\\u0026#1114112;&#65;");
    assert_eq!(decode_script("&#x41;&#65;"), "&#x41;&#65;");
    assert_eq!(decode_script("&#;&#65;"), "&#;&#65;");
    assert_eq!(
        decode_script("&#99999999999999999999;&#65;"),
        "&#99999999999999999999;&#65;"
    );
}

#[test]
fn decode_script_last_character_of_unicode() {
    assert_eq!(decode_script("&#1114111;"), "\u{10FFFF}");
    assert_eq!(decode_script("&#0;"), "\0");
    assert_eq!(decode_script("&#55295;&#57344;"), "\u{D7FF}\u{E000}");
}

#[test]
fn decode_script_ends_before_an_open_tag_that_nothing_closes() {
    assert_eq!(decode_script("Hello\\u003cb"), "Hello");
    assert_eq!(decode_script("\\u003ci\\u003eHello\\u003c/i\\u003e wor\\u003c"), "Hello wor");
    assert_eq!(decode_script("one \\u003e two"), "one \\u003e two");
}

#[test]
fn decode_script_ends_before_an_escape_that_was_cut_short() {
    assert_eq!(decode_script("Hello\\u00"), "Hello");
    assert_eq!(decode_script("Hello\\u"), "Hello");
    assert_eq!(decode_script("Hello\\u003"), "Hello");
    assert_eq!(decode_script("Hello\\uzzzz and more"), "Hello");
    assert_eq!(decode_script("a\\u00e9b\\u00E9c\\u00"), "a\\u00e9b\\u00E9c");
    assert_eq!(decode_script("\\u"), "");
}

#[test]
fn cut_broken_escape_keeps_whole_escapes() {
    assert_eq!(cut_broken_escape("a\\u0026b"), "a\\u0026b");
    assert_eq!(cut_broken_escape("a\\u003eb"), "a\\u003eb");
    assert_eq!(cut_broken_escape("a\\u003Cb"), "a\\u003Cb");
    assert_eq!(cut_broken_escape("a\\u003cb"), "a");
    assert_eq!(cut_broken_escape("a\\nb\\\\c"), "a\\nb\\\\c");
    assert_eq!(cut_broken_escape("a\\\\u0026"), "a\\\\u0026");
    assert_eq!(cut_broken_escape("a\\u0026\\u002"), "a\\u0026");
    assert_eq!(cut_broken_escape("é\\u00e9ü\\u12"), "é\\u00e9ü");
    assert_eq!(cut_broken_escape("a\\u00g0"), "a");
    assert_eq!(cut_broken_escape("a\\u\\u0041"), "a");
    assert_eq!(cut_broken_escape(""), "");
    assert_eq!(cut_broken_escape("plain"), "plain");
}

#[test]
fn hex_digit_is_a_digit_or_one_of_six_letters() {
    for c in ['0', '9', 'a', 'f', 'A', 'F'] {
        assert!(hex_digit(c));
    }
    for c in ['g', 'G', '/', ':', '`', '@', ' ', 'é'] {
        assert!(!hex_digit(c));
    }
}

#[test]
fn decode_script_order_of_the_steps() {
    // A reference that a tag hides is cut with the tag.
    assert_eq!(decode_script("a\\u003c&#65;\\u003eb"), "ab");
    // What a reference resolves to is read again.
    assert_eq!(decode_script("&#38;#65;"), "A");
    // Without a `;` there is no reference.
    assert_eq!(decode_script("&#65"), "&#65");
    assert_eq!(decode_script(""), "");
}

#[test]
fn decode_script_leftmost_reference_first() {
    assert_eq!(decode_script("\\u0026#66;&#65;"), "BA");
    assert_eq!(decode_script("&#65;\\u0026#66;"), "AB");
    // The first one is no character: the second stays too.
    assert_eq!(decode_script("\\u0026#55296;&#65;"), "\\u0026#55296;&#65;");
}

#[test]
fn decode_html_cuts_tags_and_puts_line_breaks() {
    assert_eq!(decode_html("<p>Win <b>big</b></p>"), "Win big");
    assert_eq!(decode_html("one\u{a0}two\u{a0}"), "one\ntwo\n");
    assert_eq!(
        decode_html("<h2>Don&#39;t miss</h2>\u{a0}<p>it&#39;s <i>free</i></p>"),
        "Don't miss\nit's free"
    );
    assert_eq!(decode_html(""), "");
    assert_eq!(decode_html("plain"), "plain");
}

#[test]
fn decode_html_leaves_what_the_script_form_escapes() {
    assert_eq!(decode_html("\\u003cb\\u003e &#65;"), "\\u003cb\\u003e &#65;");
}

#[test]
fn strip_spans_takes_the_first_close_behind_the_first_open() {
    assert_eq!(strip_spans("a<b>c<d", "<", ">"), "ac<d");
    assert_eq!(strip_spans("a>b<c>d", "<", ">"), "a>bd");
    assert_eq!(strip_spans("<<a>>", "<", ">"), ">");
    assert_eq!(strip_spans("<>", "<", ">"), "");
    assert_eq!(strip_spans("no tags", "<", ">"), "no tags");
    assert_eq!(strip_spans("a<b", "<", ">"), "a<b");
}

#[test]
fn strip_spans_starts_over_after_each_cut() {
    // Cutting the inner span joins the two halves of an outer one.
    assert_eq!(strip_spans("[[x]]a]]", "[[", "]]"), "a]]");
    assert_eq!(strip_spans("[a[[b]]c]]", "[[", "]]"), "[ac]]");
    assert_eq!(strip_spans("x(-(-y-)-)z", "(-", "-)"), "x-)z");
}

#[test]
fn strip_spans_with_an_empty_marker() {
    assert_eq!(strip_spans("a<b<c", "<", ""), "abc");
    assert_eq!(strip_spans("a>b>c", "", ">"), "c");
    assert_eq!(strip_spans("abc", "", ""), "abc");
}

#[test]
fn strip_spans_with_characters_of_several_bytes() {
    assert_eq!(strip_spans("é<ü>ö", "<", ">"), "éö");
    assert_eq!(strip_spans("a«b»c«d»", "«", "»"), "ac");
}

#[test]
fn replace_all_from_the_left_without_overlap() {
    assert_eq!(replace_all("aaa", "aa", "b"), "ba");
    assert_eq!(replace_all("abcabc", "bc", ""), "aa");
    assert_eq!(replace_all("abc", "x", "y"), "abc");
    assert_eq!(replace_all("", "x", "y"), "");
    assert_eq!(replace_all("xx", "x", "xx"), "xxxx");
    assert_eq!(replace_all("a&quot;b&quot;", "&quot;", "\""), "a\"b\"");
    assert_eq!(replace_all("abc", "", "y"), "abc");
    assert_eq!(replace_all("é\u{a0}é", "\u{a0}", "\n"), "é\né");
}

#[test]
fn resolve_references_alone() {
    assert_eq!(resolve_references("&#72;&#105;"), "Hi");
    assert_eq!(resolve_references("&#72;;"), "H;");
    assert_eq!(resolve_references("&#+72;"), "H");
    assert_eq!(resolve_references("&# 72;"), "&# 72;");
}

#[test]
fn char_of_reference_is_the_character_with_that_code() {
    assert_eq!(char_of_reference("39"), Some('\''));
    assert_eq!(char_of_reference("128420"), Some('\u{1F5A4}'));
    assert_eq!(char_of_reference("55296"), None);
    assert_eq!(char_of_reference("57343"), None);
    assert_eq!(char_of_reference("1114112"), None);
    assert_eq!(char_of_reference("4294967337"), None);
    assert_eq!(char_of_reference(""), None);
    assert_eq!(char_of_reference("x"), None);
}

#[test]
fn parse_u64_reads_digits() {
    assert_eq!(parse_u64("0"), Some(0));
    assert_eq!(parse_u64("42"), Some(42));
    assert_eq!(parse_u64("007"), Some(7));
    assert_eq!(parse_u64("+42"), Some(42));
    assert_eq!(parse_u64("18446744073709551615"), Some(u64::MAX));
}

#[test]
fn parse_u64_refuses_the_rest() {
    assert_eq!(parse_u64(""), None);
    assert_eq!(parse_u64("+"), None);
    assert_eq!(parse_u64("-1"), None);
    assert_eq!(parse_u64("++1"), None);
    assert_eq!(parse_u64("1+"), None);
    assert_eq!(parse_u64(" 1"), None);
    assert_eq!(parse_u64("1 "), None);
    assert_eq!(parse_u64("1_000"), None);
    assert_eq!(parse_u64("1.0"), None);
    assert_eq!(parse_u64("१२"), None);
    assert_eq!(parse_u64("18446744073709551616"), None);
    assert_eq!(parse_u64("99999999999999999999"), None);
    assert_eq!(parse_u64("184467440737095516150"), None);
}

#[test]
fn parse_u64_agrees_with_the_standard_library() {
    for text in ["", "+", "-", "0", "+0", "-0", "12", "+12", "1a", "a1", "18446744073709551615"] {
        assert_eq!(parse_u64(text), text.parse::<u64>().ok());
    }
}

#[test]
fn push_decimal_writes_what_parse_reads() {
    for value in [0u64, 1, 9, 10, 11, 99, 100, 101, 12345, u64::MAX] {
        let mut out = String::from("n=");
        push_decimal(&mut out, value);
        assert_eq!(out, format!("n={}", value));
        assert_eq!(parse_u64(&out[2..]), Some(value));
    }
}

#[test]
fn is_digit_char_is_ascii_only() {
    assert!(is_digit_char('0'));
    assert!(is_digit_char('9'));
    assert!(!is_digit_char('/'));
    assert!(!is_digit_char(':'));
    assert!(!is_digit_char('a'));
    assert!(!is_digit_char('١'));
}

#[test]
fn str_eq_and_starts_with() {
    assert!(str_eq("", ""));
    assert!(str_eq("abc", "abc"));
    assert!(!str_eq("abc", "abd"));
    assert!(!str_eq("abc", "ab"));
    assert!(str_eq("é", "é"));
    assert!(!str_eq("é", "e"));
    assert!(starts_with("abc", ""));
    assert!(starts_with("abc", "ab"));
    assert!(starts_with("abc", "abc"));
    assert!(!starts_with("abc", "abcd"));
    assert!(!starts_with("abc", "b"));
    assert!(starts_with("éa", "é"));
    // The first byte of `é` is the only byte of no character.
    assert!(!starts_with("é", "\u{c3}"));
    assert!(!starts_with("ü", "é"));
}

#[test]
fn byte_len_counts_bytes() {
    assert_eq!(byte_len(""), 0);
    assert_eq!(byte_len("abc"), 3);
    assert_eq!(byte_len("é"), 2);
    assert_eq!(byte_len("\u{1F5A4}"), 4);
}
