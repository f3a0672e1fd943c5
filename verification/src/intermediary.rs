//! Pages that may link to giveaways: a video's description, a blog post.
use crate::gleam::canonical_url;
use crate::gleam::law_round_trip;
use crate::gleam::normalized;
use crate::gleam::get_gleam_id;
use crate::gleam::gleam_id;
use crate::gleam::platform_root;
use crate::google::texts;
use crate::reply_body;
use crate::scan::after;
use crate::scan::between;
use crate::scan::lemma_find;
use crate::scan::span_between;
use crate::scan::suffix_after;
use crate::text::byte_len;
use crate::text::lemma_utf8_len_ascii;
use crate::text::lemma_utf8_len_at_least;
use crate::text::split_at_char;
use crate::text::str_eq;
use crate::text::utf8_len;
use crate::Error;
use crate::Reply;
use vstd::prelude::*;
use vstd::string::StringExecFns;
use vstd::utf8::is_ascii_chars;

verus! {

/// `c` may stand in the path of a link: a letter or digit of ASCII, `-`, `/`
/// or `_`.
pub open spec fn is_path_char(c: char) -> bool {
    ('a' <= c && c <= 'z') || ('A' <= c && c <= 'Z') || ('0' <= c && c <= '9') || c == '-' || c
        == '/' || c == '_'
}

/// How many characters at the beginning of `text` may stand in a path.
pub open spec fn path_len(text: Seq<char>) -> nat
    decreases text.len(),
{
    if text.len() > 0 && is_path_char(text[0]) {
        1 + path_len(text.drop_first())
    } else {
        0
    }
}

/// The longest path that a link may have.
pub const PATH_CAP: usize = 20;

/// The path of the link that begins `text`, cut where it is longer than
/// [`PATH_CAP`].
pub open spec fn captured_path(text: Seq<char>) -> Seq<char> {
    if path_len(text) >= PATH_CAP {
        text.take(PATH_CAP as int)
    } else {
        text.take(path_len(text) as int)
    }
}

/// `found`, with `item` behind it unless it is there already.
pub open spec fn with_new(found: Seq<Seq<char>>, item: Seq<char>) -> Seq<Seq<char>> {
    if found.contains(item) {
        found
    } else {
        found.push(item)
    }
}

/// The links found so far, and those of `body` behind them. `body` is read
/// from the left: behind each [`platform_root`] stands a path, the link is kept
/// unless its path is empty or the link was found before, and the reading goes
/// on behind the root. It ends where no root is left, or nothing behind it.
pub open spec fn candidates_after(found: Seq<Seq<char>>, body: Seq<char>) -> Seq<Seq<char>>
    decreases body.len(),
    via candidates_after_decreases
{
    let rest = suffix_after(body, platform_root());
    if rest.len() == 0 {
        found
    } else if captured_path(rest).len() == 0 {
        candidates_after(found, rest)
    } else {
        candidates_after(with_new(found, platform_root() + captured_path(rest)), rest)
    }
}

#[via_fn]
proof fn candidates_after_decreases(found: Seq<Seq<char>>, body: Seq<char>) {
    reveal_strlit("https://gleam.io/");
    lemma_find(body, platform_root());
}

/// The giveaway links that `body` embeds, each once, in the order in which
/// they were first found.
pub open spec fn candidates(body: Seq<char>) -> Seq<Seq<char>> {
    candidates_after(Seq::empty(), body)
}

/// The canonical links of the giveaways that `links` name, each once, in the
/// order in which they were first named, behind those of `found`.
pub open spec fn canonical_after(found: Seq<Seq<char>>, links: Seq<Seq<char>>) -> Seq<Seq<char>>
    decreases links.len(),
{
    if links.len() == 0 {
        found
    } else {
        match gleam_id(links[0]) {
            Some(id) => canonical_after(with_new(found, canonical_url(id)), links.drop_first()),
            None => canonical_after(found, links.drop_first()),
        }
    }
}

/// The canonical links of the giveaways that `body` links to.
pub open spec fn giveaway_links(body: Seq<char>) -> Seq<Seq<char>> {
    canonical_after(Seq::empty(), candidates(body))
}

/// No two of `items` are the same.
pub open spec fn all_distinct(items: Seq<Seq<char>>) -> bool {
    forall|i: int, j: int| 0 <= i < j < items.len() ==> items[i] != items[j]
}

/// Every one of `items` is the canonical link of a giveaway.
pub open spec fn all_canonical(items: Seq<Seq<char>>) -> bool {
    forall|i: int| 0 <= i < items.len() ==> normalized(#[trigger] items[i]) == Some(items[i])
}

/// What resolving a page gives for the reply to its request: the giveaways
/// that the page links to, or the failure that the reply stands for.
pub open spec fn resolved(reply: Reply) -> Result<Seq<Seq<char>>, Error> {
    match reply_body(reply) {
        Ok(body) => Ok(giveaway_links(body)),
        Err(error) => Err(error),
    }
}

/// The host of `url`: what stands between `://` and the next `/`.
pub fn host(url: &str) -> (host: &str)
    ensures
        host@ == span_between(url@, "://"@, "/"@),
{
    between(url, "://", "/")
}

/// Whether `c` may stand in the path of a link.
pub fn path_char(c: char) -> (allowed: bool)
    ensures
        allowed == is_path_char(c),
{
    ('a' <= c && c <= 'z') || ('A' <= c && c <= 'Z') || ('0' <= c && c <= '9') || c == '-' || c
        == '/' || c == '_'
}

/// The characters of a path are ASCII.
proof fn lemma_path_ascii(text: Seq<char>, count: int)
    requires
        0 <= count <= text.len(),
        forall|i: int| 0 <= i < count ==> is_path_char(text[i]),
    ensures
        utf8_len(text.take(count)) == count,
{
    assert(is_ascii_chars(text.take(count)));
    lemma_utf8_len_ascii(text.take(count));
}

/// [`path_len`] counts the characters up to the first that may not stand in a
/// path.
proof fn lemma_path_len(text: Seq<char>, count: int)
    requires
        0 <= count <= text.len(),
        forall|i: int| 0 <= i < count ==> is_path_char(text[i]),
        count < text.len() ==> !is_path_char(text[count]),
    ensures
        path_len(text) == count,
    decreases count,
{
    if count > 0 {
        assert forall|i: int| 0 <= i < count - 1 implies is_path_char(text.drop_first()[i]) by {
            assert(text.drop_first()[i] == text[i + 1]);
        }
        lemma_path_len(text.drop_first(), count - 1);
    }
}

/// put an url+noise, get url (without http://domain.something/)
pub fn get_url(text: &str) -> (path: &str)
    ensures
        path@ == text@.take(path_len(text@) as int),
{
    let len = byte_len(text);
    let mut count: usize = 0;
    for c in it: text.chars()
        invariant
            it.seq() == text@,
            text@.len() <= len,
            count == it.index(),
            forall|i: int| 0 <= i < count ==> is_path_char(text@[i]),
    {
        if !path_char(c) {
            proof {
                lemma_path_len(text@, count as int);
                lemma_path_ascii(text@, count as int);
            }
            return split_at_char(text, count, Ghost(count as int)).0;
        }
        count += 1;
    }
    proof {
        lemma_path_len(text@, count as int);
        lemma_path_ascii(text@, count as int);
    }
    split_at_char(text, count, Ghost(count as int)).0
}

/// Whether one of `found` holds the text of `item`.
pub fn contains(found: &Vec<String>, item: &str) -> (held: bool)
    ensures
        held == texts(found@).contains(item@),
{
    let mut i: usize = 0;
    while i < found.len()
        invariant
            i <= found@.len(),
            forall|k: int| 0 <= k < i ==> texts(found@)[k] != item@,
        decreases found@.len() - i,
    {
        if str_eq(found[i].as_str(), item) {
            assert(texts(found@)[i as int] == item@);
            return true;
        }
        i += 1;
    }
    false
}

/// Puts `item` behind `found` unless it is there already.
fn push_new(found: &mut Vec<String>, item: String)
    ensures
        texts(final(found)@) == with_new(texts(old(found)@), item@),
{
    if !contains(found, item.as_str()) {
        found.push(item);
        assert(texts(found@) =~= texts(old(found)@).push(item@));
    }
}

/// Collects the giveaway links that `body` embeds.
pub fn embedded_links(body: &str) -> (found: Vec<String>)
    ensures
        texts(found@) == candidates(body@),
{
    let mut found: Vec<String> = Vec::new();
    let mut body = body;
    assert(texts(found@) =~= Seq::<Seq<char>>::empty());
    let ghost whole = body@;
    loop
        invariant_except_break
            candidates(whole) == candidates_after(texts(found@), body@),
        ensures
            texts(found@) == candidates(whole),
        decreases body@.len(),
    {
        let rest = after(body, "https://gleam.io/");
        if byte_len(rest) == 0 {
            proof {
                lemma_utf8_len_at_least(rest@);
            }
            break ;
        }
        proof {
            reveal_strlit("https://gleam.io/");
            lemma_find(body@, platform_root());
            lemma_utf8_len_at_least(rest@);
            if rest@.len() == 0 {
                assert(rest@ =~= Seq::<char>::empty());
            }
        }
        let path = get_url(rest);
        let path_bytes = byte_len(path);
        proof {
            lemma_path_len_bound(rest@);
            assert forall|i: int| 0 <= i < path@.len() implies is_path_char(rest@[i]) by {
                lemma_path_prefix(rest@, i);
            }
            lemma_path_ascii(rest@, path@.len() as int);
        }
        let captured = if path_bytes >= PATH_CAP {
            proof {
                lemma_path_ascii(rest@, PATH_CAP as int);
                assert(path@.take(PATH_CAP as int) =~= rest@.take(PATH_CAP as int));
            }
            split_at_char(path, PATH_CAP, Ghost(PATH_CAP as int)).0
        } else {
            path
        };
        if byte_len(captured) > 0 {
            proof {
                lemma_utf8_len_at_least(captured@);
            }
            let mut link = String::from_str("https://gleam.io/");
            link.append(captured);
            push_new(&mut found, link);
        } else {
            proof {
                lemma_path_ascii(rest@, captured@.len() as int);
            }
        }
        body = rest;
    }
    found
}

/// [`path_len`] counts characters of the text.
proof fn lemma_path_len_bound(text: Seq<char>)
    ensures
        path_len(text) <= text.len(),
    decreases text.len(),
{
    if text.len() > 0 {
        lemma_path_len_bound(text.drop_first());
    }
}

/// Every character that [`path_len`] counts may stand in a path.
proof fn lemma_path_prefix(text: Seq<char>, at: int)
    requires
        0 <= at < path_len(text),
    ensures
        at < text.len(),
        is_path_char(text[at]),
    decreases at,
{
    if at > 0 {
        lemma_path_prefix(text.drop_first(), at - 1);
    }
}

/// The canonical links of the giveaways that `links` name.
pub fn canonical_links(links: &Vec<String>) -> (found: Vec<String>)
    ensures
        texts(found@) == canonical_after(Seq::empty(), texts(links@)),
{
    let mut found: Vec<String> = Vec::new();
    let mut i: usize = 0;
    assert(texts(found@) =~= Seq::<Seq<char>>::empty());
    assert(texts(links@).skip(0) =~= texts(links@));
    while i < links.len()
        invariant
            i <= links@.len(),
            canonical_after(Seq::empty(), texts(links@)) == canonical_after(
                texts(found@),
                texts(links@).skip(i as int),
            ),
        decreases links@.len() - i,
    {
        proof {
            assert(texts(links@).skip(i as int)[0] == links@[i as int]@);
            assert(texts(links@).skip(i as int).drop_first() =~= texts(links@).skip(i + 1));
        }
        match get_gleam_id(links[i].as_str()) {
            Some(id) => {
                let mut link = String::from_str("https://gleam.io/");
                link.append(id);
                link.append("/-");
                push_new(&mut found, link);
            },
            None => {},
        }
        i += 1;
    }
    proof {
        assert(texts(links@).skip(i as int) =~= Seq::<Seq<char>>::empty());
    }
    found
}

/// Finds the giveaways that a page links to, in the reply to the request for
/// that page: the canonical link of each, once.
pub fn resolve(reply: &Reply) -> (found: Result<Vec<String>, Error>)
    ensures
        match found {
            Ok(found) => resolved(*reply) == Ok::<Seq<Seq<char>>, Error>(texts(found@)),
            Err(error) => resolved(*reply) == Err::<Seq<Seq<char>>, Error>(error),
        },
{
    match reply {
        Reply::Unreachable => Err(Error::Timeout),
        Reply::Undecodable => Err(Error::InvalidResponse),
        Reply::Text(body) => Ok(canonical_links(&embedded_links(body.as_str()))),
    }
}

/// A row without a double has none after [`with_new`].
proof fn lemma_with_new_distinct(found: Seq<Seq<char>>, item: Seq<char>)
    requires
        all_distinct(found),
    ensures
        all_distinct(with_new(found, item)),
{
    if !found.contains(item) {
        let longer = found.push(item);
        assert forall|i: int, j: int| 0 <= i < j < longer.len() implies longer[i] != longer[j] by {
            if j == found.len() {
                assert(found[i] == longer[i]);
                assert(found.contains(found[i]));
            } else {
                assert(found[i] != found[j]);
            }
        }
    }
}

/// Reading a page on adds no double to the links found so far.
proof fn lemma_candidates_after_distinct(found: Seq<Seq<char>>, body: Seq<char>)
    requires
        all_distinct(found),
    ensures
        all_distinct(candidates_after(found, body)),
    decreases body.len(),
{
    reveal_strlit("https://gleam.io/");
    lemma_find(body, platform_root());
    let rest = suffix_after(body, platform_root());
    if rest.len() == 0 {
    } else if captured_path(rest).len() == 0 {
        lemma_candidates_after_distinct(found, rest);
    } else {
        let link = platform_root() + captured_path(rest);
        lemma_with_new_distinct(found, link);
        lemma_candidates_after_distinct(with_new(found, link), rest);
    }
}

/// Going through links adds no double to the canonical links found so far,
/// and nothing but canonical links.
proof fn lemma_canonical_after(found: Seq<Seq<char>>, links: Seq<Seq<char>>)
    requires
        all_distinct(found),
        all_canonical(found),
    ensures
        all_distinct(canonical_after(found, links)),
        all_canonical(canonical_after(found, links)),
    decreases links.len(),
{
    if links.len() > 0 {
        match gleam_id(links[0]) {
            Some(id) => {
                let link = canonical_url(id);
                lemma_with_new_distinct(found, link);
                law_round_trip(links[0]);
                let longer = with_new(found, link);
                assert forall|i: int| 0 <= i < longer.len() implies normalized(
                    #[trigger] longer[i],
                ) == Some(longer[i]) by {
                    if i < found.len() {
                        assert(longer[i] == found[i]);
                    }
                }
                lemma_canonical_after(longer, links.drop_first());
            },
            None => {
                lemma_canonical_after(found, links.drop_first());
            },
        }
    }
}

/// No link is found twice on a page, and no giveaway: the giveaways that a
/// page links to are named by their canonical links, each once.
pub proof fn law_links_distinct(body: Seq<char>)
    ensures
        all_distinct(candidates(body)),
        all_distinct(giveaway_links(body)),
        all_canonical(giveaway_links(body)),
{
    lemma_candidates_after_distinct(Seq::empty(), body);
    lemma_canonical_after(Seq::empty(), candidates(body));
}

} // verus!
