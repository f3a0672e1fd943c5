//! Contains functions related to google pages parsing.
use crate::number::decimal;
use crate::number::push_decimal;
use crate::reply_body;
use crate::scan::lemma_span_bounds;
use crate::scan::next_span;
use crate::scan::span_bounds;
use crate::text::has_prefix;
use crate::text::starts_with;
use crate::Error;
use crate::Reply;
use vstd::prelude::*;
use vstd::string::StringExecFns;

verus! {

/// What stands before a link on a results page.
pub open spec fn link_open() -> Seq<char> {
    "\"><a href=\""@
}

/// What ends a link.
pub open spec fn link_close() -> Seq<char> {
    "\""@
}

/// What follows the link of a result, in the one or the other layout of the
/// page.
pub open spec fn follows_result(rest: Seq<char>) -> bool {
    has_prefix(rest, "\" onmousedown=\"return rwt("@) || has_prefix(rest, "\" data-ved=\"2a"@)
}

/// The texts of a row of strings.
pub open spec fn texts(strings: Seq<String>) -> Seq<Seq<char>> {
    Seq::new(strings.len(), |i: int| strings[i]@)
}

/// The address of the results page number `page`, ten results to a page.
pub open spec fn full_url(page: nat) -> Seq<char> {
    "https://www.google.com/search?q=\"gleam.io\"&tbs=qdr:h&filter=0&start="@ + decimal(page * 10)
}

/// The links of the results on a page, in the order of the page. The page is
/// read from the left: a link is what stands between [`link_open`] and the
/// next [`link_close`], it counts where what follows it is the mark of a
/// result, and the reading goes on from the end of the link.
pub open spec fn result_links(body: Seq<char>) -> Seq<Seq<char>>
    decreases body.len(),
    via result_links_decreases
{
    match span_bounds(body, link_open(), link_close()) {
        Some((from, to)) => {
            let rest = body.skip(to);
            if follows_result(rest) {
                seq![body.subrange(from, to)] + result_links(rest)
            } else {
                result_links(rest)
            }
        },
        None => Seq::empty(),
    }
}

#[via_fn]
proof fn result_links_decreases(body: Seq<char>) {
    reveal_strlit("\"><a href=\"");
    lemma_span_bounds(body, link_open(), link_close());
}

/// The address of a results page.
pub fn get_full_url(page: usize) -> (url: String)
    ensures
        url@ == full_url(page as nat),
{
    let mut url = String::from_str(
        "https://www.google.com/search?q=\"gleam.io\"&tbs=qdr:h&filter=0&start=",
    );
    push_decimal(&mut url, page as u64);
    if page > 0 {
        url.append("0");
        proof {
            reveal_strlit("0");
            let tenfold = decimal((page * 10) as nat);
            assert((page * 10) / 10 == page && (page * 10) % 10 == 0) by (nonlinear_arith);
            assert(decimal(page as nat) + "0"@ =~= tenfold);
            assert(url@ =~= full_url(page as nat));
        }
    }
    url
}

/// Collects the links of the results on a page.
pub fn links(body: &str) -> (found: Vec<String>)
    ensures
        texts(found@) == result_links(body@),
{
    let mut found: Vec<String> = Vec::new();
    let mut rest = body;
    assert(texts(found@) =~= Seq::<Seq<char>>::empty());
    loop
        invariant_except_break
            result_links(body@) == texts(found@) + result_links(rest@),
        ensures
            texts(found@) == result_links(body@),
        decreases rest@.len(),
    {
        match next_span(rest, "\"><a href=\"", "\"") {
            Some((url, behind)) => {
                proof {
                    reveal_strlit("\"><a href=\"");
                    lemma_span_bounds(rest@, link_open(), link_close());
                }
                let ghost before = texts(found@);
                if starts_with(behind, "\" onmousedown=\"return rwt(") || starts_with(
                    behind,
                    "\" data-ved=\"2a",
                ) {
                    found.push(String::from_str(url));
                    assert(texts(found@) =~= before + seq![url@]);
                }
                rest = behind;
            },
            None => {
                break ;
            },
        }
    }
    found
}

/// What a search gives for the reply to its request: the links of the results
/// on the page, or the failure that the reply stands for.
pub open spec fn searched(reply: Reply) -> Result<Seq<Seq<char>>, Error> {
    match reply_body(reply) {
        Ok(body) => Ok(result_links(body)),
        Err(error) => Err(error),
    }
}

/// Search google for a something and returns result urls: the links of the
/// results on the page that the request for [`get_full_url`] brought back.
/// Only one page is read.
pub fn search(reply: &Reply) -> (found: Result<Vec<String>, Error>)
    ensures
        match found {
            Ok(found) => searched(*reply) == Ok::<Seq<Seq<char>>, Error>(texts(found@)),
            Err(error) => searched(*reply) == Err::<Seq<Seq<char>>, Error>(error),
        },
{
    match reply {
        Reply::Unreachable => Err(Error::Timeout),
        Reply::Undecodable => Err(Error::InvalidResponse),
        Reply::Text(body) => Ok(links(body.as_str())),
    }
}

} // verus!
