//! Tools to find the giveaways published on gleam.io.
//!
//! A results page of a search engine names pages that mention the platform
//! ([`google`]), such a page embeds links to giveaways ([`intermediary`]), and a
//! giveaway page is read into a [`gleam::Giveaway`]. The crate never touches the
//! network: every function takes the text that a request brought back, as a
//! [`Reply`], and the time where it needs one.
use vstd::prelude::*;

pub mod decode;
pub mod gleam;
pub mod google;
pub mod intermediary;
pub mod json;
pub mod number;
pub mod scan;
pub mod text;

verus! {

/// Why a page gave no result.
#[derive(Debug, Clone, Copy, PartialEq, Eq, Structural)]
pub enum Error {
    /// The request could not be completed.
    Timeout,
    /// A response came back but did not hold what was looked for.
    InvalidResponse,
}

/// What one blocking request brought back.
#[derive(Debug, Clone, PartialEq, Eq)]
pub enum Reply {
    /// The request could not be completed.
    Unreachable,
    /// A response came back whose body is not text.
    Undecodable,
    /// The body of the response.
    Text(String),
}

/// The body that a reply carries, or the failure that stands for its absence.
pub open spec fn reply_body(reply: Reply) -> Result<Seq<char>, Error> {
    match reply {
        Reply::Unreachable => Err(Error::Timeout),
        Reply::Undecodable => Err(Error::InvalidResponse),
        Reply::Text(body) => Ok(body@),
    }
}

} // verus!
