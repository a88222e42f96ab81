//! Addresses.

use reqwest::Url;
use vstd::prelude::*;

use crate::models::optional;

verus! {

/// Addresses made of more characters than this are not built: the URL library counts bytes in
/// 32 bits and writes up to twelve of them for a character.
pub const ADDRESS_LIMIT: usize = 0x0fff_ffff;

/// A link is not resolved where it and the address of its page hold more characters than this:
/// the URL library counts the characters before a host in 31 bits.
pub const LINK_LIMIT: usize = 0x3fff_ffff;

/// The address that `reference` denotes on a page with the address `source`, or nothing when
/// there is none.
pub uninterp spec fn joined_url(source: Seq<char>, reference: Seq<char>) -> Option<Seq<char>>;

/// The address `parent` with `segment` put behind its path, or nothing when `parent` is no
/// address with a path.
pub uninterp spec fn extended_url(parent: Seq<char>, segment: Seq<char>) -> Option<Seq<char>>;

/// `reqwest::Url`: `parse` of the source and `join` of the reference. Claimed: the address that
/// comes out, or that none does, depends on the two texts alone. The URL rules are not written
/// out. The library counts the characters of a name and password in an `i32`, which the limit
/// keeps from overflowing; where the address itself outgrows what it can count, it gives an
/// error, which is no address.
#[verifier::external_body]
pub(crate) fn join_url(source: &str, reference: &str) -> (address: Option<String>)
    requires
        source@.len() + reference@.len() <= LINK_LIMIT,
    ensures
        optional(address) == joined_url(source@, reference@),
{
    Url::parse(source).and_then(|base| base.join(reference)).ok().map(String::from)
}

/// `reqwest::Url`: `parse` of the parent and `push` of one segment on its `path_segments_mut`.
/// Claimed: the address that comes out, or that none does, depends on the two texts alone. How
/// a segment is percent-encoded is not written out.
#[verifier::external_body]
pub(crate) fn extend_url(parent: &str, segment: &str) -> (address: Option<String>)
    requires
        parent@.len() + segment@.len() <= ADDRESS_LIMIT,
    ensures
        optional(address) == extended_url(parent@, segment@),
{
    let mut url = Url::parse(parent).ok()?;
    url.path_segments_mut().ok()?.push(segment);
    Some(String::from(url))
}

} // verus!
