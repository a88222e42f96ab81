//! The data that the other modules share.

use vstd::prelude::*;

use crate::binary64::Binary64;

verus! {

/// A release that passed the movie filter.
#[derive(Debug, PartialEq)]
pub struct Release {
    pub name: String,
    pub url: String,
    /// Normalized title and year. It stays the same when release tags differ.
    pub movie_key: String,
    /// Exact IMDb movie identifier, the identity of a movie during a scan.
    pub imdb_id: String,
    pub imdb_rating: Binary64,
}

/// What a [`Release`] says.
#[verifier::ext_equal]
pub struct ReleaseView {
    pub name: Seq<char>,
    pub url: Seq<char>,
    pub movie_key: Seq<char>,
    pub imdb_id: Seq<char>,
    pub imdb_rating: Binary64,
}

impl View for Release {
    type V = ReleaseView;

    open spec fn view(&self) -> ReleaseView {
        ReleaseView {
            name: self.name@,
            url: self.url@,
            movie_key: self.movie_key@,
            imdb_id: self.imdb_id@,
            imdb_rating: self.imdb_rating,
        }
    }
}

/// A torrent row as a remote index advertises it, before it has passed the movie filter.
#[derive(Debug, PartialEq, Eq)]
pub struct ReleaseCandidate {
    pub name: String,
    pub url: String,
    pub size_bytes: Option<u64>,
    pub seeders: Option<u64>,
    pub leechers: Option<u64>,
}

/// What a [`ReleaseCandidate`] says.
#[verifier::ext_equal]
pub struct CandidateView {
    pub name: Seq<char>,
    pub url: Seq<char>,
    pub size_bytes: Option<u64>,
    pub seeders: Option<u64>,
    pub leechers: Option<u64>,
}

impl View for ReleaseCandidate {
    type V = CandidateView;

    open spec fn view(&self) -> CandidateView {
        CandidateView {
            name: self.name@,
            url: self.url@,
            size_bytes: self.size_bytes,
            seeders: self.seeders,
            leechers: self.leechers,
        }
    }
}

/// Several candidates at once.
pub open spec fn candidates(list: Seq<ReleaseCandidate>) -> Seq<CandidateView> {
    Seq::new(list.len(), |i: int| list[i]@)
}

/// Several releases at once.
pub open spec fn releases(list: Seq<Release>) -> Seq<ReleaseView> {
    Seq::new(list.len(), |i: int| list[i]@)
}

/// A release as the database remembers it.
#[derive(Debug)]
pub struct StoredRelease {
    pub name: String,
    pub url: String,
    pub movie_key: Option<String>,
    pub imdb_id: Option<String>,
    pub imdb_rating: Option<Binary64>,
    pub first_seen_at: String,
    pub status: String,
    pub queued_at: Option<String>,
    pub attempts: i64,
    pub last_error: Option<String>,
}

/// What a [`StoredRelease`] says.
#[verifier::ext_equal]
pub struct StoredView {
    pub name: Seq<char>,
    pub url: Seq<char>,
    pub movie_key: Option<Seq<char>>,
    pub imdb_id: Option<Seq<char>>,
    pub imdb_rating: Option<Binary64>,
    pub first_seen_at: Seq<char>,
    pub status: Seq<char>,
    pub queued_at: Option<Seq<char>>,
    pub attempts: i64,
    pub last_error: Option<Seq<char>>,
}

/// The text of a string that may be missing.
pub open spec fn optional(text: Option<String>) -> Option<Seq<char>> {
    match text {
        Some(text) => Some(text@),
        None => None,
    }
}

impl View for StoredRelease {
    type V = StoredView;

    open spec fn view(&self) -> StoredView {
        StoredView {
            name: self.name@,
            url: self.url@,
            movie_key: optional(self.movie_key),
            imdb_id: optional(self.imdb_id),
            imdb_rating: self.imdb_rating,
            first_seen_at: self.first_seen_at@,
            status: self.status@,
            queued_at: optional(self.queued_at),
            attempts: self.attempts,
            last_error: optional(self.last_error),
        }
    }
}

impl Clone for ReleaseCandidate {
    fn clone(&self) -> (copy: Self)
        ensures
            copy@ == self@,
    {
        ReleaseCandidate {
            name: self.name.clone(),
            url: self.url.clone(),
            size_bytes: self.size_bytes,
            seeders: self.seeders,
            leechers: self.leechers,
        }
    }
}

impl Clone for Release {
    fn clone(&self) -> (copy: Self)
        ensures
            copy@ == self@,
    {
        Release {
            name: self.name.clone(),
            url: self.url.clone(),
            movie_key: self.movie_key.clone(),
            imdb_id: self.imdb_id.clone(),
            imdb_rating: self.imdb_rating,
        }
    }
}

/// A copy of a string that may be missing.
pub fn copy_optional(text: &Option<String>) -> (copy: Option<String>)
    ensures
        optional(copy) == optional(*text),
{
    match text {
        Some(text) => Some(text.clone()),
        None => None,
    }
}

impl Clone for StoredRelease {
    fn clone(&self) -> (copy: Self)
        ensures
            copy@ == self@,
    {
        StoredRelease {
            name: self.name.clone(),
            url: self.url.clone(),
            movie_key: copy_optional(&self.movie_key),
            imdb_id: copy_optional(&self.imdb_id),
            imdb_rating: self.imdb_rating,
            first_seen_at: self.first_seen_at.clone(),
            status: self.status.clone(),
            queued_at: copy_optional(&self.queued_at),
            attempts: self.attempts,
            last_error: copy_optional(&self.last_error),
        }
    }
}

/// A list of candidates or releases is seen whole, item by item and field by field.
pub proof fn lists_are_seen_whole(
    candidate_list: Seq<ReleaseCandidate>,
    release_list: Seq<Release>,
    i: int,
)
    ensures
        candidates(candidate_list).len() == candidate_list.len(),
        releases(release_list).len() == release_list.len(),
        0 <= i < candidate_list.len() ==> {
            let said = candidates(candidate_list)[i];
            &&& said.name == candidate_list[i].name@
            &&& said.url == candidate_list[i].url@
            &&& said.size_bytes == candidate_list[i].size_bytes
            &&& said.seeders == candidate_list[i].seeders
            &&& said.leechers == candidate_list[i].leechers
        },
        0 <= i < release_list.len() ==> {
            let said = releases(release_list)[i];
            &&& said.name == release_list[i].name@
            &&& said.url == release_list[i].url@
            &&& said.movie_key == release_list[i].movie_key@
            &&& said.imdb_id == release_list[i].imdb_id@
            &&& said.imdb_rating == release_list[i].imdb_rating
        },
{
}

} // verus!
