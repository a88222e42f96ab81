//! Which candidates are worth downloading: size, year, resolution and IMDb rating, and the best
//! variant of each movie.

use std::collections::HashSet;

use chrono::Datelike;
use vstd::prelude::*;

use crate::binary64::{lemma_ten, two, Binary64};
use crate::feed::{normalise_name, normalised, normalising_keeps_capitals};
use crate::models::{
    candidates, releases, CandidateView, Release, ReleaseCandidate, ReleaseView,
};
use crate::number::{
    i32_value, lemma_numbers_have_no_capitals, parse_i32, signed_decimal, write_signed_decimal,
    written_numbers_are_read_back,
};
use crate::order::{
    comes_before, lemma_sorted_is_unique, lemma_text_order, text_before,
    texts_are_ordered_by_code_points,
};
use crate::quality::{
    better, better_is_an_order, dolby_vision_beats_the_rest, is_dead, is_dolby_vision,
    live_swarms_beat_dead_ones, quality, rank, ranks_below, tags,
    the_better_candidate_has_the_first_higher_point,
};
use crate::rating::{lookups, LookupView, RatingLookup};
use crate::text::{
    chars_of, extend, join_first, joined, lemma_joined_lowered, lower_chars, lowered,
    lowered_parts, same_as, same_strings, space, split_words, string_of, texts, words,
};

verus! {

// ---------------------------------------------------------------------------
// Configuration
// ---------------------------------------------------------------------------

/// How many bytes a mebibyte has.
pub const MEBIBYTE: u64 = 1_048_576;

/// So many mebibytes in bytes, or as many as can be counted.
pub open spec fn mebibytes(count: u64) -> u64 {
    if count * MEBIBYTE <= u64::MAX {
        (count * MEBIBYTE) as u64
    } else {
        u64::MAX
    }
}

/// So many mebibytes in bytes, or as many as can be counted.
pub fn bytes_of_mebibytes(count: u64) -> (bytes: u64)
    ensures
        bytes == mebibytes(count),
{
    if count <= 0xfff_ffff_ffff {
        count * MEBIBYTE
    } else {
        u64::MAX
    }
}

/// The double ten, which every threshold lies below.
pub const TEN_BITS: u64 = 0x4024_0000_0000_0000;

/// What a candidate has to meet.
#[derive(Debug)]
pub struct FilterConfig {
    years: HashSet<i32>,
    minimum_torrent_size_bytes: u64,
    minimum_imdb_score: Binary64,
}

/// What a [`FilterConfig`] says.
#[verifier::ext_equal]
pub struct ConfigView {
    pub years: Set<i32>,
    /// A torrent has to be larger than this.
    pub minimum_size: u64,
    /// A score has to be higher than this.
    pub minimum_score: Binary64,
}

impl View for FilterConfig {
    type V = ConfigView;

    closed spec fn view(&self) -> ConfigView {
        ConfigView {
            years: self.years@,
            minimum_size: self.minimum_torrent_size_bytes,
            minimum_score: self.minimum_imdb_score,
        }
    }
}

/// The threshold of the score lies outside the range from zero to below ten.
#[derive(Debug)]
pub struct ScoreOutOfRange;

/// A score that may serve as a threshold: at least zero and below ten.
pub open spec fn is_threshold(score: Binary64) -> bool {
    score.is_finite() && 0 <= score.value() < (Binary64 { bits: TEN_BITS }).value()
}

/// The release years that are accepted: those named, or else the current year and the one
/// before.
pub open spec fn window(years: Seq<i32>, current_year: i32) -> Set<i32> {
    if years.len() > 0 {
        years.to_set()
    } else {
        set![current_year, (current_year - 1) as i32]
    }
}

/// `chrono::Local::now` and `year` of what it gives. Claimed: the local year is one that the
/// calendar of `chrono` can hold and no earlier than that of the Unix epoch, less the offset of
/// a time zone. Left unsaid: which year it is, which the clock decides, and that the call does
/// not return while the clock stands before the Unix epoch.
#[verifier::external_body]
fn current_year() -> (year: i32)
    ensures
        1969 <= year <= 262_143,
{
    chrono::Local::now().year()
}

/// The release years that are accepted in a given year.
pub fn years_accepted_in(years: &[i32], current_year: i32) -> (accepted: HashSet<i32>)
    requires
        current_year > i32::MIN,
    ensures
        accepted@ == window(years@, current_year),
{
    let mut accepted: HashSet<i32> = HashSet::new();
    if years.len() == 0 {
        accepted.insert(current_year);
        accepted.insert(current_year - 1);
        assert(accepted@ =~= set![current_year, (current_year - 1) as i32]);
        return accepted;
    }
    let mut i: usize = 0;
    while i < years.len()
        invariant
            i <= years@.len(),
            forall|year: i32| #[trigger]
                accepted@.contains(year) <==> exists|j: int| 0 <= j < i && years@[j] == year,
        decreases years@.len() - i,
    {
        let ghost old_set = accepted@;
        accepted.insert(years[i]);
        assert forall|year: i32| #[trigger]
            accepted@.contains(year) <==> exists|j: int| 0 <= j < i + 1 && years@[j] == year by {
            if year == years@[i as int] {
                assert(accepted@.contains(year));
            }
            if old_set.contains(year) {
                let j = choose|j: int| 0 <= j < i && years@[j] == year;
                assert(years@[j] == year);
            }
        }
        i += 1;
    }
    assert(accepted@ =~= years@.to_set()) by {
        assert forall|year: i32| accepted@.contains(year) == years@.to_set().contains(year) by {
            if years@.contains(year) {
                let j = choose|j: int| 0 <= j < years@.len() && years@[j] == year;
                assert(years@[j] == year);
            }
        }
    }
    accepted
}

/// The release years that are accepted: those named, or else the current year and the one
/// before. The clock is read only where none are named.
pub fn effective_years(years: &[i32]) -> (accepted: HashSet<i32>)
    ensures
        exists|current_year: i32|
            1969 <= current_year <= 262_143 && accepted@ == #[trigger] window(years@, current_year),
        years@.len() > 0 ==> accepted@ == years@.to_set(),
{
    if years.len() > 0 {
        assert(window(years@, 1969) == years@.to_set());
        return years_accepted_in(years, 1969);
    }
    let year: i32 = current_year();
    years_accepted_in(years, year)
}

impl FilterConfig {
    #[verifier::type_invariant]
    spec fn sound(self) -> bool {
        is_threshold(self.minimum_imdb_score)
    }

    /// A configuration for the given years, or the recent ones where none are given; the size
    /// is in mebibytes.
    pub fn new(
        years: &[i32],
        minimum_torrent_size_mib: u64,
        minimum_imdb_score: Binary64,
    ) -> (config: Result<Self, ScoreOutOfRange>)
        ensures
            config is Ok <==> is_threshold(minimum_imdb_score),
            config matches Ok(config) ==> {
                &&& exists|current_year: i32|
                    1969 <= current_year <= 262_143 && config@.years == #[trigger] window(
                        years@,
                        current_year,
                    )
                &&& years@.len() > 0 ==> config@.years == years@.to_set()
                &&& config@.minimum_size == mebibytes(minimum_torrent_size_mib)
                &&& config@.minimum_score == minimum_imdb_score
            },
    {
        let sign: u64 = 0x8000_0000_0000_0000;
        if minimum_imdb_score.bits % sign >= 0x7ff0_0000_0000_0000 {
            return Err(ScoreOutOfRange);
        }
        let zero = Binary64 { bits: 0 };
        let ten = Binary64 { bits: TEN_BITS };
        assert(zero.units() == 0);
        if zero.greater(minimum_imdb_score) || !ten.greater(minimum_imdb_score) {
            return Err(ScoreOutOfRange);
        }
        Ok(
            FilterConfig {
                years: effective_years(years),
                minimum_torrent_size_bytes: bytes_of_mebibytes(minimum_torrent_size_mib),
                minimum_imdb_score,
            },
        )
    }
}

// ---------------------------------------------------------------------------
// Identity
// ---------------------------------------------------------------------------

/// A movie as its release names tell it.
#[derive(Debug, PartialEq, Eq)]
pub struct MovieIdentity {
    pub title: String,
    pub year: i32,
}

/// What a [`MovieIdentity`] says.
#[verifier::ext_equal]
pub struct IdentityView {
    pub title: Seq<char>,
    pub year: i32,
}

impl View for MovieIdentity {
    type V = IdentityView;

    open spec fn view(&self) -> IdentityView {
        IdentityView { title: self.title@, year: self.year }
    }
}

/// Several identities at once.
pub open spec fn identities(list: Seq<MovieIdentity>) -> Seq<IdentityView> {
    Seq::new(list.len(), |i: int| list[i]@)
}

/// A word that names the required resolution.
pub open spec fn names_4k(word: Seq<char>) -> bool {
    lowered(word) == "4k"@ || lowered(word) == "2160p"@
}

/// A name with a word that names the required resolution.
pub open spec fn is_4k(name: Seq<char>) -> bool {
    exists|i: int| 0 <= i < words(name).len() && names_4k(#[trigger] words(name)[i])
}

/// Whether a release name has the word `4K` or `2160p`.
pub fn has_4k_resolution(name: &str) -> (found: bool)
    ensures
        found == is_4k(name@),
{
    let list = split_words(name);
    let mut i: usize = 0;
    while i < list.len()
        invariant
            i <= list@.len(),
            texts(list@) == words(name@),
            forall|j: int| 0 <= j < i ==> !names_4k(#[trigger] words(name@)[j]),
        decreases list@.len() - i,
    {
        let small = lower_chars(&list[i]);
        assert(words(name@)[i as int] == list@[i as int]@);
        if same_as(&small, "4k") || same_as(&small, "2160p") {
            return true;
        }
        i += 1;
    }
    false
}

/// The first word from `from` on that is one of the years: its place and the year.
pub open spec fn first_year(list: Seq<Seq<char>>, years: Set<i32>, from: int) -> Option<(int, i32)>
    decreases list.len() - from,
{
    if from < 0 || from >= list.len() {
        None
    } else {
        match i32_value(list[from]) {
            Some(year) if years.contains(year) => Some((from, year)),
            _ => first_year(list, years, from + 1),
        }
    }
}

/// The movie that a release name tells: what stands before the first accepted year, and that
/// year. There is none without a title.
pub open spec fn identity_in(name: Seq<char>, years: Set<i32>) -> Option<IdentityView> {
    match first_year(words(name), years, 0) {
        Some((place, year)) => {
            let title = normalised(joined(words(name).take(place), space()));
            if title.len() > 0 {
                Some(IdentityView { title, year })
            } else {
                None
            }
        },
        None => None,
    }
}

/// The movie that a candidate offers, when its size is known and large enough, its resolution
/// is the required one and its name tells a movie of an accepted year.
pub open spec fn identity_of(candidate: CandidateView, config: ConfigView) -> Option<IdentityView> {
    if candidate.size_bytes is Some && candidate.size_bytes->0 > config.minimum_size && is_4k(
        candidate.name,
    ) {
        identity_in(candidate.name, config.years)
    } else {
        None
    }
}

fn find_year(list: &Vec<Vec<char>>, years: &HashSet<i32>) -> (found: Option<(usize, i32)>)
    ensures
        match found {
            Some((place, year)) => first_year(texts(list@), years@, 0) == Some(
                (place as int, year),
            ) && place < list@.len(),
            None => first_year(texts(list@), years@, 0) is None,
        },
{
    let mut i: usize = 0;
    while i < list.len()
        invariant
            i <= list@.len(),
            first_year(texts(list@), years@, 0) == first_year(texts(list@), years@, i as int),
        decreases list@.len() - i,
    {
        match parse_i32(&list[i]) {
            Some(year) => {
                if years.contains(&year) {
                    return Some((i, year));
                }
            },
            None => {},
        }
        i += 1;
    }
    None
}

/// The movie that a candidate offers.
pub fn movie_identity(candidate: &ReleaseCandidate, config: &FilterConfig) -> (identity: Option<
    MovieIdentity,
>)
    ensures
        match identity {
            Some(identity) => identity_of(candidate@, config@) == Some(identity@),
            None => identity_of(candidate@, config@) is None,
        },
{
    match candidate.size_bytes {
        Some(size) => {
            if size <= config.minimum_torrent_size_bytes {
                return None;
            }
        },
        None => {
            return None;
        },
    }
    if !has_4k_resolution(candidate.name.as_str()) {
        return None;
    }
    let list = split_words(candidate.name.as_str());
    match find_year(&list, &config.years) {
        Some((place, year)) => {
            let front = join_first(&list, place);
            let front = string_of(&front);
            let title = normalise_name(front.as_str());
            if title.as_str().is_empty() {
                None
            } else {
                Some(MovieIdentity { title, year })
            }
        },
        None => None,
    }
}

/// The key under which a movie is remembered: its title in small letters and its year.
pub open spec fn key_of(identity: IdentityView) -> Seq<char> {
    lowered(identity.title) + space() + signed_decimal(identity.year as int)
}

/// The key under which a movie is remembered.
pub fn movie_key(identity: &MovieIdentity) -> (key: String)
    ensures
        key@ == key_of(identity@),
{
    let title = chars_of(identity.title.as_str());
    let mut whole = lower_chars(&title);
    whole.push(' ');
    let year = write_signed_decimal(identity.year as i64);
    extend(&mut whole, &year);
    assert(whole@ =~= key_of(identity@));
    string_of(&whole)
}

// ---------------------------------------------------------------------------
// The filter
// ---------------------------------------------------------------------------

/// The movies that candidates offer, each once, in the order in which they first occur.
pub open spec fn offered(list: Seq<CandidateView>, config: ConfigView) -> Seq<IdentityView>
    decreases list.len(),
{
    if list.len() == 0 {
        seq![]
    } else {
        let front = offered(list.drop_last(), config);
        match identity_of(list.last(), config) {
            Some(identity) if !front.contains(identity) => front.push(identity),
            _ => front,
        }
    }
}

/// A candidate that passed, with the movie it offers.
pub struct Accepted {
    pub candidate: CandidateView,
    pub identity: IdentityView,
    pub imdb_id: Seq<char>,
    pub score: Binary64,
}

/// What becomes of a candidate.
pub enum Ruling {
    /// Size, year or resolution do not meet the requirements.
    Basic,
    /// There is no movie of exactly that title and year with a score.
    Unrated,
    /// The score is too low.
    Low(Binary64),
    /// The movie could not be looked up.
    Failed,
    /// All requirements are met.
    Accepted(Accepted),
}

/// A score above the threshold.
pub open spec fn exceeds(score: Binary64, minimum: Binary64) -> bool {
    score.is_finite() && score.value() > minimum.value()
}

/// What becomes of a candidate, given what looking up each of the movies came to.
pub open spec fn ruling(
    candidate: CandidateView,
    config: ConfigView,
    movies: Seq<IdentityView>,
    found: Seq<LookupView>,
) -> Ruling {
    match identity_of(candidate, config) {
        None => Ruling::Basic,
        Some(identity) => match found[movies.index_of(identity)] {
            LookupView::Failed(_) => Ruling::Failed,
            LookupView::Resolved(None) => Ruling::Unrated,
            LookupView::Resolved(Some((imdb_id, score))) => if exceeds(
                score,
                config.minimum_score,
            ) {
                Ruling::Accepted(Accepted { candidate, identity, imdb_id, score })
            } else {
                Ruling::Low(score)
            },
        },
    }
}

/// What becomes of each candidate.
pub open spec fn rulings(
    list: Seq<CandidateView>,
    config: ConfigView,
    found: Seq<LookupView>,
) -> Seq<Ruling> {
    Seq::new(list.len(), |i: int| ruling(list[i], config, offered(list, config), found))
}

/// How many rulings are of a kind.
pub open spec fn count(list: Seq<Ruling>, kind: spec_fn(Ruling) -> bool) -> nat
    decreases list.len(),
{
    if list.len() == 0 {
        0
    } else {
        count(list.drop_last(), kind) + if kind(list.last()) {
            1nat
        } else {
            0
        }
    }
}

/// The candidates that passed, in their order.
pub open spec fn accepted(list: Seq<Ruling>) -> Seq<Accepted>
    decreases list.len(),
{
    if list.len() == 0 {
        seq![]
    } else {
        let front = accepted(list.drop_last());
        match list.last() {
            Ruling::Accepted(found) => front.push(found),
            _ => front,
        }
    }
}

/// The variant at `i` is the one to keep of its movie: none of the same IMDb id is better, and
/// all before it are worse.
pub open spec fn is_choice(list: Seq<Accepted>, i: int) -> bool {
    &&& 0 <= i < list.len()
    &&& forall|j: int|
        0 <= j < list.len() && (#[trigger] list[j]).imdb_id == list[i].imdb_id ==> {
            &&& !better(list[j].candidate, list[i].candidate)
            &&& j < i ==> better(list[i].candidate, list[j].candidate)
        }
}

/// The release that an accepted candidate becomes.
pub open spec fn release_of(found: Accepted) -> ReleaseView {
    ReleaseView {
        name: found.candidate.name,
        url: found.candidate.url,
        movie_key: key_of(found.identity),
        imdb_id: found.imdb_id,
        imdb_rating: found.score,
    }
}

/// The names of the releases come one after the other in dictionary order, none twice.
pub open spec fn in_order(list: Seq<ReleaseView>) -> bool {
    forall|i: int, j: int|
        0 <= i < j < list.len() ==> text_before(#[trigger] list[i].name, #[trigger] list[j].name)
}

/// The release is that of a variant to keep among the first `n`.
pub open spec fn is_kept(release: ReleaseView, found: Seq<Accepted>, n: int) -> bool {
    exists|i: int| i < n && #[trigger] is_choice(found, i) && release == release_of(found[i])
}

/// `list` holds the variant to keep of each movie among the first `n` and nothing else, in the
/// order of the names.
pub open spec fn selects(list: Seq<ReleaseView>, found: Seq<Accepted>, n: int) -> bool {
    &&& in_order(list)
    &&& forall|k: int| 0 <= k < list.len() ==> #[trigger] is_kept(list[k], found, n)
    &&& forall|i: int|
        i < n && #[trigger] is_choice(found, i) ==> list.contains(release_of(found[i]))
}

/// What is reported of a candidate.
#[derive(Clone, Copy, Debug, PartialEq, Eq, Structural)]
pub enum Verdict {
    /// Size, year or resolution do not meet the requirements.
    Basic,
    /// There is no movie of exactly that title and year with a score.
    Unrated,
    /// The score is too low.
    Low(Binary64),
    /// The movie could not be looked up.
    Failed,
    /// All requirements are met.
    Accepted(Binary64),
}

/// The report of a ruling.
pub open spec fn verdict_of(ruling: Ruling) -> Verdict {
    match ruling {
        Ruling::Basic => Verdict::Basic,
        Ruling::Unrated => Verdict::Unrated,
        Ruling::Low(score) => Verdict::Low(score),
        Ruling::Failed => Verdict::Failed,
        Ruling::Accepted(found) => Verdict::Accepted(found.score),
    }
}

/// What filtering came to.
#[derive(Debug, Default)]
pub struct FilterOutcome {
    /// One release for each movie, in the order of the names.
    pub releases: Vec<Release>,
    pub basic_rejections: usize,
    pub rating_rejections: usize,
    pub lookup_failures: usize,
    /// What became of each candidate.
    pub verdicts: Vec<Verdict>,
}

/// Filters candidates.
#[derive(Debug)]
pub struct MovieFilter {
    pub config: FilterConfig,
}

/// Every movie is looked up once: none is offered twice.
pub proof fn movies_are_looked_up_once(list: Seq<CandidateView>, config: ConfigView)
    ensures
        offered(list, config).no_duplicates(),
        forall|i: int|
            0 <= i < list.len() && identity_of(#[trigger] list[i], config) is Some ==> offered(
                list,
                config,
            ).contains(identity_of(list[i], config)->0),
    decreases list.len(),
{
    if list.len() > 0 {
        let front = offered(list.drop_last(), config);
        movies_are_looked_up_once(list.drop_last(), config);
        assert forall|i: int|
            0 <= i < list.len() && identity_of(#[trigger] list[i], config) is Some implies offered(
            list,
            config,
        ).contains(identity_of(list[i], config)->0) by {
            let identity = identity_of(list[i], config)->0;
            if i < list.len() - 1 {
                assert(list.drop_last()[i] == list[i]);
                assert(front.contains(identity));
                let k = choose|k: int| 0 <= k < front.len() && front[k] == identity;
                assert(offered(list, config)[k] == identity);
            } else if !front.contains(identity) {
                assert(offered(list, config)[front.len() as int] == identity);
            }
        }
    }
}

proof fn lemma_accepted_are_rulings(list: Seq<Ruling>)
    ensures
        forall|i: int|
            0 <= i < accepted(list).len() ==> exists|k: int|
                0 <= k < list.len() && #[trigger] list[k] == Ruling::Accepted(
                    #[trigger] accepted(list)[i],
                ),
        accepted(list).len() <= list.len(),
    decreases list.len(),
{
    if list.len() > 0 {
        let front = list.drop_last();
        lemma_accepted_are_rulings(front);
        assert forall|i: int| 0 <= i < accepted(list).len() implies exists|k: int|
            0 <= k < list.len() && #[trigger] list[k] == Ruling::Accepted(
                #[trigger] accepted(list)[i],
            ) by {
            if i < accepted(front).len() {
                assert(accepted(list)[i] == accepted(front)[i]);
                let k = choose|k: int|
                    0 <= k < front.len() && #[trigger] front[k] == Ruling::Accepted(
                        accepted(front)[i],
                    );
                assert(list[k] == front[k]);
            } else {
                assert(list[list.len() - 1] == Ruling::Accepted(accepted(list)[i]));
            }
        }
    }
}

/// An accepted candidate meets every requirement: it is larger than the minimum, its name has
/// the required resolution and one of the years, and the movie of exactly that title and year
/// has a score above the threshold.
pub proof fn accepted_candidates_meet_every_requirement(
    list: Seq<CandidateView>,
    config: ConfigView,
    found: Seq<LookupView>,
    i: int,
)
    requires
        0 <= i < accepted(rulings(list, config, found)).len(),
    ensures
        ({
            let passed = accepted(rulings(list, config, found))[i];
            &&& list.contains(passed.candidate)
            &&& passed.candidate.size_bytes is Some
            &&& passed.candidate.size_bytes->0 > config.minimum_size
            &&& is_4k(passed.candidate.name)
            &&& config.years.contains(passed.identity.year)
            &&& identity_in(passed.candidate.name, config.years) == Some(passed.identity)
            &&& found[offered(list, config).index_of(passed.identity)] == LookupView::Resolved(
                Some((passed.imdb_id, passed.score)),
            )
            &&& passed.score.value() > config.minimum_score.value()
        }),
{
    let all = rulings(list, config, found);
    lemma_accepted_are_rulings(all);
    let passed = accepted(all)[i];
    let k = choose|k: int| 0 <= k < all.len() && #[trigger] all[k] == Ruling::Accepted(passed);
    assert(ruling(list[k], config, offered(list, config), found) == Ruling::Accepted(passed));
    assert(passed.candidate == list[k]);
    lemma_first_year(words(list[k].name), config.years, 0);
}

/// `first_year` finds the first word that is one of the years.
pub proof fn lemma_first_year(list: Seq<Seq<char>>, years: Set<i32>, from: int)
    requires
        0 <= from,
    ensures
        match first_year(list, years, from) {
            Some((place, year)) => from <= place < list.len() && i32_value(list[place]) == Some(
                year,
            ) && years.contains(year) && forall|j: int|
                from <= j < place ==> match i32_value(#[trigger] list[j]) {
                    Some(other) => !years.contains(other),
                    None => true,
                },
            None => true,
        },
    decreases list.len() - from,
{
    if from < list.len() {
        lemma_first_year(list, years, from + 1);
    }
}

proof fn lemma_year_stands(
    left: Seq<Seq<char>>,
    right: Seq<Seq<char>>,
    years: Set<i32>,
    place: int,
    year: i32,
    from: int,
)
    requires
        0 <= from <= place < right.len(),
        first_year(left, years, from) == Some((place, year)),
        forall|j: int| 0 <= j <= place ==> lowered(#[trigger] left[j]) == lowered(right[j]),
    ensures
        first_year(right, years, from) == Some((place, year)),
    decreases place - from,
{
    lemma_first_year(left, years, from);
    assert(lowered(left[from]) == lowered(right[from]));
    lemma_numbers_have_no_capitals(left[from], right[from]);
    if from < place {
        assert(first_year(left, years, from) == first_year(left, years, from + 1));
        lemma_year_stands(left, right, years, place, year, from + 1);
    }
}

/// The key of a movie stays the same whatever follows the year in the name of a release, and
/// whichever letters before it are capitals.
pub proof fn movie_keys_ignore_tags_and_capitals(
    left: Seq<char>,
    right: Seq<char>,
    years: Set<i32>,
    place: int,
    year: i32,
)
    requires
        first_year(words(left), years, 0) == Some((place, year)),
        place < words(right).len(),
        forall|j: int|
            0 <= j <= place ==> lowered(#[trigger] words(left)[j]) == lowered(words(right)[j]),
        identity_in(left, years) is Some,
    ensures
        identity_in(right, years) is Some,
        key_of(identity_in(right, years)->0) == key_of(identity_in(left, years)->0),
{
    lemma_first_year(words(left), years, 0);
    lemma_year_stands(words(left), words(right), years, place, year, 0);
    let a = words(left).take(place);
    let b = words(right).take(place);
    assert forall|j: int| 0 <= j < place implies lowered_parts(a)[j] == lowered_parts(b)[j] by {
        assert(lowered(words(left)[j]) == lowered(words(right)[j]));
    }
    assert(lowered_parts(a) =~= lowered_parts(b));
    lemma_joined_lowered(a);
    lemma_joined_lowered(b);
    normalising_keeps_capitals(joined(a, space()));
    normalising_keeps_capitals(joined(b, space()));
    let x = normalised(joined(a, space()));
    let y = normalised(joined(b, space()));
    assert(lowered(x) == lowered(y));
    assert(lowered(x).len() == x.len() && lowered(y).len() == y.len());
}

/// Accepted candidates of one name offer one movie.
proof fn lemma_one_name_one_movie(
    list: Seq<CandidateView>,
    config: ConfigView,
    found: Seq<LookupView>,
)
    ensures
        forall|i: int, j: int|
            0 <= i < accepted(rulings(list, config, found)).len() && 0 <= j < accepted(
                rulings(list, config, found),
            ).len() && (#[trigger] accepted(rulings(list, config, found))[i]).candidate.name == (
            #[trigger] accepted(rulings(list, config, found))[j]).candidate.name ==> accepted(
                rulings(list, config, found),
            )[i].imdb_id == accepted(rulings(list, config, found))[j].imdb_id,
{
    let all = accepted(rulings(list, config, found));
    assert forall|i: int, j: int|
        0 <= i < all.len() && 0 <= j < all.len() && (#[trigger] all[i]).candidate.name == (
        #[trigger] all[j]).candidate.name implies all[i].imdb_id == all[j].imdb_id by {
        accepted_candidates_meet_every_requirement(list, config, found, i);
        accepted_candidates_meet_every_requirement(list, config, found, j);
    }
}

/// There is one variant to keep of each movie.
pub proof fn one_variant_is_kept_of_each_movie(list: Seq<Accepted>, i: int, j: int)
    requires
        is_choice(list, i),
        is_choice(list, j),
        list[i].imdb_id == list[j].imdb_id,
    ensures
        i == j,
{
}

/// A variant is kept of every movie of which any was accepted.
pub proof fn a_variant_is_kept_of_every_movie(list: Seq<Accepted>, at: int) -> (choice: int)
    requires
        0 <= at < list.len(),
    ensures
        is_choice(list, choice),
        list[choice].imdb_id == list[at].imdb_id,
{
    lemma_best_so_far(list, list[at].imdb_id, list.len() as int, at)
}

proof fn lemma_best_so_far(list: Seq<Accepted>, imdb_id: Seq<char>, n: int, at: int) -> (best: int)
    requires
        0 <= at < n <= list.len(),
        list[at].imdb_id == imdb_id,
    ensures
        0 <= best < n,
        list[best].imdb_id == imdb_id,
        forall|j: int|
            0 <= j < n && (#[trigger] list[j]).imdb_id == imdb_id ==> {
                &&& !better(list[j].candidate, list[best].candidate)
                &&& j < best ==> better(list[best].candidate, list[j].candidate)
            },
    decreases n,
{
    if at == n - 1 && (forall|j: int| 0 <= j < at ==> (#[trigger] list[j]).imdb_id != imdb_id) {
        better_is_an_order(list[at].candidate, list[at].candidate, list[at].candidate);
        at
    } else {
        let first = if at < n - 1 {
            at
        } else {
            choose|j: int| 0 <= j < at && (#[trigger] list[j]).imdb_id == imdb_id
        };
        let best = lemma_best_so_far(list, imdb_id, n - 1, first);
        let last = list[n - 1];
        if last.imdb_id == imdb_id && better(last.candidate, list[best].candidate) {
            better_is_an_order(last.candidate, last.candidate, last.candidate);
            assert forall|j: int| 0 <= j < n && (#[trigger] list[j]).imdb_id == imdb_id implies {
                &&& !better(list[j].candidate, last.candidate)
                &&& j < n - 1 ==> better(last.candidate, list[j].candidate)
            } by {
                if j < n - 1 {
                    lemma_better_by_quality(last.candidate, list[best].candidate, list[j].candidate);
                    better_is_an_order(list[j].candidate, last.candidate, list[j].candidate);
                }
            }
            n - 1
        } else {
            best
        }
    }
}

proof fn lemma_better_by_quality(a: CandidateView, b: CandidateView, c: CandidateView)
    requires
        better(a, b),
        !better(c, b),
    ensures
        better(a, c),
{
    better_is_an_order(b, c, c);
    better_is_an_order(a, b, c);
}

/// A variant of a dead swarm is kept only where all variants of the movie are of dead swarms.
pub proof fn dead_swarms_are_never_preferred(list: Seq<Accepted>, kept: int, other: int)
    requires
        is_choice(list, kept),
        0 <= other < list.len(),
        list[other].imdb_id == list[kept].imdb_id,
        is_dead(list[kept].candidate),
    ensures
        is_dead(list[other].candidate),
{
    if !is_dead(list[other].candidate) {
        live_swarms_beat_dead_ones(list[other].candidate, list[kept].candidate);
    }
}

/// Where a variant of a swarm that is not known to be dead is in Dolby Vision, one in Dolby
/// Vision is kept.
pub proof fn dolby_vision_is_preferred(list: Seq<Accepted>, kept: int, dolby: int)
    requires
        is_choice(list, kept),
        0 <= dolby < list.len(),
        list[dolby].imdb_id == list[kept].imdb_id,
        !is_dead(list[dolby].candidate),
        is_dolby_vision(tags(list[dolby].candidate.name)),
    ensures
        is_dolby_vision(tags(list[kept].candidate.name)),
        !is_dead(list[kept].candidate),
{
    if is_dead(list[kept].candidate) {
        dead_swarms_are_never_preferred(list, kept, dolby);
    } else if !is_dolby_vision(tags(list[kept].candidate.name)) {
        dolby_vision_beats_the_rest(list[dolby].candidate, list[kept].candidate);
    }
}

/// Every candidate is counted once: as a rejection of one kind, as a failed lookup, or among
/// those that passed.
pub proof fn every_candidate_is_counted_once(list: Seq<Ruling>)
    ensures
        count(list, |r: Ruling| r is Basic) + count(list, |r: Ruling| r is Unrated || r is Low)
            + count(list, |r: Ruling| r is Failed) + accepted(list).len() == list.len(),
    decreases list.len(),
{
    if list.len() > 0 {
        every_candidate_is_counted_once(list.drop_last());
    }
}

/// No two of the selected releases are of one movie.
pub proof fn selected_releases_are_of_different_movies(
    list: Seq<ReleaseView>,
    found: Seq<Accepted>,
    n: int,
    i: int,
    j: int,
)
    requires
        selects(list, found, n),
        0 <= i < j < list.len(),
    ensures
        list[i].imdb_id != list[j].imdb_id,
{
    assert(is_kept(list[i], found, n));
    assert(is_kept(list[j], found, n));
    let a = choose|a: int|
        a < n && #[trigger] is_choice(found, a) && list[i] == release_of(found[a]);
    let b = choose|b: int|
        b < n && #[trigger] is_choice(found, b) && list[j] == release_of(found[b]);
    if list[i].imdb_id == list[j].imdb_id {
        one_variant_is_kept_of_each_movie(found, a, b);
        lemma_text_order();
        assert(text_before(list[i].name, list[j].name));
        let less = |a: Seq<char>, b: Seq<char>| text_before(a, b);
        assert(!less(list[i].name, list[i].name));
    }
}

/// Every movie of which a variant passed is among the selected releases.
pub proof fn every_accepted_movie_is_selected(
    list: Seq<ReleaseView>,
    found: Seq<Accepted>,
    at: int,
) -> (place: int)
    requires
        selects(list, found, found.len() as int),
        0 <= at < found.len(),
    ensures
        0 <= place < list.len(),
        list[place].imdb_id == found[at].imdb_id,
{
    let choice = a_variant_is_kept_of_every_movie(found, at);
    assert(list.contains(release_of(found[choice])));
    choose|k: int| 0 <= k < list.len() && list[k] == release_of(found[choice])
}

/// There is one right selection.
pub proof fn selections_are_unique(
    left: Seq<ReleaseView>,
    right: Seq<ReleaseView>,
    found: Seq<Accepted>,
    n: int,
)
    requires
        selects(left, found, n),
        selects(right, found, n),
    ensures
        left == right,
{
    assert forall|release: ReleaseView| left.contains(release) == right.contains(release) by {
        if left.contains(release) {
            let k = choose|k: int| 0 <= k < left.len() && left[k] == release;
            assert(is_kept(left[k], found, n));
        }
        if right.contains(release) {
            let k = choose|k: int| 0 <= k < right.len() && right[k] == release;
            assert(is_kept(right[k], found, n));
        }
    }
    lemma_text_order();
    let names = |a: Seq<char>, b: Seq<char>| text_before(a, b);
    let less = |a: ReleaseView, b: ReleaseView| text_before(a.name, b.name);
    assert forall|a: ReleaseView| !#[trigger] less(a, a) by {
        assert(!names(a.name, a.name));
    }
    assert forall|a: ReleaseView, b: ReleaseView, c: ReleaseView| #[trigger]
        less(a, b) && #[trigger] less(b, c) implies less(a, c) by {
        assert(names(a.name, b.name) && names(b.name, c.name));
        assert(names(a.name, c.name));
    }
    lemma_sorted_is_unique(left, right, less);
}

/// Which movie a name tells does not depend on the release tags behind the year.
pub proof fn release_tags_do_not_change_the_movie(
    name: Seq<char>,
    other: Seq<char>,
    years: Set<i32>,
    place: int,
)
    requires
        0 <= place < words(name).len(),
        place < words(other).len(),
        words(name).take(place + 1) == words(other).take(place + 1),
        i32_value(words(name)[place]) is Some,
        years.contains(i32_value(words(name)[place])->0),
    ensures
        identity_in(name, years) == identity_in(other, years),
{
    lemma_first_year_in_front(words(name), words(other), years, place, 0);
    lemma_first_year(words(name), years, 0);
    let found = (first_year(words(name), years, 0)->0).0;
    assert(words(name).take(found) =~= words(name).take(place + 1).take(found));
    assert(words(other).take(found) =~= words(other).take(place + 1).take(found));
}

proof fn lemma_first_year_in_front(
    list: Seq<Seq<char>>,
    other: Seq<Seq<char>>,
    years: Set<i32>,
    place: int,
    from: int,
)
    requires
        0 <= from <= place < list.len(),
        place < other.len(),
        list.take(place + 1) == other.take(place + 1),
        i32_value(list[place]) is Some,
        years.contains(i32_value(list[place])->0),
    ensures
        first_year(list, years, from) is Some,
        (first_year(list, years, from)->0).0 <= place,
        first_year(list, years, from) == first_year(other, years, from),
    decreases place - from,
{
    assert(list[from] == list.take(place + 1)[from]);
    assert(other[from] == other.take(place + 1)[from]);
    if from < place {
        lemma_first_year_in_front(list, other, years, place, from + 1);
    }
}

/// An accepted candidate, by its place, with the movie it offers and its quality.
struct Variant {
    place: usize,
    identity: MovieIdentity,
    imdb_id: String,
    score: Binary64,
    points: Vec<u64>,
}

/// What a variant stands for.
spec fn stands_for(variant: Variant, list: Seq<ReleaseCandidate>, found: Accepted) -> bool {
    &&& variant.place < list.len()
    &&& found.candidate == list[variant.place as int]@
    &&& found.identity == variant.identity@
    &&& found.imdb_id == variant.imdb_id@
    &&& found.score == variant.score
    &&& variant.points@ == quality(found.candidate)
}

/// What several variants stand for.
spec fn stand_for(
    variants: Seq<Variant>,
    list: Seq<ReleaseCandidate>,
    found: Seq<Accepted>,
) -> bool {
    variants.len() == found.len() && forall|i: int|
        0 <= i < variants.len() ==> stands_for(#[trigger] variants[i], list, found[i])
}

fn place_of_movie(list: &Vec<MovieIdentity>, identity: &MovieIdentity) -> (place: Option<usize>)
    ensures
        match place {
            Some(i) => i < list@.len() && identities(list@)[i as int] == identity@,
            None => !identities(list@).contains(identity@),
        },
{
    let mut i: usize = 0;
    while i < list.len()
        invariant
            i <= list@.len(),
            forall|j: int| 0 <= j < i ==> #[trigger] identities(list@)[j] != identity@,
        decreases list@.len() - i,
    {
        if list[i].year == identity.year && same_strings(
            list[i].title.as_str(),
            identity.title.as_str(),
        ) {
            assert(identities(list@)[i as int] =~= identity@);
            return Some(i);
        }
        assert(identities(list@)[i as int] != identity@) by {
            assert(identities(list@)[i as int] == list@[i as int]@);
        }
        i += 1;
    }
    None
}

fn is_above(score: Binary64, minimum: Binary64) -> (found: bool)
    requires
        minimum.is_finite(),
    ensures
        found == exceeds(score, minimum),
{
    score.bits % 0x8000_0000_0000_0000 < 0x7ff0_0000_0000_0000 && score.greater(minimum)
}

/// Whether the variant at `at` is the one to keep of its movie.
fn choice(
    variants: &Vec<Variant>,
    at: usize,
    Ghost(list): Ghost<Seq<ReleaseCandidate>>,
    Ghost(found): Ghost<Seq<Accepted>>,
) -> (kept: bool)
    requires
        at < variants@.len(),
        stand_for(variants@, list, found),
    ensures
        kept == is_choice(found, at as int),
{
    let mut j: usize = 0;
    while j < variants.len()
        invariant
            j <= variants@.len(),
            at < variants@.len(),
            stand_for(variants@, list, found),
            forall|i: int|
                0 <= i < j && (#[trigger] found[i]).imdb_id == found[at as int].imdb_id ==> {
                    &&& !better(found[i].candidate, found[at as int].candidate)
                    &&& i < at ==> better(found[at as int].candidate, found[i].candidate)
                },
        decreases variants@.len() - j,
    {
        assert(stands_for(variants@[j as int], list, found[j as int]));
        assert(stands_for(variants@[at as int], list, found[at as int]));
        if same_strings(variants[j].imdb_id.as_str(), variants[at].imdb_id.as_str()) {
            if ranks_below(&variants[at].points, &variants[j].points) {
                return false;
            }
            if j < at && !ranks_below(&variants[j].points, &variants[at].points) {
                return false;
            }
        }
        j += 1;
    }
    true
}

/// Where a new name stands among the names of releases in order.
fn place_for(items: &Vec<Release>, name: &Vec<char>) -> (place: usize)
    requires
        in_order(releases(items@)),
        forall|i: int| 0 <= i < items@.len() ==> (#[trigger] items@[i]).name@ != name@,
    ensures
        place <= items@.len(),
        forall|i: int| 0 <= i < place ==> text_before((#[trigger] items@[i]).name@, name@),
        forall|i: int|
            place <= i < items@.len() ==> text_before(name@, (#[trigger] items@[i]).name@),
{
    let ghost list = releases(items@);
    let mut place: usize = 0;
    while place < items.len()
        invariant
            place <= items@.len(),
            list == releases(items@),
            in_order(list),
            forall|i: int| 0 <= i < items@.len() ==> (#[trigger] items@[i]).name@ != name@,
            forall|i: int| 0 <= i < place ==> text_before((#[trigger] items@[i]).name@, name@),
        decreases items@.len() - place,
    {
        let other = chars_of(items[place].name.as_str());
        if !comes_before(&other, name) {
            proof {
                lemma_text_order();
                let less = |a: Seq<char>, b: Seq<char>| text_before(a, b);
                assert(items@[place as int].name@ != name@);
                assert(less(name@, other@) || less(other@, name@));
                assert forall|i: int| place <= i < items@.len() implies text_before(
                    name@,
                    (#[trigger] items@[i]).name@,
                ) by {
                    if i > place {
                        assert(text_before(list[place as int].name, list[i].name));
                        assert(less(other@, items@[i].name@));
                        assert(less(name@, items@[i].name@));
                    }
                }
            }
            return place;
        }
        place += 1;
    }
    place
}

proof fn lemma_inserted_in_order(list: Seq<ReleaseView>, place: int, new: ReleaseView)
    requires
        in_order(list),
        0 <= place <= list.len(),
        forall|i: int| 0 <= i < place ==> text_before((#[trigger] list[i]).name, new.name),
        forall|i: int| place <= i < list.len() ==> text_before(new.name, (#[trigger] list[i]).name),
    ensures
        in_order(list.insert(place, new)),
{
    let longer = list.insert(place, new);
    assert forall|a: int, b: int| 0 <= a < b < longer.len() implies text_before(
        #[trigger] longer[a].name,
        #[trigger] longer[b].name,
    ) by {
        let x = if a < place {
            a
        } else {
            a - 1
        };
        let y = if b < place {
            b
        } else {
            b - 1
        };
        if a == place {
            assert(longer[b] == list[y]);
        } else if b == place {
            assert(longer[a] == list[x]);
        } else {
            assert(longer[a] == list[x] && longer[b] == list[y]);
            assert(text_before(list[x].name, list[y].name));
        }
    }
}

/// The releases kept so far stay the right ones when a variant that is not to be kept follows.
proof fn lemma_selects_skipped(list: Seq<ReleaseView>, found: Seq<Accepted>, at: int)
    requires
        selects(list, found, at),
        !is_choice(found, at),
    ensures
        selects(list, found, at + 1),
{
    assert forall|k: int| 0 <= k < list.len() implies #[trigger] is_kept(list[k], found, at + 1) by {
        assert(is_kept(list[k], found, at));
    }
}

/// The releases kept so far and that of the next variant to keep, put in its place.
proof fn lemma_selects_inserted(
    list: Seq<ReleaseView>,
    found: Seq<Accepted>,
    at: int,
    place: int,
)
    requires
        selects(list, found, at),
        is_choice(found, at),
        0 <= place <= list.len(),
        in_order(list.insert(place, release_of(found[at]))),
    ensures
        selects(list.insert(place, release_of(found[at])), found, at + 1),
{
    let new = release_of(found[at]);
    let longer = list.insert(place, new);
    assert forall|k: int| 0 <= k < longer.len() implies #[trigger] is_kept(
        longer[k],
        found,
        at + 1,
    ) by {
        if k == place {
            assert(is_choice(found, at));
        } else {
            let x = if k < place {
                k
            } else {
                k - 1
            };
            assert(longer[k] == list[x]);
            assert(is_kept(list[x], found, at));
        }
    }
    assert forall|i: int| i < at + 1 && #[trigger] is_choice(found, i) implies longer.contains(
        release_of(found[i]),
    ) by {
        if i == at {
            assert(longer[place] == new);
        } else {
            let k = choose|k: int| 0 <= k < list.len() && list[k] == release_of(found[i]);
            if k < place {
                assert(longer[k] == list[k]);
            } else {
                assert(longer[k + 1] == list[k]);
            }
        }
    }
}

/// No release kept so far has the name of the next variant to keep.
proof fn lemma_name_is_new(list: Seq<ReleaseView>, found: Seq<Accepted>, at: int, k: int)
    requires
        selects(list, found, at),
        is_choice(found, at),
        forall|i: int, j: int|
            0 <= i < found.len() && 0 <= j < found.len() && (#[trigger] found[i]).candidate.name
                == (#[trigger] found[j]).candidate.name ==> found[i].imdb_id == found[j].imdb_id,
        0 <= k < list.len(),
    ensures
        list[k].name != found[at].candidate.name,
{
    assert(is_kept(list[k], found, at));
    let i = choose|i: int|
        i < at && #[trigger] is_choice(found, i) && list[k] == release_of(found[i]);
    if list[k].name == found[at].candidate.name {
        assert(found[i].candidate.name == found[at].candidate.name);
        one_variant_is_kept_of_each_movie(found, i, at);
    }
}

/// Puts the release of a variant to keep among those kept so far.
fn keep(
    items: &mut Vec<Release>,
    variant: &Variant,
    list: &Vec<ReleaseCandidate>,
    Ghost(found): Ghost<Seq<Accepted>>,
    Ghost(at): Ghost<int>,
)
    requires
        is_choice(found, at),
        stands_for(*variant, list@, found[at]),
        selects(releases(old(items)@), found, at),
        forall|i: int, j: int|
            0 <= i < found.len() && 0 <= j < found.len() && (#[trigger] found[i]).candidate.name
                == (#[trigger] found[j]).candidate.name ==> found[i].imdb_id == found[j].imdb_id,
    ensures
        selects(releases(final(items)@), found, at + 1),
{
    let ghost shorter = releases(items@);
    let ghost new = release_of(found[at]);
    let candidate = &list[variant.place];
    let name = chars_of(candidate.name.as_str());
    assert forall|k: int| 0 <= k < items@.len() implies (#[trigger] items@[k]).name@ != name@ by {
        lemma_name_is_new(shorter, found, at, k);
        assert(shorter[k].name == items@[k].name@);
    }
    let place = place_for(items, &name);
    let release = Release {
        name: candidate.name.clone(),
        url: candidate.url.clone(),
        movie_key: movie_key(&variant.identity),
        imdb_id: variant.imdb_id.clone(),
        imdb_rating: variant.score,
    };
    assert(release@ =~= new);
    assert forall|i: int| 0 <= i < place implies text_before(
        (#[trigger] shorter[i]).name,
        new.name,
    ) by {
        assert(shorter[i].name == items@[i].name@);
    }
    assert forall|i: int| place <= i < shorter.len() implies text_before(
        new.name,
        (#[trigger] shorter[i]).name,
    ) by {
        assert(shorter[i].name == items@[i].name@);
    }
    items.insert(place, release);
    assert(releases(items@) =~= shorter.insert(place as int, new));
    proof {
        lemma_inserted_in_order(shorter, place as int, new);
        lemma_selects_inserted(shorter, found, at, place as int);
    }
}

impl MovieFilter {
    pub fn new(config: FilterConfig) -> (filter: Self)
        ensures
            filter.config@ == config@,
    {
        MovieFilter { config }
    }

    /// The movies to look up: each that a candidate offers, once, in the order in which they
    /// first occur.
    pub fn movies(&self, list: &Vec<ReleaseCandidate>) -> (found: Vec<MovieIdentity>)
        ensures
            identities(found@) == offered(candidates(list@), self.config@),
    {
        let ghost all = candidates(list@);
        let mut found: Vec<MovieIdentity> = Vec::new();
        let mut i: usize = 0;
        while i < list.len()
            invariant
                i <= list@.len(),
                all == candidates(list@),
                identities(found@) == offered(all.take(i as int), self.config@),
            decreases list@.len() - i,
        {
            let ghost next = all.take(i + 1);
            assert(next.drop_last() == all.take(i as int));
            assert(next.last() == list@[i as int]@);
            let ghost front = identities(found@);
            match movie_identity(&list[i], &self.config) {
                Some(identity) => {
                    match place_of_movie(&found, &identity) {
                        Some(place) => {
                            assert(front[place as int] == identity@);
                            assert(front.contains(identity@));
                        },
                        None => {
                            found.push(identity);
                            assert(identities(found@) =~= front.push(identity@));
                        },
                    }
                },
                None => {},
            }
            i += 1;
        }
        assert(all.take(list@.len() as int) == all);
        found
    }

    /// What becomes of each candidate, and one release for each movie, given what looking up
    /// each of [`MovieFilter::movies`] came to.
    pub fn filter(&self, list: &Vec<ReleaseCandidate>, found: &Vec<RatingLookup>) -> (outcome:
        FilterOutcome)
        requires
            found@.len() == offered(candidates(list@), self.config@).len(),
        ensures
            ({
                let all = rulings(candidates(list@), self.config@, lookups(found@));
                &&& selects(
                    releases(outcome.releases@),
                    accepted(all),
                    accepted(all).len() as int,
                )
                &&& outcome.basic_rejections == count(all, |r: Ruling| r is Basic)
                &&& outcome.rating_rejections == count(all, |r: Ruling| r is Unrated || r is Low)
                &&& outcome.lookup_failures == count(all, |r: Ruling| r is Failed)
                &&& outcome.verdicts@ == Seq::new(all.len(), |i: int| verdict_of(all[i]))
            }),
    {
        proof {
            use_type_invariant(&self.config);
        }
        let ghost views = candidates(list@);
        let ghost answers = lookups(found@);
        let ghost config = self.config@;
        let ghost movies = offered(views, config);
        let ghost all = rulings(views, config, answers);
        let ghost basic = |r: Ruling| r is Basic;
        let ghost rating = |r: Ruling| r is Unrated || r is Low;
        let ghost failure = |r: Ruling| r is Failed;
        let known_movies = self.movies(list);
        let mut variants: Vec<Variant> = Vec::new();
        let mut verdicts: Vec<Verdict> = Vec::new();
        let mut basic_rejections: usize = 0;
        let mut rating_rejections: usize = 0;
        let mut lookup_failures: usize = 0;
        let mut i: usize = 0;
        proof {
            movies_are_looked_up_once(views, config);
        }
        while i < list.len()
            invariant
                i <= list@.len(),
                views == candidates(list@),
                answers == lookups(found@),
                config == self.config@,
                config.minimum_score.is_finite(),
                self.config.minimum_imdb_score == config.minimum_score,
                movies == offered(views, config),
                movies == identities(known_movies@),
                movies.no_duplicates(),
                forall|k: int|
                    0 <= k < views.len() && identity_of(#[trigger] views[k], config) is Some
                        ==> movies.contains(identity_of(views[k], config)->0),
                found@.len() == movies.len(),
                all == rulings(views, config, answers),
                all.len() == list@.len(),
                basic == (|r: Ruling| r is Basic),
                rating == (|r: Ruling| r is Unrated || r is Low),
                failure == (|r: Ruling| r is Failed),
                basic_rejections + rating_rejections + lookup_failures <= i,
                basic_rejections == count(all.take(i as int), basic),
                rating_rejections == count(all.take(i as int), rating),
                lookup_failures == count(all.take(i as int), failure),
                verdicts@.len() == i,
                forall|k: int| 0 <= k < i ==> #[trigger] verdicts@[k] == verdict_of(all[k]),
                stand_for(variants@, list@, accepted(all.take(i as int))),
            decreases list@.len() - i,
        {
            let ghost next = all.take(i + 1);
            assert(next.drop_last() == all.take(i as int));
            assert(next.last() == ruling(views[i as int], config, movies, answers));
            assert(views[i as int] == list@[i as int]@);
            match movie_identity(&list[i], &self.config) {
                None => {
                    basic_rejections += 1;
                    verdicts.push(Verdict::Basic);
                },
                Some(identity) => {
                    match place_of_movie(&known_movies, &identity) {
                        None => {
                            assert(false);
                        },
                        Some(place) => {
                            assert(movies.index_of(identity@) == place) by {
                                assert(movies[place as int] == identity@);
                                let other = movies.index_of(identity@);
                                assert(movies[other] == identity@);
                            }
                            assert(answers[place as int] == found@[place as int]@);
                            match &found[place] {
                                RatingLookup::Failed(_) => {
                                    lookup_failures += 1;
                                    verdicts.push(Verdict::Failed);
                                },
                                RatingLookup::Resolved(None) => {
                                    rating_rejections += 1;
                                    verdicts.push(Verdict::Unrated);
                                },
                                RatingLookup::Resolved(Some(movie)) => {
                                    if is_above(movie.score, self.config.minimum_imdb_score) {
                                        verdicts.push(Verdict::Accepted(movie.score));
                                        let variant = Variant {
                                            place: i,
                                            identity,
                                            imdb_id: movie.imdb_id.clone(),
                                            score: movie.score,
                                            points: rank(&list[i]),
                                        };
                                        variants.push(variant);
                                    } else {
                                        rating_rejections += 1;
                                        verdicts.push(Verdict::Low(movie.score));
                                    }
                                },
                            }
                        },
                    }
                },
            }
            i += 1;
        }
        assert(all.take(list@.len() as int) == all);
        let ghost passed = accepted(all);
        proof {
            lemma_one_name_one_movie(views, config, answers);
        }
        let mut items: Vec<Release> = Vec::new();
        let mut k: usize = 0;
        while k < variants.len()
            invariant
                k <= variants@.len(),
                stand_for(variants@, list@, passed),
                selects(releases(items@), passed, k as int),
                forall|i: int, j: int|
                    0 <= i < passed.len() && 0 <= j < passed.len() && (
                    #[trigger] passed[i]).candidate.name == (#[trigger] passed[j]).candidate.name
                        ==> passed[i].imdb_id == passed[j].imdb_id,
            decreases variants@.len() - k,
        {
            if choice(&variants, k, Ghost(list@), Ghost(passed)) {
                assert(stands_for(variants@[k as int], list@, passed[k as int]));
                keep(&mut items, &variants[k], list, Ghost(passed), Ghost(k as int));
            } else {
                proof {
                    lemma_selects_skipped(releases(items@), passed, k as int);
                }
            }
            k += 1;
        }
        let outcome = FilterOutcome {
            releases: items,
            basic_rejections,
            rating_rejections,
            lookup_failures,
            verdicts,
        };
        assert(outcome.verdicts@ =~= Seq::new(all.len(), |i: int| verdict_of(all[i])));
        outcome
    }
}

// ---------------------------------------------------------------------------
// What the filter asks for
// ---------------------------------------------------------------------------

/// A name has the required resolution exactly where one of its words is `4K` or `2160p`, in
/// capitals or not.
pub proof fn the_resolution_is_told_by_its_words(name: Seq<char>)
    ensures
        is_4k(name) <==> exists|i: int|
            0 <= i < words(name).len() && (lowered(#[trigger] words(name)[i]) == "4k"@ || lowered(
                words(name)[i],
            ) == "2160p"@),
{
    if is_4k(name) {
        let i = choose|i: int| 0 <= i < words(name).len() && names_4k(#[trigger] words(name)[i]);
        assert(lowered(words(name)[i]) == "4k"@ || lowered(words(name)[i]) == "2160p"@);
    }
    if exists|i: int|
        0 <= i < words(name).len() && (lowered(#[trigger] words(name)[i]) == "4k"@ || lowered(
            words(name)[i],
        ) == "2160p"@) {
        let i = choose|i: int|
            0 <= i < words(name).len() && (lowered(#[trigger] words(name)[i]) == "4k"@ || lowered(
                words(name)[i],
            ) == "2160p"@);
        assert(names_4k(words(name)[i]));
    }
}

/// The word at `place` is the first of a name that is one of the years.
pub open spec fn is_first_year(name: Seq<char>, years: Set<i32>, place: int) -> bool {
    &&& 0 <= place < words(name).len()
    &&& i32_value(words(name)[place]) is Some
    &&& years.contains(i32_value(words(name)[place])->0)
    &&& forall|j: int|
        0 <= j < place ==> !(i32_value(#[trigger] words(name)[j]) is Some && years.contains(
            i32_value(words(name)[j])->0,
        ))
}

/// The first word that is one of the years is what `first_year` finds.
pub proof fn lemma_first_year_is_found(
    list: Seq<Seq<char>>,
    years: Set<i32>,
    from: int,
    place: int,
    year: i32,
)
    requires
        0 <= from <= place < list.len(),
        i32_value(list[place]) == Some(year),
        years.contains(year),
        forall|j: int|
            from <= j < place ==> !(i32_value(#[trigger] list[j]) is Some && years.contains(
                i32_value(list[j])->0,
            )),
    ensures
        first_year(list, years, from) == Some((place, year)),
    decreases place - from,
{
    if from < place {
        assert(!(i32_value(list[from]) is Some && years.contains(i32_value(list[from])->0)));
        lemma_first_year_is_found(list, years, from + 1, place, year);
    }
}

/// The movie that a name tells is the year at the first word that is one of the years, and the
/// title that the words before it make, joined by spaces and normalized, if any letter or number
/// stands there.
pub proof fn movies_are_told_by_what_stands_before_the_first_year(
    name: Seq<char>,
    years: Set<i32>,
    place: int,
)
    requires
        is_first_year(name, years, place),
    ensures
        identity_in(name, years) == ({
            let title = normalised(joined(words(name).take(place), " "@));
            if title.len() > 0 {
                Some(IdentityView { title, year: i32_value(words(name)[place])->0 })
            } else {
                None
            }
        }),
{
    reveal_strlit(" ");
    assert(space() =~= " "@);
    lemma_first_year_is_found(words(name), years, 0, place, i32_value(words(name)[place])->0);
}

/// A name tells no movie unless one of its words is one of the years.
pub proof fn movies_need_an_accepted_year(name: Seq<char>, years: Set<i32>) -> (place: int)
    requires
        identity_in(name, years) is Some,
    ensures
        is_first_year(name, years, place),
{
    lemma_first_year(words(name), years, 0);
    let place = (first_year(words(name), years, 0)->0).0;
    assert forall|j: int| 0 <= j < place implies !(i32_value(#[trigger] words(name)[j]) is Some
        && years.contains(i32_value(words(name)[j])->0)) by {
        match i32_value(words(name)[j]) {
            Some(other) => {
                assert(!years.contains(other));
            },
            None => {},
        }
    }
    place
}

/// A candidate offers a movie exactly where its size is known and larger than the minimum, one of
/// its words is `4K` or `2160p`, in capitals or not, and its name tells a movie of an accepted
/// year.
pub proof fn candidates_need_size_resolution_and_year(
    candidate: CandidateView,
    config: ConfigView,
)
    ensures
        identity_of(candidate, config) is Some <==> {
            &&& candidate.size_bytes is Some
            &&& candidate.size_bytes->0 > config.minimum_size
            &&& exists|i: int|
                0 <= i < words(candidate.name).len() && (lowered(
                    #[trigger] words(candidate.name)[i],
                ) == "4k"@ || lowered(words(candidate.name)[i]) == "2160p"@)
            &&& identity_in(candidate.name, config.years) is Some
        },
        identity_of(candidate, config) is Some ==> identity_of(candidate, config) == identity_in(
            candidate.name,
            config.years,
        ),
{
    the_resolution_is_told_by_its_words(candidate.name);
}

/// An accepted candidate is one of those given; its size is known and larger than the minimum;
/// one of its words is `4K` or `2160p`, in capitals or not; its year is an accepted one; and the
/// movie was found with a score that is higher than the minimum and not merely as high.
pub proof fn accepted_candidates_are_large_recent_sharp_and_liked(
    list: Seq<CandidateView>,
    config: ConfigView,
    found: Seq<LookupView>,
    i: int,
)
    requires
        0 <= i < accepted(rulings(list, config, found)).len(),
    ensures
        ({
            let passed = accepted(rulings(list, config, found))[i];
            let name = passed.candidate.name;
            &&& list.contains(passed.candidate)
            &&& passed.candidate.size_bytes is Some
            &&& passed.candidate.size_bytes->0 > config.minimum_size
            &&& exists|k: int|
                0 <= k < words(name).len() && (lowered(#[trigger] words(name)[k]) == "4k"@
                    || lowered(words(name)[k]) == "2160p"@)
            &&& config.years.contains(passed.identity.year)
            &&& exists|k: int|
                0 <= k < words(name).len() && i32_value(#[trigger] words(name)[k]) == Some(
                    passed.identity.year,
                )
            &&& passed.score.is_finite()
            &&& passed.score.value() > config.minimum_score.value()
        }),
{
    accepted_candidates_meet_every_requirement(list, config, found, i);
    let all = rulings(list, config, found);
    let passed = accepted(all)[i];
    the_resolution_is_told_by_its_words(passed.candidate.name);
    let place = movies_need_an_accepted_year(passed.candidate.name, config.years);
    movies_are_told_by_what_stands_before_the_first_year(
        passed.candidate.name,
        config.years,
        place,
    );
    lemma_accepted_are_rulings(all);
    let k = choose|k: int| 0 <= k < all.len() && #[trigger] all[k] == Ruling::Accepted(passed);
    assert(ruling(list[k], config, offered(list, config), found) == Ruling::Accepted(passed));
}

/// What becomes of a candidate that offers a movie is decided by what looking up that movie came
/// to: a failure, no such movie, a score that is too low, or one above the minimum, with which it
/// passes under the IMDb id that was found.
pub proof fn lookups_decide_what_becomes_of_a_candidate(
    list: Seq<CandidateView>,
    config: ConfigView,
    found: Seq<LookupView>,
    i: int,
    m: int,
)
    requires
        0 <= i < list.len(),
        identity_of(list[i], config) is Some,
        0 <= m < offered(list, config).len(),
        offered(list, config)[m] == identity_of(list[i], config)->0,
    ensures
        rulings(list, config, found)[i] == (match found[m] {
            LookupView::Failed(_) => Ruling::Failed,
            LookupView::Resolved(None) => Ruling::Unrated,
            LookupView::Resolved(Some((imdb_id, score))) => if score.is_finite() && score.value()
                > config.minimum_score.value() {
                Ruling::Accepted(
                    Accepted {
                        candidate: list[i],
                        identity: identity_of(list[i], config)->0,
                        imdb_id,
                        score,
                    },
                )
            } else {
                Ruling::Low(score)
            },
        }),
{
    movies_are_looked_up_once(list, config);
    let movies = offered(list, config);
    let other = movies.index_of(movies[m]);
    assert(movies.contains(movies[m]));
    assert(movies[other] == movies[m]);
}

/// A candidate is turned away for its size, year or resolution exactly where it offers no movie.
pub proof fn candidates_without_a_movie_are_turned_away(
    list: Seq<CandidateView>,
    config: ConfigView,
    found: Seq<LookupView>,
    i: int,
)
    requires
        0 <= i < list.len(),
    ensures
        rulings(list, config, found).len() == list.len(),
        rulings(list, config, found)[i] is Basic <==> identity_of(list[i], config) is None,
        rulings(list, config, found)[i] is Basic <==> verdict_of(
            rulings(list, config, found)[i],
        ) is Basic,
{
}

/// The verdicts report the rulings, with the score where there is one.
pub proof fn verdicts_report_rulings(candidate: Accepted, score: Binary64)
    ensures
        verdict_of(Ruling::Basic) is Basic,
        verdict_of(Ruling::Unrated) is Unrated,
        verdict_of(Ruling::Failed) is Failed,
        verdict_of(Ruling::Low(score)) == Verdict::Low(score),
        verdict_of(Ruling::Accepted(candidate)) == Verdict::Accepted(candidate.score),
{
}

/// Rulings are counted, and accepted candidates are gathered, over two lists as over each of
/// them, whatever their lengths.
pub proof fn rulings_are_counted_one_by_one(
    left: Seq<Ruling>,
    right: Seq<Ruling>,
    kind: spec_fn(Ruling) -> bool,
)
    ensures
        count(left + right, kind) == count(left, kind) + count(right, kind),
        accepted(left + right) == accepted(left) + accepted(right),
    decreases right.len(),
{
    if right.len() == 0 {
        assert(left + right =~= left);
        assert(accepted(left) + accepted(right) =~= accepted(left));
    } else {
        rulings_are_counted_one_by_one(left, right.drop_last(), kind);
        assert((left + right).drop_last() =~= left + right.drop_last());
        assert((left + right).last() == right.last());
        assert(accepted(left + right) =~= accepted(left) + accepted(right));
    }
}

/// A single ruling counts once if it is of the kind, and is gathered if it accepts.
pub proof fn one_ruling_counts_once(one: Ruling, kind: spec_fn(Ruling) -> bool)
    ensures
        count(seq![one], kind) == if kind(one) {
            1nat
        } else {
            0
        },
        accepted(seq![one]) == (match one {
            Ruling::Accepted(found) => seq![found],
            _ => Seq::<Accepted>::empty(),
        }),
{
    reveal_with_fuel(count, 2);
    reveal_with_fuel(accepted, 2);
    assert(seq![one].drop_last() =~= Seq::empty());
    assert(accepted(seq![one]) =~= match one {
        Ruling::Accepted(found) => seq![found],
        _ => Seq::<Accepted>::empty(),
    });
}

/// Every candidate that passed is gathered.
pub proof fn every_accepted_ruling_is_gathered(list: Seq<Ruling>, at: int)
    requires
        0 <= at < list.len(),
        list[at] is Accepted,
    ensures
        accepted(list).contains(list[at]->Accepted_0),
{
    let left = list.take(at);
    let right = list.skip(at + 1);
    let one = seq![list[at]];
    assert(list =~= left + one + right);
    rulings_are_counted_one_by_one(left + one, right, |r: Ruling| true);
    rulings_are_counted_one_by_one(left, one, |r: Ruling| true);
    one_ruling_counts_once(list[at], |r: Ruling| true);
    let all = accepted(left) + seq![list[at]->Accepted_0] + accepted(right);
    assert(accepted(list) == all);
    assert(all[accepted(left).len() as int] == list[at]->Accepted_0);
}

/// The movies to look up are those that candidates offer and no others, each after those that
/// earlier candidates offer.
pub proof fn movies_come_in_the_order_of_the_candidates(
    list: Seq<CandidateView>,
    more: CandidateView,
    config: ConfigView,
)
    ensures
        offered(Seq::<CandidateView>::empty(), config) == Seq::<IdentityView>::empty(),
        offered(list.push(more), config) == (match identity_of(more, config) {
            Some(identity) => if offered(list, config).contains(identity) {
                offered(list, config)
            } else {
                offered(list, config).push(identity)
            },
            None => offered(list, config),
        }),
{
    assert(list.push(more).drop_last() =~= list);
}

/// The release that is kept of a movie is that of a variant which no other of the same IMDb id
/// beats in the first point of quality in which they differ; of those with the same points it is
/// the first. It has the name and address of the variant, the key made of title and year, the
/// IMDb id and the score.
pub proof fn kept_releases_are_of_the_best_variants(
    list: Seq<ReleaseView>,
    found: Seq<Accepted>,
    k: int,
) -> (kept: int)
    requires
        selects(list, found, found.len() as int),
        0 <= k < list.len(),
    ensures
        0 <= kept < found.len(),
        list[k].name == found[kept].candidate.name,
        list[k].url == found[kept].candidate.url,
        list[k].movie_key == lowered(found[kept].identity.title) + " "@ + signed_decimal(
            found[kept].identity.year as int,
        ),
        list[k].imdb_id == found[kept].imdb_id,
        list[k].imdb_rating == found[kept].score,
        forall|j: int|
            0 <= j < found.len() && (#[trigger] found[j]).imdb_id == found[kept].imdb_id && j != kept
                ==> (quality(found[j].candidate) == quality(found[kept].candidate) && kept < j)
                || has_first_higher_point(found[kept].candidate, found[j].candidate),
{
    assert(is_kept(list[k], found, found.len() as int));
    let kept = choose|i: int|
        i < found.len() && #[trigger] is_choice(found, i) && list[k] == release_of(found[i]);
    reveal_strlit(" ");
    assert(space() =~= " "@);
    assert forall|j: int|
        0 <= j < found.len() && (#[trigger] found[j]).imdb_id == found[kept].imdb_id && j
            != kept implies (quality(found[j].candidate) == quality(found[kept].candidate) && kept
        < j) || has_first_higher_point(found[kept].candidate, found[j].candidate) by {
        let a = found[kept].candidate;
        let b = found[j].candidate;
        better_is_an_order(a, b, a);
        if better(a, b) {
            the_better_candidate_has_the_first_higher_point(a, b);
        }
    }
    kept
}

/// At the first point of quality in which the two differ, the left one has the higher.
pub open spec fn has_first_higher_point(left: CandidateView, right: CandidateView) -> bool {
    exists|point: int|
        0 <= point < 8 && quality(left)[point] > #[trigger] quality(right)[point] && forall|i: int|
            0 <= i < point ==> #[trigger] quality(left)[i] == quality(right)[i]
}

/// The years that are accepted: where any are named, exactly those; else the current one and the
/// one before it.
pub proof fn years_are_the_named_or_the_recent_ones(
    years: Seq<i32>,
    current_year: i32,
    year: i32,
)
    requires
        current_year > i32::MIN,
    ensures
        years.len() > 0 ==> (window(years, current_year).contains(year) <==> years.contains(year)),
        years.len() == 0 ==> (window(years, current_year).contains(year) <==> year == current_year
            || year == current_year - 1),
{
}

/// A mebibyte is 1024 times 1024 bytes; thresholds of the score lie between zero and below ten.
pub proof fn thresholds_are_what_they_are_called(count: u64, score: Binary64)
    ensures
        count * 1024 * 1024 <= 0xffff_ffff_ffff_ffff ==> mebibytes(count) == count * 1024 * 1024,
        count * 1024 * 1024 > 0xffff_ffff_ffff_ffff ==> mebibytes(count) == 0xffff_ffff_ffff_ffff,
        is_threshold(score) <==> score.is_finite() && 0 <= score.value() < 10 * two(1074),
{
    lemma_ten();
}

/// The key of a movie is its title in small letters, a space, and its year; so movies of one
/// title and different years have different keys.
pub proof fn keys_are_made_of_title_and_year(identity: IdentityView, other: IdentityView)
    ensures
        key_of(identity) == lowered(identity.title) + " "@ + signed_decimal(identity.year as int),
        identity.title == other.title && key_of(identity) == key_of(other) ==> identity.year
            == other.year,
{
    reveal_strlit(" ");
    assert(space() =~= " "@);
    if identity.title == other.title && key_of(identity) == key_of(other) {
        let front = lowered(identity.title) + space();
        assert(key_of(identity).skip(front.len() as int) =~= signed_decimal(identity.year as int));
        assert(key_of(other).skip(front.len() as int) =~= signed_decimal(other.year as int));
        written_numbers_are_read_back(identity.year as int);
        written_numbers_are_read_back(other.year as int);
    }
}

/// The releases come in the order of the code points of their names, none of them twice.
pub proof fn releases_come_in_the_order_of_their_names(
    list: Seq<ReleaseView>,
    found: Seq<Accepted>,
    i: int,
    j: int,
)
    requires
        selects(list, found, found.len() as int),
        0 <= i < j < list.len(),
    ensures
        list[i].name != list[j].name,
        exists|k: int|
            0 <= k <= list[i].name.len() && k < list[j].name.len() && list[i].name.take(k)
                == #[trigger] list[j].name.take(k) && (k == list[i].name.len() || (
            list[i].name[k] as int) < list[j].name[k] as int),
{
    texts_are_ordered_by_code_points(list[i].name, list[j].name);
    lemma_text_order();
    let less = |a: Seq<char>, b: Seq<char>| text_before(a, b);
    assert(!less(list[i].name, list[i].name));
    assert(text_before(list[i].name, list[j].name));
}

/// A name has the required resolution exactly where one of its words is, up to ASCII case, `4k` or
/// `2160p`.
pub proof fn only_4k_and_2160p_are_sharp_enough(name: &str, found: bool)
    requires
        call_ensures(has_4k_resolution, (name,), found),
    ensures
        found <==> exists|i: int|
            0 <= i < words(name@).len() && (lowered(#[trigger] words(name@)[i]) == "4k"@
                || lowered(words(name@)[i]) == "2160p"@),
{
    the_resolution_is_told_by_its_words(name@);
}

/// A candidate tells a movie only where its size is known and larger than the minimum and one of
/// its words is `4k` or `2160p`, up to ASCII case; the year is an accepted one, and it stands in
/// the name behind the words of the title.
pub proof fn movies_are_told_by_large_and_sharp_candidates(
    candidate: &ReleaseCandidate,
    config: &FilterConfig,
    identity: Option<MovieIdentity>,
) -> (place: int)
    requires
        call_ensures(movie_identity, (candidate, config), identity),
        identity is Some,
    ensures
        candidate.size_bytes is Some,
        candidate.size_bytes->0 > config@.minimum_size,
        exists|i: int|
            0 <= i < words(candidate.name@).len() && (lowered(
                #[trigger] words(candidate.name@)[i],
            ) == "4k"@ || lowered(words(candidate.name@)[i]) == "2160p"@),
        config@.years.contains(identity->0.year),
        0 <= place < words(candidate.name@).len(),
        i32_value(words(candidate.name@)[place]) == Some(identity->0.year),
        identity->0.title@ == normalised(joined(words(candidate.name@).take(place), " "@)),
        identity->0.title@.len() > 0,
{
    candidates_need_size_resolution_and_year(candidate@, config@);
    let place = movies_need_an_accepted_year(candidate.name@, config@.years);
    movies_are_told_by_what_stands_before_the_first_year(
        candidate.name@,
        config@.years,
        place,
    );
    place
}

/// The years accepted in a year are those named, or that year and the one before where none are.
pub proof fn named_years_or_the_last_two_are_accepted(
    years: &[i32],
    current_year: i32,
    accepted: HashSet<i32>,
    year: i32,
)
    requires
        call_ensures(years_accepted_in, (years, current_year), accepted),
        current_year > i32::MIN,
    ensures
        accepted@.contains(year) <==> if years@.len() > 0 {
            years@.contains(year)
        } else {
            year == current_year || year == current_year - 1
        },
{
    years_are_the_named_or_the_recent_ones(years@, current_year, year);
}

/// A configuration is made exactly where the threshold of the score is a number from zero to below
/// ten. It has that threshold, the size in mebibytes, or the largest there is, and the years that
/// are named.
pub proof fn configurations_hold_what_was_asked_for(
    years: &[i32],
    size: u64,
    score: Binary64,
    config: Result<FilterConfig, ScoreOutOfRange>,
    year: i32,
)
    requires
        call_ensures(FilterConfig::new, (years, size, score), config),
    ensures
        config is Ok <==> score.is_finite() && 0 <= score.value() < 10 * two(1074),
        config is Ok ==> {
            &&& config->Ok_0@.minimum_score == score
            &&& size * 1024 * 1024 <= 0xffff_ffff_ffff_ffff ==> config->Ok_0@.minimum_size == size
                * 1024 * 1024
            &&& size * 1024 * 1024 > 0xffff_ffff_ffff_ffff ==> config->Ok_0@.minimum_size
                == 0xffff_ffff_ffff_ffff
            &&& years@.len() > 0 ==> (config->Ok_0@.years.contains(year) <==> years@.contains(year))
        },
        config is Ok && years@.len() == 0 ==> exists|current_year: i32|
            1969 <= current_year && forall|other: i32| #[trigger]
                config->Ok_0@.years.contains(other) <==> other == current_year || other
                    == #[trigger] (current_year - 1),
{
    thresholds_are_what_they_are_called(size, score);
    if config is Ok && years@.len() == 0 {
        let current_year = choose|current_year: i32|
            1969 <= current_year <= 262_143 && config->Ok_0@.years == #[trigger] window(
                years@,
                current_year,
            );
        assert forall|other: i32| #[trigger]
            config->Ok_0@.years.contains(other) <==> other == current_year || other
                == current_year - 1 by {
            years_are_the_named_or_the_recent_ones(years@, current_year, other);
        }
    }
}

proof fn lemma_counted_verdicts(
    list: Seq<Ruling>,
    kind: spec_fn(Ruling) -> bool,
    verdict: spec_fn(Verdict) -> bool,
)
    requires
        forall|r: Ruling| #[trigger] kind(r) <==> verdict(verdict_of(r)),
    ensures
        Seq::new(list.len(), |i: int| verdict_of(list[i])).filter(verdict).len() == count(
            list,
            kind,
        ),
    decreases list.len(),
{
    reveal(Seq::filter);
    let all = Seq::new(list.len(), |i: int| verdict_of(list[i]));
    if list.len() > 0 {
        let short = list.drop_last();
        lemma_counted_verdicts(short, kind, verdict);
        assert(all.drop_last() =~= Seq::new(short.len(), |i: int| verdict_of(short[i])));
        assert(all.last() == verdict_of(list.last()));
        assert(kind(list.last()) <==> verdict(verdict_of(list.last())));
    }
}

/// Filtering gives one verdict for each candidate, and counts them by their kind: those turned
/// away for size, year or resolution, those without a score or with one that is too low, and
/// those that could not be looked up. The first are exactly those that tell no movie.
pub proof fn verdicts_are_counted_by_their_kind(
    filter: &MovieFilter,
    list: &Vec<ReleaseCandidate>,
    found: &Vec<RatingLookup>,
    outcome: FilterOutcome,
    i: int,
)
    requires
        call_ensures(MovieFilter::filter, (filter, list, found), outcome),
        0 <= i < list@.len(),
    ensures
        outcome.verdicts@.len() == list@.len(),
        outcome.verdicts@[i] is Basic <==> identity_of(list@[i]@, filter.config@) is None,
        outcome.basic_rejections == outcome.verdicts@.filter(|v: Verdict| v is Basic).len(),
        outcome.rating_rejections == outcome.verdicts@.filter(
            |v: Verdict| v is Unrated || v is Low,
        ).len(),
        outcome.lookup_failures == outcome.verdicts@.filter(|v: Verdict| v is Failed).len(),
{
    let all = rulings(candidates(list@), filter.config@, lookups(found@));
    lemma_counted_verdicts(all, |r: Ruling| r is Basic, |v: Verdict| v is Basic);
    lemma_counted_verdicts(
        all,
        |r: Ruling| r is Unrated || r is Low,
        |v: Verdict| v is Unrated || v is Low,
    );
    lemma_counted_verdicts(all, |r: Ruling| r is Failed, |v: Verdict| v is Failed);
    candidates_without_a_movie_are_turned_away(
        candidates(list@),
        filter.config@,
        lookups(found@),
        i,
    );
    assert(outcome.verdicts@[i] == verdict_of(all[i]));
}

/// Every candidate that passes is of a movie of which a release is selected, with the IMDb id that
/// was found for it; and every selected release is of a candidate that passes.
pub proof fn releases_are_selected_of_every_movie_that_passes(
    filter: &MovieFilter,
    list: &Vec<ReleaseCandidate>,
    found: &Vec<RatingLookup>,
    outcome: FilterOutcome,
    i: int,
    k: int,
)
    requires
        call_ensures(MovieFilter::filter, (filter, list, found), outcome),
        0 <= i < list@.len(),
    ensures
        rulings(candidates(list@), filter.config@, lookups(found@))[i] is Accepted ==> exists|
            place: int,
        |
            0 <= place < outcome.releases@.len() && (#[trigger] outcome.releases@[place]).imdb_id@
                == rulings(
                candidates(list@),
                filter.config@,
                lookups(found@),
            )[i]->Accepted_0.imdb_id,
        0 <= k < outcome.releases@.len() ==> exists|at: int|
            0 <= at < list@.len() && (#[trigger] list@[at]).name@ == outcome.releases@[k].name@
                && list@[at].url@ == outcome.releases@[k].url@,
{
    let all = rulings(candidates(list@), filter.config@, lookups(found@));
    let chosen = releases(outcome.releases@);
    assert(chosen.len() == outcome.releases@.len());
    if all[i] is Accepted {
        every_accepted_ruling_is_gathered(all, i);
        let gathered = accepted(all);
        let at = choose|at: int|
            0 <= at < gathered.len() && gathered[at] == all[i]->Accepted_0;
        let place = every_accepted_movie_is_selected(chosen, gathered, at);
        assert(chosen[place] == outcome.releases@[place]@);
        assert(outcome.releases@[place].imdb_id@ == all[i]->Accepted_0.imdb_id);
    }
    if 0 <= k < outcome.releases@.len() {
        let kept = kept_releases_are_of_the_best_variants(chosen, accepted(all), k);
        assert(chosen[k] == outcome.releases@[k]@);
        accepted_candidates_are_large_recent_sharp_and_liked(
            candidates(list@),
            filter.config@,
            lookups(found@),
            kept,
        );
        let views = candidates(list@);
        let at = choose|at: int|
            0 <= at < views.len() && views[at] == accepted(all)[kept].candidate;
        assert(views[at] == list@[at]@);
        assert(list@[at].name@ == outcome.releases@[k].name@);
    }
}

/// The years accepted are those named; where none are, they are two, a year no earlier than 1969
/// and the one before it.
pub proof fn accepted_years_are_named_or_two(years: &[i32], accepted: HashSet<i32>)
    requires
        call_ensures(effective_years, (years,), accepted),
    ensures
        years@.len() > 0 ==> forall|year: i32| #[trigger]
            accepted@.contains(year) <==> years@.contains(year),
        years@.len() == 0 ==> exists|last: i32|
            1969 <= last && #[trigger] accepted@.contains(last) && forall|year: i32| #[trigger]
                accepted@.contains(year) <==> year == last || year == last - 1,
{
    if years@.len() == 0 {
        let last = choose|current_year: i32|
            1969 <= current_year <= 262_143 && accepted@ == #[trigger] window(years@, current_year);
        assert forall|year: i32| #[trigger] accepted@.contains(year) <==> year == last || year
            == last - 1 by {
            years_are_the_named_or_the_recent_ones(years@, last, year);
        }
        assert(accepted@.contains(last));
    } else {
        assert forall|year: i32| #[trigger] accepted@.contains(year) <==> years@.contains(
            year,
        ) by {
            years_are_the_named_or_the_recent_ones(years@, 1969, year);
            assert(window(years@, 1969) == years@.to_set());
        }
    }
}

/// The key of a movie is its title in small letters, a space and its year.
pub proof fn movie_keys_hold_title_and_year(identity: &MovieIdentity, key: String)
    requires
        call_ensures(movie_key, (identity,), key),
    ensures
        key@ == lowered(identity.title@) + " "@ + signed_decimal(identity.year as int),
{
    keys_are_made_of_title_and_year(identity@, identity@);
}

/// The movies to look up are those that candidates offer, each once: every movie that a candidate
/// offers is among them, and each of them is offered by a candidate.
pub proof fn every_offered_movie_is_looked_up_once(
    filter: &MovieFilter,
    list: &Vec<ReleaseCandidate>,
    found: Vec<MovieIdentity>,
    i: int,
    a: int,
    b: int,
)
    requires
        call_ensures(MovieFilter::movies, (filter, list), found),
    ensures
        0 <= i < list@.len() && identity_of(list@[i]@, filter.config@) is Some ==> identities(
            found@,
        ).contains(identity_of(list@[i]@, filter.config@)->0),
        0 <= a < b < found@.len() ==> found@[a]@ != found@[b]@,
{
    let views = candidates(list@);
    let movies = offered(views, filter.config@);
    movies_are_looked_up_once(views, filter.config@);
    assert(identities(found@).len() == found@.len());
    if 0 <= i < list@.len() {
        assert(views[i] == list@[i]@);
        lemma_offered(views, filter.config@, i);
    }
    if 0 <= a < b < found@.len() {
        assert(movies[a] == found@[a]@ && movies[b] == found@[b]@);
    }
}

proof fn lemma_offered(list: Seq<CandidateView>, config: ConfigView, i: int)
    requires
        0 <= i < list.len(),
    ensures
        identity_of(list[i], config) is Some ==> offered(list, config).contains(
            identity_of(list[i], config)->0,
        ),
    decreases list.len(),
{
    let front = list.drop_last();
    assert(front.push(list.last()) =~= list);
    movies_come_in_the_order_of_the_candidates(front, list.last(), config);
    if identity_of(list[i], config) is Some {
        let movie = identity_of(list[i], config)->0;
        let before = offered(front, config);
        if i < front.len() {
            lemma_offered(front, config, i);
            assert(front[i] == list[i]);
            let k = choose|k: int| 0 <= k < before.len() && before[k] == movie;
            assert(offered(list, config)[k] == movie);
        } else if !before.contains(movie) {
            assert(offered(list, config)[before.len() as int] == movie);
        }
    }
}

} // verus!
