//! Looking up the IMDb rating of a movie.

use vstd::prelude::*;

use crate::binary64::{finite_value, lemma_ten, parse_finite, two, Binary64};
use crate::feed::{normalise_name, normalised};
use crate::filter::{IdentityView, MovieIdentity, TEN_BITS};
use crate::json::{jsons, Json, JsonView};
use crate::links::{extend_url, extended_url, ADDRESS_LIMIT};
use crate::models::optional;
use crate::number::{signed_decimal, write_signed_decimal};
use crate::text::{
    append_text, begins_with, chars_of, extend, lowered, same_ignoring_case, same_strings, space,
    string_of,
};

verus! {

/// Where titles are looked up.
pub const IMDB_SUGGESTION_BASE: &'static str = "https://v3.sg.media-imdb.com/suggestion/x";

/// Where ratings are looked up.
pub const CINEMETA_MOVIE_BASE: &'static str = "https://v3-cinemeta.strem.io/meta/movie";

/// The document that holds the suggestions for a movie.
pub open spec fn suggestion_document(identity: IdentityView) -> Seq<char> {
    identity.title + space() + signed_decimal(identity.year as int) + ".json"@
}

/// The document that holds the rating of a movie.
pub open spec fn rating_document(imdb_id: Seq<char>) -> Seq<char> {
    imdb_id + ".json"@
}

/// The address at which a movie is looked up by its title and year.
pub fn suggestion_url(identity: &MovieIdentity) -> (url: Option<String>)
    requires
        IMDB_SUGGESTION_BASE@.len() + suggestion_document(identity@).len() <= ADDRESS_LIMIT,
    ensures
        optional(url) == extended_url(IMDB_SUGGESTION_BASE@, suggestion_document(identity@)),
{
    let mut document = chars_of(identity.title.as_str());
    document.push(' ');
    let year = write_signed_decimal(identity.year as i64);
    extend(&mut document, &year);
    append_text(&mut document, ".json");
    assert(document@ =~= suggestion_document(identity@));
    let document = string_of(&document);
    extend_url(IMDB_SUGGESTION_BASE, document.as_str())
}

/// The address at which the rating of a movie is looked up.
pub fn rating_url(imdb_id: &str) -> (url: Option<String>)
    requires
        CINEMETA_MOVIE_BASE@.len() + rating_document(imdb_id@).len() <= ADDRESS_LIMIT,
    ensures
        optional(url) == extended_url(CINEMETA_MOVIE_BASE@, rating_document(imdb_id@)),
{
    let mut document = chars_of(imdb_id);
    append_text(&mut document, ".json");
    let document = string_of(&document);
    extend_url(CINEMETA_MOVIE_BASE, document.as_str())
}

/// The kind of title that a suggestion is.
pub open spec fn kind_of(suggestion: JsonView) -> Option<Seq<char>> {
    match suggestion.member("qid"@).text() {
        Some(kind) => Some(kind),
        None => suggestion.member("q"@).text(),
    }
}

/// A suggestion that is a movie of that very title, up to ASCII case, and of that year.
pub open spec fn suggests(suggestion: JsonView, identity: IdentityView) -> bool {
    &&& suggestion.member("id"@).text() matches Some(id)
    &&& suggestion.member("l"@).text() matches Some(title)
    &&& suggestion.member("y"@).integer() matches Some(year)
    &&& "tt"@.is_prefix_of(id)
    &&& year == identity.year
    &&& kind_of(suggestion) == Some("movie"@) || kind_of(suggestion) == Some("feature"@)
    &&& lowered(normalised(title)) == lowered(identity.title)
}

/// The IMDb id of the first suggestion that is the movie.
pub open spec fn first_suggested(list: Seq<JsonView>, identity: IdentityView) -> Option<Seq<char>>
    decreases list.len(),
{
    if list.len() == 0 {
        None
    } else if suggests(list[0], identity) {
        list[0].member("id"@).text()
    } else {
        first_suggested(list.drop_first(), identity)
    }
}

/// The IMDb id that a document of suggestions gives for a movie.
pub open spec fn suggested_id(payload: JsonView, identity: IdentityView) -> Option<Seq<char>> {
    match payload.member("d"@).list() {
        Some(list) => first_suggested(list, identity),
        None => None,
    }
}

fn read_suggestion(suggestion: &Json, identity: &MovieIdentity) -> (id: Option<String>)
    ensures
        match id {
            Some(id) => suggests(suggestion@, identity@) && suggestion@.member("id"@).text()
                == Some(id@),
            None => !suggests(suggestion@, identity@),
        },
{
    let id = match suggestion.text_of("id") {
        Some(id) => id,
        None => {
            return None;
        },
    };
    let title = match suggestion.text_of("l") {
        Some(title) => title,
        None => {
            return None;
        },
    };
    let year: i64 = match suggestion.integer_of("y") {
        Some(year) => year,
        None => {
            return None;
        },
    };
    let kind = match suggestion.text_of("qid") {
        Some(kind) => kind,
        None => match suggestion.text_of("q") {
            Some(kind) => kind,
            None => {
                return None;
            },
        },
    };
    let id_chars = chars_of(id.as_str());
    let title = normalise_name(title.as_str());
    let title = chars_of(title.as_str());
    let wanted = chars_of(identity.title.as_str());
    if begins_with(&id_chars, "tt") && year == identity.year as i64 && (same_strings(
        kind.as_str(),
        "movie",
    ) || same_strings(kind.as_str(), "feature")) && same_ignoring_case(&title, &wanted) {
        Some(id.clone())
    } else {
        None
    }
}

/// The IMDb id of the first suggestion that is a movie of exactly the title and year asked for.
pub fn find_exact_imdb_movie(payload: &Json, identity: &MovieIdentity) -> (id: Option<String>)
    ensures
        optional(id) == suggested_id(payload@, identity@),
{
    let suggestions = match payload.find("d") {
        Some(suggestions) => suggestions,
        None => {
            return None;
        },
    };
    let list = match suggestions.as_list() {
        Some(list) => list,
        None => {
            return None;
        },
    };
    let ghost all = jsons(list@);
    let mut i: usize = 0;
    assert(all.skip(0) == all);
    while i < list.len()
        invariant
            i <= list@.len(),
            all == jsons(list@),
            payload@.member("d"@).list() == Some(all),
            first_suggested(all, identity@) == first_suggested(all.skip(i as int), identity@),
        decreases list@.len() - i,
    {
        assert(all.skip(i as int)[0] == list@[i as int]@);
        assert(all.skip(i as int).drop_first() == all.skip(i + 1));
        match read_suggestion(&list[i], identity) {
            Some(id) => {
                return Some(id);
            },
            None => {},
        }
        i += 1;
    }
    assert(all.skip(i as int).len() == 0);
    None
}

/// A score from zero to ten.
pub open spec fn is_score(score: Binary64) -> bool {
    score.is_finite() && 0 <= score.value() <= (Binary64 { bits: TEN_BITS }).value()
}

/// The score that a text denotes.
pub open spec fn score_in(text: Seq<char>) -> Option<Binary64> {
    match finite_value(text) {
        Some(score) if is_score(score) => Some(score),
        _ => None,
    }
}

/// The IMDb score that a document of metadata gives.
pub open spec fn rating_in(payload: JsonView) -> Option<Binary64> {
    match payload.member("meta"@).member("imdbRating"@).text() {
        Some(text) => score_in(text),
        None => None,
    }
}

/// The IMDb score that a document of metadata gives, when it is one from zero to ten.
pub fn parse_imdb_rating(payload: &Json) -> (score: Option<Binary64>)
    ensures
        score == rating_in(payload@),
        score is Some ==> is_score(score->0),
{
    let meta = match payload.find("meta") {
        Some(meta) => meta,
        None => {
            return None;
        },
    };
    let text = match meta.text_of("imdbRating") {
        Some(text) => chars_of(text.as_str()),
        None => {
            return None;
        },
    };
    match parse_finite(&text) {
        Some(score) => {
            let zero = Binary64 { bits: 0 };
            let ten = Binary64 { bits: TEN_BITS };
            assert(zero.units() == 0);
            if zero.greater(score) || score.greater(ten) {
                None
            } else {
                Some(score)
            }
        },
        None => None,
    }
}

/// A movie with its IMDb id and score.
#[derive(Debug)]
pub struct RatedMovie {
    pub imdb_id: String,
    pub score: Binary64,
}

/// What looking up a movie came to.
#[derive(Debug)]
pub enum RatingLookup {
    /// It was found with a score, or is not to be found.
    Resolved(Option<RatedMovie>),
    /// It could not be looked up, for the reason given.
    Failed(String),
}

/// What a [`RatingLookup`] says: the IMDb id and score, if they were found, or the reason.
pub enum LookupView {
    Resolved(Option<(Seq<char>, Binary64)>),
    Failed(Seq<char>),
}

impl View for RatingLookup {
    type V = LookupView;

    open spec fn view(&self) -> LookupView {
        match *self {
            RatingLookup::Resolved(Some(movie)) => LookupView::Resolved(
                Some((movie.imdb_id@, movie.score)),
            ),
            RatingLookup::Resolved(None) => LookupView::Resolved(None),
            RatingLookup::Failed(reason) => LookupView::Failed(reason@),
        }
    }
}

/// Several lookups at once.
pub open spec fn lookups(list: Seq<RatingLookup>) -> Seq<LookupView> {
    Seq::new(list.len(), |i: int| list[i]@)
}

/// What a lookup came to in which nothing failed: a movie needs both an id and a score.
pub fn imdb_score(imdb_id: Option<String>, score: Option<Binary64>) -> (lookup: RatingLookup)
    ensures
        lookup@ == LookupView::Resolved(
            match (optional(imdb_id), score) {
                (Some(id), Some(score)) => Some((id, score)),
                _ => None,
            },
        ),
{
    match (imdb_id, score) {
        (Some(imdb_id), Some(score)) => RatingLookup::Resolved(Some(RatedMovie { imdb_id, score })),
        _ => RatingLookup::Resolved(None),
    }
}

// ---------------------------------------------------------------------------
// Laws
// ---------------------------------------------------------------------------

/// A suggestion is the movie exactly where its member `id` is a text that begins with `tt`, its
/// member `l` is the title, up to ASCII case and what normalizing takes away, its member `y` is
/// the year, and its member `qid`, or `q` where that is no text, is `movie` or `feature`.
pub proof fn suggestions_match_in_every_member(suggestion: JsonView, identity: IdentityView)
    ensures
        suggests(suggestion, identity) <==> {
            &&& suggestion.member("id"@) is Text
            &&& suggestion.member("id"@)->Text_0.len() >= 2
            &&& suggestion.member("id"@)->Text_0[0] == 't'
            &&& suggestion.member("id"@)->Text_0[1] == 't'
            &&& suggestion.member("l"@) is Text
            &&& lowered(normalised(suggestion.member("l"@)->Text_0)) == lowered(identity.title)
            &&& suggestion.member("y"@) == JsonView::Integer(identity.year as i64)
            &&& (suggestion.member("qid"@) is Text && (suggestion.member("qid"@)->Text_0
                == "movie"@ || suggestion.member("qid"@)->Text_0 == "feature"@)) || (!(
            suggestion.member("qid"@) is Text) && suggestion.member("q"@) is Text && (
            suggestion.member("q"@)->Text_0 == "movie"@ || suggestion.member("q"@)->Text_0
                == "feature"@))
        },
{
    reveal_strlit("tt");
    if suggestion.member("id"@) is Text {
        let id = suggestion.member("id"@)->Text_0;
        if "tt"@.is_prefix_of(id) {
            assert(id.take(2)[0] == "tt"@[0] && id.take(2)[1] == "tt"@[1]);
        }
        if id.len() >= 2 && id[0] == 't' && id[1] == 't' {
            assert(id.take(2) =~= "tt"@);
        }
    }
}

/// A suggestion of the year and title asked for.
pub open spec fn is_of_that_year_and_title(suggestion: JsonView, identity: IdentityView) -> bool {
    suggestion.member("y"@) == JsonView::Integer(identity.year as i64) && suggestion.member(
        "l"@,
    ) is Text && lowered(normalised(suggestion.member("l"@)->Text_0)) == lowered(identity.title)
}

/// Where a movie is found, the id is that of a suggestion in the list `d` whose year is the one
/// asked for and whose title is, up to ASCII case and what normalizing takes away; and no
/// suggestion before it matches.
pub proof fn found_movies_are_of_that_very_year_and_title(
    payload: JsonView,
    identity: IdentityView,
) -> (place: int)
    requires
        suggested_id(payload, identity) is Some,
    ensures
        payload.member("d"@) is List,
        0 <= place < payload.member("d"@)->List_0.len(),
        payload.member("d"@)->List_0[place].member("id"@) == JsonView::Text(
            suggested_id(payload, identity)->0,
        ),
        is_of_that_year_and_title(payload.member("d"@)->List_0[place], identity),
        suggests(payload.member("d"@)->List_0[place], identity),
        forall|i: int|
            0 <= i < place ==> !suggests(#[trigger] payload.member("d"@)->List_0[i], identity),
{
    lemma_first_suggested(payload.member("d"@)->List_0, identity)
}

proof fn lemma_first_suggested(list: Seq<JsonView>, identity: IdentityView) -> (place: int)
    requires
        first_suggested(list, identity) is Some,
    ensures
        0 <= place < list.len(),
        list[place].member("id"@) == JsonView::Text(first_suggested(list, identity)->0),
        is_of_that_year_and_title(list[place], identity),
        suggests(list[place], identity),
        forall|i: int| 0 <= i < place ==> !suggests(#[trigger] list[i], identity),
    decreases list.len(),
{
    if suggests(list[0], identity) {
        suggestions_match_in_every_member(list[0], identity);
        0
    } else {
        let rest = list.drop_first();
        let place = lemma_first_suggested(rest, identity);
        assert forall|i: int| 0 <= i < place + 1 implies !suggests(
            #[trigger] list[i],
            identity,
        ) by {
            if i > 0 {
                assert(rest[i - 1] == list[i]);
            }
        }
        place + 1
    }
}

/// A movie is found wherever a suggestion in the list `d` matches, and its id is that of the
/// first one.
pub proof fn suggested_movies_are_found(payload: JsonView, identity: IdentityView, place: int)
    requires
        payload.member("d"@) is List,
        0 <= place < payload.member("d"@)->List_0.len(),
        suggests(payload.member("d"@)->List_0[place], identity),
        forall|i: int|
            0 <= i < place ==> !suggests(#[trigger] payload.member("d"@)->List_0[i], identity),
    ensures
        suggested_id(payload, identity) is Some,
        payload.member("d"@)->List_0[place].member("id"@) == JsonView::Text(
            suggested_id(payload, identity)->0,
        ),
{
    lemma_suggested(payload.member("d"@)->List_0, identity, place);
}

proof fn lemma_suggested(list: Seq<JsonView>, identity: IdentityView, place: int)
    requires
        0 <= place < list.len(),
        suggests(list[place], identity),
        forall|i: int| 0 <= i < place ==> !suggests(#[trigger] list[i], identity),
    ensures
        first_suggested(list, identity) is Some,
        list[place].member("id"@) == JsonView::Text(first_suggested(list, identity)->0),
    decreases list.len(),
{
    if place == 0 {
        suggestions_match_in_every_member(list[0], identity);
    } else {
        assert(!suggests(list[0], identity));
        let rest = list.drop_first();
        assert forall|i: int| 0 <= i < place - 1 implies !suggests(
            #[trigger] rest[i],
            identity,
        ) by {
            assert(rest[i] == list[i + 1]);
        }
        lemma_suggested(rest, identity, place - 1);
    }
}

/// A document gives a score exactly where the member `imdbRating` of its member `meta` is a text
/// in decimal notation, and the number lies between zero and ten; the score is that number.
pub proof fn scores_are_texts_from_zero_to_ten(payload: JsonView)
    ensures
        rating_in(payload) is Some ==> {
            &&& payload.member("meta"@).member("imdbRating"@) is Text
            &&& finite_value(payload.member("meta"@).member("imdbRating"@)->Text_0) == rating_in(
                payload,
            )
            &&& rating_in(payload)->0.is_finite()
            &&& 0 <= rating_in(payload)->0.value() <= 10 * two(1074)
        },
        payload.member("meta"@).member("imdbRating"@) is Text && ({
            let score = finite_value(payload.member("meta"@).member("imdbRating"@)->Text_0);
            score is Some && score->0.is_finite() && 0 <= score->0.value() <= 10 * two(1074)
        }) ==> rating_in(payload) is Some,
{
    lemma_ten();
}

/// Movies are looked up by their title and year, and ratings by their IMDb id, in documents of
/// JSON.
pub proof fn documents_are_called_by_what_is_looked_up(identity: IdentityView, imdb_id: Seq<char>)
    ensures
        suggestion_document(identity) == identity.title + " "@ + signed_decimal(
            identity.year as int,
        ) + ".json"@,
        rating_document(imdb_id) == imdb_id + ".json"@,
        IMDB_SUGGESTION_BASE@ == "https://v3.sg.media-imdb.com/suggestion/x"@,
        CINEMETA_MOVIE_BASE@ == "https://v3-cinemeta.strem.io/meta/movie"@,
{
    reveal_strlit(" ");
    assert(space() =~= " "@);
}

/// The movie that is found has the id of a suggestion in the list `d` whose member `y` is the year
/// asked for and whose member `l` is the title, up to ASCII case and what normalizing takes away;
/// and where nothing is found, no suggestion is of that movie.
pub proof fn the_movie_that_is_found_is_of_that_year(
    payload: &Json,
    identity: &MovieIdentity,
    id: Option<String>,
)
    requires
        call_ensures(find_exact_imdb_movie, (payload, identity), id),
    ensures
        id is Some ==> payload@.member("d"@) is List && exists|i: int|
            0 <= i < payload@.member("d"@)->List_0.len() && {
                let suggestion = #[trigger] payload@.member("d"@)->List_0[i];
                &&& suggestion.member("id"@) == JsonView::Text(id->0@)
                &&& suggestion.member("y"@) == JsonView::Integer(identity.year as i64)
                &&& suggestion.member("l"@) is Text
                &&& lowered(normalised(suggestion.member("l"@)->Text_0)) == lowered(
                    identity.title@,
                )
            },
        id is None && payload@.member("d"@) is List ==> forall|i: int|
            0 <= i < payload@.member("d"@)->List_0.len() ==> !suggests(
                #[trigger] payload@.member("d"@)->List_0[i],
                identity@,
            ),
{
    if id is Some {
        let place = found_movies_are_of_that_very_year_and_title(payload@, identity@);
        let suggestion = payload@.member("d"@)->List_0[place];
        assert(suggestion.member("id"@) == JsonView::Text(id->0@));
    } else if payload@.member("d"@) is List {
        lemma_nothing_suggested(payload@.member("d"@)->List_0, identity@);
    }
}

proof fn lemma_nothing_suggested(list: Seq<JsonView>, identity: IdentityView)
    requires
        first_suggested(list, identity) is None,
    ensures
        forall|i: int| 0 <= i < list.len() ==> !suggests(#[trigger] list[i], identity),
    decreases list.len(),
{
    if list.len() > 0 {
        if suggests(list[0], identity) {
            suggestions_match_in_every_member(list[0], identity);
        }
        let rest = list.drop_first();
        lemma_nothing_suggested(rest, identity);
        assert forall|i: int| 0 <= i < list.len() implies !suggests(
            #[trigger] list[i],
            identity,
        ) by {
            if i > 0 {
                assert(rest[i - 1] == list[i]);
            }
        }
    }
}

/// A movie is looked up at the address of the suggestions, extended by its title and year, and its
/// rating at that of the metadata, extended by its IMDb id; both are documents of JSON.
pub proof fn lookups_go_to_the_documents_of_the_movie(
    identity: &MovieIdentity,
    suggestions: Option<String>,
    imdb_id: &str,
    rating: Option<String>,
)
    requires
        call_ensures(suggestion_url, (identity,), suggestions),
        call_ensures(rating_url, (imdb_id,), rating),
    ensures
        optional(suggestions) == extended_url(
            "https://v3.sg.media-imdb.com/suggestion/x"@,
            identity.title@ + " "@ + signed_decimal(identity.year as int) + ".json"@,
        ),
        optional(rating) == extended_url(
            "https://v3-cinemeta.strem.io/meta/movie"@,
            imdb_id@ + ".json"@,
        ),
{
    documents_are_called_by_what_is_looked_up(identity@, imdb_id@);
}

/// A lookup in which nothing failed comes to a movie exactly where both an id and a score were
/// found, and it is of that id and score.
pub proof fn lookups_need_id_and_score(
    imdb_id: Option<String>,
    score: Option<Binary64>,
    lookup: RatingLookup,
)
    requires
        call_ensures(imdb_score, (imdb_id, score), lookup),
    ensures
        lookup is Resolved,
        lookup->Resolved_0 is Some <==> imdb_id is Some && score is Some,
        lookup->Resolved_0 is Some ==> lookup->Resolved_0->0.imdb_id@ == imdb_id->0@
            && lookup->Resolved_0->0.score == score->0,
{
}

/// The score read from a document is the number that the member `imdbRating` of its member `meta`
/// denotes as a text, and none where that lies outside of zero to ten.
pub proof fn ratings_are_read_from_the_metadata(payload: &Json, score: Option<Binary64>)
    requires
        call_ensures(parse_imdb_rating, (payload,), score),
    ensures
        ({
            let said = payload@.member("meta"@).member("imdbRating"@);
            let number = finite_value(said->Text_0);
            &&& score is Some ==> said is Text && number == score && score->0.is_finite() && 0
                <= score->0.value() <= 10 * two(1074)
            &&& said is Text && number is Some && number->0.is_finite() && 0 <= number->0.value()
                <= 10 * two(1074) ==> score is Some
        }),
{
    scores_are_texts_from_zero_to_ten(payload@);
}

} // verus!
