//! The table of remembered releases: what is recorded, what is pending, and how older tables
//! are brought up to date.

use vstd::prelude::*;

use crate::binary64::Binary64;
use crate::feed::{lemma_words_of_normalised, normalise_name, normalised};
use crate::filter::{
    first_year, identity_in, key_of, lemma_first_year, lemma_first_year_is_found, IdentityView,
};
use crate::models::{
    copy_optional, optional, releases, Release, ReleaseView, StoredRelease, StoredView,
};
use crate::number::{
    decimal, i32_value, parse_i32, signed_decimal, write_decimal, write_signed_decimal,
};
use crate::order::{
    comes_before, is_strict, lemma_place_exists, lemma_sorted_inserted, lemma_sorted_is_unique,
    lemma_text_order, sorted_by, text_before,
};
use crate::text::{
    append_text, chars_of, extend, is_run, join_first, joined, lemma_runs_are_runs,
    lemma_runs_of_joined, lower_chars, lowered, runs, same, same_strings, space, split_words,
    string_of, strings, texts, words, CharClass,
};

verus! {

// ---------------------------------------------------------------------------
// Rows
// ---------------------------------------------------------------------------

/// A row of the table, as the database holds it: all but the name may be missing.
#[derive(Debug, PartialEq)]
pub struct StoredRow {
    pub name: String,
    pub url: Option<String>,
    pub movie_key: Option<String>,
    pub imdb_id: Option<String>,
    pub imdb_rating: Option<Binary64>,
    pub first_seen_at: Option<String>,
    pub status: Option<String>,
    pub queued_at: Option<String>,
    pub attempts: Option<i64>,
    pub last_error: Option<String>,
}

/// What a [`StoredRow`] says.
#[verifier::ext_equal]
pub struct RowView {
    pub name: Seq<char>,
    pub url: Option<Seq<char>>,
    pub movie_key: Option<Seq<char>>,
    pub imdb_id: Option<Seq<char>>,
    pub imdb_rating: Option<Binary64>,
    pub first_seen_at: Option<Seq<char>>,
    pub status: Option<Seq<char>>,
    pub queued_at: Option<Seq<char>>,
    pub attempts: Option<i64>,
    pub last_error: Option<Seq<char>>,
}

impl View for StoredRow {
    type V = RowView;

    open spec fn view(&self) -> RowView {
        RowView {
            name: self.name@,
            url: optional(self.url),
            movie_key: optional(self.movie_key),
            imdb_id: optional(self.imdb_id),
            imdb_rating: self.imdb_rating,
            first_seen_at: optional(self.first_seen_at),
            status: optional(self.status),
            queued_at: optional(self.queued_at),
            attempts: self.attempts,
            last_error: optional(self.last_error),
        }
    }
}

impl Clone for StoredRow {
    fn clone(&self) -> (copy: Self)
        ensures
            copy@ == self@,
    {
        StoredRow {
            name: self.name.clone(),
            url: copy_optional(&self.url),
            movie_key: copy_optional(&self.movie_key),
            imdb_id: copy_optional(&self.imdb_id),
            imdb_rating: self.imdb_rating,
            first_seen_at: copy_optional(&self.first_seen_at),
            status: copy_optional(&self.status),
            queued_at: copy_optional(&self.queued_at),
            attempts: self.attempts,
            last_error: copy_optional(&self.last_error),
        }
    }
}

/// Several rows at once.
pub open spec fn table_of(list: Seq<StoredRow>) -> Seq<RowView> {
    Seq::new(list.len(), |i: int| list[i]@)
}

/// What the definition of a table asks of new rows and puts into them.
#[derive(Clone, Copy, Debug, PartialEq, Eq, Structural)]
pub struct Schema {
    /// A name may stand in the table once.
    pub unique_names: bool,
    /// A rating may not be missing.
    pub rating_required: bool,
    /// A new row gets the time it was first seen at.
    pub dates_rows: bool,
    /// A new row gets a count of attempts.
    pub counts_attempts: bool,
}

/// The definition of a table that is created anew.
pub fn new_schema() -> (schema: Schema)
    ensures
        schema == (Schema {
            unique_names: true,
            rating_required: true,
            dates_rows: true,
            counts_attempts: true,
        }),
{
    Schema { unique_names: true, rating_required: true, dates_rows: true, counts_attempts: true }
}

/// A text, or nothing where it is missing.
pub open spec fn shown(text: Option<Seq<char>>) -> Seq<char> {
    match text {
        Some(text) => text,
        None => seq![],
    }
}

fn text_or_nothing(text: &Option<String>) -> (chosen: String)
    ensures
        chosen@ == shown(optional(*text)),
{
    match text {
        Some(text) => text.clone(),
        None => String::new(),
    }
}

// ---------------------------------------------------------------------------
// Older tables
// ---------------------------------------------------------------------------

/// The years that a name may tell.
pub open spec fn plausible_years() -> Set<i32> {
    Set::new(|year: i32| 1900 <= year <= 2100)
}

/// The key of the movie that a release name seems to tell: what stands before the first
/// plausible year behind the first word, in small letters, and that year.
pub open spec fn inferred_key(name: Seq<char>) -> Option<Seq<char>> {
    let list = words(normalised(name));
    match first_year(list, plausible_years(), 1) {
        Some((place, year)) => Some(
            lowered(joined(list.take(place), space())) + space() + signed_decimal(year as int),
        ),
        None => None,
    }
}

/// The key of the movie that a release name seems to tell.
pub fn inferred_movie_key(name: &str) -> (key: Option<String>)
    ensures
        optional(key) == inferred_key(name@),
{
    let normal = normalise_name(name);
    let list = split_words(normal.as_str());
    let mut i: usize = 1;
    while i < list.len()
        invariant
            1 <= i,
            texts(list@) == words(normalised(name@)),
            first_year(texts(list@), plausible_years(), 1) == first_year(
                texts(list@),
                plausible_years(),
                i as int,
            ),
        decreases list@.len() - i,
    {
        match parse_i32(&list[i]) {
            Some(year) => {
                if 1900 <= year && year <= 2100 {
                    assert(plausible_years().contains(year));
                    let front = join_first(&list, i);
                    let mut whole = lower_chars(&front);
                    whole.push(' ');
                    let digits = write_signed_decimal(year as i64);
                    extend(&mut whole, &digits);
                    assert(whole@ =~= lowered(
                        joined(words(normalised(name@)).take(i as int), space()),
                    ) + space() + signed_decimal(year as int));
                    return Some(string_of(&whole));
                }
            },
            None => {},
        }
        i += 1;
    }
    None
}

/// A text, or another where it is missing.
pub open spec fn or_else(text: Option<Seq<char>>, other: Seq<char>) -> Seq<char> {
    match text {
        Some(text) => text,
        None => other,
    }
}

fn text_or(text: &Option<String>, other: &str) -> (chosen: String)
    ensures
        chosen@ == or_else(optional(*text), other@),
{
    match text {
        Some(text) => text.clone(),
        None => other.to_owned(),
    }
}

/// The row with what it lacked put in: an unknown status means that the release was queued
/// before, and a missing key is inferred from the name.
pub open spec fn migrated(row: RowView, now: Seq<char>) -> RowView {
    RowView {
        movie_key: if shown(row.movie_key).len() == 0 && inferred_key(row.name) is Some {
            inferred_key(row.name)
        } else {
            row.movie_key
        },
        first_seen_at: Some(or_else(row.first_seen_at, now)),
        status: Some(or_else(row.status, "queued"@)),
        attempts: match row.attempts {
            Some(attempts) => Some(attempts),
            None => Some(0),
        },
        ..row
    }
}

/// Puts in what a row lacks.
pub fn migrate_row(row: &StoredRow, now: &str) -> (new: StoredRow)
    ensures
        new@ == migrated(row@, now@),
{
    let keyed = match &row.movie_key {
        Some(key) => !key.as_str().is_empty(),
        None => false,
    };
    let movie_key = if keyed {
        copy_optional(&row.movie_key)
    } else {
        match inferred_movie_key(row.name.as_str()) {
            Some(key) => Some(key),
            None => copy_optional(&row.movie_key),
        }
    };
    let attempts: i64 = match row.attempts {
        Some(attempts) => attempts,
        None => 0,
    };
    let mut new = row.clone();
    new.movie_key = movie_key;
    new.first_seen_at = Some(text_or(&row.first_seen_at, now));
    new.status = Some(text_or(&row.status, "queued"));
    new.attempts = Some(attempts);
    assert(new@ =~= migrated(row@, now@));
    new
}

/// The statement that adds a column.
pub open spec fn column_statement(name: Seq<char>, definition: Seq<char>) -> Seq<char> {
    "ALTER TABLE movies ADD COLUMN "@ + name + space() + definition
}

/// The statements, with one more for a column that is not there.
pub open spec fn with_column(
    statements: Seq<Seq<char>>,
    columns: Seq<Seq<char>>,
    name: Seq<char>,
    definition: Seq<char>,
) -> Seq<Seq<char>> {
    if columns.contains(name) {
        statements
    } else {
        statements.push(column_statement(name, definition))
    }
}

/// The statements that add the missing ones of the columns that later versions brought.
pub open spec fn column_statements(columns: Seq<Seq<char>>) -> Seq<Seq<char>> {
    let s = with_column(seq![], columns, "first_seen_at"@, "TEXT"@);
    let s = with_column(s, columns, "status"@, "TEXT"@);
    let s = with_column(s, columns, "queued_at"@, "TEXT"@);
    let s = with_column(s, columns, "attempts"@, "INTEGER"@);
    let s = with_column(s, columns, "last_error"@, "TEXT"@);
    let s = with_column(s, columns, "movie_key"@, "TEXT"@);
    let s = with_column(s, columns, "imdb_id"@, "TEXT"@);
    with_column(s, columns, "imdb_rating"@, "REAL"@)
}

fn has_column(columns: &Vec<String>, name: &str) -> (found: bool)
    ensures
        found == strings(columns@).contains(name@),
{
    let mut i: usize = 0;
    while i < columns.len()
        invariant
            i <= columns@.len(),
            forall|j: int| 0 <= j < i ==> #[trigger] strings(columns@)[j] != name@,
        decreases columns@.len() - i,
    {
        if same_strings(columns[i].as_str(), name) {
            assert(strings(columns@)[i as int] == name@);
            return true;
        }
        i += 1;
    }
    false
}

fn add_column(
    statements: &mut Vec<String>,
    columns: &Vec<String>,
    name: &str,
    definition: &str,
)
    ensures
        strings(final(statements)@) == with_column(
            strings(old(statements)@),
            strings(columns@),
            name@,
            definition@,
        ),
{
    if !has_column(columns, name) {
        let mut whole = chars_of("ALTER TABLE movies ADD COLUMN ");
        append_text(&mut whole, name);
        whole.push(' ');
        append_text(&mut whole, definition);
        assert(whole@ =~= column_statement(name@, definition@));
        let ghost front = strings(statements@);
        statements.push(string_of(&whole));
        assert(strings(statements@) =~= front.push(whole@));
    }
}

/// The statements that bring a table with the given columns up to date.
pub fn missing_columns(columns: &Vec<String>) -> (statements: Vec<String>)
    ensures
        strings(statements@) == column_statements(strings(columns@)),
{
    let mut statements: Vec<String> = Vec::new();
    assert(strings(statements@) =~= seq![]);
    add_column(&mut statements, columns, "first_seen_at", "TEXT");
    add_column(&mut statements, columns, "status", "TEXT");
    add_column(&mut statements, columns, "queued_at", "TEXT");
    add_column(&mut statements, columns, "attempts", "INTEGER");
    add_column(&mut statements, columns, "last_error", "TEXT");
    add_column(&mut statements, columns, "movie_key", "TEXT");
    add_column(&mut statements, columns, "imdb_id", "TEXT");
    add_column(&mut statements, columns, "imdb_rating", "REAL");
    statements
}

/// Several rows with what they lacked put in.
pub open spec fn migrated_rows(rows: Seq<RowView>, now: Seq<char>) -> Seq<RowView> {
    Seq::new(rows.len(), |i: int| migrated(rows[i], now))
}

/// Brings the rows of an older table up to date. Releases that it knew count as queued, so they
/// are not queued again.
pub fn migrate_legacy_database(rows: &Vec<StoredRow>, now: &str) -> (table: Vec<StoredRow>)
    ensures
        table_of(table@) == migrated_rows(table_of(rows@), now@),
{
    let ghost all = migrated_rows(table_of(rows@), now@);
    let mut table: Vec<StoredRow> = Vec::new();
    let mut i: usize = 0;
    while i < rows.len()
        invariant
            i <= rows@.len(),
            all == migrated_rows(table_of(rows@), now@),
            table_of(table@) == all.take(i as int),
        decreases rows@.len() - i,
    {
        let ghost front = table_of(table@);
        let row = migrate_row(&rows[i], now);
        table.push(row);
        assert(table_of(table@) =~= front.push(row@));
        assert(all.take(i + 1) =~= front.push(row@));
        i += 1;
    }
    assert(all.take(rows@.len() as int) =~= all);
    table
}

proof fn lemma_inferred_key_is_not_empty(name: Seq<char>)
    ensures
        inferred_key(name) is Some ==> inferred_key(name)->0.len() > 0,
{
}

/// Bringing a table up to date that is so already, now or later, changes nothing.
pub proof fn migrating_twice_is_migrating_once(
    rows: Seq<RowView>,
    now: Seq<char>,
    later: Seq<char>,
)
    ensures
        migrated_rows(migrated_rows(rows, now), later) == migrated_rows(rows, now),
{
    let once = migrated_rows(rows, now);
    assert forall|i: int| 0 <= i < rows.len() implies migrated(#[trigger] once[i], later)
        == once[i] by {
        lemma_inferred_key_is_not_empty(rows[i].name);
        assert(once[i] == migrated(rows[i], now));
    }
    assert(migrated_rows(once, later) =~= once);
}

// ---------------------------------------------------------------------------
// Recording
// ---------------------------------------------------------------------------

/// The row is of the movie that the release is of, by key or by IMDb id.
pub open spec fn same_movie(row: RowView, release: ReleaseView) -> bool {
    row.movie_key == Some(release.movie_key) || row.imdb_id == Some(release.imdb_id)
}

/// The row keeps the release out: it is of the same movie, or has a name that may stand in the
/// table once.
pub open spec fn keeps_out(row: RowView, release: ReleaseView, schema: Schema) -> bool {
    same_movie(row, release) || (schema.unique_names && row.name == release.name)
}

/// The release is not taken into the table: a row keeps it out, or it lacks a rating that may
/// not be missing.
pub open spec fn is_kept_out(table: Seq<RowView>, release: ReleaseView, schema: Schema) -> bool {
    (schema.rating_required && release.imdb_rating.is_nan()) || exists|i: int|
        0 <= i < table.len() && keeps_out(#[trigger] table[i], release, schema)
}

/// The row of a new release. What is not a number is stored as a missing rating.
pub open spec fn new_row(
    release: ReleaseView,
    status: Seq<char>,
    now: Seq<char>,
    schema: Schema,
) -> RowView {
    RowView {
        name: release.name,
        url: Some(release.url),
        movie_key: Some(release.movie_key),
        imdb_id: Some(release.imdb_id),
        imdb_rating: if release.imdb_rating.is_nan() {
            None
        } else {
            Some(release.imdb_rating)
        },
        first_seen_at: if schema.dates_rows {
            Some(now)
        } else {
            None
        },
        status: Some(status),
        queued_at: None,
        attempts: if schema.counts_attempts {
            Some(0)
        } else {
            None
        },
        last_error: None,
    }
}

/// The table after releases were recorded, one after the other: each unless it is kept out.
pub open spec fn recorded(
    table: Seq<RowView>,
    list: Seq<ReleaseView>,
    status: Seq<char>,
    now: Seq<char>,
    schema: Schema,
) -> Seq<RowView>
    decreases list.len(),
{
    if list.len() == 0 {
        table
    } else {
        let front = recorded(table, list.drop_last(), status, now, schema);
        if is_kept_out(front, list.last(), schema) {
            front
        } else {
            front.push(new_row(list.last(), status, now, schema))
        }
    }
}

fn is_text(text: &Option<String>, other: &str) -> (equal: bool)
    ensures
        equal == (optional(*text) == Some(other@)),
{
    match text {
        Some(text) => same_strings(text.as_str(), other),
        None => false,
    }
}

fn keep_out(table: &Vec<StoredRow>, release: &Release, schema: Schema) -> (found: bool)
    ensures
        found == is_kept_out(table_of(table@), release@, schema),
{
    if schema.rating_required && release.imdb_rating.nan() {
        return true;
    }
    let ghost views = table_of(table@);
    let mut i: usize = 0;
    while i < table.len()
        invariant
            i <= table@.len(),
            views == table_of(table@),
            forall|j: int| 0 <= j < i ==> !keeps_out(#[trigger] views[j], release@, schema),
        decreases table@.len() - i,
    {
        assert(views[i as int] == table@[i as int]@);
        if is_text(&table[i].movie_key, release.movie_key.as_str()) || is_text(
            &table[i].imdb_id,
            release.imdb_id.as_str(),
        ) || (schema.unique_names && same_strings(table[i].name.as_str(), release.name.as_str())) {
            assert(keeps_out(views[i as int], release@, schema));
            return true;
        }
        i += 1;
    }
    false
}

/// Records releases with the given status, each unless it is kept out, and says how many were
/// new.
pub fn record_releases(
    table: &mut Vec<StoredRow>,
    list: &Vec<Release>,
    status: &str,
    now: &str,
    schema: Schema,
) -> (added: usize)
    ensures
        table_of(final(table)@) == recorded(
            table_of(old(table)@),
            releases(list@),
            status@,
            now@,
            schema,
        ),
        added == final(table)@.len() - old(table)@.len(),
{
    let ghost all = releases(list@);
    let ghost begun = table_of(table@);
    let mut added: usize = 0;
    let mut i: usize = 0;
    while i < list.len()
        invariant
            i <= list@.len(),
            all == releases(list@),
            begun == table_of(old(table)@),
            table_of(table@) == recorded(begun, all.take(i as int), status@, now@, schema),
            added <= i,
            added == table@.len() - old(table)@.len(),
        decreases list@.len() - i,
    {
        let ghost next = all.take(i + 1);
        assert(next.drop_last() == all.take(i as int));
        assert(next.last() == list@[i as int]@);
        if !keep_out(table, &list[i], schema) {
            let release = &list[i];
            let row = StoredRow {
                name: release.name.clone(),
                url: Some(release.url.clone()),
                movie_key: Some(release.movie_key.clone()),
                imdb_id: Some(release.imdb_id.clone()),
                imdb_rating: if release.imdb_rating.nan() {
                    None
                } else {
                    Some(release.imdb_rating)
                },
                first_seen_at: if schema.dates_rows {
                    Some(now.to_owned())
                } else {
                    None
                },
                status: Some(status.to_owned()),
                queued_at: None,
                attempts: if schema.counts_attempts {
                    Some(0)
                } else {
                    None
                },
                last_error: None,
            };
            assert(row@ =~= new_row(release@, status@, now@, schema));
            let ghost front = table_of(table@);
            table.push(row);
            assert(table_of(table@) =~= front.push(row@));
            added += 1;
        }
        i += 1;
    }
    assert(all.take(list@.len() as int) == all);
    added
}

/// Recording keeps the rows that were there.
pub proof fn recording_keeps_known_rows(
    table: Seq<RowView>,
    list: Seq<ReleaseView>,
    status: Seq<char>,
    now: Seq<char>,
    schema: Schema,
)
    ensures
        table.is_prefix_of(recorded(table, list, status, now, schema)),
    decreases list.len(),
{
    if list.len() > 0 {
        recording_keeps_known_rows(table, list.drop_last(), status, now, schema);
    }
}

/// After recording, every one of the releases is kept out.
pub proof fn recorded_releases_are_kept_out(
    table: Seq<RowView>,
    list: Seq<ReleaseView>,
    status: Seq<char>,
    now: Seq<char>,
    schema: Schema,
    at: int,
)
    requires
        0 <= at < list.len(),
    ensures
        is_kept_out(recorded(table, list, status, now, schema), list[at], schema),
    decreases list.len(),
{
    let front = recorded(table, list.drop_last(), status, now, schema);
    let whole = recorded(table, list, status, now, schema);
    if !(schema.rating_required && list[at].imdb_rating.is_nan()) {
        if at < list.len() - 1 {
            recorded_releases_are_kept_out(table, list.drop_last(), status, now, schema, at);
            assert(list.drop_last()[at] == list[at]);
            let i = choose|i: int|
                0 <= i < front.len() && keeps_out(#[trigger] front[i], list[at], schema);
            assert(keeps_out(whole[i], list[at], schema));
        } else if !is_kept_out(front, list[at], schema) {
            assert(keeps_out(whole[front.len() as int], list[at], schema));
        }
    }
}

proof fn lemma_recording_nothing(
    table: Seq<RowView>,
    list: Seq<ReleaseView>,
    status: Seq<char>,
    now: Seq<char>,
    schema: Schema,
)
    requires
        forall|i: int| 0 <= i < list.len() ==> is_kept_out(table, #[trigger] list[i], schema),
    ensures
        recorded(table, list, status, now, schema) == table,
    decreases list.len(),
{
    if list.len() > 0 {
        let front = list.drop_last();
        assert forall|i: int| 0 <= i < front.len() implies is_kept_out(
            table,
            #[trigger] front[i],
            schema,
        ) by {
            assert(front[i] == list[i]);
        }
        lemma_recording_nothing(table, front, status, now, schema);
        assert(is_kept_out(table, list[list.len() - 1], schema));
    }
}

/// Recording the same releases again, with whatever status and whenever, adds nothing.
pub proof fn recording_again_adds_nothing(
    table: Seq<RowView>,
    list: Seq<ReleaseView>,
    status: Seq<char>,
    now: Seq<char>,
    later_status: Seq<char>,
    later: Seq<char>,
    schema: Schema,
)
    ensures
        recorded(
            recorded(table, list, status, now, schema),
            list,
            later_status,
            later,
            schema,
        ) == recorded(table, list, status, now, schema),
{
    let whole = recorded(table, list, status, now, schema);
    assert forall|i: int| 0 <= i < list.len() implies is_kept_out(
        whole,
        #[trigger] list[i],
        schema,
    ) by {
        recorded_releases_are_kept_out(table, list, status, now, schema, i);
    }
    lemma_recording_nothing(whole, list, later_status, later, schema);
}

/// What recording adds are rows of the given releases with the given status.
pub proof fn new_rows_stand_for_recorded_releases(
    table: Seq<RowView>,
    list: Seq<ReleaseView>,
    status: Seq<char>,
    now: Seq<char>,
    schema: Schema,
    i: int,
) -> (k: int)
    requires
        table.len() <= i < recorded(table, list, status, now, schema).len(),
    ensures
        0 <= k < list.len(),
        recorded(table, list, status, now, schema)[i] == new_row(list[k], status, now, schema),
    decreases list.len(),
{
    let front = recorded(table, list.drop_last(), status, now, schema);
    if i < front.len() {
        new_rows_stand_for_recorded_releases(table, list.drop_last(), status, now, schema, i)
    } else {
        list.len() - 1
    }
}

/// A release is read back from its row as it was recorded, if its rating is a number.
pub proof fn recorded_releases_are_read_back(
    release: ReleaseView,
    status: Seq<char>,
    now: Seq<char>,
    schema: Schema,
)
    requires
        !release.imdb_rating.is_nan(),
    ensures
        release_of_row(new_row(release, status, now, schema)) == release,
{
}

/// Two releases are of one movie, or of one name.
pub open spec fn clash(left: ReleaseView, right: ReleaseView) -> bool {
    left.movie_key == right.movie_key || left.imdb_id == right.imdb_id || left.name == right.name
}

/// A release that is not kept out, and with which none before it clashes, is recorded.
pub proof fn unknown_releases_are_recorded(
    table: Seq<RowView>,
    list: Seq<ReleaseView>,
    status: Seq<char>,
    now: Seq<char>,
    schema: Schema,
    at: int,
)
    requires
        0 <= at < list.len(),
        !is_kept_out(table, list[at], schema),
        forall|j: int| 0 <= j < at ==> !clash(#[trigger] list[j], list[at]),
    ensures
        recorded(table, list, status, now, schema).contains(
            new_row(list[at], status, now, schema),
        ),
    decreases list.len(),
{
    let short = list.drop_last();
    let front = recorded(table, short, status, now, schema);
    let whole = recorded(table, list, status, now, schema);
    if at < short.len() {
        assert(short[at] == list[at]);
        assert forall|j: int| 0 <= j < at implies !clash(#[trigger] short[j], short[at]) by {
            assert(short[j] == list[j]);
        }
        unknown_releases_are_recorded(table, short, status, now, schema, at);
        let k = choose|k: int|
            0 <= k < front.len() && front[k] == new_row(list[at], status, now, schema);
        assert(whole[k] == front[k]);
    } else {
        recording_keeps_known_rows(table, short, status, now, schema);
        assert forall|i: int| 0 <= i < front.len() implies !keeps_out(
            #[trigger] front[i],
            list[at],
            schema,
        ) by {
            if i < table.len() {
                assert(front[i] == table[i]);
            } else {
                let k = new_rows_stand_for_recorded_releases(
                    table,
                    short,
                    status,
                    now,
                    schema,
                    i,
                );
                assert(short[k] == list[k]);
                assert(!clash(list[k], list[at]));
            }
        }
        assert(whole[front.len() as int] == new_row(list[at], status, now, schema));
    }
}

/// No name stands in the table twice.
pub open spec fn names_differ(table: Seq<RowView>) -> bool {
    forall|i: int, j: int|
        0 <= i < j < table.len() ==> (#[trigger] table[i]).name != (#[trigger] table[j]).name
}

/// Two rows are of one movie, by key or by IMDb id.
pub open spec fn of_one_movie(row: RowView, other: RowView) -> bool {
    (row.movie_key is Some && row.movie_key == other.movie_key) || (row.imdb_id is Some
        && row.imdb_id == other.imdb_id)
}

/// Where a name may stand in the table once, recording keeps the names apart.
pub proof fn recording_keeps_names_apart(
    table: Seq<RowView>,
    list: Seq<ReleaseView>,
    status: Seq<char>,
    now: Seq<char>,
    schema: Schema,
)
    requires
        names_differ(table),
        schema.unique_names,
    ensures
        names_differ(recorded(table, list, status, now, schema)),
    decreases list.len(),
{
    if list.len() > 0 {
        let front = recorded(table, list.drop_last(), status, now, schema);
        let whole = recorded(table, list, status, now, schema);
        recording_keeps_names_apart(table, list.drop_last(), status, now, schema);
        if whole.len() > front.len() {
            assert forall|i: int, j: int| 0 <= i < j < whole.len() implies (
            #[trigger] whole[i]).name != (#[trigger] whole[j]).name by {
                assert(whole[i] == front[i]);
                if j < front.len() {
                    assert(whole[j] == front[j]);
                } else {
                    assert(!keeps_out(front[i], list.last(), schema));
                }
            }
        }
    }
}

/// A row that was added by recording is of a movie of which there is no other row.
pub proof fn recording_adds_one_row_for_each_movie(
    table: Seq<RowView>,
    list: Seq<ReleaseView>,
    status: Seq<char>,
    now: Seq<char>,
    schema: Schema,
    i: int,
    j: int,
)
    requires
        0 <= i < j < recorded(table, list, status, now, schema).len(),
        table.len() <= j,
    ensures
        !of_one_movie(
            recorded(table, list, status, now, schema)[i],
            recorded(table, list, status, now, schema)[j],
        ),
    decreases list.len(),
{
    if list.len() > 0 {
        let front = recorded(table, list.drop_last(), status, now, schema);
        let whole = recorded(table, list, status, now, schema);
        if j < front.len() {
            recording_adds_one_row_for_each_movie(
                table,
                list.drop_last(),
                status,
                now,
                schema,
                i,
                j,
            );
        } else {
            assert(whole[i] == front[i]);
            assert(!keeps_out(front[i], list.last(), schema));
        }
    }
}

/// Of a movie that the table has, be it by IMDb id or by key, no other variant is recorded,
/// whatever it is called.
pub proof fn variants_of_known_movies_are_not_recorded(
    table: Seq<RowView>,
    at: int,
    variant: ReleaseView,
    status: Seq<char>,
    now: Seq<char>,
    schema: Schema,
)
    requires
        0 <= at < table.len(),
        table[at].imdb_id == Some(variant.imdb_id) || table[at].movie_key == Some(
            variant.movie_key,
        ),
    ensures
        recorded(table, seq![variant], status, now, schema) == table,
{
    assert(keeps_out(table[at], variant, schema));
    assert forall|i: int| 0 <= i < 1 implies is_kept_out(
        table,
        #[trigger] seq![variant][i],
        schema,
    ) by {
        assert(seq![variant][i] == variant);
    }
    lemma_recording_nothing(table, seq![variant], status, now, schema);
}

/// A row whose status was not recorded is never pending.
pub proof fn rows_of_older_tables_are_not_pending(row: RowView, now: Seq<char>)
    requires
        row.status is None,
    ensures
        migrated(row, now).status != Some("pending"@),
{
    reveal_strlit("pending");
    reveal_strlit("queued");
    assert("pending"@[0] == 'p');
    assert("queued"@[0] == 'q');
}

/// A row of an older table whose name tells a movie stands for every release of that movie: none
/// is recorded besides it.
pub proof fn movies_of_older_tables_are_not_recorded_again(
    rows: Seq<RowView>,
    then: Seq<char>,
    at: int,
    release: ReleaseView,
    status: Seq<char>,
    now: Seq<char>,
    schema: Schema,
)
    requires
        0 <= at < rows.len(),
        shown(rows[at].movie_key).len() == 0,
        inferred_key(rows[at].name) == Some(release.movie_key),
    ensures
        recorded(migrated_rows(rows, then), seq![release], status, now, schema) == migrated_rows(
            rows,
            then,
        ),
{
    variants_of_known_movies_are_not_recorded(
        migrated_rows(rows, then),
        at,
        release,
        status,
        now,
        schema,
    );
}

/// The key inferred from a name is the one under which the filter remembers the movie, where the
/// year that is accepted is also the first plausible one.
pub proof fn inferred_keys_agree_with_recorded_ones(
    raw_name: Seq<char>,
    years: Set<i32>,
    identity: IdentityView,
)
    requires
        identity_in(normalised(raw_name), years) == Some(identity),
        first_year(words(normalised(raw_name)), plausible_years(), 1) == first_year(
            words(normalised(raw_name)),
            years,
            0,
        ),
    ensures
        inferred_key(raw_name) == Some(key_of(identity)),
{
    let list = words(normalised(raw_name));
    let (place, year) = first_year(list, years, 0)->0;
    let front = list.take(place);
    lemma_words_of_normalised(raw_name);
    lemma_runs_are_runs(raw_name, CharClass::Alphanumeric);
    assert(list == runs(raw_name, CharClass::Alphanumeric));
    lemma_first_year(list, years, 0);
    assert forall|i: int| 0 <= i < front.len() implies is_run(
        #[trigger] front[i],
        CharClass::Alphanumeric,
    ) by {
        assert(front[i] == list[i]);
    }
    lemma_runs_of_joined(front, CharClass::Alphanumeric);
    assert(identity.title == joined(front, space()));
}

// ---------------------------------------------------------------------------
// Reading
// ---------------------------------------------------------------------------

/// Texts in dictionary order, a missing one before all.
pub open spec fn optional_before(left: Option<Seq<char>>, right: Option<Seq<char>>) -> bool {
    match (left, right) {
        (_, None) => false,
        (None, Some(_)) => true,
        (Some(left), Some(right)) => text_before(left, right),
    }
}

/// Rows by the time they were first seen, by name where that is the same, and by their place in
/// the table where both are.
pub open spec fn row_before(table: Seq<RowView>) -> spec_fn(usize, usize) -> bool {
    |i: usize, j: usize|
        {
            let left = table[i as int];
            let right = table[j as int];
            optional_before(left.first_seen_at, right.first_seen_at) || (left.first_seen_at
                == right.first_seen_at && (text_before(left.name, right.name) || (left.name
                == right.name && i < j)))
        }
}

/// Which rows are listed.
#[derive(Clone, Copy)]
pub enum Selection {
    All,
    Pending,
}

impl Selection {
    pub open spec fn takes(self, row: RowView) -> bool {
        match self {
            Selection::All => true,
            Selection::Pending => row.status == Some("pending"@),
        }
    }

    fn take(self, row: &StoredRow) -> (found: bool)
        ensures
            found == self.takes(row@),
    {
        match self {
            Selection::All => true,
            Selection::Pending => is_text(&row.status, "pending"),
        }
    }
}

/// `order` holds the places of the selected ones of the first `n` rows, in their order.
pub open spec fn lists_rows(
    order: Seq<usize>,
    table: Seq<RowView>,
    n: int,
    selection: Selection,
) -> bool {
    &&& sorted_by(order, row_before(table))
    &&& forall|i: usize|
        #[trigger] order.contains(i) <==> i < n && selection.takes(table[i as int])
}

/// The places of the selected rows of a table, in their order.
pub open spec fn row_order(table: Seq<RowView>, selection: Selection) -> Seq<usize> {
    choose|order: Seq<usize>| lists_rows(order, table, table.len() as int, selection)
}

/// The selected rows of a table, in their order.
pub open spec fn listed(table: Seq<RowView>, selection: Selection) -> Seq<RowView> {
    let order = row_order(table, selection);
    Seq::new(order.len(), |k: int| table[order[k] as int])
}

/// The order of rows is strict, and total on different places.
proof fn lemma_row_order(table: Seq<RowView>)
    ensures
        is_strict(row_before(table)),
        forall|i: usize, j: usize|
            i != j ==> #[trigger] row_before(table)(i, j) || row_before(table)(j, i),
{
    lemma_text_order();
    let names = |a: Seq<char>, b: Seq<char>| text_before(a, b);
    let less = row_before(table);
    assert forall|i: usize| !#[trigger] less(i, i) by {
        assert(!names(table[i as int].name, table[i as int].name));
        if table[i as int].first_seen_at is Some {
            let seen = table[i as int].first_seen_at->0;
            assert(!names(seen, seen));
        }
    }
    assert forall|i: usize, j: usize, k: usize| #[trigger] less(i, j) && #[trigger] less(
        j,
        k,
    ) implies less(i, k) by {
        let (a, b, c) = (table[i as int], table[j as int], table[k as int]);
        if names(a.name, b.name) && names(b.name, c.name) {
            assert(names(a.name, c.name));
        }
        if a.first_seen_at is Some && b.first_seen_at is Some && c.first_seen_at is Some {
            let (x, y, z) = (a.first_seen_at->0, b.first_seen_at->0, c.first_seen_at->0);
            if names(x, y) && names(y, z) {
                assert(names(x, z));
            }
        }
    }
    assert forall|i: usize, j: usize| i != j implies #[trigger] less(i, j) || less(j, i) by {
        let (a, b) = (table[i as int], table[j as int]);
        assert(a.name == b.name || names(a.name, b.name) || names(b.name, a.name));
        if a.first_seen_at is Some && b.first_seen_at is Some {
            let (x, y) = (a.first_seen_at->0, b.first_seen_at->0);
            assert(x == y || names(x, y) || names(y, x));
        }
    }
}

/// There is one way to list the rows of a table.
pub proof fn listings_are_unique(
    left: Seq<usize>,
    right: Seq<usize>,
    table: Seq<RowView>,
    n: int,
    selection: Selection,
)
    requires
        lists_rows(left, table, n, selection),
        lists_rows(right, table, n, selection),
    ensures
        left == right,
{
    lemma_row_order(table);
    lemma_sorted_is_unique(left, right, row_before(table));
}

/// Every table has such a listing.
proof fn lemma_listing_exists(table: Seq<RowView>, n: int, selection: Selection) -> (order: Seq<
    usize,
>)
    requires
        0 <= n <= table.len() <= usize::MAX,
    ensures
        lists_rows(order, table, n, selection),
        order.len() <= n,
    decreases n,
{
    if n == 0 {
        Seq::empty()
    } else {
        let front = lemma_listing_exists(table, n - 1, selection);
        let at = (n - 1) as usize;
        if selection.takes(table[at as int]) {
            let less = row_before(table);
            lemma_row_order(table);
            assert forall|k: int| 0 <= k < front.len() implies less(#[trigger] front[k], at)
                || less(at, front[k]) by {
                assert(front.contains(front[k]));
                assert(front[k] != at);
            }
            let place = lemma_place_exists(front, at, less);
            lemma_sorted_inserted(front, place, at, less);
            let order = front.insert(place, at);
            assert forall|j: usize| #[trigger] order.contains(j) <==> j < n && selection.takes(
                table[j as int],
            ) by {
                assert(front.contains(j) <==> j < n - 1 && selection.takes(table[j as int]));
            }
            order
        } else {
            assert forall|j: usize| #[trigger] front.contains(j) <==> j < n && selection.takes(
                table[j as int],
            ) by {}
            front
        }
    }
}

/// The selected rows of a table are listed in their order, each once and no others.
pub proof fn rows_are_listed(table: Seq<RowView>, selection: Selection)
    requires
        table.len() <= usize::MAX,
    ensures
        lists_rows(row_order(table, selection), table, table.len() as int, selection),
        row_order(table, selection).len() <= table.len(),
{
    let order = lemma_listing_exists(table, table.len() as int, selection);
    listings_are_unique(
        order,
        row_order(table, selection),
        table,
        table.len() as int,
        selection,
    );
}

fn seen_before(left: &Option<String>, right: &Option<String>) -> (found: bool)
    ensures
        found == optional_before(optional(*left), optional(*right)),
{
    match (left, right) {
        (_, None) => false,
        (None, Some(_)) => true,
        (Some(left), Some(right)) => {
            let left = chars_of(left.as_str());
            let right = chars_of(right.as_str());
            comes_before(&left, &right)
        },
    }
}

fn same_optional(left: &Option<String>, right: &Option<String>) -> (equal: bool)
    ensures
        equal == (optional(*left) == optional(*right)),
{
    match (left, right) {
        (None, None) => true,
        (Some(left), Some(right)) => same_strings(left.as_str(), right.as_str()),
        _ => false,
    }
}

fn precedes(table: &Vec<StoredRow>, i: usize, j: usize) -> (found: bool)
    requires
        i < table@.len(),
        j < table@.len(),
    ensures
        found == row_before(table_of(table@))(i, j),
{
    assert(table_of(table@)[i as int] == table@[i as int]@);
    assert(table_of(table@)[j as int] == table@[j as int]@);
    if seen_before(&table[i].first_seen_at, &table[j].first_seen_at) {
        return true;
    }
    if !same_optional(&table[i].first_seen_at, &table[j].first_seen_at) {
        return false;
    }
    let left = chars_of(table[i].name.as_str());
    let right = chars_of(table[j].name.as_str());
    comes_before(&left, &right) || (same(&left, &right) && i < j)
}

/// Where the row at `at` stands among rows in order.
fn place_of_row(
    order: &Vec<usize>,
    table: &Vec<StoredRow>,
    at: usize,
    Ghost(selection): Ghost<Selection>,
) -> (place: usize)
    requires
        at < table@.len(),
        lists_rows(order@, table_of(table@), at as int, selection),
    ensures
        place <= order@.len(),
        forall|k: int|
            0 <= k < place ==> row_before(table_of(table@))(#[trigger] order@[k], at),
        forall|k: int|
            place <= k < order@.len() ==> row_before(table_of(table@))(at, #[trigger] order@[k]),
{
    let ghost less = row_before(table_of(table@));
    let mut place: usize = 0;
    proof {
        lemma_row_order(table_of(table@));
    }
    while place < order.len()
        invariant
            place <= order@.len(),
            at < table@.len(),
            less == row_before(table_of(table@)),
            is_strict(less),
            forall|i: usize, j: usize| i != j ==> #[trigger] less(i, j) || less(j, i),
            lists_rows(order@, table_of(table@), at as int, selection),
            forall|k: int| 0 <= k < place ==> less(#[trigger] order@[k], at),
        decreases order@.len() - place,
    {
        let other: usize = order[place];
        assert(order@.contains(other));
        if !precedes(table, other, at) {
            assert(less(at, other)) by {
                assert(other != at);
                assert(less(other, at) || less(at, other));
            }
            assert forall|k: int| place <= k < order@.len() implies less(
                at,
                #[trigger] order@[k],
            ) by {
                if k > place {
                    assert(less(order@[place as int], order@[k]));
                }
            }
            return place;
        }
        place += 1;
    }
    place
}

/// The places of the selected rows, by the time they were first seen, by name where that is the
/// same, and by their place in the table where both are.
pub fn listed_rows(table: &Vec<StoredRow>, selection: Selection) -> (order: Vec<usize>)
    ensures
        order@ == row_order(table_of(table@), selection),
        lists_rows(order@, table_of(table@), table@.len() as int, selection),
        forall|k: int| 0 <= k < order@.len() ==> (#[trigger] order@[k]) < table@.len(),
{
    let ghost views = table_of(table@);
    let ghost less = row_before(views);
    let mut order: Vec<usize> = Vec::new();
    let mut i: usize = 0;
    while i < table.len()
        invariant
            i <= table@.len(),
            views == table_of(table@),
            less == row_before(views),
            lists_rows(order@, views, i as int, selection),
        decreases table@.len() - i,
    {
        assert(views[i as int] == table@[i as int]@);
        let ghost front = order@;
        if selection.take(&table[i]) {
            let place = place_of_row(&order, table, i, Ghost(selection));
            order.insert(place, i);
            proof {
                lemma_sorted_inserted(front, place as int, i, less);
            }
        }
        assert forall|j: usize| #[trigger] order@.contains(j) <==> j < i + 1 && selection.takes(
            views[j as int],
        ) by {
            assert(front.contains(j) <==> j < i && selection.takes(views[j as int]));
        }
        i += 1;
    }
    proof {
        listings_are_unique(
            order@,
            row_order(views, selection),
            views,
            views.len() as int,
            selection,
        );
    }
    assert forall|k: int| 0 <= k < order@.len() implies (#[trigger] order@[k]) < table@.len() by {
        assert(order@.contains(order@[k]));
    }
    order
}

/// The release that a row stands for.
pub open spec fn release_of_row(row: RowView) -> ReleaseView {
    ReleaseView {
        name: row.name,
        url: shown(row.url),
        movie_key: shown(row.movie_key),
        imdb_id: shown(row.imdb_id),
        imdb_rating: match row.imdb_rating {
            Some(rating) => rating,
            None => Binary64 { bits: 0 },
        },
    }
}

/// The releases that rows stand for.
pub open spec fn releases_of_rows(rows: Seq<RowView>) -> Seq<ReleaseView> {
    Seq::new(rows.len(), |i: int| release_of_row(rows[i]))
}

/// Every pending row has an address.
pub open spec fn pending_have_urls(table: Seq<RowView>) -> bool {
    forall|i: int|
        0 <= i < table.len() && Selection::Pending.takes(#[trigger] table[i]) ==> table[i].url
            is Some
}

/// The releases that wait to be queued, in their order. They cannot be read where one of them
/// has no address.
pub open spec fn pending_of(table: Seq<RowView>) -> Option<Seq<ReleaseView>> {
    if pending_have_urls(table) {
        Some(releases_of_rows(listed(table, Selection::Pending)))
    } else {
        None
    }
}

/// The releases that can be read as pending are those of the pending rows.
pub proof fn pending_releases_are_the_pending_rows(table: Seq<RowView>, release: ReleaseView)
    requires
        table.len() <= usize::MAX,
        pending_have_urls(table),
    ensures
        pending_of(table) is Some,
        pending_of(table)->0.contains(release) <==> exists|i: int|
            0 <= i < table.len() && Selection::Pending.takes(#[trigger] table[i])
                && release_of_row(table[i]) == release,
{
    rows_are_listed(table, Selection::Pending);
    let order = row_order(table, Selection::Pending);
    let list = pending_of(table)->0;
    if list.contains(release) {
        let k = choose|k: int| 0 <= k < list.len() && list[k] == release;
        assert(order.contains(order[k]));
        let i = order[k] as int;
        assert(Selection::Pending.takes(table[i]) && release_of_row(table[i]) == release);
    }
    if exists|i: int|
        0 <= i < table.len() && Selection::Pending.takes(#[trigger] table[i]) && release_of_row(
            table[i],
        ) == release {
        let i = choose|i: int|
            0 <= i < table.len() && Selection::Pending.takes(#[trigger] table[i])
                && release_of_row(table[i]) == release;
        assert(order.contains(i as usize));
        let k = choose|k: int| 0 <= k < order.len() && order[k] == i as usize;
        assert(list[k] == release);
    }
}

/// A pending release has no address.
#[derive(Clone, Copy, Debug, PartialEq, Eq, Structural)]
pub struct MissingUrl;

/// What reading the pending releases came to.
pub open spec fn read_list(list: Result<Vec<Release>, MissingUrl>) -> Option<Seq<ReleaseView>> {
    match list {
        Ok(list) => Some(releases(list@)),
        Err(_) => None,
    }
}

/// The releases that wait to be queued, by the time they were first seen, by name where that is
/// the same, and by their place in the table where both are.
pub fn pending_releases(table: &Vec<StoredRow>) -> (list: Result<Vec<Release>, MissingUrl>)
    ensures
        read_list(list) == pending_of(table_of(table@)),
{
    let ghost views = table_of(table@);
    let order = listed_rows(table, Selection::Pending);
    let ghost rows = listed(views, Selection::Pending);
    let mut list: Vec<Release> = Vec::new();
    let mut i: usize = 0;
    while i < order.len()
        invariant
            i <= order@.len(),
            views == table_of(table@),
            rows == listed(views, Selection::Pending),
            order@ == row_order(views, Selection::Pending),
            lists_rows(order@, views, views.len() as int, Selection::Pending),
            forall|k: int| 0 <= k < order@.len() ==> (#[trigger] order@[k]) < table@.len(),
            forall|k: int| 0 <= k < i ==> (#[trigger] rows[k]).url is Some,
            releases(list@) == releases_of_rows(rows).take(i as int),
        decreases order@.len() - i,
    {
        assert(order@[i as int] < table@.len());
        let row = &table[order[i]];
        assert(rows[i as int] == row@);
        if row.url.is_none() {
            proof {
                assert(order@.contains(order@[i as int]));
                assert(Selection::Pending.takes(views[order@[i as int] as int]));
            }
            return Err(MissingUrl);
        }
        let rating = match row.imdb_rating {
            Some(rating) => rating,
            None => Binary64 { bits: 0 },
        };
        let release = Release {
            name: row.name.clone(),
            url: text_or_nothing(&row.url),
            movie_key: text_or_nothing(&row.movie_key),
            imdb_id: text_or_nothing(&row.imdb_id),
            imdb_rating: rating,
        };
        assert(release@ =~= release_of_row(rows[i as int]));
        let ghost front = releases(list@);
        list.push(release);
        assert(releases(list@) =~= front.push(release@));
        assert(releases_of_rows(rows).take(i + 1) =~= front.push(release@));
        i += 1;
    }
    assert(releases(list@) =~= releases_of_rows(rows));
    assert(table.len() == views.len());
    assert forall|j: int|
        0 <= j < views.len() && Selection::Pending.takes(#[trigger] views[j]) implies views[j].url
        is Some by {
        assert(order@.contains(j as usize));
        let k = choose|k: int| 0 <= k < order@.len() && order@[k] == j as usize;
        assert(rows[k] == views[j]);
    }
    Ok(list)
}

// ---------------------------------------------------------------------------
// Queueing
// ---------------------------------------------------------------------------

/// A count of attempts with one more; a missing count stays missing.
pub open spec fn one_more(attempts: Option<i64>) -> Option<i64> {
    match attempts {
        Some(attempts) => Some((attempts + 1) as i64),
        None => None,
    }
}

fn count_one_more(attempts: Option<i64>) -> (count: Option<i64>)
    requires
        attempts is Some ==> attempts->0 < i64::MAX,
    ensures
        count == one_more(attempts),
{
    match attempts {
        Some(attempts) => Some(attempts + 1),
        None => None,
    }
}

/// The row after its release was queued.
pub open spec fn queued_row(row: RowView, now: Seq<char>) -> RowView {
    RowView {
        status: Some("queued"@),
        queued_at: Some(now),
        attempts: one_more(row.attempts),
        last_error: None,
        ..row
    }
}

/// The row after its release could not be queued.
pub open spec fn failed_row(row: RowView, error: Seq<char>) -> RowView {
    RowView { attempts: one_more(row.attempts), last_error: Some(error), ..row }
}

/// The table after the release of that name was queued.
pub open spec fn after_queueing(table: Seq<RowView>, name: Seq<char>, now: Seq<char>) -> Seq<
    RowView,
> {
    Seq::new(
        table.len(),
        |i: int|
            if table[i].name == name {
                queued_row(table[i], now)
            } else {
                table[i]
            },
    )
}

/// The table after the release of that name could not be queued.
pub open spec fn after_failure(table: Seq<RowView>, name: Seq<char>, error: Seq<char>) -> Seq<
    RowView,
> {
    Seq::new(
        table.len(),
        |i: int|
            if table[i].name == name {
                failed_row(table[i], error)
            } else {
                table[i]
            },
    )
}

/// One more attempt at the release of that name can be counted.
pub open spec fn can_count(table: Seq<RowView>, name: Seq<char>) -> bool {
    forall|i: int|
        0 <= i < table.len() && (#[trigger] table[i]).name == name && table[i].attempts is Some
            ==> table[i].attempts->0 < i64::MAX
}

/// Whether one more attempt at the release of that name can be counted.
pub fn can_count_attempt(table: &Vec<StoredRow>, name: &str) -> (can: bool)
    ensures
        can == can_count(table_of(table@), name@),
{
    let ghost views = table_of(table@);
    let mut i: usize = 0;
    while i < table.len()
        invariant
            i <= table@.len(),
            views == table_of(table@),
            forall|k: int|
                0 <= k < i && (#[trigger] views[k]).name == name@ && views[k].attempts is Some
                    ==> views[k].attempts->0 < i64::MAX,
        decreases table@.len() - i,
    {
        assert(views[i as int] == table@[i as int]@);
        if same_strings(table[i].name.as_str(), name) {
            match table[i].attempts {
                Some(attempts) => {
                    if attempts == i64::MAX {
                        assert(views[i as int].name == name@);
                        return false;
                    }
                },
                None => {},
            }
        }
        i += 1;
    }
    true
}

/// Notes that a release was queued.
pub fn mark_queued(table: &mut Vec<StoredRow>, name: &str, now: &str)
    requires
        can_count(table_of(old(table)@), name@),
    ensures
        table_of(final(table)@) == after_queueing(table_of(old(table)@), name@, now@),
{
    let ghost begun = table_of(table@);
    let mut i: usize = 0;
    while i < table.len()
        invariant
            i <= table@.len(),
            table@.len() == begun.len(),
            begun == table_of(old(table)@),
            can_count(begun, name@),
            forall|k: int|
                0 <= k < i ==> #[trigger] table_of(table@)[k] == after_queueing(begun, name@, now@)[k],
            forall|k: int| i <= k < begun.len() ==> #[trigger] table_of(table@)[k] == begun[k],
        decreases table@.len() - i,
    {
        assert(table_of(table@)[i as int] == begun[i as int]);
        let ghost views = table_of(table@);
        if same_strings(table[i].name.as_str(), name) {
            assert(begun[i as int].name == name@);
            let mut new = table[i].clone();
            new.status = Some("queued".to_owned());
            new.queued_at = Some(now.to_owned());
            new.attempts = count_one_more(new.attempts);
            new.last_error = None;
            assert(new@ =~= queued_row(begun[i as int], now@));
            table.set(i, new);
            assert(table_of(table@) =~= views.update(i as int, new@));
        }
        i += 1;
    }
    assert(table_of(table@) =~= after_queueing(begun, name@, now@));
}

/// Notes that a release could not be queued.
pub fn record_queue_error(table: &mut Vec<StoredRow>, name: &str, error: &str)
    requires
        can_count(table_of(old(table)@), name@),
    ensures
        table_of(final(table)@) == after_failure(table_of(old(table)@), name@, error@),
{
    let ghost begun = table_of(table@);
    let mut i: usize = 0;
    while i < table.len()
        invariant
            i <= table@.len(),
            table@.len() == begun.len(),
            begun == table_of(old(table)@),
            can_count(begun, name@),
            forall|k: int|
                0 <= k < i ==> #[trigger] table_of(table@)[k] == after_failure(begun, name@, error@)[k],
            forall|k: int| i <= k < begun.len() ==> #[trigger] table_of(table@)[k] == begun[k],
        decreases table@.len() - i,
    {
        assert(table_of(table@)[i as int] == begun[i as int]);
        let ghost views = table_of(table@);
        if same_strings(table[i].name.as_str(), name) {
            assert(begun[i as int].name == name@);
            let mut new = table[i].clone();
            new.attempts = count_one_more(new.attempts);
            new.last_error = Some(error.to_owned());
            assert(new@ =~= failed_row(begun[i as int], error@));
            table.set(i, new);
            assert(table_of(table@) =~= views.update(i as int, new@));
        }
        i += 1;
    }
    assert(table_of(table@) =~= after_failure(begun, name@, error@));
}

/// A release that was queued is no longer pending, and it is the only one for which that
/// changed.
pub proof fn queued_releases_are_not_pending(
    table: Seq<RowView>,
    name: Seq<char>,
    now: Seq<char>,
    i: int,
)
    requires
        0 <= i < table.len(),
    ensures
        Selection::Pending.takes(after_queueing(table, name, now)[i]) <==> Selection::Pending.takes(
            table[i],
        ) && table[i].name != name,
{
    reveal_strlit("pending");
    reveal_strlit("queued");
    assert("pending"@[0] == 'p');
    assert("queued"@[0] == 'q');
}

/// A release that could not be queued stays as it was but for the count of attempts and the
/// error.
pub proof fn failed_releases_stay_pending(
    table: Seq<RowView>,
    name: Seq<char>,
    error: Seq<char>,
    i: int,
)
    requires
        0 <= i < table.len(),
    ensures
        after_failure(table, name, error)[i].status == table[i].status,
        release_of_row(after_failure(table, name, error)[i]) == release_of_row(table[i]),
{
}

/// Queueing keeps the names apart.
pub proof fn queueing_keeps_names_apart(
    table: Seq<RowView>,
    name: Seq<char>,
    text: Seq<char>,
)
    requires
        names_differ(table),
    ensures
        names_differ(after_queueing(table, name, text)),
        names_differ(after_failure(table, name, text)),
{
    let queued = after_queueing(table, name, text);
    let failed = after_failure(table, name, text);
    assert forall|i: int, j: int| 0 <= i < j < table.len() implies (#[trigger] queued[i]).name != (
    #[trigger] queued[j]).name by {
        assert(table[i].name != table[j].name);
    }
    assert forall|i: int, j: int| 0 <= i < j < table.len() implies (#[trigger] failed[i]).name != (
    #[trigger] failed[j]).name by {
        assert(table[i].name != table[j].name);
    }
}

/// An attempt to queue a release: its name, and the error where it failed.
pub struct Attempt {
    pub name: String,
    pub error: Option<String>,
}

/// What an [`Attempt`] says.
pub struct AttemptView {
    pub name: Seq<char>,
    pub error: Option<Seq<char>>,
}

impl View for Attempt {
    type V = AttemptView;

    open spec fn view(&self) -> AttemptView {
        AttemptView { name: self.name@, error: optional(self.error) }
    }
}

/// The table after an attempt to queue a release.
pub open spec fn after_attempt(
    table: Seq<RowView>,
    attempt: AttemptView,
    now: Seq<char>,
) -> Seq<RowView> {
    match attempt.error {
        None => after_queueing(table, attempt.name, now),
        Some(error) => after_failure(table, attempt.name, error),
    }
}

/// Notes how an attempt to queue a release went.
pub fn note_attempt(table: &mut Vec<StoredRow>, attempt: &Attempt, now: &str)
    requires
        can_count(table_of(old(table)@), attempt.name@),
    ensures
        table_of(final(table)@) == after_attempt(table_of(old(table)@), attempt@, now@),
{
    match &attempt.error {
        None => mark_queued(table, attempt.name.as_str(), now),
        Some(error) => record_queue_error(table, attempt.name.as_str(), error.as_str()),
    }
}

/// The table after several attempts, each at its time.
pub open spec fn after_attempts(
    table: Seq<RowView>,
    attempts: Seq<AttemptView>,
    times: Seq<Seq<char>>,
) -> Seq<RowView>
    decreases attempts.len(),
{
    if attempts.len() == 0 {
        table
    } else {
        after_attempt(
            after_attempts(table, attempts.drop_last(), times),
            attempts.last(),
            times[attempts.len() - 1],
        )
    }
}

pub proof fn lemma_attempts_keep_length(
    table: Seq<RowView>,
    attempts: Seq<AttemptView>,
    times: Seq<Seq<char>>,
)
    ensures
        after_attempts(table, attempts, times).len() == table.len(),
    decreases attempts.len(),
{
    if attempts.len() > 0 {
        lemma_attempts_keep_length(table, attempts.drop_last(), times);
    }
}

/// One of the attempts queued the release of that name.
pub open spec fn was_queued(attempts: Seq<AttemptView>, name: Seq<char>) -> bool {
    exists|i: int|
        0 <= i < attempts.len() && (#[trigger] attempts[i]).name == name && attempts[i].error
            is None
}

/// A release stays pending, with its name and address, until an attempt to queue it succeeds;
/// then it is pending no more, however later attempts go.
pub proof fn releases_stay_pending_until_they_are_queued(
    table: Seq<RowView>,
    attempts: Seq<AttemptView>,
    times: Seq<Seq<char>>,
    i: int,
)
    requires
        0 <= i < table.len(),
    ensures
        after_attempts(table, attempts, times).len() == table.len(),
        release_of_row(after_attempts(table, attempts, times)[i]) == release_of_row(table[i]),
        Selection::Pending.takes(after_attempts(table, attempts, times)[i])
            <==> Selection::Pending.takes(table[i]) && !was_queued(attempts, table[i].name),
    decreases attempts.len(),
{
    if attempts.len() > 0 {
        let front = attempts.drop_last();
        let last = attempts.last();
        let before = after_attempts(table, front, times);
        releases_stay_pending_until_they_are_queued(table, front, times, i);
        let time = times[attempts.len() - 1];
        queued_releases_are_not_pending(before, last.name, time, i);
        assert(was_queued(attempts, table[i].name) <==> was_queued(front, table[i].name) || (
        last.name == table[i].name && last.error is None)) by {
            if was_queued(front, table[i].name) {
                let k = choose|k: int|
                    0 <= k < front.len() && (#[trigger] front[k]).name == table[i].name
                        && front[k].error is None;
                assert(attempts[k] == front[k]);
            }
            if last.name == table[i].name && last.error is None {
                assert(attempts[attempts.len() - 1] == last);
            }
            if was_queued(attempts, table[i].name) {
                let k = choose|k: int|
                    0 <= k < attempts.len() && (#[trigger] attempts[k]).name == table[i].name
                        && attempts[k].error is None;
                if k < front.len() {
                    assert(front[k] == attempts[k]);
                }
            }
        }
        assert(before[i].name == table[i].name);
        match last.error {
            Some(error) => {
                failed_releases_stay_pending(before, last.name, error, i);
            },
            None => {},
        }
    }
}

// ---------------------------------------------------------------------------
// Texts
// ---------------------------------------------------------------------------

/// A tab.
pub open spec fn tab() -> Seq<char> {
    seq!['\t']
}

/// The end of a line.
pub open spec fn line_end() -> Seq<char> {
    seq!['\n']
}

/// A row that can be printed: nothing is missing that a line needs.
pub open spec fn is_readable(row: RowView) -> bool {
    row.first_seen_at is Some && row.status is Some && row.attempts is Some
}

/// The stored release that a readable row is.
pub open spec fn stored_of(row: RowView) -> StoredView {
    StoredView {
        name: row.name,
        url: shown(row.url),
        movie_key: row.movie_key,
        imdb_id: row.imdb_id,
        imdb_rating: row.imdb_rating,
        first_seen_at: shown(row.first_seen_at),
        status: shown(row.status),
        queued_at: row.queued_at,
        attempts: row.attempts->0,
        last_error: row.last_error,
    }
}

/// The stored release that a row is.
pub fn read_row(row: &StoredRow) -> (release: Option<StoredRelease>)
    ensures
        match release {
            Some(release) => is_readable(row@) && release@ == stored_of(row@),
            None => !is_readable(row@),
        },
{
    match (&row.first_seen_at, &row.status, row.attempts) {
        (Some(first_seen_at), Some(status), Some(attempts)) => {
            let release = StoredRelease {
                name: row.name.clone(),
                url: text_or_nothing(&row.url),
                movie_key: copy_optional(&row.movie_key),
                imdb_id: copy_optional(&row.imdb_id),
                imdb_rating: row.imdb_rating,
                first_seen_at: first_seen_at.clone(),
                status: status.clone(),
                queued_at: copy_optional(&row.queued_at),
                attempts,
                last_error: copy_optional(&row.last_error),
            };
            assert(release@ =~= stored_of(row@));
            Some(release)
        },
        _ => None,
    }
}

/// The line of a release: status, time first seen, attempts, time queued, last error, IMDb id,
/// rating, name and address, with tabs between them.
pub open spec fn row_line(row: StoredView, rating: Seq<char>) -> Seq<char> {
    row.status + tab() + row.first_seen_at + tab() + signed_decimal(row.attempts as int) + tab()
        + shown(row.queued_at) + tab() + shown(row.last_error) + tab() + shown(row.imdb_id) + tab()
        + rating + tab() + row.name + tab() + row.url + line_end()
}

/// The lines of the first `n` of the rows at the given places, each with the text of its rating.
pub open spec fn row_lines(
    table: Seq<RowView>,
    ratings: Seq<Seq<char>>,
    order: Seq<usize>,
    n: int,
) -> Seq<char>
    decreases n,
{
    if n <= 0 {
        seq![]
    } else {
        row_lines(table, ratings, order, n - 1) + row_line(
            stored_of(table[order[n - 1] as int]),
            ratings[order[n - 1] as int],
        )
    }
}

/// How many of the rows at the given places can be printed before one that cannot.
pub open spec fn readable_count(table: Seq<RowView>, order: Seq<usize>, from: int) -> int
    decreases order.len() - from,
{
    if from < 0 || from >= order.len() || !is_readable(table[order[from] as int]) {
        from
    } else {
        readable_count(table, order, from + 1)
    }
}

/// What is printed of a table: the lines of its rows in their order, as far as they can be
/// read, and where all can, their number.
pub open spec fn printed(table: Seq<RowView>, ratings: Seq<Seq<char>>) -> (Seq<char>, bool) {
    let order = row_order(table, Selection::All);
    let count = readable_count(table, order, 0);
    let lines = row_lines(table, ratings, order, count);
    if count == order.len() {
        (lines + decimal(order.len()) + " release(s) in movies"@ + line_end(), true)
    } else {
        (lines, false)
    }
}

fn add_optional(whole: &mut Vec<char>, text: &Option<String>)
    ensures
        final(whole)@ == old(whole)@ + shown(optional(*text)),
{
    match text {
        Some(text) => append_text(whole, text.as_str()),
        None => {
            assert(whole@ + seq![] =~= whole@);
        },
    }
}

fn add_row(whole: &mut Vec<char>, row: &StoredRelease, rating: &str)
    ensures
        final(whole)@ == old(whole)@ + row_line(row@, rating@),
{
    let ghost begun = whole@;
    append_text(whole, row.status.as_str());
    whole.push('\t');
    append_text(whole, row.first_seen_at.as_str());
    whole.push('\t');
    let attempts = write_signed_decimal(row.attempts);
    extend(whole, &attempts);
    whole.push('\t');
    add_optional(whole, &row.queued_at);
    whole.push('\t');
    add_optional(whole, &row.last_error);
    whole.push('\t');
    add_optional(whole, &row.imdb_id);
    whole.push('\t');
    append_text(whole, rating);
    whole.push('\t');
    append_text(whole, row.name.as_str());
    whole.push('\t');
    append_text(whole, row.url.as_str());
    whole.push('\n');
    assert(whole@ =~= begun + row_line(row@, rating@));
}

/// What is printed of a table.
pub struct Printout {
    pub text: String,
    /// Every row could be read.
    pub complete: bool,
}

/// The table as text: a line for each row, by the time it was first seen, by name where that is
/// the same, and by its place where both are, and a line with their number. The texts of the
/// ratings are given, one for each row of the table. A row that lacks what its line needs ends
/// the text.
pub fn print_database(table: &Vec<StoredRow>, ratings: &Vec<String>) -> (printout: Printout)
    requires
        table@.len() == ratings@.len(),
    ensures
        (printout.text@, printout.complete) == printed(table_of(table@), strings(ratings@)),
{
    let ghost views = table_of(table@);
    let ghost shown_ratings = strings(ratings@);
    let order = listed_rows(table, Selection::All);
    let mut whole: Vec<char> = Vec::new();
    let mut i: usize = 0;
    while i < order.len()
        invariant
            i <= order@.len(),
            table@.len() == ratings@.len(),
            views == table_of(table@),
            shown_ratings == strings(ratings@),
            order@ == row_order(views, Selection::All),
            forall|k: int| 0 <= k < order@.len() ==> (#[trigger] order@[k]) < table@.len(),
            readable_count(views, order@, 0) == readable_count(views, order@, i as int),
            whole@ == row_lines(views, shown_ratings, order@, i as int),
        decreases order@.len() - i,
    {
        let at: usize = order[i];
        assert(order@[i as int] < table@.len());
        assert(views[at as int] == table@[at as int]@);
        match read_row(&table[at]) {
            Some(release) => {
                add_row(&mut whole, &release, ratings[at].as_str());
            },
            None => {
                return Printout { text: string_of(&whole), complete: false };
            },
        }
        i += 1;
    }
    let count = write_decimal(order.len() as u64);
    extend(&mut whole, &count);
    append_text(&mut whole, " release(s) in movies");
    whole.push('\n');
    assert(whole@ =~= row_lines(views, shown_ratings, order@, order@.len() as int) + decimal(
        order@.len(),
    ) + " release(s) in movies"@ + line_end());
    Printout { text: string_of(&whole), complete: true }
}

/// The names and addresses of the first `n` releases, each on a line of its own.
pub open spec fn queue_lines(list: Seq<ReleaseView>, n: int) -> Seq<char>
    decreases n,
{
    if n <= 0 {
        seq![]
    } else {
        queue_lines(list, n - 1) + list[n - 1].name + line_end() + list[n - 1].url + line_end()
    }
}

/// The pending releases as text: the name and the address of each, on lines of their own.
pub fn export_queue(list: &Vec<Release>) -> (text: String)
    ensures
        text@ == queue_lines(releases(list@), list@.len() as int),
{
    let mut whole: Vec<char> = Vec::new();
    let mut i: usize = 0;
    while i < list.len()
        invariant
            i <= list@.len(),
            whole@ == queue_lines(releases(list@), i as int),
        decreases list@.len() - i,
    {
        let ghost begun = whole@;
        append_text(&mut whole, list[i].name.as_str());
        whole.push('\n');
        append_text(&mut whole, list[i].url.as_str());
        whole.push('\n');
        assert(whole@ =~= begun + list@[i as int]@.name + line_end() + list@[i as int]@.url
            + line_end());
        i += 1;
    }
    string_of(&whole)
}

// ---------------------------------------------------------------------------
// Rows, field by field
// ---------------------------------------------------------------------------

/// The word at that place, behind the first, is a whole number from 1900 to 2100.
pub open spec fn tells_year(name: Seq<char>, place: int) -> bool {
    &&& 1 <= place < words(normalised(name)).len()
    &&& i32_value(words(normalised(name))[place]) is Some
    &&& 1900 <= i32_value(words(normalised(name))[place])->0 <= 2100
}

/// The key inferred from a name holds the words before the first year in it, in small letters, and
/// that year, with spaces between them. The first word is never that year.
pub proof fn keys_are_inferred_from_the_first_year(name: Seq<char>, place: int)
    requires
        tells_year(name, place),
        forall|j: int| 0 <= j < place ==> !#[trigger] tells_year(name, j),
    ensures
        inferred_key(name) == Some(
            lowered(joined(words(normalised(name)).take(place), " "@)) + " "@ + signed_decimal(
                i32_value(words(normalised(name))[place])->0 as int,
            ),
        ),
{
    let list = words(normalised(name));
    reveal_strlit(" ");
    assert(space() =~= " "@);
    assert forall|j: int| 1 <= j < place implies !(i32_value(#[trigger] list[j]) is Some
        && plausible_years().contains(i32_value(list[j])->0)) by {
        assert(!tells_year(name, j));
    }
    lemma_first_year_is_found(list, plausible_years(), 1, place, i32_value(list[place])->0);
}

/// Without such a year no key is inferred.
pub proof fn names_without_a_year_have_no_key(name: Seq<char>)
    requires
        forall|j: int| !#[trigger] tells_year(name, j),
    ensures
        inferred_key(name) is None,
{
    let list = words(normalised(name));
    lemma_first_year(list, plausible_years(), 1);
    match first_year(list, plausible_years(), 1) {
        Some((place, _)) => {
            assert(!tells_year(name, place));
        },
        None => {},
    }
}

/// Bringing a row up to date puts in the time, the status `queued` and no attempts where these
/// are missing, and the key inferred from the name where there is none or an empty one. All else
/// stays.
pub proof fn migration_fills_in_what_is_missing(rows: Seq<RowView>, now: Seq<char>, i: int)
    requires
        0 <= i < rows.len(),
    ensures
        migrated_rows(rows, now).len() == rows.len(),
        ({
            let row = rows[i];
            let new = migrated_rows(rows, now)[i];
            let unkeyed = row.movie_key is None || row.movie_key->0.len() == 0;
            &&& new.name == row.name
            &&& new.url == row.url
            &&& new.imdb_id == row.imdb_id
            &&& new.imdb_rating == row.imdb_rating
            &&& new.queued_at == row.queued_at
            &&& new.last_error == row.last_error
            &&& row.first_seen_at is Some ==> new.first_seen_at == row.first_seen_at
            &&& row.first_seen_at is None ==> new.first_seen_at == Some(now)
            &&& row.status is Some ==> new.status == row.status
            &&& row.status is None ==> new.status == Some("queued"@)
            &&& row.attempts is Some ==> new.attempts == row.attempts
            &&& row.attempts is None ==> new.attempts == Some(0i64)
            &&& unkeyed && inferred_key(row.name) is Some ==> new.movie_key == inferred_key(
                row.name,
            )
            &&& !unkeyed || inferred_key(row.name) is None ==> new.movie_key == row.movie_key
        }),
{
}

/// The statement that adds a column, unless it is there.
pub open spec fn statement_for(
    columns: Seq<Seq<char>>,
    name: Seq<char>,
    kind: Seq<char>,
) -> Seq<Seq<char>> {
    if columns.contains(name) {
        Seq::empty()
    } else {
        seq!["ALTER TABLE movies ADD COLUMN "@ + name + " "@ + kind]
    }
}

proof fn lemma_with_column(
    statements: Seq<Seq<char>>,
    columns: Seq<Seq<char>>,
    name: Seq<char>,
    kind: Seq<char>,
)
    ensures
        with_column(statements, columns, name, kind) == statements + statement_for(
            columns,
            name,
            kind,
        ),
{
    reveal_strlit(" ");
    assert(space() =~= " "@);
    assert(with_column(statements, columns, name, kind) =~= statements + statement_for(
        columns,
        name,
        kind,
    ));
}

/// Each of these columns that a table lacks is added by one statement, in this order, and no
/// other.
pub proof fn missing_columns_are_added(columns: Seq<Seq<char>>)
    ensures
        column_statements(columns) == Seq::<Seq<char>>::empty() + statement_for(
            columns,
            "first_seen_at"@,
            "TEXT"@,
        ) + statement_for(columns, "status"@, "TEXT"@) + statement_for(
            columns,
            "queued_at"@,
            "TEXT"@,
        ) + statement_for(columns, "attempts"@, "INTEGER"@) + statement_for(
            columns,
            "last_error"@,
            "TEXT"@,
        ) + statement_for(columns, "movie_key"@, "TEXT"@) + statement_for(
            columns,
            "imdb_id"@,
            "TEXT"@,
        ) + statement_for(columns, "imdb_rating"@, "REAL"@),
{
    let none = Seq::<Seq<char>>::empty();
    let a = none + statement_for(columns, "first_seen_at"@, "TEXT"@);
    lemma_with_column(none, columns, "first_seen_at"@, "TEXT"@);
    let b = a + statement_for(columns, "status"@, "TEXT"@);
    lemma_with_column(a, columns, "status"@, "TEXT"@);
    let c = b + statement_for(columns, "queued_at"@, "TEXT"@);
    lemma_with_column(b, columns, "queued_at"@, "TEXT"@);
    let d = c + statement_for(columns, "attempts"@, "INTEGER"@);
    lemma_with_column(c, columns, "attempts"@, "INTEGER"@);
    let e = d + statement_for(columns, "last_error"@, "TEXT"@);
    lemma_with_column(d, columns, "last_error"@, "TEXT"@);
    let f = e + statement_for(columns, "movie_key"@, "TEXT"@);
    lemma_with_column(e, columns, "movie_key"@, "TEXT"@);
    let g = f + statement_for(columns, "imdb_id"@, "TEXT"@);
    lemma_with_column(f, columns, "imdb_id"@, "TEXT"@);
    lemma_with_column(g, columns, "imdb_rating"@, "REAL"@);
}

/// Releases recorded in two goes are recorded as in one.
pub proof fn releases_are_recorded_one_by_one(
    table: Seq<RowView>,
    left: Seq<ReleaseView>,
    right: Seq<ReleaseView>,
    status: Seq<char>,
    now: Seq<char>,
    schema: Schema,
)
    ensures
        recorded(table, left + right, status, now, schema) == recorded(
            recorded(table, left, status, now, schema),
            right,
            status,
            now,
            schema,
        ),
        recorded(table, Seq::empty(), status, now, schema) == table,
    decreases right.len(),
{
    if right.len() == 0 {
        assert(left + right =~= left);
    } else {
        releases_are_recorded_one_by_one(table, left, right.drop_last(), status, now, schema);
        assert((left + right).drop_last() =~= left + right.drop_last());
        assert((left + right).last() == right.last());
    }
}

/// A release is left out exactly where a row has its key or its IMDb id, where a row has its name
/// and names may stand in the table once, and where its rating is not a number and one is asked
/// for. Otherwise a row with what it says, the given status and no attempts is added at the end.
pub proof fn a_release_is_recorded_unless_it_is_known(
    table: Seq<RowView>,
    release: ReleaseView,
    status: Seq<char>,
    now: Seq<char>,
    schema: Schema,
)
    ensures
        ({
            let after = recorded(table, seq![release], status, now, schema);
            let known = exists|i: int|
                0 <= i < table.len() && ((#[trigger] table[i]).movie_key == Some(release.movie_key)
                    || table[i].imdb_id == Some(release.imdb_id) || (schema.unique_names
                    && table[i].name == release.name));
            let unrated = schema.rating_required && release.imdb_rating.is_nan();
            &&& known || unrated ==> after == table
            &&& !known && !unrated ==> {
                let row = after[table.len() as int];
                &&& after.len() == table.len() + 1
                &&& after.take(table.len() as int) == table
                &&& row.name == release.name
                &&& row.url == Some(release.url)
                &&& row.movie_key == Some(release.movie_key)
                &&& row.imdb_id == Some(release.imdb_id)
                &&& !release.imdb_rating.is_nan() ==> row.imdb_rating == Some(release.imdb_rating)
                &&& release.imdb_rating.is_nan() ==> row.imdb_rating is None
                &&& schema.dates_rows ==> row.first_seen_at == Some(now)
                &&& !schema.dates_rows ==> row.first_seen_at is None
                &&& row.status == Some(status)
                &&& row.queued_at is None
                &&& schema.counts_attempts ==> row.attempts == Some(0i64)
                &&& !schema.counts_attempts ==> row.attempts is None
                &&& row.last_error is None
            }
        }),
{
    let known = exists|i: int|
        0 <= i < table.len() && ((#[trigger] table[i]).movie_key == Some(release.movie_key)
            || table[i].imdb_id == Some(release.imdb_id) || (schema.unique_names && table[i].name
            == release.name));
    reveal_with_fuel(recorded, 2);
    assert(seq![release].drop_last() =~= Seq::empty());
    assert(seq![release].last() == release);
    if known {
        let i = choose|i: int|
            0 <= i < table.len() && ((#[trigger] table[i]).movie_key == Some(release.movie_key)
                || table[i].imdb_id == Some(release.imdb_id) || (schema.unique_names
                && table[i].name == release.name));
        assert(keeps_out(table[i], release, schema));
    } else {
        assert forall|i: int| 0 <= i < table.len() implies !keeps_out(
            #[trigger] table[i],
            release,
            schema,
        ) by {
            assert(table[i].movie_key != Some(release.movie_key));
        }
        if !(schema.rating_required && release.imdb_rating.is_nan()) {
            let after = recorded(table, seq![release], status, now, schema);
            assert(after.take(table.len() as int) =~= table);
        }
    }
}

/// Of two places of selected rows, the one comes before the other whose row was seen first, a row
/// without a time before all, then whose name comes first, and then the earlier place.
pub proof fn rows_are_listed_by_time_and_name(
    table: Seq<RowView>,
    selection: Selection,
    i: int,
    j: int,
)
    requires
        table.len() <= usize::MAX,
        0 <= i < j < row_order(table, selection).len(),
    ensures
        ({
            let left = table[row_order(table, selection)[i] as int];
            let right = table[row_order(table, selection)[j] as int];
            &&& right.first_seen_at is None ==> left.first_seen_at is None
            &&& left.first_seen_at is Some && left.first_seen_at != right.first_seen_at
                ==> text_before(left.first_seen_at->0, right.first_seen_at->0)
            &&& left.first_seen_at == right.first_seen_at && left.name != right.name
                ==> text_before(left.name, right.name)
            &&& left.first_seen_at == right.first_seen_at && left.name == right.name
                ==> row_order(table, selection)[i] < row_order(table, selection)[j]
        }),
{
    rows_are_listed(table, selection);
    let order = row_order(table, selection);
    assert(row_before(table)(order[i], order[j]));
    lemma_text_order();
    let names = |a: Seq<char>, b: Seq<char>| text_before(a, b);
    assert(!names(table[order[i] as int].name, table[order[i] as int].name));
    if table[order[i] as int].first_seen_at is Some {
        let seen = table[order[i] as int].first_seen_at->0;
        assert(!names(seen, seen));
    }
}

/// All rows are listed, or the pending ones, which are those with the status `pending`; each once.
pub proof fn every_selected_row_is_listed_once(
    table: Seq<RowView>,
    selection: Selection,
    place: usize,
)
    requires
        table.len() <= usize::MAX,
    ensures
        row_order(table, selection).contains(place) <==> place < table.len() && (selection is All
            || table[place as int].status == Some("pending"@)),
        listed(table, selection).len() == row_order(table, selection).len(),
        forall|k: int|
            0 <= k < listed(table, selection).len() ==> #[trigger] listed(table, selection)[k]
                == table[row_order(table, selection)[k] as int],
        row_order(table, selection).no_duplicates(),
{
    rows_are_listed(table, selection);
    lemma_row_order(table);
    let order = row_order(table, selection);
    let less = row_before(table);
    assert forall|i: int, j: int| 0 <= i < order.len() && 0 <= j < order.len() && i
        != j implies order[i] != order[j] by {
        if i < j {
            assert(less(order[i], order[j]));
        } else {
            assert(less(order[j], order[i]));
        }
        assert(!less(order[i], order[i]));
    }
}

/// Pending releases are read exactly where none of them lacks an address. They are then those of
/// the listed rows, field by field; a missing key or IMDb id is read as nothing, and a missing
/// rating as zero.
pub proof fn pending_rows_are_read_field_by_field(table: Seq<RowView>, k: int)
    requires
        table.len() <= usize::MAX,
    ensures
        pending_of(table) is None <==> exists|i: int|
            0 <= i < table.len() && (#[trigger] table[i]).status == Some("pending"@)
                && table[i].url is None,
        pending_of(table) is Some ==> pending_of(table)->0.len() == row_order(
            table,
            Selection::Pending,
        ).len(),
        pending_of(table) is Some && 0 <= k < pending_of(table)->0.len() ==> {
            let row = table[row_order(table, Selection::Pending)[k] as int];
            let release = pending_of(table)->0[k];
            &&& release.name == row.name
            &&& row.url is Some
            &&& release.url == row.url->0
            &&& row.movie_key is Some ==> release.movie_key == row.movie_key->0
            &&& row.movie_key is None ==> release.movie_key.len() == 0
            &&& row.imdb_id is Some ==> release.imdb_id == row.imdb_id->0
            &&& row.imdb_id is None ==> release.imdb_id.len() == 0
            &&& row.imdb_rating is Some ==> release.imdb_rating == row.imdb_rating->0
            &&& row.imdb_rating is None ==> release.imdb_rating.bits == 0
        },
{
    rows_are_listed(table, Selection::Pending);
    let order = row_order(table, Selection::Pending);
    if pending_of(table) is Some && 0 <= k < order.len() {
        assert(order.contains(order[k]));
        assert(Selection::Pending.takes(table[order[k] as int]));
    }
    if pending_of(table) is None {
        let i = choose|i: int|
            0 <= i < table.len() && Selection::Pending.takes(#[trigger] table[i])
                && !(table[i].url is Some);
        assert(table[i].status == Some("pending"@) && table[i].url is None);
    }
    if exists|i: int|
        0 <= i < table.len() && (#[trigger] table[i]).status == Some("pending"@) && table[i].url
            is None {
        let i = choose|i: int|
            0 <= i < table.len() && (#[trigger] table[i]).status == Some("pending"@)
                && table[i].url is None;
        assert(Selection::Pending.takes(table[i]));
    }
}

/// An attempt to queue a release changes the rows of its name only. One more attempt is counted in
/// them, where attempts are counted; after a success they have the status `queued`, the time and
/// no error, after a failure the error, and all else stays.
pub proof fn attempts_change_the_rows_of_their_name(
    table: Seq<RowView>,
    attempt: AttemptView,
    now: Seq<char>,
    i: int,
)
    requires
        0 <= i < table.len(),
        can_count(table, attempt.name),
    ensures
        after_attempt(table, attempt, now).len() == table.len(),
        ({
            let row = table[i];
            let new = after_attempt(table, attempt, now)[i];
            &&& row.name != attempt.name ==> new == row
            &&& row.name == attempt.name ==> {
                &&& new.name == row.name
                &&& new.url == row.url
                &&& new.movie_key == row.movie_key
                &&& new.imdb_id == row.imdb_id
                &&& new.imdb_rating == row.imdb_rating
                &&& new.first_seen_at == row.first_seen_at
                &&& row.attempts is None ==> new.attempts is None
                &&& row.attempts is Some ==> new.attempts is Some && new.attempts->0
                    == row.attempts->0 + 1
                &&& attempt.error is None ==> new.status == Some("queued"@) && new.queued_at
                    == Some(now) && new.last_error is None
                &&& attempt.error is Some ==> new.status == row.status && new.queued_at
                    == row.queued_at && new.last_error == attempt.error
            }
        }),
{
}

/// Several attempts are noted one after the other.
pub proof fn attempts_are_noted_one_by_one(
    table: Seq<RowView>,
    attempts: Seq<AttemptView>,
    times: Seq<Seq<char>>,
    last: AttemptView,
    now: Seq<char>,
)
    requires
        attempts.len() == times.len(),
    ensures
        after_attempts(table, Seq::empty(), times) == table,
        after_attempts(table, attempts.push(last), times.push(now)) == after_attempt(
            after_attempts(table, attempts, times),
            last,
            now,
        ),
{
    assert(attempts.push(last).drop_last() =~= attempts);
    lemma_attempts_by_times(table, attempts, times, times.push(now));
}

proof fn lemma_attempts_by_times(
    table: Seq<RowView>,
    attempts: Seq<AttemptView>,
    times: Seq<Seq<char>>,
    others: Seq<Seq<char>>,
)
    requires
        attempts.len() <= times.len(),
        attempts.len() <= others.len(),
        forall|i: int| 0 <= i < attempts.len() ==> times[i] == #[trigger] others[i],
    ensures
        after_attempts(table, attempts, times) == after_attempts(table, attempts, others),
    decreases attempts.len(),
{
    if attempts.len() > 0 {
        assert(times[attempts.len() - 1] == others[attempts.len() - 1]);
        lemma_attempts_by_times(table, attempts.drop_last(), times, others);
    }
}

// ---------------------------------------------------------------------------
// Texts, line by line
// ---------------------------------------------------------------------------

/// A row can be printed where it has a time, a status and a count of attempts; it is then printed
/// with what it holds.
pub proof fn rows_are_printed_with_what_they_hold(row: RowView)
    ensures
        is_readable(row) <==> row.first_seen_at is Some && row.status is Some && row.attempts
            is Some,
        is_readable(row) ==> {
            let stored = stored_of(row);
            &&& stored.name == row.name
            &&& row.url is Some ==> stored.url == row.url->0
            &&& row.url is None ==> stored.url.len() == 0
            &&& stored.movie_key == row.movie_key
            &&& stored.imdb_id == row.imdb_id
            &&& stored.imdb_rating == row.imdb_rating
            &&& stored.first_seen_at == row.first_seen_at->0
            &&& stored.status == row.status->0
            &&& stored.queued_at == row.queued_at
            &&& stored.attempts == row.attempts->0
            &&& stored.last_error == row.last_error
        },
{
}

/// A line holds nine texts with tabs between them and ends the line: status, time first seen,
/// attempts, time queued, last error, IMDb id, rating, name and address. What is missing is empty.
pub proof fn lines_hold_nine_texts(row: StoredView, rating: Seq<char>)
    ensures
        ({
            let queued = if row.queued_at is Some {
                row.queued_at->0
            } else {
                Seq::empty()
            };
            let error = if row.last_error is Some {
                row.last_error->0
            } else {
                Seq::empty()
            };
            let id = if row.imdb_id is Some {
                row.imdb_id->0
            } else {
                Seq::empty()
            };
            row_line(row, rating) == joined(
                seq![
                    row.status,
                    row.first_seen_at,
                    signed_decimal(row.attempts as int),
                    queued,
                    error,
                    id,
                    rating,
                    row.name,
                    row.url,
                ],
                seq!['\t'],
            ) + seq!['\n']
        }),
{
    let queued = shown(row.queued_at);
    let error = shown(row.last_error);
    let id = shown(row.imdb_id);
    let count = signed_decimal(row.attempts as int);
    let (s, t) = (row.status, row.first_seen_at);
    let tab = seq!['\t'];
    let all = seq![s, t, count, queued, error, id, rating, row.name, row.url];
    lemma_joined_nine(all, tab);
}

proof fn lemma_joined_nine(all: Seq<Seq<char>>, separator: Seq<char>)
    requires
        all.len() == 9,
    ensures
        joined(all, separator) == all[0] + separator + all[1] + separator + all[2] + separator
            + all[3] + separator + all[4] + separator + all[5] + separator + all[6] + separator
            + all[7] + separator + all[8],
{
    reveal_with_fuel(joined, 10);
    assert(all.drop_last() =~= all.take(8));
    assert(all.take(8).drop_last() =~= all.take(7));
    assert(all.take(7).drop_last() =~= all.take(6));
    assert(all.take(6).drop_last() =~= all.take(5));
    assert(all.take(5).drop_last() =~= all.take(4));
    assert(all.take(4).drop_last() =~= all.take(3));
    assert(all.take(3).drop_last() =~= all.take(2));
    assert(all.take(2).drop_last() =~= all.take(1));
}

/// The rows of a table that can be printed.
pub open spec fn printable_until(table: Seq<RowView>, n: int) -> bool {
    let order = row_order(table, Selection::All);
    &&& 0 <= n <= order.len()
    &&& forall|k: int| 0 <= k < n ==> is_readable(table[#[trigger] order[k] as int])
    &&& n < order.len() ==> !is_readable(table[order[n] as int])
}

proof fn lemma_readable_count(table: Seq<RowView>, order: Seq<usize>, from: int, n: int)
    requires
        0 <= from <= n <= order.len(),
        forall|k: int| from <= k < n ==> is_readable(table[#[trigger] order[k] as int]),
        n < order.len() ==> !is_readable(table[order[n] as int]),
    ensures
        readable_count(table, order, from) == n,
    decreases n - from,
{
    if from < n {
        assert(is_readable(table[order[from] as int]));
        lemma_readable_count(table, order, from + 1, n);
    }
}

/// A table is printed row by row in its order, up to the first row that cannot be printed; where
/// there is none, the number of rows follows.
pub proof fn tables_are_printed_up_to_the_first_gap(
    table: Seq<RowView>,
    ratings: Seq<Seq<char>>,
    n: int,
)
    requires
        printable_until(table, n),
    ensures
        ({
            let order = row_order(table, Selection::All);
            let lines = row_lines(table, ratings, order, n);
            printed(table, ratings) == if n < order.len() {
                (lines, false)
            } else {
                (
                    lines + decimal(order.len()) + " release(s) in movies"@ + seq!['\n'],
                    true,
                )
            }
        }),
{
    lemma_readable_count(table, row_order(table, Selection::All), 0, n);
}

/// Lines follow one another in the order of the places, each with the rating of its row.
pub proof fn printed_lines_follow_one_another(
    table: Seq<RowView>,
    ratings: Seq<Seq<char>>,
    order: Seq<usize>,
    n: int,
)
    ensures
        row_lines(table, ratings, order, 0).len() == 0,
        0 <= n < order.len() ==> row_lines(table, ratings, order, n + 1) == row_lines(
            table,
            ratings,
            order,
            n,
        ) + row_line(stored_of(table[order[n] as int]), ratings[order[n] as int]),
{
}

/// An exported queue holds, of one release after the other, the name and the address, each on a
/// line of its own, and nothing else.
pub proof fn queues_hold_names_and_addresses(list: Seq<ReleaseView>, next: ReleaseView)
    ensures
        queue_lines(Seq::empty(), 0).len() == 0,
        queue_lines(list.push(next), (list.len() + 1) as int) == queue_lines(list, list.len() as int)
            + next.name + seq!['\n'] + next.url + seq!['\n'],
{
    lemma_queue_lines(list.push(next), list, list.len() as int);
}

proof fn lemma_queue_lines(left: Seq<ReleaseView>, right: Seq<ReleaseView>, n: int)
    requires
        n <= left.len(),
        n <= right.len(),
        forall|i: int| 0 <= i < n ==> left[i] == #[trigger] right[i],
    ensures
        queue_lines(left, n) == queue_lines(right, n),
    decreases n,
{
    if n > 0 {
        assert(left[n - 1] == right[n - 1]);
        lemma_queue_lines(left, right, n - 1);
    }
}

/// In a table that is created anew a name stands once, a rating is asked for, and rows are dated
/// and count their attempts.
pub proof fn new_tables_ask_for_everything(schema: Schema)
    requires
        call_ensures(new_schema, (), schema),
    ensures
        schema.unique_names,
        schema.rating_required,
        schema.dates_rows,
        schema.counts_attempts,
{
}

/// A row is read exactly where it has a time, a status and a count of attempts.
pub proof fn rows_are_read_where_they_are_whole(row: &StoredRow, release: Option<StoredRelease>)
    requires
        call_ensures(read_row, (row,), release),
    ensures
        release is Some <==> row.first_seen_at is Some && row.status is Some && row.attempts
            is Some,
        release is Some ==> {
            &&& release->0.name@ == row.name@
            &&& release->0.status@ == row.status->0@
            &&& release->0.first_seen_at@ == row.first_seen_at->0@
            &&& release->0.attempts == row.attempts->0
            &&& row.url is Some ==> release->0.url@ == row.url->0@
            &&& row.url is None ==> release->0.url@.len() == 0
            &&& release->0.imdb_rating == row.imdb_rating
            &&& optional(release->0.movie_key) == optional(row.movie_key)
            &&& optional(release->0.imdb_id) == optional(row.imdb_id)
            &&& optional(release->0.queued_at) == optional(row.queued_at)
            &&& optional(release->0.last_error) == optional(row.last_error)
        },
{
    rows_are_printed_with_what_they_hold(row@);
    if release is Some {
        assert(release->0@ == stored_of(row@));
        assert(release->0@.name == row@.name);
    }
}

/// The pending releases that are read are as many as there are pending rows in their order, each
/// with the name and address of its row.
pub proof fn pending_releases_are_read_in_order(
    table: &Vec<StoredRow>,
    list: Result<Vec<Release>, MissingUrl>,
    k: int,
)
    requires
        call_ensures(pending_releases, (table,), list),
        list is Ok,
        0 <= k < list->Ok_0@.len(),
    ensures
        ({
            let order = row_order(table_of(table@), Selection::Pending);
            let row = table@[order[k] as int];
            &&& list->Ok_0@.len() == order.len()
            &&& 0 <= order[k] < table@.len()
            &&& optional(row.status) == Some("pending"@)
            &&& list->Ok_0@[k].name@ == row.name@
            &&& row.url is Some
            &&& list->Ok_0@[k].url@ == row.url->0@
        }),
{
    let views = table_of(table@);
    assert(table.len() == views.len());
    let order = row_order(views, Selection::Pending);
    pending_rows_are_read_field_by_field(views, k);
    every_selected_row_is_listed_once(views, Selection::Pending, order[k]);
    assert(releases(list->Ok_0@)[k] == list->Ok_0@[k]@);
    assert(releases(list->Ok_0@).len() == list->Ok_0@.len());
    assert(order.contains(order[k]));
    assert(views[order[k] as int] == table@[order[k] as int]@);
}

/// The text of an exported queue is that of its releases one after the other.
pub proof fn exported_queues_end_with_the_last_release(list: &Vec<Release>, text: String)
    requires
        call_ensures(export_queue, (list,), text),
    ensures
        list@.len() == 0 ==> text@.len() == 0,
        list@.len() > 0 ==> text@ == queue_lines(
            releases(list@).drop_last(),
            list@.len() - 1,
        ) + list@[list@.len() - 1].name@ + seq!['\n'] + list@[list@.len() - 1].url@ + seq!['\n'],
{
    let all = releases(list@);
    if all.len() > 0 {
        queues_hold_names_and_addresses(all.drop_last(), all.last());
        assert(all.drop_last().push(all.last()) =~= all);
        assert(all.last() == list@[list@.len() - 1]@);
    }
}

/// A table is seen whole, row by row and field by field.
pub proof fn tables_are_seen_whole(list: Seq<StoredRow>, i: int)
    requires
        0 <= i < list.len(),
    ensures
        table_of(list).len() == list.len(),
        ({
            let said = table_of(list)[i];
            &&& said.name == list[i].name@
            &&& said.url == optional(list[i].url)
            &&& said.movie_key == optional(list[i].movie_key)
            &&& said.imdb_id == optional(list[i].imdb_id)
            &&& said.imdb_rating == list[i].imdb_rating
            &&& said.first_seen_at == optional(list[i].first_seen_at)
            &&& said.status == optional(list[i].status)
            &&& said.queued_at == optional(list[i].queued_at)
            &&& said.attempts == list[i].attempts
            &&& said.last_error == optional(list[i].last_error)
        }),
{
}

/// Recording says how many rows it added, keeps the rows that were there, and adds none but rows of
/// the given releases.
pub proof fn recording_counts_the_rows_it_adds(
    table: &mut Vec<StoredRow>,
    list: &Vec<Release>,
    status: &str,
    now: &str,
    schema: Schema,
    added: usize,
    i: int,
)
    requires
        call_ensures(record_releases, (table, list, status, now, schema), added),
        0 <= i < final(table)@.len(),
    ensures
        final(table)@.len() == old(table)@.len() + added,
        i < old(table)@.len() ==> final(table)@[i]@ == old(table)@[i]@,
        i >= old(table)@.len() ==> optional(final(table)@[i].status) == Some(status@) && exists|
            k: int,
        |
            0 <= k < list@.len() && (#[trigger] list@[k]).name@ == final(table)@[i].name@,
{
    let begun = table_of(old(table)@);
    let all = releases(list@);
    let whole = table_of(final(table)@);
    recording_keeps_known_rows(begun, all, status@, now@, schema);
    assert(whole[i] == final(table)@[i]@);
    if i < begun.len() {
        assert(begun[i] == old(table)@[i]@);
        assert(whole.take(begun.len() as int)[i] == whole[i]);
    } else {
        let k = new_rows_stand_for_recorded_releases(begun, all, status@, now@, schema, i);
        assert(all[k] == list@[k]@);
        assert(list@[k].name@ == final(table)@[i].name@);
    }
}

/// When a release was queued, each row of its name has the status `queued`, the time and no error,
/// and counts one more attempt where it counts any; no other row changes.
pub proof fn queueing_changes_the_rows_of_that_name(
    table: &mut Vec<StoredRow>,
    name: &str,
    now: &str,
    i: int,
)
    requires
        call_ensures(mark_queued, (table, name, now), ()),
        can_count(table_of(old(table)@), name@),
        0 <= i < old(table)@.len(),
    ensures
        final(table)@.len() == old(table)@.len(),
        old(table)@[i].name@ != name@ ==> final(table)@[i]@ == old(table)@[i]@,
        old(table)@[i].name@ == name@ ==> {
            let row = old(table)@[i];
            let new = final(table)@[i];
            &&& new.name@ == row.name@
            &&& optional(new.status) == Some("queued"@)
            &&& optional(new.queued_at) == Some(now@)
            &&& new.last_error is None
            &&& row.attempts is Some ==> new.attempts is Some && new.attempts->0
                == row.attempts->0 + 1
            &&& row.attempts is None ==> new.attempts is None
            &&& optional(new.url) == optional(row.url)
        },
{
    let before = table_of(old(table)@);
    let after = table_of(final(table)@);
    let attempt = AttemptView { name: name@, error: None };
    attempts_change_the_rows_of_their_name(before, attempt, now@, i);
    assert(before[i] == old(table)@[i]@);
    assert(after.len() == final(table)@.len());
    assert(after[i] == final(table)@[i]@);
}

/// When a release could not be queued, each row of its name has the error and counts one more
/// attempt where it counts any, and stays as it was otherwise; no other row changes.
pub proof fn failures_change_the_rows_of_that_name(
    table: &mut Vec<StoredRow>,
    name: &str,
    error: &str,
    i: int,
)
    requires
        call_ensures(record_queue_error, (table, name, error), ()),
        can_count(table_of(old(table)@), name@),
        0 <= i < old(table)@.len(),
    ensures
        final(table)@.len() == old(table)@.len(),
        old(table)@[i].name@ != name@ ==> final(table)@[i]@ == old(table)@[i]@,
        old(table)@[i].name@ == name@ ==> {
            let row = old(table)@[i];
            let new = final(table)@[i];
            &&& new.name@ == row.name@
            &&& optional(new.status) == optional(row.status)
            &&& optional(new.queued_at) == optional(row.queued_at)
            &&& optional(new.last_error) == Some(error@)
            &&& row.attempts is Some ==> new.attempts is Some && new.attempts->0
                == row.attempts->0 + 1
            &&& row.attempts is None ==> new.attempts is None
            &&& optional(new.url) == optional(row.url)
        },
{
    let before = table_of(old(table)@);
    let after = table_of(final(table)@);
    let attempt = AttemptView { name: name@, error: Some(error@) };
    attempts_change_the_rows_of_their_name(before, attempt, seq![], i);
    assert(before[i] == old(table)@[i]@);
    assert(after.len() == final(table)@.len());
    assert(after[i] == final(table)@[i]@);
}

/// The key inferred from a name holds the words before its first year in small letters and that
/// year; without a year there is none.
pub proof fn inferred_keys_are_told_by_the_name(name: &str, key: Option<String>, place: int)
    requires
        call_ensures(inferred_movie_key, (name,), key),
    ensures
        tells_year(name@, place) && (forall|j: int|
            0 <= j < place ==> !#[trigger] tells_year(name@, j)) ==> optional(key) == Some(
            lowered(joined(words(normalised(name@)).take(place), " "@)) + " "@ + signed_decimal(
                i32_value(words(normalised(name@))[place])->0 as int,
            ),
        ),
        (forall|j: int| !#[trigger] tells_year(name@, j)) ==> key is None,
{
    if tells_year(name@, place) && forall|j: int|
        0 <= j < place ==> !#[trigger] tells_year(name@, j) {
        keys_are_inferred_from_the_first_year(name@, place);
    }
    if forall|j: int| !#[trigger] tells_year(name@, j) {
        names_without_a_year_have_no_key(name@);
    }
}

/// A table of an older version keeps its rows, names and addresses; a row without a status counts
/// as queued and one without a count as never tried.
pub proof fn older_tables_are_brought_up_to_date(
    rows: &Vec<StoredRow>,
    now: &str,
    table: Vec<StoredRow>,
    i: int,
)
    requires
        call_ensures(migrate_legacy_database, (rows, now), table),
        0 <= i < rows@.len(),
    ensures
        table@.len() == rows@.len(),
        table@[i].name@ == rows@[i].name@,
        optional(table@[i].url) == optional(rows@[i].url),
        rows@[i].status is None ==> optional(table@[i].status) == Some("queued"@),
        rows@[i].status is Some ==> optional(table@[i].status) == optional(rows@[i].status),
        rows@[i].first_seen_at is None ==> optional(table@[i].first_seen_at) == Some(now@),
        rows@[i].attempts is None ==> table@[i].attempts == Some(0i64),
{
    let views = table_of(rows@);
    migration_fills_in_what_is_missing(views, now@, i);
    assert(views[i] == rows@[i]@);
    assert(table_of(table@).len() == table@.len());
    assert(table_of(table@)[i] == table@[i]@);
}

/// What is printed of a table ends with the number of its rows where all of them can be printed.
pub proof fn printouts_are_complete_where_every_row_is(
    table: &Vec<StoredRow>,
    ratings: &Vec<String>,
    printout: Printout,
)
    requires
        call_ensures(print_database, (table, ratings), printout),
        forall|i: int| 0 <= i < table@.len() ==> is_readable((#[trigger] table@[i])@),
    ensures
        ({
            let order = row_order(table_of(table@), Selection::All);
            &&& printout.complete
            &&& printout.text@ == row_lines(
                table_of(table@),
                strings(ratings@),
                order,
                order.len() as int,
            ) + decimal(order.len()) + " release(s) in movies"@ + seq!['\n']
        }),
{
    let views = table_of(table@);
    assert(table.len() == views.len());
    let order = row_order(views, Selection::All);
    rows_are_listed(views, Selection::All);
    assert forall|k: int| 0 <= k < order.len() implies is_readable(
        views[#[trigger] order[k] as int],
    ) by {
        assert(order.contains(order[k]));
        assert(views[order[k] as int] == table@[order[k] as int]@);
    }
    tables_are_printed_up_to_the_first_gap(views, strings(ratings@), order.len() as int);
}

} // verus!
