use hd_movies::binary64::Binary64;
use hd_movies::db::{
    can_count_attempt, export_queue, inferred_movie_key, listed_rows, mark_queued,
    migrate_legacy_database, missing_columns, new_schema, note_attempt, pending_releases,
    print_database, read_row, record_queue_error, record_releases, Attempt, MissingUrl, Schema,
    Selection, StoredRow,
};
use hd_movies::models::Release;

const NOW: &str = "2026-08-14 12:00:00";

fn legacy(name: &str, url: &str) -> StoredRow {
    StoredRow {
        name: name.to_owned(),
        url: Some(url.to_owned()),
        movie_key: None,
        imdb_id: None,
        imdb_rating: None,
        first_seen_at: None,
        status: None,
        queued_at: None,
        attempts: None,
        last_error: None,
    }
}

fn release(name: &str, url: &str, movie_key: &str, imdb_id: &str, rating: f64) -> Release {
    Release {
        name: name.to_owned(),
        url: url.to_owned(),
        movie_key: movie_key.to_owned(),
        imdb_id: imdb_id.to_owned(),
        imdb_rating: Binary64 { bits: rating.to_bits() },
    }
}

#[test]
fn migrates_legacy_database_without_requeueing_old_rows() {
    let rows = vec![legacy("Old Movie 2024 2160p", "magnet:?old")];
    let table = migrate_legacy_database(&rows, NOW);
    assert!(pending_releases(&table).unwrap().is_empty());
    assert_eq!(table[0].status.as_deref(), Some("queued"));
    assert_eq!(table[0].movie_key.as_deref(), Some("old movie 2024"));
}

#[test]
fn migration_keeps_what_is_known() {
    let mut row = legacy("Old Movie 2024 2160p", "magnet:?old");
    row.status = Some("pending".to_owned());
    row.movie_key = Some("kept".to_owned());
    row.attempts = Some(4);
    row.first_seen_at = Some("2020-01-01 00:00:00".to_owned());
    let mut bare = legacy("No year here", "magnet:?bare");
    bare.movie_key = Some(String::new());
    bare.url = None;
    let table = migrate_legacy_database(&vec![row, bare], NOW);
    assert_eq!(table[0].status.as_deref(), Some("pending"));
    assert_eq!(table[0].movie_key.as_deref(), Some("kept"));
    assert_eq!(table[0].attempts, Some(4));
    assert_eq!(table[0].first_seen_at.as_deref(), Some("2020-01-01 00:00:00"));
    assert_eq!(table[1].movie_key.as_deref(), Some(""));
    assert_eq!(table[1].first_seen_at.as_deref(), Some(NOW));
    assert_eq!(table[1].attempts, Some(0));
    assert_eq!(table[1].url, None);
}

#[test]
fn a_movie_of_an_older_table_is_not_recorded_again() {
    let mut table = migrate_legacy_database(&vec![legacy("Old.Movie.2024.2160p", "magnet:?old")], NOW);
    let variant = release("Old Movie 2024 4K REMUX", "magnet:?new", "old movie 2024", "tt1", 7.0);
    assert_eq!(record_releases(&mut table, &vec![variant], "pending", NOW, new_schema()), 0);
}

#[test]
fn infers_keys_from_names() {
    assert_eq!(inferred_movie_key("Blade.Runner.2049.2017.2160p").as_deref(), Some("blade runner 2049"));
    assert_eq!(inferred_movie_key("2012.2009.4K").as_deref(), Some("2012 2009"));
    assert_eq!(inferred_movie_key("2012"), None);
    assert_eq!(inferred_movie_key("Movie 1899 2101"), None);
    assert_eq!(inferred_movie_key("AMÉLIE 2001").as_deref(), Some("amÉlie 2001"));
}

#[test]
fn adds_only_the_columns_that_are_missing() {
    let all = missing_columns(&vec!["name".to_owned(), "url".to_owned()]);
    assert_eq!(
        all,
        vec![
            "ALTER TABLE movies ADD COLUMN first_seen_at TEXT",
            "ALTER TABLE movies ADD COLUMN status TEXT",
            "ALTER TABLE movies ADD COLUMN queued_at TEXT",
            "ALTER TABLE movies ADD COLUMN attempts INTEGER",
            "ALTER TABLE movies ADD COLUMN last_error TEXT",
            "ALTER TABLE movies ADD COLUMN movie_key TEXT",
            "ALTER TABLE movies ADD COLUMN imdb_id TEXT",
            "ALTER TABLE movies ADD COLUMN imdb_rating REAL",
        ]
    );
    let some: Vec<String> =
        ["name", "url", "status", "attempts", "first_seen_at", "queued_at", "last_error", "imdb_id"]
            .iter()
            .map(|name| (*name).to_owned())
            .collect();
    assert_eq!(
        missing_columns(&some),
        vec![
            "ALTER TABLE movies ADD COLUMN movie_key TEXT",
            "ALTER TABLE movies ADD COLUMN imdb_rating REAL",
        ]
    );
}

#[test]
fn stores_new_releases_as_pending() {
    let mut table: Vec<StoredRow> = Vec::new();
    let releases = vec![release("New Movie 2026 1080p", "magnet:?new", "new movie 2026", "tt1234567", 7.5)];
    assert_eq!(record_releases(&mut table, &releases, "pending", NOW, new_schema()), 1);
    assert_eq!(record_releases(&mut table, &releases, "pending", NOW, new_schema()), 0);
    assert_eq!(pending_releases(&table).unwrap(), releases);
}

#[test]
fn stores_only_one_selected_release_per_canonical_movie() {
    let mut table: Vec<StoredRow> = Vec::new();
    let dolby_vision = release(
        "Example Movie 2026 2160p DV WEB DL",
        "magnet:?dolby",
        "example movie 2026",
        "tt7654321",
        8.0,
    );
    let duplicate_variant = Release {
        name: "Example Movie 2026 2160p BluRay REMUX".to_owned(),
        url: "magnet:?remux".to_owned(),
        ..dolby_vision.clone()
    };
    assert_eq!(record_releases(&mut table, &vec![dolby_vision.clone()], "pending", NOW, new_schema()), 1);
    assert_eq!(record_releases(&mut table, &vec![duplicate_variant], "pending", NOW, new_schema()), 0);
    assert_eq!(pending_releases(&table).unwrap(), vec![dolby_vision]);
}

#[test]
fn keys_ids_and_names_are_each_enough_to_be_known() {
    let mut table: Vec<StoredRow> = Vec::new();
    record_releases(&mut table, &vec![release("A", "u", "a 2026", "tt1", 7.0)], "pending", NOW, new_schema());
    for other in [
        release("B", "u", "a 2026", "tt2", 7.0),
        release("B", "u", "b 2026", "tt1", 7.0),
        release("A", "u", "b 2026", "tt2", 7.0),
    ] {
        assert_eq!(record_releases(&mut table, &vec![other], "pending", NOW, new_schema()), 0);
    }
    let two = vec![release("B", "u", "b 2026", "tt2", 7.0), release("C", "u", "b 2026", "tt3", 7.0)];
    assert_eq!(record_releases(&mut table, &two, "pending", NOW, new_schema()), 1);
    assert_eq!(table.len(), 2);
}

#[test]
fn pending_releases_come_in_the_order_they_were_seen() {
    let mut table: Vec<StoredRow> = Vec::new();
    record_releases(&mut table, &vec![release("Z", "z", "z", "tt1", 7.0)], "pending", "2026-01-01", new_schema());
    record_releases(&mut table, &vec![release("B", "b", "b", "tt2", 7.0)], "pending", "2026-01-02", new_schema());
    record_releases(&mut table, &vec![release("A", "a", "a", "tt3", 7.0)], "pending", "2026-01-02", new_schema());
    record_releases(&mut table, &vec![release("C", "c", "c", "tt4", 7.0)], "baseline", "2025-01-02", new_schema());
    let names: Vec<_> = pending_releases(&table).unwrap().into_iter().map(|release| release.name).collect();
    assert_eq!(names, vec!["Z", "A", "B"]);
    assert_eq!(listed_rows(&table, Selection::All), vec![3, 0, 2, 1]);
    assert_eq!(listed_rows(&table, Selection::Pending), vec![0, 2, 1]);
}

#[test]
fn queueing_is_noted() {
    let mut table: Vec<StoredRow> = Vec::new();
    let list = vec![release("A", "a", "a", "tt1", 7.0), release("B", "b", "b", "tt2", 7.0)];
    record_releases(&mut table, &list, "pending", NOW, new_schema());
    record_queue_error(&mut table, "A", "refused");
    assert_eq!(pending_releases(&table).unwrap().len(), 2);
    assert_eq!(table[0].attempts, Some(1));
    assert_eq!(table[0].last_error.as_deref(), Some("refused"));
    mark_queued(&mut table, "A", "2026-08-15 00:00:00");
    assert_eq!(table[0].status.as_deref(), Some("queued"));
    assert_eq!(table[0].attempts, Some(2));
    assert_eq!(table[0].last_error, None);
    assert_eq!(table[0].queued_at.as_deref(), Some("2026-08-15 00:00:00"));
    assert_eq!(table[1].status.as_deref(), Some("pending"));
    assert_eq!(table[1].attempts, Some(0));
    mark_queued(&mut table, "no such name", NOW);
    assert_eq!(pending_releases(&table).unwrap().len(), 1);
}

#[test]
fn releases_stay_pending_until_an_attempt_succeeds() {
    let mut table: Vec<StoredRow> = Vec::new();
    let list = vec![release("A", "a", "a", "tt1", 7.0), release("B", "b", "b", "tt2", 7.0)];
    record_releases(&mut table, &list, "pending", NOW, new_schema());
    for (name, error) in [("A", Some("down")), ("B", None), ("A", None), ("B", Some("late"))] {
        let attempt =
            Attempt { name: name.to_owned(), error: error.map(|error: &str| error.to_owned()) };
        note_attempt(&mut table, &attempt, NOW);
    }
    assert!(pending_releases(&table).unwrap().is_empty());
    assert_eq!(table[0].attempts, Some(2));
    assert_eq!(table[1].last_error.as_deref(), Some("late"));
}

#[test]
fn prints_a_line_for_each_row_in_their_order() {
    let mut table: Vec<StoredRow> = Vec::new();
    let later = vec![release("A", "magnet:?a", "a", "tt1", 7.5)];
    record_releases(&mut table, &later, "pending", "2026-08-15 00:00:00", new_schema());
    record_queue_error(&mut table, "A", "refused");
    let earlier = vec![release("B", "magnet:?b", "b", "tt2", 8.0)];
    record_releases(&mut table, &earlier, "baseline", NOW, new_schema());
    let printout = print_database(&table, &vec!["7.5".to_owned(), "8.0".to_owned()]);
    assert_eq!(
        printout.text,
        "baseline\t2026-08-14 12:00:00\t0\t\t\ttt2\t8.0\tB\tmagnet:?b\n\
         pending\t2026-08-15 00:00:00\t1\t\trefused\ttt1\t7.5\tA\tmagnet:?a\n\
         2 release(s) in movies\n"
    );
    assert!(printout.complete);
    let empty = print_database(&Vec::new(), &Vec::new());
    assert_eq!(empty.text, "0 release(s) in movies\n");
    assert!(empty.complete);
}

#[test]
fn printing_ends_at_a_row_that_cannot_be_read() {
    let mut table: Vec<StoredRow> = Vec::new();
    let list = vec![release("A", "a", "a", "tt1", 7.5), release("B", "b", "b", "tt2", 8.0)];
    record_releases(&mut table, &list, "pending", NOW, new_schema());
    table[1].status = None;
    let printout = print_database(&table, &vec!["7.5".to_owned(), "8.0".to_owned()]);
    assert_eq!(printout.text, "pending\t2026-08-14 12:00:00\t0\t\t\ttt1\t7.5\tA\ta\n");
    assert!(!printout.complete);
    assert_eq!(read_row(&table[0]).unwrap().name, "A");
    assert!(read_row(&table[1]).is_none());
}

#[test]
fn rows_seen_at_no_time_come_first_and_equals_keep_their_places() {
    let mut table = migrate_legacy_database(
        &vec![legacy("B", "first"), legacy("A", "second"), legacy("B", "third")],
        NOW,
    );
    table.push(legacy("Z", "undated"));
    assert_eq!(listed_rows(&table, Selection::All), vec![3, 1, 0, 2]);
}

#[test]
fn pending_releases_without_an_address_cannot_be_read() {
    let mut row = legacy("Old Movie 2024 2160p", "magnet:?old");
    row.url = None;
    let queued = migrate_legacy_database(&vec![row.clone()], NOW);
    assert_eq!(queued[0].url, None);
    assert!(pending_releases(&queued).unwrap().is_empty());
    row.status = Some("pending".to_owned());
    let pending = migrate_legacy_database(&vec![row], NOW);
    assert_eq!(pending_releases(&pending), Err(MissingUrl));
    assert_eq!(read_row(&pending[0]).unwrap().url, "");
}

#[test]
fn a_rating_that_is_no_number_is_a_missing_one() {
    let list = vec![release("A", "a", "a", "tt1", f64::NAN)];
    let mut table: Vec<StoredRow> = Vec::new();
    assert_eq!(record_releases(&mut table, &list, "pending", NOW, new_schema()), 0);
    assert!(table.is_empty());
    let lax = Schema { rating_required: false, ..new_schema() };
    assert_eq!(record_releases(&mut table, &list, "pending", NOW, lax), 1);
    assert_eq!(table[0].imdb_rating, None);
    assert_eq!(pending_releases(&table).unwrap()[0].imdb_rating, Binary64 { bits: 0 });
}

#[test]
fn names_may_repeat_where_the_table_has_no_key() {
    let keyless = Schema { unique_names: false, ..new_schema() };
    let mut table: Vec<StoredRow> = Vec::new();
    let first = vec![release("A", "first", "a 2025", "tt1", 7.0)];
    let second = vec![release("A", "second", "a 2026", "tt2", 7.0)];
    assert_eq!(record_releases(&mut table, &first, "pending", NOW, keyless), 1);
    assert_eq!(record_releases(&mut table, &second, "pending", NOW, keyless), 1);
    let urls: Vec<_> =
        pending_releases(&table).unwrap().into_iter().map(|release| release.url).collect();
    assert_eq!(urls, vec!["first", "second"]);
    mark_queued(&mut table, "A", NOW);
    assert!(pending_releases(&table).unwrap().is_empty());
}

#[test]
fn older_tables_neither_date_rows_nor_count_attempts() {
    let older = Schema { dates_rows: false, counts_attempts: false, ..new_schema() };
    let mut table: Vec<StoredRow> = Vec::new();
    let list = vec![release("A", "a", "a", "tt1", 7.0)];
    assert_eq!(record_releases(&mut table, &list, "pending", NOW, older), 1);
    assert_eq!(table[0].first_seen_at, None);
    assert_eq!(table[0].attempts, None);
    record_queue_error(&mut table, "A", "refused");
    assert_eq!(table[0].attempts, None);
    assert_eq!(table[0].last_error.as_deref(), Some("refused"));
    let migrated = migrate_legacy_database(&table, NOW);
    assert_eq!(migrated[0].first_seen_at.as_deref(), Some(NOW));
    assert_eq!(migrated[0].attempts, Some(0));
}

#[test]
fn migrating_again_changes_nothing() {
    let once = migrate_legacy_database(&vec![legacy("Old.Movie.2024.2160p", "magnet:?old")], NOW);
    let twice = migrate_legacy_database(&once, "2030-01-01 00:00:00");
    assert_eq!(once, twice);
}

#[test]
fn attempts_are_counted_while_they_can_be() {
    let mut table = migrate_legacy_database(&vec![legacy("A", "a")], NOW);
    assert!(can_count_attempt(&table, "A"));
    table[0].attempts = Some(i64::MAX);
    assert!(!can_count_attempt(&table, "A"));
    assert!(can_count_attempt(&table, "B"));
}

#[test]
fn exports_names_and_addresses_on_alternating_lines() {
    let list = vec![release("A", "magnet:?a", "a", "tt1", 7.0), release("B", "magnet:?b", "b", "tt2", 7.0)];
    assert_eq!(export_queue(&list), "A\nmagnet:?a\nB\nmagnet:?b\n");
    assert_eq!(export_queue(&Vec::new()), "");
}
