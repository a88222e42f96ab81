use hd_movies::app::{
    enqueue_pending, releases_to_export, run, status_to_record, Delivery, DeliveryAction, Mode,
    ScanEnd, ScanState, ScanStep,
};
use hd_movies::binary64::Binary64;
use hd_movies::cli::Cli;
use hd_movies::db::{
    export_queue, new_schema, pending_releases, record_releases, MissingUrl, StoredRow,
};
use hd_movies::models::Release;
use hd_movies::moving::{
    can_move_back, temporary_file_name, JobAction, JobState, MoveAction, MoveEvent, MoveState,
};
use hd_movies::tidying::{organize_completed, TidyEnd, TidyEvent, TidyStep, Tidying};

const NOW: &str = "2026-08-14 12:00:00";

fn pending(names: &[&str]) -> Vec<StoredRow> {
    let list = names
        .iter()
        .map(|name| Release {
            name: (*name).to_owned(),
            url: format!("magnet:?{name}"),
            movie_key: (*name).to_owned(),
            imdb_id: format!("tt{name}"),
            imdb_rating: Binary64 { bits: 7.5_f64.to_bits() },
        })
        .collect();
    let mut table = Vec::new();
    record_releases(&mut table, &list, "pending", NOW, new_schema());
    table
}

fn path(names: &[&str]) -> Vec<Vec<u8>> {
    names.iter().map(|name| name.as_bytes().to_vec()).collect()
}

fn tidy(events: Vec<TidyEvent>) -> Vec<TidyStep> {
    let mut tidying = Tidying::start();
    let mut steps = vec![tidying.step];
    for event in events {
        organize_completed(&mut tidying, event);
        steps.push(tidying.step);
    }
    steps
}

fn cli() -> Cli {
    Cli {
        first_run: false,
        print_db: false,
        check_transmission: false,
        once: false,
        interval_seconds: 21_600,
        no_transmission: false,
        organizes: true,
    }
}

fn scan(cli: &Cli, results: &[bool]) -> Vec<ScanStep> {
    let mut state = ScanState::start(cli);
    let mut steps = vec![state.step];
    for result in results {
        state = state.next(cli, *result);
        steps.push(state.step);
    }
    steps
}

fn job(destination_exists: bool, count: usize, results: &[bool]) -> Vec<JobAction> {
    let mut state = JobState::start(destination_exists);
    let mut actions = vec![state.action()];
    for result in results {
        state = state.next(count, *result);
        actions.push(state.action());
    }
    actions
}

fn move_file(events: &[MoveEvent]) -> Vec<MoveAction> {
    let mut state = MoveState::Renaming;
    let mut actions = vec![state.action()];
    for event in events {
        state = state.next(*event);
        actions.push(state.action());
    }
    actions
}

#[test]
fn runs_do_what_the_command_line_asks_for() {
    assert_eq!(run(&cli()), Mode::Service(21_600));
    assert_eq!(run(&Cli { interval_seconds: 0, ..cli() }), Mode::NoPause);
    assert_eq!(run(&Cli { once: true, interval_seconds: 0, ..cli() }), Mode::ScanOnce);
    assert_eq!(run(&Cli { first_run: true, ..cli() }), Mode::ScanOnce);
    assert_eq!(run(&Cli { print_db: true, once: true, ..cli() }), Mode::PrintDatabase);
    assert_eq!(run(&Cli { check_transmission: true, ..cli() }), Mode::CheckTransmission);
}

#[test]
fn scans_take_their_steps_in_order() {
    assert_eq!(
        scan(&cli(), &[true; 8]),
        vec![
            ScanStep::Prepare,
            ScanStep::Organize,
            ScanStep::Scan,
            ScanStep::Open,
            ScanStep::Record,
            ScanStep::Export,
            ScanStep::Deliver,
            ScanStep::ExportRest,
            ScanStep::End(ScanEnd::Delivered),
        ]
    );
}

#[test]
fn first_runs_record_a_baseline_only() {
    let first = Cli { first_run: true, ..cli() };
    assert_eq!(
        scan(&first, &[true; 4]),
        vec![
            ScanStep::Scan,
            ScanStep::Open,
            ScanStep::Record,
            ScanStep::Export,
            ScanStep::End(ScanEnd::Baseline),
        ]
    );
    assert_eq!(status_to_record(&first), "baseline");
    assert_eq!(status_to_record(&cli()), "pending");
}

#[test]
fn without_transmission_releases_stay_pending() {
    let local = Cli { no_transmission: true, ..cli() };
    assert_eq!(scan(&local, &[true; 4]).last(), Some(&ScanStep::End(ScanEnd::Kept)));
    let down = scan(&cli(), &[false, true, true, true, true]);
    assert_eq!(down[1], ScanStep::Scan);
    assert_eq!(down.last(), Some(&ScanStep::End(ScanEnd::Unavailable)));
}

#[test]
fn failed_feeds_end_a_scan() {
    assert_eq!(
        scan(&cli(), &[true, false, false, true]),
        vec![
            ScanStep::Prepare,
            ScanStep::Organize,
            ScanStep::Scan,
            ScanStep::End(ScanEnd::Failed),
            ScanStep::End(ScanEnd::Failed),
        ]
    );
}

#[test]
fn first_runs_write_an_empty_queue_file() {
    let table = pending(&["A", "B"]);
    let first = Cli { first_run: true, ..cli() };
    let none = releases_to_export(&first, &table).unwrap();
    assert!(none.is_empty());
    assert_eq!(export_queue(&none), "");
    let all = releases_to_export(&cli(), &table).unwrap();
    assert_eq!(all, pending_releases(&table).unwrap());
    assert_eq!(export_queue(&all), "A\nmagnet:?A\nB\nmagnet:?B\n");
}

#[test]
fn what_cannot_be_read_is_not_exported() {
    let mut table = pending(&["A"]);
    table[0].url = None;
    assert_eq!(releases_to_export(&cli(), &table), Err(MissingUrl));
    let first = Cli { first_run: true, ..cli() };
    assert!(releases_to_export(&first, &table).unwrap().is_empty());
}

#[test]
fn releases_are_tried_once_and_in_order() {
    let mut table = pending(&["A", "B", "C"]);
    let list = pending_releases(&table).unwrap();
    let mut delivery = Delivery::start(true);
    assert_eq!(delivery.action(&list), DeliveryAction::Try(0));
    assert!(!enqueue_pending(&mut delivery, &list, &mut table, None, false, "2026-08-15 00:00:00"));
    assert_eq!(delivery.action(&list), DeliveryAction::Try(1));
    let refused = Some("refused".to_owned());
    assert!(enqueue_pending(&mut delivery, &list, &mut table, refused, false, NOW));
    assert_eq!(delivery.action(&list), DeliveryAction::Try(2));
    assert!(!enqueue_pending(&mut delivery, &list, &mut table, None, true, NOW));
    assert_eq!(delivery.action(&list), DeliveryAction::Finish(2));
    assert_eq!(table[0].status.as_deref(), Some("queued"));
    assert_eq!(table[0].queued_at.as_deref(), Some("2026-08-15 00:00:00"));
    assert_eq!(table[1].last_error.as_deref(), Some("refused"));
    assert_eq!(table[1].attempts, Some(1));
    let rest: Vec<_> =
        pending_releases(&table).unwrap().into_iter().map(|release| release.name).collect();
    assert_eq!(rest, vec!["B"]);
}

#[test]
fn failed_deliveries_leave_no_new_directory() {
    for (error, existed, removed) in [
        (None, false, false),
        (None, true, false),
        (Some("refused".to_owned()), true, false),
        (Some("refused".to_owned()), false, true),
    ] {
        let mut table = pending(&["A"]);
        let list = pending_releases(&table).unwrap();
        let mut delivery = Delivery::start(true);
        assert_eq!(
            enqueue_pending(&mut delivery, &list, &mut table, error, existed, NOW),
            removed
        );
    }
}

#[test]
fn nothing_is_delivered_without_a_download_directory() {
    let list = pending_releases(&pending(&["A"])).unwrap();
    assert_eq!(Delivery::start(false).action(&list), DeliveryAction::NoDirectory);
    assert_eq!(Delivery::start(false).action(&Vec::new()), DeliveryAction::NoDirectory);
    assert_eq!(Delivery::start(true).action(&Vec::new()), DeliveryAction::Finish(0));
}

#[test]
fn rounds_go_on_after_failures_and_count_what_was_organized() {
    assert_eq!(
        tidy(vec![
            TidyEvent::Done,
            TidyEvent::Done,
            TidyEvent::Directories(path(&["/", "library"]), path(&["/", "downloads"])),
            TidyEvent::Torrents(5),
            TidyEvent::Directory(path(&["/", "downloads", "A"])),
            TidyEvent::Organized(true),
            TidyEvent::Failed,
            TidyEvent::Directory(path(&["/", "downloads", "B", "inner"])),
            TidyEvent::Directory(path(&["/", "downloads", "C"])),
            TidyEvent::Failed,
            TidyEvent::Directory(path(&["/", "downloads", "D"])),
            TidyEvent::Organized(false),
        ]),
        vec![
            TidyStep::FindDownloads,
            TidyStep::CreateLibrary,
            TidyStep::ResolveDirectories,
            TidyStep::ListTorrents,
            TidyStep::Resolve(0),
            TidyStep::Organize(0),
            TidyStep::Resolve(1),
            TidyStep::Resolve(2),
            TidyStep::Resolve(3),
            TidyStep::Organize(3),
            TidyStep::Resolve(4),
            TidyStep::Organize(4),
            TidyStep::End(TidyEnd::Organized(1)),
        ]
    );
}

#[test]
fn rounds_refuse_a_library_within_the_downloads() {
    assert_eq!(
        tidy(vec![
            TidyEvent::Done,
            TidyEvent::Done,
            TidyEvent::Directories(path(&["/", "downloads", "library"]), path(&["/", "downloads"])),
            TidyEvent::Torrents(1),
        ])
        .last(),
        Some(&TidyStep::End(TidyEnd::NotSeparate))
    );
}

#[test]
fn rounds_end_where_the_torrents_cannot_be_listed() {
    let failed = TidyStep::End(TidyEnd::Failed);
    assert_eq!(tidy(vec![TidyEvent::Failed]).last(), Some(&failed));
    assert_eq!(tidy(vec![TidyEvent::Done, TidyEvent::Failed]).last(), Some(&failed));
    assert_eq!(tidy(vec![TidyEvent::Done, TidyEvent::Done, TidyEvent::Failed]).last(), Some(&failed));
    let separate = || TidyEvent::Directories(path(&["/", "library"]), path(&["/", "downloads"]));
    assert_eq!(
        tidy(vec![TidyEvent::Done, TidyEvent::Done, separate(), TidyEvent::Failed]).last(),
        Some(&failed)
    );
    assert_eq!(
        tidy(vec![TidyEvent::Done, TidyEvent::Done, separate(), TidyEvent::Torrents(0)]).last(),
        Some(&TidyStep::End(TidyEnd::Organized(0)))
    );
}

#[test]
fn downloads_are_removed_at_the_very_end() {
    assert_eq!(
        job(false, 2, &[true; 5]),
        vec![
            JobAction::CreateDestination,
            JobAction::Move(0),
            JobAction::Move(1),
            JobAction::ForgetTorrent,
            JobAction::RemoveDownload,
            JobAction::Finish(true),
        ]
    );
}

#[test]
fn existing_destinations_are_left_alone() {
    assert_eq!(job(true, 2, &[]), vec![JobAction::Finish(false)]);
}

#[test]
fn failed_moves_are_rolled_back() {
    assert_eq!(
        job(false, 3, &[true, true, true, false, true, false, true]),
        vec![
            JobAction::CreateDestination,
            JobAction::Move(0),
            JobAction::Move(1),
            JobAction::Move(2),
            JobAction::MoveBack(1),
            JobAction::MoveBack(0),
            JobAction::RemoveDestination,
            JobAction::Finish(false),
        ]
    );
    assert_eq!(
        job(false, 1, &[true, true, false, true, true]),
        vec![
            JobAction::CreateDestination,
            JobAction::Move(0),
            JobAction::ForgetTorrent,
            JobAction::MoveBack(0),
            JobAction::RemoveDestination,
            JobAction::Finish(false),
        ]
    );
    assert_eq!(job(false, 1, &[false]).last(), Some(&JobAction::Finish(false)));
    assert_eq!(job(false, 1, &[true, true, true, false]).last(), Some(&JobAction::Finish(false)));
    assert!(can_move_back(true, false));
    assert!(!can_move_back(true, true));
    assert!(!can_move_back(false, false));
}

#[test]
fn files_are_renamed_or_copied() {
    assert_eq!(
        move_file(&[MoveEvent::Done]),
        vec![MoveAction::Rename, MoveAction::Finish(true)]
    );
    assert_eq!(
        move_file(&[MoveEvent::Failed]),
        vec![MoveAction::Rename, MoveAction::Finish(false)]
    );
    assert_eq!(
        move_file(&[
            MoveEvent::CrossesDevices,
            MoveEvent::Done,
            MoveEvent::Done,
            MoveEvent::Done,
            MoveEvent::Done,
        ]),
        vec![
            MoveAction::Rename,
            MoveAction::Copy,
            MoveAction::Sync,
            MoveAction::Finalize,
            MoveAction::RemoveSource,
            MoveAction::Finish(true),
        ]
    );
    assert_eq!(
        move_file(&[MoveEvent::CrossesDevices, MoveEvent::Done, MoveEvent::Failed, MoveEvent::Done]),
        vec![
            MoveAction::Rename,
            MoveAction::Copy,
            MoveAction::Sync,
            MoveAction::RemoveTemporary,
            MoveAction::Finish(false),
        ]
    );
}

#[test]
fn temporary_files_stand_beside_their_destinations() {
    assert_eq!(
        temporary_file_name(Some("Movie 2026.mkv"), 4_321),
        ".Movie 2026.mkv.hd-movies-4321.part"
    );
    assert_eq!(temporary_file_name(None, 7), ".movie.hd-movies-7.part");
}
