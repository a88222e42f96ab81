//! The life of the service: what a run does, in which order a scan takes its steps, what it
//! writes to the queue file, and how pending releases are delivered. Each step is carried out
//! elsewhere; what follows depends on how it went.

use vstd::prelude::*;

use crate::cli::Cli;
use crate::db::{
    after_attempt, after_attempts, attempts_change_the_rows_of_their_name, can_count,
    lemma_attempts_keep_length, listed, note_attempt, pending_have_urls, pending_of,
    pending_releases, pending_releases_are_the_pending_rows, pending_rows_are_read_field_by_field,
    queue_lines, read_list, release_of_row, releases_stay_pending_until_they_are_queued, row_order,
    rows_are_listed, table_of, was_queued, Attempt, AttemptView, MissingUrl, RowView, Selection,
    StoredRow,
};
use crate::models::{optional, releases, Release, ReleaseView};

verus! {

/// What a run of the program does.
#[derive(Clone, Copy, Debug, PartialEq, Eq, Structural)]
pub enum Mode {
    /// Make the read-only call to Transmission and report the download directory.
    CheckTransmission,
    /// Print the database.
    PrintDatabase,
    /// Scan once.
    ScanOnce,
    /// Refuse to run: the service would scan without a pause.
    NoPause,
    /// Scan again and again, with a pause of that many seconds.
    Service(u64),
}

/// What a run of the program does. A baseline is set up once even where a single scan was not
/// asked for.
pub fn run(cli: &Cli) -> (mode: Mode)
    ensures
        mode == if cli.check_transmission {
            Mode::CheckTransmission
        } else if cli.print_db {
            Mode::PrintDatabase
        } else if cli.once || cli.first_run {
            Mode::ScanOnce
        } else if cli.interval_seconds == 0 {
            Mode::NoPause
        } else {
            Mode::Service(cli.interval_seconds)
        },
{
    if cli.check_transmission {
        Mode::CheckTransmission
    } else if cli.print_db {
        Mode::PrintDatabase
    } else if cli.once || cli.first_run {
        Mode::ScanOnce
    } else if cli.interval_seconds == 0 {
        Mode::NoPause
    } else {
        Mode::Service(cli.interval_seconds)
    }
}

// ---------------------------------------------------------------------------
// A scan
// ---------------------------------------------------------------------------

/// How a scan ended.
#[derive(Clone, Copy, Debug, PartialEq, Eq, Structural)]
pub enum ScanEnd {
    /// The baseline was recorded.
    Baseline,
    /// Pending releases stay in the database, as asked for.
    Kept,
    /// Pending releases stay in the database, since Transmission is unavailable.
    Unavailable,
    /// Pending releases were handed to Transmission.
    Delivered,
    /// A step failed.
    Failed,
}

/// A step of a scan.
#[derive(Clone, Copy, Debug, PartialEq, Eq, Structural)]
pub enum ScanStep {
    /// Connect to Transmission and find the download directory.
    Prepare,
    /// Organize completed downloads.
    Organize,
    /// Fetch the feeds and filter their candidates.
    Scan,
    /// Open the database.
    Open,
    /// Record the selected releases.
    Record,
    /// Export the releases that wait, or none of a baseline.
    Export,
    /// Hand the pending releases to Transmission.
    Deliver,
    /// Export the releases that still wait.
    ExportRest,
    /// Nothing more.
    End(ScanEnd),
}

/// Where a scan stands: its step, and whether Transmission can be used.
#[derive(Clone, Copy, Debug, PartialEq, Eq, Structural)]
pub struct ScanState {
    pub step: ScanStep,
    pub ready: bool,
}

/// A scan that leaves Transmission alone.
pub open spec fn is_local(cli: Cli) -> bool {
    cli.no_transmission || cli.first_run
}

/// Where a scan begins.
pub open spec fn scan_start(cli: Cli) -> ScanState {
    ScanState {
        step: if is_local(cli) {
            ScanStep::Scan
        } else {
            ScanStep::Prepare
        },
        ready: false,
    }
}

/// What follows the export of what was recorded.
pub open spec fn after_export(cli: Cli, ready: bool) -> ScanStep {
    if cli.first_run {
        ScanStep::End(ScanEnd::Baseline)
    } else if cli.no_transmission {
        ScanStep::End(ScanEnd::Kept)
    } else if !ready {
        ScanStep::End(ScanEnd::Unavailable)
    } else {
        ScanStep::Deliver
    }
}

/// Where a scan stands after a step. Only the two steps that deal with Transmission before the
/// feeds are fetched may fail without ending it.
pub open spec fn scan_next(cli: Cli, state: ScanState, succeeded: bool) -> ScanState {
    let step = match state.step {
        ScanStep::Prepare => if succeeded && cli.organizes {
            ScanStep::Organize
        } else {
            ScanStep::Scan
        },
        ScanStep::Organize => ScanStep::Scan,
        ScanStep::End(end) => ScanStep::End(end),
        step => if !succeeded {
            ScanStep::End(ScanEnd::Failed)
        } else {
            match step {
                ScanStep::Scan => ScanStep::Open,
                ScanStep::Open => ScanStep::Record,
                ScanStep::Record => ScanStep::Export,
                ScanStep::Export => after_export(cli, state.ready),
                ScanStep::Deliver => ScanStep::ExportRest,
                _ => ScanStep::End(ScanEnd::Delivered),
            }
        },
    };
    ScanState {
        step,
        ready: if state.step is Prepare {
            succeeded
        } else {
            state.ready
        },
    }
}

/// Where a scan stands after several steps.
pub open spec fn scan_after(cli: Cli, results: Seq<bool>) -> ScanState
    decreases results.len(),
{
    if results.len() == 0 {
        scan_start(cli)
    } else {
        scan_next(cli, scan_after(cli, results.drop_last()), results.last())
    }
}

impl ScanState {
    /// Where a scan begins.
    pub fn start(cli: &Cli) -> (state: ScanState)
        ensures
            state == scan_start(*cli),
    {
        let step = if cli.no_transmission || cli.first_run {
            ScanStep::Scan
        } else {
            ScanStep::Prepare
        };
        ScanState { step, ready: false }
    }

    /// Where a scan stands after its step.
    pub fn next(self, cli: &Cli, succeeded: bool) -> (state: ScanState)
        ensures
            state == scan_next(*cli, self, succeeded),
    {
        let failed = ScanStep::End(ScanEnd::Failed);
        let mut ready = self.ready;
        let step = match self.step {
            ScanStep::Prepare => {
                ready = succeeded;
                if succeeded && cli.organizes {
                    ScanStep::Organize
                } else {
                    ScanStep::Scan
                }
            },
            ScanStep::Organize => ScanStep::Scan,
            ScanStep::Scan => if succeeded {
                ScanStep::Open
            } else {
                failed
            },
            ScanStep::Open => if succeeded {
                ScanStep::Record
            } else {
                failed
            },
            ScanStep::Record => if succeeded {
                ScanStep::Export
            } else {
                failed
            },
            ScanStep::Export => if !succeeded {
                failed
            } else if cli.first_run {
                ScanStep::End(ScanEnd::Baseline)
            } else if cli.no_transmission {
                ScanStep::End(ScanEnd::Kept)
            } else if !self.ready {
                ScanStep::End(ScanEnd::Unavailable)
            } else {
                ScanStep::Deliver
            },
            ScanStep::Deliver => if succeeded {
                ScanStep::ExportRest
            } else {
                failed
            },
            ScanStep::ExportRest => if succeeded {
                ScanStep::End(ScanEnd::Delivered)
            } else {
                failed
            },
            ScanStep::End(end) => ScanStep::End(end),
        };
        ScanState { step, ready }
    }
}

/// The status under which a scan records releases.
pub open spec fn recorded_status(cli: Cli) -> Seq<char> {
    if cli.first_run {
        "baseline"@
    } else {
        "pending"@
    }
}

/// The status under which a scan records releases.
pub fn status_to_record(cli: &Cli) -> (status: &'static str)
    ensures
        status@ == recorded_status(*cli),
{
    if cli.first_run {
        "baseline"
    } else {
        "pending"
    }
}

/// A step in which Transmission or the files of downloads are dealt with.
pub open spec fn deals_with_transmission(step: ScanStep) -> bool {
    step is Prepare || step is Organize || step is Deliver || step is ExportRest
}

/// A first run, and a run without Transmission, neither contact Transmission nor queue torrents
/// nor organize files, however their steps go.
pub proof fn local_scans_leave_transmission_alone(cli: Cli, results: Seq<bool>)
    requires
        is_local(cli),
    ensures
        !deals_with_transmission(scan_after(cli, results).step),
    decreases results.len(),
{
    if results.len() > 0 {
        local_scans_leave_transmission_alone(cli, results.drop_last());
    }
}

/// Releases of a baseline are not recorded as pending.
pub proof fn baselines_are_not_pending(cli: Cli)
    requires
        cli.first_run,
    ensures
        recorded_status(cli) != "pending"@,
{
    reveal_strlit("pending");
    reveal_strlit("baseline");
    assert("pending"@[0] == 'p');
    assert("baseline"@[0] == 'b');
}

/// A step that changes the database or hands releases over.
pub open spec fn changes_state(step: ScanStep) -> bool {
    step is Open || step is Record || step is Export || step is Deliver || step is ExportRest
}

/// Where the feeds cannot be fetched or filtered, the database is not opened and nothing is
/// handed over, then or later.
pub proof fn failed_scans_change_nothing(cli: Cli, results: Seq<bool>, at: int)
    requires
        0 <= at < results.len(),
        scan_after(cli, results.take(at)).step is Scan,
        !results[at],
    ensures
        scan_after(cli, results).step == ScanStep::End(ScanEnd::Failed),
        !changes_state(scan_after(cli, results).step),
    decreases results.len(),
{
    let front = results.drop_last();
    if at == results.len() - 1 {
        assert(front =~= results.take(at));
    } else {
        assert(front.take(at) =~= results.take(at));
        failed_scans_change_nothing(cli, front, at);
    }
}

/// Releases are handed over only when Transmission was found to be available, and after they
/// were recorded and exported.
pub proof fn releases_are_delivered_only_after_they_are_recorded(cli: Cli, results: Seq<bool>)
    requires
        scan_after(cli, results).step is Deliver,
    ensures
        !is_local(cli),
        scan_after(cli, results).ready,
        results.len() >= 5,
        results[0],
        scan_after(cli, results.take(0)).step is Prepare,
        results.last(),
        scan_after(cli, results.drop_last()).step is Export,
        results[results.len() - 2],
        scan_after(cli, results.drop_last().drop_last()).step is Record,
        results[results.len() - 3],
        results[results.len() - 4],
{
    lemma_scan_prefix(cli, results);
    let a = results.drop_last();
    lemma_scan_prefix(cli, a);
    let b = a.drop_last();
    lemma_scan_prefix(cli, b);
    let c = b.drop_last();
    lemma_scan_prefix(cli, c);
    let d = c.drop_last();
    lemma_scan_prefix(cli, d);
    assert(results.take(0) =~= Seq::empty());
}

proof fn lemma_scan_prefix(cli: Cli, results: Seq<bool>)
    ensures
        ({
            let state = scan_after(cli, results);
            &&& state.step is Prepare ==> results.len() == 0 && !is_local(cli)
            &&& state.step is Organize ==> results.len() == 1
            &&& state.step is Scan && !is_local(cli) ==> results.len() >= 1
            &&& state.step is Open ==> results.len() >= 1
            &&& state.ready ==> results.len() >= 1 && results[0] && !is_local(cli)
            &&& state.step is Deliver ==> state.ready && !is_local(cli)
        }),
    decreases results.len(),
{
    if results.len() > 0 {
        lemma_scan_prefix(cli, results.drop_last());
    }
}

/// Every scan ends, after eight steps at the latest.
pub proof fn scans_end(cli: Cli, results: Seq<bool>)
    requires
        results.len() >= 8,
    ensures
        scan_after(cli, results).step is End,
{
    lemma_scan_steps(cli, results);
}

spec fn scan_steps_left(step: ScanStep) -> int {
    match step {
        ScanStep::Prepare => 8,
        ScanStep::Organize => 7,
        ScanStep::Scan => 6,
        ScanStep::Open => 5,
        ScanStep::Record => 4,
        ScanStep::Export => 3,
        ScanStep::Deliver => 2,
        ScanStep::ExportRest => 1,
        ScanStep::End(_) => 0,
    }
}

proof fn lemma_scan_steps(cli: Cli, results: Seq<bool>)
    ensures
        scan_steps_left(scan_after(cli, results).step) <= 8 - results.len() || scan_steps_left(
            scan_after(cli, results).step,
        ) == 0,
    decreases results.len(),
{
    if results.len() > 0 {
        lemma_scan_steps(cli, results.drop_last());
    }
}

// ---------------------------------------------------------------------------
// The queue file
// ---------------------------------------------------------------------------

/// The releases that a scan writes to the queue file: none of a baseline, and otherwise all that
/// wait to be queued, unless they cannot be read.
pub open spec fn exported(cli: Cli, table: Seq<RowView>) -> Option<Seq<ReleaseView>> {
    if cli.first_run {
        Some(seq![])
    } else {
        pending_of(table)
    }
}

/// The releases that a scan writes to the queue file.
pub fn releases_to_export(cli: &Cli, table: &Vec<StoredRow>) -> (list: Result<
    Vec<Release>,
    MissingUrl,
>)
    ensures
        read_list(list) == exported(*cli, table_of(table@)),
{
    if cli.first_run {
        let none: Vec<Release> = Vec::new();
        assert(releases(none@) =~= seq![]);
        Ok(none)
    } else {
        pending_releases(table)
    }
}

/// A first run writes an empty queue file, whatever the table holds.
pub proof fn first_runs_export_nothing(cli: Cli, table: Seq<RowView>)
    requires
        cli.first_run,
    ensures
        exported(cli, table) is Some,
        queue_lines(exported(cli, table)->0, exported(cli, table)->0.len() as int).len() == 0,
{
}

/// Every other run writes out each release that is pending, and no other.
pub proof fn other_runs_export_what_is_pending(cli: Cli, table: Seq<RowView>, release: ReleaseView)
    requires
        !cli.first_run,
        table.len() <= usize::MAX,
        pending_have_urls(table),
    ensures
        exported(cli, table) is Some,
        exported(cli, table)->0.contains(release) <==> exists|i: int|
            0 <= i < table.len() && Selection::Pending.takes(#[trigger] table[i])
                && release_of_row(table[i]) == release,
{
    pending_releases_are_the_pending_rows(table, release);
}

// ---------------------------------------------------------------------------
// Delivery
// ---------------------------------------------------------------------------

/// Where the delivery of pending releases stands: whether the download directory is available,
/// how many releases were tried, and how many of them were queued.
#[derive(Clone, Copy, Debug, PartialEq, Eq, Structural)]
pub struct Delivery {
    pub available: bool,
    pub tried: usize,
    pub queued: usize,
}

/// What a delivery does next.
#[derive(Clone, Copy, Debug, PartialEq, Eq, Structural)]
pub enum DeliveryAction {
    /// Refuse: the download directory is not available.
    NoDirectory,
    /// Try to queue the release of that number.
    Try(usize),
    /// Nothing more; so many releases were queued.
    Finish(usize),
}

impl Delivery {
    /// No more releases were queued than tried.
    pub open spec fn well_formed(self) -> bool {
        self.queued <= self.tried
    }

    /// What is to be done next, of so many pending releases.
    pub open spec fn action_of(self, pending: nat) -> DeliveryAction {
        if !self.available {
            DeliveryAction::NoDirectory
        } else if self.tried < pending {
            DeliveryAction::Try(self.tried)
        } else {
            DeliveryAction::Finish(self.queued)
        }
    }

    /// The delivery after one more release was tried.
    pub open spec fn after(self, succeeded: bool) -> Delivery {
        Delivery {
            tried: (self.tried + 1) as usize,
            queued: if succeeded {
                (self.queued + 1) as usize
            } else {
                self.queued
            },
            ..self
        }
    }

    /// Where a delivery begins.
    pub fn start(available: bool) -> (delivery: Delivery)
        ensures
            delivery == (Delivery { available, tried: 0, queued: 0 }),
            delivery.well_formed(),
    {
        Delivery { available, tried: 0, queued: 0 }
    }

    /// What is to be done next.
    pub fn action(self, pending: &Vec<Release>) -> (action: DeliveryAction)
        ensures
            action == self.action_of(pending@.len()),
    {
        if !self.available {
            DeliveryAction::NoDirectory
        } else if self.tried < pending.len() {
            DeliveryAction::Try(self.tried)
        } else {
            DeliveryAction::Finish(self.queued)
        }
    }
}

/// The attempt at the release of that number.
pub open spec fn attempt_at(
    pending: Seq<ReleaseView>,
    i: int,
    error: Option<Seq<char>>,
) -> AttemptView {
    AttemptView { name: pending[i].name, error }
}

/// Notes how it went to queue the release whose turn it was, and says whether the directory that
/// was made for it is to be removed again: so it is after a failure, unless it was there before.
pub fn enqueue_pending(
    delivery: &mut Delivery,
    pending: &Vec<Release>,
    table: &mut Vec<StoredRow>,
    error: Option<String>,
    directory_existed: bool,
    now: &str,
) -> (remove_directory: bool)
    requires
        old(delivery).well_formed(),
        old(delivery).action_of(pending@.len()) is Try,
        can_count(table_of(old(table)@), pending@[old(delivery).tried as int].name@),
    ensures
        final(delivery).well_formed(),
        *final(delivery) == old(delivery).after(error is None),
        table_of(final(table)@) == after_attempt(
            table_of(old(table)@),
            attempt_at(releases(pending@), old(delivery).tried as int, optional(error)),
            now@,
        ),
        remove_directory == (error is Some && !directory_existed),
{
    let failed = error.is_some();
    assert(delivery.tried < pending.len());
    let attempt = Attempt { name: pending[delivery.tried].name.clone(), error };
    note_attempt(table, &attempt, now);
    if !failed {
        delivery.queued = delivery.queued + 1;
    }
    delivery.tried = delivery.tried + 1;
    failed && !directory_existed
}

/// A delivery together with the table that it changes.
pub struct Round {
    pub delivery: Delivery,
    pub table: Seq<RowView>,
}

/// A delivery after the first releases were tried, each with its error if it had one, and at its
/// time.
pub open spec fn round_after(
    table: Seq<RowView>,
    pending: Seq<ReleaseView>,
    errors: Seq<Option<Seq<char>>>,
    times: Seq<Seq<char>>,
) -> Round
    decreases errors.len(),
{
    if errors.len() == 0 {
        Round { delivery: Delivery { available: true, tried: 0, queued: 0 }, table }
    } else {
        let round = round_after(table, pending, errors.drop_last(), times);
        Round {
            delivery: round.delivery.after(errors.last() is None),
            table: after_attempt(
                round.table,
                attempt_at(pending, round.delivery.tried as int, errors.last()),
                times[errors.len() - 1],
            ),
        }
    }
}

/// The attempts at the first releases.
pub open spec fn attempts_at(
    pending: Seq<ReleaseView>,
    errors: Seq<Option<Seq<char>>>,
) -> Seq<AttemptView> {
    Seq::new(errors.len(), |i: int| attempt_at(pending, i, errors[i]))
}

/// How many attempts succeeded.
pub open spec fn successes(errors: Seq<Option<Seq<char>>>) -> nat
    decreases errors.len(),
{
    if errors.len() == 0 {
        0
    } else if errors.last() is None {
        successes(errors.drop_last()) + 1
    } else {
        successes(errors.drop_last())
    }
}

/// Every pending release is tried once and in order, whatever became of those before it; the
/// count is that of the successes, and the table is the one that the attempts leave.
pub proof fn releases_are_tried_once_and_in_order(
    table: Seq<RowView>,
    pending: Seq<ReleaseView>,
    errors: Seq<Option<Seq<char>>>,
    times: Seq<Seq<char>>,
)
    requires
        errors.len() <= pending.len() <= usize::MAX,
    ensures
        successes(errors) <= errors.len(),
        round_after(table, pending, errors, times).delivery == (Delivery {
            available: true,
            tried: errors.len() as usize,
            queued: successes(errors) as usize,
        }),
        round_after(table, pending, errors, times).delivery.action_of(pending.len()) == (
        if errors.len() < pending.len() {
            DeliveryAction::Try(errors.len() as usize)
        } else {
            DeliveryAction::Finish(successes(errors) as usize)
        }),
        round_after(table, pending, errors, times).table == after_attempts(
            table,
            attempts_at(pending, errors),
            times,
        ),
    decreases errors.len(),
{
    if errors.len() > 0 {
        let front = errors.drop_last();
        releases_are_tried_once_and_in_order(table, pending, front, times);
        assert(attempts_at(pending, errors).drop_last() =~= attempts_at(pending, front));
        assert(attempts_at(pending, errors).last() == attempt_at(
            pending,
            errors.len() - 1,
            errors.last(),
        ));
    }
}

/// After a delivery of all that was pending a release is pending exactly if it was before and
/// no release of its name was queued.
pub proof fn undelivered_releases_stay_pending(
    table: Seq<RowView>,
    errors: Seq<Option<Seq<char>>>,
    times: Seq<Seq<char>>,
    i: int,
)
    requires
        0 <= i < table.len() <= usize::MAX,
        pending_of(table) is Some,
        errors.len() == pending_of(table)->0.len(),
    ensures
        round_after(table, pending_of(table)->0, errors, times).table.len() == table.len(),
        Selection::Pending.takes(
            round_after(table, pending_of(table)->0, errors, times).table[i],
        ) <==> Selection::Pending.takes(table[i]) && !was_queued(
            attempts_at(pending_of(table)->0, errors),
            table[i].name,
        ),
{
    let pending = pending_of(table)->0;
    rows_are_listed(table, Selection::Pending);
    releases_are_tried_once_and_in_order(table, pending, errors, times);
    releases_stay_pending_until_they_are_queued(table, attempts_at(pending, errors), times, i);
}

/// After a delivery in which every attempt succeeded, nothing is pending.
pub proof fn full_deliveries_leave_nothing_pending(
    table: Seq<RowView>,
    errors: Seq<Option<Seq<char>>>,
    times: Seq<Seq<char>>,
)
    requires
        table.len() <= usize::MAX,
        pending_of(table) is Some,
        errors.len() == pending_of(table)->0.len(),
        forall|k: int| 0 <= k < errors.len() ==> (#[trigger] errors[k]) is None,
    ensures
        pending_of(round_after(table, pending_of(table)->0, errors, times).table) == Some(
            Seq::<ReleaseView>::empty(),
        ),
{
    let pending = pending_of(table)->0;
    let attempts = attempts_at(pending, errors);
    let after = round_after(table, pending, errors, times).table;
    rows_are_listed(table, Selection::Pending);
    releases_are_tried_once_and_in_order(table, pending, errors, times);
    assert(after.len() == table.len()) by {
        if table.len() > 0 {
            undelivered_releases_stay_pending(table, errors, times, 0);
        } else {
            lemma_attempts_keep_length(table, attempts, times);
        }
    }
    assert forall|i: int| 0 <= i < after.len() implies !Selection::Pending.takes(
        #[trigger] after[i],
    ) by {
        undelivered_releases_stay_pending(table, errors, times, i);
        if Selection::Pending.takes(table[i]) {
            let order = row_order(table, Selection::Pending);
            assert(order.contains(i as usize));
            let k = choose|k: int| 0 <= k < order.len() && order[k] == i as usize;
            assert(listed(table, Selection::Pending)[k] == table[i]);
            assert(pending[k] == release_of_row(table[i]));
            assert(attempts[k].name == table[i].name);
            assert(errors[k] is None);
            assert(was_queued(attempts, table[i].name));
        }
    }
    rows_are_listed(after, Selection::Pending);
    let rest = row_order(after, Selection::Pending);
    if rest.len() > 0 {
        assert(rest.contains(rest[0]));
    }
    assert(pending_of(after)->0 =~= Seq::empty());
}

// ---------------------------------------------------------------------------
// The course of a scan
// ---------------------------------------------------------------------------

/// A scan that deals with Transmission prepares it first; where that succeeds and a library is
/// given it organizes, and then, or else at once, it fetches the feeds. Any other scan fetches
/// the feeds at once. Neither preparing nor organizing needs to succeed for that.
pub proof fn scans_begin_with_transmission_unless_they_leave_it_alone(cli: Cli, organized: bool)
    ensures
        cli.first_run || cli.no_transmission ==> scan_after(cli, Seq::empty()).step is Scan,
        !cli.first_run && !cli.no_transmission ==> {
            &&& scan_after(cli, Seq::empty()).step is Prepare
            &&& scan_after(cli, seq![false]).step is Scan
            &&& !scan_after(cli, seq![false]).ready
            &&& scan_after(cli, seq![true]).step == if cli.organizes {
                ScanStep::Organize
            } else {
                ScanStep::Scan
            }
            &&& scan_after(cli, seq![true]).ready
            &&& cli.organizes ==> scan_after(cli, seq![true, organized]).step is Scan
                && scan_after(cli, seq![true, organized]).ready
        },
{
    reveal_with_fuel(scan_after, 3);
    assert(seq![false].drop_last() =~= Seq::empty());
    assert(seq![true].drop_last() =~= Seq::empty());
    assert(seq![true, organized].drop_last() =~= seq![true]);
}

/// From the feeds on, a scan goes on only while each step succeeds: it opens the database, records
/// what it selected, exports what is pending, hands it over and exports the rest. A first run ends
/// with the export, and so does one without Transmission or where that is unavailable.
pub proof fn scans_go_on_while_their_steps_succeed(cli: Cli, ready: bool)
    ensures
        ({
            let next = |step: ScanStep, succeeded: bool|
                scan_next(cli, ScanState { step, ready }, succeeded).step;
            &&& next(ScanStep::Scan, true) is Open
            &&& next(ScanStep::Open, true) is Record
            &&& next(ScanStep::Record, true) is Export
            &&& next(ScanStep::Export, true) == if cli.first_run {
                ScanStep::End(ScanEnd::Baseline)
            } else if cli.no_transmission {
                ScanStep::End(ScanEnd::Kept)
            } else if !ready {
                ScanStep::End(ScanEnd::Unavailable)
            } else {
                ScanStep::Deliver
            }
            &&& next(ScanStep::Deliver, true) is ExportRest
            &&& next(ScanStep::ExportRest, true) == ScanStep::End(ScanEnd::Delivered)
            &&& next(ScanStep::Scan, false) == ScanStep::End(ScanEnd::Failed)
            &&& next(ScanStep::Open, false) == ScanStep::End(ScanEnd::Failed)
            &&& next(ScanStep::Record, false) == ScanStep::End(ScanEnd::Failed)
            &&& next(ScanStep::Export, false) == ScanStep::End(ScanEnd::Failed)
            &&& next(ScanStep::Deliver, false) == ScanStep::End(ScanEnd::Failed)
            &&& next(ScanStep::ExportRest, false) == ScanStep::End(ScanEnd::Failed)
        }),
        scan_next(cli, ScanState { step: ScanStep::Scan, ready }, true).ready == ready,
        scan_next(cli, ScanState { step: ScanStep::Open, ready }, true).ready == ready,
        scan_next(cli, ScanState { step: ScanStep::Record, ready }, true).ready == ready,
        scan_next(cli, ScanState { step: ScanStep::Export, ready }, true).ready == ready,
        forall|end: ScanEnd, succeeded: bool| #[trigger]
            scan_next(cli, ScanState { step: ScanStep::End(end), ready }, succeeded).step
                == ScanStep::End(end),
{
}

/// A first run records releases as `baseline`, and every other run as `pending`.
pub proof fn releases_are_recorded_as_baseline_or_pending(cli: Cli)
    ensures
        cli.first_run ==> recorded_status(cli) == "baseline"@,
        !cli.first_run ==> recorded_status(cli) == "pending"@,
{
}

/// Where the download directory is not available nothing is tried, however many releases wait.
pub proof fn deliveries_need_the_download_directory(delivery: Delivery, pending: nat)
    ensures
        delivery.action_of(pending) is NoDirectory <==> !delivery.available,
        delivery.available ==> delivery.action_of(pending) == if delivery.tried < pending {
            DeliveryAction::Try(delivery.tried)
        } else {
            DeliveryAction::Finish(delivery.queued)
        },
{
}

/// A run checks the connection to Transmission where that is asked for, whatever else is. Else it
/// prints the database where that is asked for; else it scans once for a first run or a single
/// scan; and else it is the service, which pauses between scans and refuses to run without a pause.
pub proof fn runs_do_what_the_command_line_asks_for(cli: &Cli, mode: Mode)
    requires
        call_ensures(run, (cli,), mode),
    ensures
        mode is CheckTransmission <==> cli.check_transmission,
        mode is PrintDatabase <==> cli.print_db && !cli.check_transmission,
        mode is ScanOnce <==> (cli.once || cli.first_run) && !cli.print_db
            && !cli.check_transmission,
        mode is NoPause ==> cli.interval_seconds == 0,
        mode is Service ==> mode->Service_0 == cli.interval_seconds && cli.interval_seconds > 0,
{
}

/// What is recorded is recorded as `baseline` in a first run and as `pending` in any other.
pub proof fn the_status_is_baseline_or_pending(cli: &Cli, status: &'static str)
    requires
        call_ensures(status_to_record, (cli,), status),
    ensures
        cli.first_run ==> status@ == "baseline"@,
        !cli.first_run ==> status@ == "pending"@,
{
}

/// A delivery begins with nothing tried and nothing queued, and each release that is tried counts
/// once, as queued only where that succeeded.
pub proof fn deliveries_count_what_they_try(
    available: bool,
    delivery: Delivery,
    later: Delivery,
    succeeded: bool,
)
    requires
        call_ensures(Delivery::start, (available,), delivery),
        later.well_formed(),
        later.tried < usize::MAX,
    ensures
        delivery.available == available,
        delivery.tried == 0,
        delivery.queued == 0,
        later.after(succeeded).available == later.available,
        later.after(succeeded).tried == later.tried + 1,
        succeeded ==> later.after(succeeded).queued == later.queued + 1,
        !succeeded ==> later.after(succeeded).queued == later.queued,
{
}

/// What a scan writes to the queue file is nothing for a first run, and else the pending releases
/// that can be read.
pub proof fn queue_files_hold_what_is_pending(
    cli: &Cli,
    table: &Vec<StoredRow>,
    list: Result<Vec<Release>, MissingUrl>,
)
    requires
        call_ensures(releases_to_export, (cli, table), list),
    ensures
        cli.first_run ==> list is Ok && list->Ok_0@.len() == 0,
        !cli.first_run ==> (list is Err <==> exists|i: int|
            0 <= i < table@.len() && optional((#[trigger] table@[i]).status) == Some("pending"@)
                && table@[i].url is None),
{
    if cli.first_run {
        assert(releases(list->Ok_0@).len() == 0);
    } else {
        let views = table_of(table@);
        assert(table.len() == views.len());
        pending_rows_are_read_field_by_field(views, 0);
        if list is Err {
            let i = choose|i: int|
                0 <= i < views.len() && (#[trigger] views[i]).status == Some("pending"@)
                    && views[i].url is None;
            assert(views[i] == table@[i]@);
            assert(optional(table@[i].status) == Some("pending"@));
        }
        if exists|i: int|
            0 <= i < table@.len() && optional((#[trigger] table@[i]).status) == Some("pending"@)
                && table@[i].url is None {
            let i = choose|i: int|
                0 <= i < table@.len() && optional((#[trigger] table@[i]).status) == Some(
                    "pending"@,
                ) && table@[i].url is None;
            assert(views[i] == table@[i]@);
            assert(views[i].status == Some("pending"@) && views[i].url is None);
        }
    }
}

/// Each release that is tried counts once, as queued only where that succeeded, and is noted under
/// its name with the error if there was one. The directory made for it is removed again exactly
/// where queueing it failed and the directory was not there before.
pub proof fn failed_releases_leave_no_directory(
    delivery: &mut Delivery,
    pending: &Vec<Release>,
    table: &mut Vec<StoredRow>,
    error: Option<String>,
    directory_existed: bool,
    now: &str,
    remove_directory: bool,
    i: int,
)
    requires
        call_ensures(
            enqueue_pending,
            (delivery, pending, table, error, directory_existed, now),
            remove_directory,
        ),
        old(delivery).well_formed(),
        old(delivery).tried < pending@.len() <= usize::MAX,
        can_count(table_of(old(table)@), pending@[old(delivery).tried as int].name@),
        0 <= i < old(table)@.len(),
    ensures
        remove_directory <==> error is Some && !directory_existed,
        final(delivery).tried == old(delivery).tried + 1,
        final(delivery).queued == old(delivery).queued + if error is None {
            1int
        } else {
            0
        },
        final(table)@.len() == old(table)@.len(),
        old(table)@[i].name@ != pending@[old(delivery).tried as int].name@ ==> final(table)@[i]@
            == old(table)@[i]@,
        old(table)@[i].name@ == pending@[old(delivery).tried as int].name@ && error is None
            ==> optional(final(table)@[i].status) == Some("queued"@),
        old(table)@[i].name@ == pending@[old(delivery).tried as int].name@ && error is Some
            ==> optional(final(table)@[i].last_error) == optional(error) && optional(
            final(table)@[i].status,
        ) == optional(old(table)@[i].status),
{
    let before = table_of(old(table)@);
    let after = table_of(final(table)@);
    let tried = old(delivery).tried as int;
    assert(releases(pending@)[tried].name == pending@[tried].name@);
    let attempt = attempt_at(releases(pending@), tried, optional(error));
    attempts_change_the_rows_of_their_name(before, attempt, now@, i);
    assert(before[i] == old(table)@[i]@);
    assert(after.len() == final(table)@.len());
    assert(after[i] == final(table)@[i]@);
}

} // verus!
