//! The order of steps in which files are moved and completed downloads are tidied up. Each step
//! is carried out elsewhere; what follows depends on how it went.

use vstd::prelude::*;

use crate::number::{decimal, write_decimal};
use crate::text::{append_text, chars_of, extend, string_of};

verus! {

// ---------------------------------------------------------------------------
// One file
// ---------------------------------------------------------------------------

/// How far the move of a file is.
#[derive(Clone, Copy, Debug, PartialEq, Eq, Structural)]
pub enum MoveState {
    Renaming,
    Copying,
    Syncing,
    Finalizing,
    Removing,
    Cleaning,
    Moved,
    Failed,
}

/// What is to be done for the move of a file.
#[derive(Clone, Copy, Debug, PartialEq, Eq, Structural)]
pub enum MoveAction {
    /// Rename the file.
    Rename,
    /// Copy it to a temporary file in the directory of its destination.
    Copy,
    /// Write the temporary file out to the disk.
    Sync,
    /// Rename the temporary file to the destination.
    Finalize,
    /// Remove the file itself.
    RemoveSource,
    /// Remove the temporary file.
    RemoveTemporary,
    /// Nothing; the file was moved or not.
    Finish(bool),
}

/// How a step of a move went.
#[derive(Clone, Copy, Debug, PartialEq, Eq, Structural)]
pub enum MoveEvent {
    Done,
    /// The destination lies on another filesystem.
    CrossesDevices,
    Failed,
}

/// What is to be done in a state.
pub open spec fn move_action(state: MoveState) -> MoveAction {
    match state {
        MoveState::Renaming => MoveAction::Rename,
        MoveState::Copying => MoveAction::Copy,
        MoveState::Syncing => MoveAction::Sync,
        MoveState::Finalizing => MoveAction::Finalize,
        MoveState::Removing => MoveAction::RemoveSource,
        MoveState::Cleaning => MoveAction::RemoveTemporary,
        MoveState::Moved => MoveAction::Finish(true),
        MoveState::Failed => MoveAction::Finish(false),
    }
}

/// The state after a step.
pub open spec fn move_next(state: MoveState, event: MoveEvent) -> MoveState {
    match state {
        MoveState::Renaming => match event {
            MoveEvent::Done => MoveState::Moved,
            MoveEvent::CrossesDevices => MoveState::Copying,
            MoveEvent::Failed => MoveState::Failed,
        },
        MoveState::Copying => if event is Done {
            MoveState::Syncing
        } else {
            MoveState::Cleaning
        },
        MoveState::Syncing => if event is Done {
            MoveState::Finalizing
        } else {
            MoveState::Cleaning
        },
        MoveState::Finalizing => if event is Done {
            MoveState::Removing
        } else {
            MoveState::Cleaning
        },
        MoveState::Removing => if event is Done {
            MoveState::Moved
        } else {
            MoveState::Failed
        },
        MoveState::Cleaning => MoveState::Failed,
        MoveState::Moved => MoveState::Moved,
        MoveState::Failed => MoveState::Failed,
    }
}

/// The state after several steps.
pub open spec fn move_after(events: Seq<MoveEvent>) -> MoveState
    decreases events.len(),
{
    if events.len() == 0 {
        MoveState::Renaming
    } else {
        move_next(move_after(events.drop_last()), events.last())
    }
}

impl MoveState {
    /// What is to be done next.
    pub fn action(self) -> (action: MoveAction)
        ensures
            action == move_action(self),
    {
        match self {
            MoveState::Renaming => MoveAction::Rename,
            MoveState::Copying => MoveAction::Copy,
            MoveState::Syncing => MoveAction::Sync,
            MoveState::Finalizing => MoveAction::Finalize,
            MoveState::Removing => MoveAction::RemoveSource,
            MoveState::Cleaning => MoveAction::RemoveTemporary,
            MoveState::Moved => MoveAction::Finish(true),
            MoveState::Failed => MoveAction::Finish(false),
        }
    }

    /// The state after what was to be done.
    pub fn next(self, event: MoveEvent) -> (state: MoveState)
        ensures
            state == move_next(self, event),
    {
        let done = match event {
            MoveEvent::Done => true,
            _ => false,
        };
        match self {
            MoveState::Renaming => match event {
                MoveEvent::Done => MoveState::Moved,
                MoveEvent::CrossesDevices => MoveState::Copying,
                MoveEvent::Failed => MoveState::Failed,
            },
            MoveState::Copying => if done {
                MoveState::Syncing
            } else {
                MoveState::Cleaning
            },
            MoveState::Syncing => if done {
                MoveState::Finalizing
            } else {
                MoveState::Cleaning
            },
            MoveState::Finalizing => if done {
                MoveState::Removing
            } else {
                MoveState::Cleaning
            },
            MoveState::Removing => if done {
                MoveState::Moved
            } else {
                MoveState::Failed
            },
            MoveState::Cleaning => MoveState::Failed,
            MoveState::Moved => MoveState::Moved,
            MoveState::Failed => MoveState::Failed,
        }
    }
}

/// A file is removed only after a copy of it was written out and stands at the destination.
pub proof fn sources_are_removed_only_after_the_copy_is_final(events: Seq<MoveEvent>)
    requires
        move_action(move_after(events)) is RemoveSource,
    ensures
        events == seq![
            MoveEvent::CrossesDevices,
            MoveEvent::Done,
            MoveEvent::Done,
            MoveEvent::Done,
        ],
{
    lemma_move_states(events);
}

proof fn lemma_move_states(events: Seq<MoveEvent>)
    ensures
        match move_after(events) {
            MoveState::Renaming => events == Seq::<MoveEvent>::empty(),
            MoveState::Copying => events == seq![MoveEvent::CrossesDevices],
            MoveState::Syncing => events == seq![MoveEvent::CrossesDevices, MoveEvent::Done],
            MoveState::Finalizing => events == seq![
                MoveEvent::CrossesDevices,
                MoveEvent::Done,
                MoveEvent::Done,
            ],
            MoveState::Removing => events == seq![
                MoveEvent::CrossesDevices,
                MoveEvent::Done,
                MoveEvent::Done,
                MoveEvent::Done,
            ],
            MoveState::Cleaning => 2 <= events.len() <= 4,
            _ => events.len() >= 1,
        },
    decreases events.len(),
{
    if events.len() == 0 {
        assert(events =~= Seq::empty());
    } else {
        lemma_move_states(events.drop_last());
        assert(events =~= events.drop_last().push(events.last()));
    }
}

/// A move within a filesystem is one renaming: no temporary file is made.
pub proof fn moves_within_a_filesystem_make_no_temporary_file(events: Seq<MoveEvent>)
    requires
        events.len() > 0,
        events[0] is Done,
    ensures
        move_after(events) is Moved,
    decreases events.len(),
{
    if events.len() == 1 {
        assert(events.drop_last() =~= Seq::empty());
    } else {
        moves_within_a_filesystem_make_no_temporary_file(events.drop_last());
    }
}

/// Where a copy cannot be made final, its temporary file is removed and the file stays.
pub proof fn failed_copies_leave_no_temporary_file(state: MoveState, event: MoveEvent)
    requires
        state is Copying || state is Syncing || state is Finalizing,
        !(event is Done),
    ensures
        move_action(move_next(state, event)) is RemoveTemporary,
        forall|last: MoveEvent|
            move_action(#[trigger] move_next(move_next(state, event), last)) == MoveAction::Finish(
                false,
            ),
{
}

/// Every move ends, after six steps at the latest.
pub proof fn moves_end(events: Seq<MoveEvent>)
    requires
        events.len() >= 6,
    ensures
        move_action(move_after(events)) is Finish,
    decreases events.len(),
{
    lemma_move_states(events);
}

/// The name of the temporary file beside a destination.
pub open spec fn temporary_name(file_name: Seq<char>, process: nat) -> Seq<char> {
    "."@ + file_name + ".hd-movies-"@ + decimal(process) + ".part"@
}

/// The name of the temporary file beside a destination, where the name of that is a text.
pub fn temporary_file_name(file_name: Option<&str>, process: u32) -> (name: String)
    ensures
        name@ == temporary_name(
            match file_name {
                Some(file_name) => file_name@,
                None => "movie"@,
            },
            process as nat,
        ),
{
    let mut name = chars_of(".");
    append_text(
        &mut name,
        match file_name {
            Some(file_name) => file_name,
            None => "movie",
        },
    );
    append_text(&mut name, ".hd-movies-");
    let number = write_decimal(process as u64);
    extend(&mut name, &number);
    append_text(&mut name, ".part");
    string_of(&name)
}

/// Whether a file that was moved can be moved back: it stands at its destination, and nothing
/// took its old place.
pub fn can_move_back(destination_exists: bool, source_exists: bool) -> (can: bool)
    ensures
        can == (destination_exists && !source_exists),
{
    destination_exists && !source_exists
}

// ---------------------------------------------------------------------------
// One completed download
// ---------------------------------------------------------------------------

/// How far the tidying of a completed download is.
#[derive(Clone, Copy, Debug, PartialEq, Eq, Structural)]
pub enum JobState {
    Creating,
    Moving(usize),
    Forgetting,
    Clearing,
    GoingBack(usize),
    Discarding,
    Organized,
    Failed,
}

/// What is to be done for a completed download.
#[derive(Clone, Copy, Debug, PartialEq, Eq, Structural)]
pub enum JobAction {
    /// Create the destination folder.
    CreateDestination,
    /// Make the move of that number.
    Move(usize),
    /// Make Transmission forget the torrent.
    ForgetTorrent,
    /// Remove the directory of the download.
    RemoveDownload,
    /// Undo the move of that number.
    MoveBack(usize),
    /// Remove the destination folder.
    RemoveDestination,
    /// Nothing; the download was organized or not.
    Finish(bool),
}

/// What is to be done in a state.
pub open spec fn job_action(state: JobState) -> JobAction {
    match state {
        JobState::Creating => JobAction::CreateDestination,
        JobState::Moving(i) => JobAction::Move(i),
        JobState::Forgetting => JobAction::ForgetTorrent,
        JobState::Clearing => JobAction::RemoveDownload,
        JobState::GoingBack(i) => JobAction::MoveBack(i),
        JobState::Discarding => JobAction::RemoveDestination,
        JobState::Organized => JobAction::Finish(true),
        JobState::Failed => JobAction::Finish(false),
    }
}

/// The state in which `done` of `count` moves were made.
pub open spec fn onward(done: int, count: usize) -> JobState {
    if done < count {
        JobState::Moving(done as usize)
    } else {
        JobState::Forgetting
    }
}

/// The state in which `left` moves are still to be undone.
pub open spec fn backward(left: int) -> JobState {
    if left > 0 {
        JobState::GoingBack((left - 1) as usize)
    } else {
        JobState::Discarding
    }
}

/// The state after a step of a job with `count` moves.
pub open spec fn job_next(state: JobState, count: usize, succeeded: bool) -> JobState {
    match state {
        JobState::Creating => if succeeded {
            onward(0, count)
        } else {
            JobState::Failed
        },
        JobState::Moving(i) => if succeeded {
            onward(i + 1, count)
        } else {
            backward(i as int)
        },
        JobState::Forgetting => if succeeded {
            JobState::Clearing
        } else {
            backward(count as int)
        },
        JobState::Clearing => if succeeded {
            JobState::Organized
        } else {
            JobState::Failed
        },
        JobState::GoingBack(i) => backward(i as int),
        JobState::Discarding => JobState::Failed,
        JobState::Organized => JobState::Organized,
        JobState::Failed => JobState::Failed,
    }
}

/// Where a job begins: a destination folder that is there already is left alone.
pub open spec fn job_start(destination_exists: bool) -> JobState {
    if destination_exists {
        JobState::Failed
    } else {
        JobState::Creating
    }
}

/// The state of a job with `count` moves after several steps.
pub open spec fn job_after(destination_exists: bool, count: usize, results: Seq<bool>) -> JobState
    decreases results.len(),
{
    if results.len() == 0 {
        job_start(destination_exists)
    } else {
        job_next(
            job_after(destination_exists, count, results.drop_last()),
            count,
            results.last(),
        )
    }
}

fn go_on(done: usize, count: usize) -> (state: JobState)
    ensures
        state == onward(done as int, count),
{
    if done < count {
        JobState::Moving(done)
    } else {
        JobState::Forgetting
    }
}

fn go_back(left: usize) -> (state: JobState)
    ensures
        state == backward(left as int),
{
    if left > 0 {
        JobState::GoingBack(left - 1)
    } else {
        JobState::Discarding
    }
}

impl JobState {
    /// Where a job begins.
    pub fn start(destination_exists: bool) -> (state: JobState)
        ensures
            state == job_start(destination_exists),
    {
        if destination_exists {
            JobState::Failed
        } else {
            JobState::Creating
        }
    }

    /// What is to be done next.
    pub fn action(self) -> (action: JobAction)
        ensures
            action == job_action(self),
    {
        match self {
            JobState::Creating => JobAction::CreateDestination,
            JobState::Moving(i) => JobAction::Move(i),
            JobState::Forgetting => JobAction::ForgetTorrent,
            JobState::Clearing => JobAction::RemoveDownload,
            JobState::GoingBack(i) => JobAction::MoveBack(i),
            JobState::Discarding => JobAction::RemoveDestination,
            JobState::Organized => JobAction::Finish(true),
            JobState::Failed => JobAction::Finish(false),
        }
    }

    /// The state after what was to be done, in a job with `count` moves.
    pub fn next(self, count: usize, succeeded: bool) -> (state: JobState)
        requires
            self is Moving ==> self->Moving_0 < count,
        ensures
            state == job_next(self, count, succeeded),
            state is Moving ==> state->Moving_0 < count,
    {
        match self {
            JobState::Creating => if succeeded {
                go_on(0, count)
            } else {
                JobState::Failed
            },
            JobState::Moving(i) => if succeeded {
                go_on(i + 1, count)
            } else {
                go_back(i)
            },
            JobState::Forgetting => if succeeded {
                JobState::Clearing
            } else {
                go_back(count)
            },
            JobState::Clearing => if succeeded {
                JobState::Organized
            } else {
                JobState::Failed
            },
            JobState::GoingBack(i) => go_back(i),
            JobState::Discarding => JobState::Failed,
            JobState::Organized => JobState::Organized,
            JobState::Failed => JobState::Failed,
        }
    }
}

/// The state of a job in which the first `steps` steps succeeded.
pub open spec fn untroubled(steps: int, count: usize) -> JobState {
    if steps == 0 {
        JobState::Creating
    } else if steps <= count + 1 {
        onward(steps - 1, count)
    } else if steps == count + 2 {
        JobState::Clearing
    } else {
        JobState::Organized
    }
}

/// Every step succeeded.
pub open spec fn all_succeeded(results: Seq<bool>) -> bool {
    forall|i: int| 0 <= i < results.len() ==> #[trigger] results[i]
}

/// A job without failures makes its steps in order; after a failure it never goes on.
proof fn lemma_job_states(count: usize, results: Seq<bool>)
    ensures
        all_succeeded(results) ==> job_after(false, count, results) == untroubled(
            results.len() as int,
            count,
        ),
        !all_succeeded(results) ==> {
            let state = job_after(false, count, results);
            state is GoingBack || state is Discarding || state is Failed || state is Organized
        },
        !all_succeeded(results) && job_after(false, count, results) is Organized ==> results.len()
            > count + 3,
    decreases results.len(),
{
    if results.len() > 0 {
        let front = results.drop_last();
        lemma_job_states(count, front);
        assert(all_succeeded(results) <==> all_succeeded(front) && results.last()) by {
            if all_succeeded(results) {
                assert forall|i: int| 0 <= i < front.len() implies #[trigger] front[i] by {
                    assert(results[i]);
                }
                assert(results[results.len() - 1]);
            }
            if all_succeeded(front) && results.last() {
                assert forall|i: int| 0 <= i < results.len() implies #[trigger] results[i] by {
                    if i < front.len() {
                        assert(front[i]);
                    }
                }
            }
        }
    }
}

/// The directory of a download is removed only after the destination folder was created, every
/// file was moved and Transmission forgot the torrent, in that order.
pub proof fn downloads_are_removed_only_after_everything_succeeded(
    count: usize,
    results: Seq<bool>,
)
    requires
        job_action(job_after(false, count, results)) is RemoveDownload,
    ensures
        all_succeeded(results),
        results.len() == count + 2,
        job_action(job_after(false, count, results.take(0))) is CreateDestination,
        forall|i: usize|
            i < count ==> job_action(#[trigger] job_after(false, count, results.take(i + 1)))
                == JobAction::Move(i),
        job_action(job_after(false, count, results.take(count + 1))) is ForgetTorrent,
{
    lemma_job_states(count, results);
    lemma_job_states(count, results.take(0));
    assert(all_succeeded(results.take(0)));
    assert forall|i: usize| i < count implies job_action(
        #[trigger] job_after(false, count, results.take(i + 1)),
    ) == JobAction::Move(i) by {
        assert(all_succeeded(results.take(i + 1))) by {
            assert forall|k: int| 0 <= k < i + 1 implies #[trigger] results.take(i + 1)[k] by {
                assert(results[k]);
            }
        }
        lemma_job_states(count, results.take(i + 1));
    }
    assert(all_succeeded(results.take(count + 1))) by {
        assert forall|k: int| 0 <= k < count + 1 implies #[trigger] results.take(count + 1)[k] by {
            assert(results[k]);
        }
    }
    lemma_job_states(count, results.take(count + 1));
}

/// Transmission is told to forget a torrent only after every file was moved.
pub proof fn torrents_are_forgotten_only_after_every_move(count: usize, results: Seq<bool>)
    requires
        job_action(job_after(false, count, results)) is ForgetTorrent,
    ensures
        all_succeeded(results),
        results.len() == count + 1,
{
    lemma_job_states(count, results);
}

/// A destination folder that is there already is never written to: nothing is done at all.
pub proof fn collisions_leave_everything_untouched(count: usize, results: Seq<bool>)
    ensures
        job_action(job_after(true, count, results)) == JobAction::Finish(false),
    decreases results.len(),
{
    if results.len() > 0 {
        collisions_leave_everything_untouched(count, results.drop_last());
    }
}

/// After a failure with `done` moves made, those are undone in the reverse order, whether or
/// not undoing works; then the destination folder is removed, and the job has failed.
pub proof fn moves_are_undone_in_reverse(
    count: usize,
    done: int,
    results: Seq<bool>,
    steps: int,
)
    requires
        0 <= done <= count,
        results.len() == done + 2 + steps,
        all_succeeded(results.take(done + 1)),
        !results[done + 1],
        steps >= 0,
    ensures
        job_action(job_after(false, count, results)) == if steps < done {
            JobAction::MoveBack((done - 1 - steps) as usize)
        } else if steps == done {
            JobAction::RemoveDestination
        } else {
            JobAction::Finish(false)
        },
{
    lemma_backward_states(count, done, results, steps);
}

proof fn lemma_backward_states(count: usize, done: int, results: Seq<bool>, steps: int)
    requires
        0 <= done <= count,
        results.len() == done + 2 + steps,
        all_succeeded(results.take(done + 1)),
        !results[done + 1],
        steps >= 0,
    ensures
        job_after(false, count, results) == if steps <= done {
            backward(done - steps)
        } else {
            JobState::Failed
        },
    decreases steps,
{
    if steps == 0 {
        lemma_job_states(count, results.take(done + 1));
        assert(results.drop_last() =~= results.take(done + 1));
    } else {
        let front = results.drop_last();
        assert(front.take(done + 1) =~= results.take(done + 1));
        lemma_backward_states(count, done, front, steps - 1);
    }
}

/// A job reports success only when every one of its steps succeeded.
pub proof fn success_means_that_every_step_succeeded(count: usize, results: Seq<bool>)
    requires
        results.len() == count + 3,
        job_action(job_after(false, count, results)) == JobAction::Finish(true),
    ensures
        all_succeeded(results),
{
    lemma_job_states(count, results);
}

/// How many steps a job may still take.
spec fn steps_left(state: JobState, count: usize) -> int {
    match state {
        JobState::Creating => 2 * count + 3,
        JobState::Moving(i) => 2 * count + 2 - i,
        JobState::Forgetting => count + 2,
        JobState::Clearing => 1,
        JobState::GoingBack(i) => i + 2,
        JobState::Discarding => 1,
        JobState::Organized => 0,
        JobState::Failed => 0,
    }
}

/// Every job ends, after twice as many steps as it has moves and three more at the latest.
pub proof fn jobs_end(destination_exists: bool, count: usize, results: Seq<bool>)
    requires
        results.len() >= 2 * count + 3,
    ensures
        job_action(job_after(destination_exists, count, results)) is Finish,
{
    lemma_steps_left(destination_exists, count, results);
}

proof fn lemma_steps_left(destination_exists: bool, count: usize, results: Seq<bool>)
    ensures
        ({
            let state = job_after(destination_exists, count, results);
            &&& 0 <= steps_left(state, count)
            &&& steps_left(state, count) <= 2 * count + 3 - results.len() || steps_left(
                state,
                count,
            ) == 0
            &&& state is Moving ==> state->Moving_0 < count
        }),
    decreases results.len(),
{
    if results.len() > 0 {
        lemma_steps_left(destination_exists, count, results.drop_last());
    }
}

// ---------------------------------------------------------------------------
// Whole courses of moves and jobs
// ---------------------------------------------------------------------------

/// A file is first renamed. Where its destination lies on another filesystem it is copied to a
/// temporary file, which is written out and renamed, and then the file is removed; as long as
/// every step is done, each follows the one before.
pub proof fn moves_copy_only_across_filesystems()
    ensures
        ({
            let cross = MoveEvent::CrossesDevices;
            let done = MoveEvent::Done;
            &&& move_action(move_after(Seq::empty())) is Rename
            &&& move_action(move_after(seq![done])) == MoveAction::Finish(true)
            &&& move_action(move_after(seq![cross])) is Copy
            &&& move_action(move_after(seq![cross, done])) is Sync
            &&& move_action(move_after(seq![cross, done, done])) is Finalize
            &&& move_action(move_after(seq![cross, done, done, done])) is RemoveSource
            &&& move_action(move_after(seq![cross, done, done, done, done])) == MoveAction::Finish(
                true,
            )
        }),
{
    let cross = MoveEvent::CrossesDevices;
    let done = MoveEvent::Done;
    reveal_with_fuel(move_after, 6);
    assert(seq![done].drop_last() =~= Seq::empty());
    assert(seq![cross].drop_last() =~= Seq::empty());
    assert(seq![cross, done].drop_last() =~= seq![cross]);
    assert(seq![cross, done, done].drop_last() =~= seq![cross, done]);
    assert(seq![cross, done, done, done].drop_last() =~= seq![cross, done, done]);
    assert(seq![cross, done, done, done, done].drop_last() =~= seq![cross, done, done, done]);
}

/// A move fails at once where renaming fails for another reason, or where the file cannot be
/// removed after it was copied; in neither case is anything done about it.
pub proof fn other_failures_end_a_move(event: MoveEvent)
    requires
        !(event is Done),
    ensures
        move_action(move_after(seq![MoveEvent::Failed])) == MoveAction::Finish(false),
        move_action(
            move_after(
                seq![
                    MoveEvent::CrossesDevices,
                    MoveEvent::Done,
                    MoveEvent::Done,
                    MoveEvent::Done,
                    event,
                ],
            ),
        ) == MoveAction::Finish(false),
{
    moves_copy_only_across_filesystems();
    let copied = seq![
        MoveEvent::CrossesDevices,
        MoveEvent::Done,
        MoveEvent::Done,
        MoveEvent::Done,
    ];
    reveal_with_fuel(move_after, 2);
    assert(seq![MoveEvent::Failed].drop_last() =~= Seq::empty());
    assert(seq![
        MoveEvent::CrossesDevices,
        MoveEvent::Done,
        MoveEvent::Done,
        MoveEvent::Done,
        event,
    ].drop_last() =~= copied);
    lemma_move_states(copied);
    assert(move_after(copied) is Removing);
}

/// A move that has come to its end stays there.
pub proof fn ended_moves_stay_ended(state: MoveState, event: MoveEvent)
    requires
        move_action(state) is Finish,
    ensures
        move_action(move_next(state, event)) == move_action(state),
{
}

/// A move reports success only where the file was renamed, or where it was copied, written out,
/// renamed and removed.
pub proof fn moves_succeed_only_by_renaming_or_a_whole_copy(events: Seq<MoveEvent>)
    requires
        move_action(move_after(events)) == MoveAction::Finish(true),
    ensures
        events.len() > 0,
        events[0] is Done || (events.len() >= 5 && events.take(5) == seq![
            MoveEvent::CrossesDevices,
            MoveEvent::Done,
            MoveEvent::Done,
            MoveEvent::Done,
            MoveEvent::Done,
        ]),
    decreases events.len(),
{
    if events.len() > 0 {
        let front = events.drop_last();
        lemma_move_states(front);
        if move_action(move_after(front)) == MoveAction::Finish(true) {
            moves_succeed_only_by_renaming_or_a_whole_copy(front);
            if !(events[0] is Done) {
                assert(events.take(5) =~= front.take(5));
            }
        } else if move_after(front) is Removing {
            assert(events =~= front.push(MoveEvent::Done));
            assert(events.take(5) =~= events);
        }
    }
}

/// The temporary file lies beside the destination: hidden, under its name, the name of this
/// program, the number of the process and the ending `part`.
pub proof fn temporary_files_are_hidden_parts(file_name: Seq<char>, process: nat)
    ensures
        temporary_name(file_name, process) == "."@ + file_name + ".hd-movies-"@ + decimal(process)
            + ".part"@,
{
}

/// A job first creates the destination folder; where that fails it ends, with nothing to undo.
pub proof fn jobs_begin_with_the_folder(count: usize)
    ensures
        job_action(job_after(false, count, Seq::empty())) is CreateDestination,
        job_action(job_after(false, count, seq![false])) == JobAction::Finish(false),
        job_action(job_after(false, count, seq![true])) == if count > 0 {
            JobAction::Move(0)
        } else {
            JobAction::ForgetTorrent
        },
{
    reveal_with_fuel(job_after, 2);
    assert(seq![false].drop_last() =~= Seq::empty());
    assert(seq![true].drop_last() =~= Seq::empty());
}

/// While every step succeeds, a job makes its moves one after the other, then has the torrent
/// forgotten, then removes the download, and then reports success.
pub proof fn untroubled_jobs_go_to_their_end(count: usize, results: Seq<bool>)
    requires
        all_succeeded(results),
    ensures
        job_action(job_after(false, count, results)) == if results.len() == 0 {
            JobAction::CreateDestination
        } else if results.len() <= count {
            JobAction::Move((results.len() - 1) as usize)
        } else if results.len() == count + 1 {
            JobAction::ForgetTorrent
        } else if results.len() == count + 2 {
            JobAction::RemoveDownload
        } else {
            JobAction::Finish(true)
        },
{
    lemma_job_states(count, results);
}

/// Where the download cannot be removed the job has failed, but nothing is moved back: the torrent
/// is forgotten already.
pub proof fn downloads_that_cannot_be_removed_are_left(count: usize, results: Seq<bool>)
    requires
        all_succeeded(results),
        results.len() == count + 2,
    ensures
        job_action(job_after(false, count, results.push(false))) == JobAction::Finish(false),
{
    lemma_job_states(count, results);
    assert(results.push(false).drop_last() =~= results);
}

/// A job that has come to its end stays there.
pub proof fn ended_jobs_stay_ended(state: JobState, count: usize, succeeded: bool)
    requires
        job_action(state) is Finish,
    ensures
        job_action(job_next(state, count, succeeded)) == job_action(state),
{
}

/// The temporary file of a destination without a name that is a text is called by `movie`.
pub proof fn temporary_files_are_called_by_their_destinations(
    file_name: Option<&str>,
    process: u32,
    name: String,
)
    requires
        call_ensures(temporary_file_name, (file_name, process), name),
    ensures
        name@ == "."@ + (if file_name is Some {
            file_name->0@
        } else {
            "movie"@
        }) + ".hd-movies-"@ + decimal(process as nat) + ".part"@,
{
}

/// A file is moved back only from where it is to where nothing is.
pub proof fn nothing_is_overwritten_by_moving_back(
    destination_exists: bool,
    source_exists: bool,
    can: bool,
)
    requires
        call_ensures(can_move_back, (destination_exists, source_exists), can),
    ensures
        can <==> destination_exists && !source_exists,
{
}

} // verus!
