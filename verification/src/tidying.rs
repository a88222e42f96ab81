//! A round through the completed downloads: which of them are organized, in which order, and what
//! a failure stops. Each step is carried out elsewhere; what follows depends on how it went.

use vstd::prelude::*;

use crate::organizer::{
    are_separate, children_have_one_name_more, directories_are_separate, is_child,
    managed_job_directory,
};
use crate::paths::names;

verus! {

/// How a round ended.
#[derive(Clone, Copy, Debug, PartialEq, Eq, Structural)]
pub enum TidyEnd {
    /// A step failed before the completed torrents were known.
    Failed,
    /// One of the library and the downloads lies in the other.
    NotSeparate,
    /// Every completed torrent had its turn; so many were organized.
    Organized(usize),
}

/// A step of a round.
#[derive(Clone, Copy, Debug, PartialEq, Eq, Structural)]
pub enum TidyStep {
    /// Look for the directory of the downloads.
    FindDownloads,
    /// Create the directory of the library.
    CreateLibrary,
    /// Resolve both directories.
    ResolveDirectories,
    /// Ask for the completed torrents.
    ListTorrents,
    /// Resolve the directory of the torrent of that number.
    Resolve(usize),
    /// Organize the torrent of that number.
    Organize(usize),
    /// Nothing more.
    End(TidyEnd),
}

/// How a step went.
pub enum TidyEvent {
    /// It is done.
    Done,
    /// It failed.
    Failed,
    /// The directories of the library and of the downloads were resolved, to the names on the way
    /// to each.
    Directories(Vec<Vec<u8>>, Vec<Vec<u8>>),
    /// There are so many completed torrents.
    Torrents(usize),
    /// The directory of a torrent was resolved, to the names on the way to it.
    Directory(Vec<Vec<u8>>),
    /// A torrent was organized, or there was nothing in it to organize.
    Organized(bool),
}

/// What a [`TidyEvent`] says.
pub enum TidyEventView {
    Done,
    Failed,
    Directories(Seq<Seq<u8>>, Seq<Seq<u8>>),
    Torrents(usize),
    Directory(Seq<Seq<u8>>),
    Organized(bool),
}

impl View for TidyEvent {
    type V = TidyEventView;

    open spec fn view(&self) -> TidyEventView {
        match *self {
            TidyEvent::Done => TidyEventView::Done,
            TidyEvent::Failed => TidyEventView::Failed,
            TidyEvent::Directories(library, downloads) => TidyEventView::Directories(
                names(library@),
                names(downloads@),
            ),
            TidyEvent::Torrents(count) => TidyEventView::Torrents(count),
            TidyEvent::Directory(directory) => TidyEventView::Directory(names(directory@)),
            TidyEvent::Organized(organized) => TidyEventView::Organized(organized),
        }
    }
}

/// Where a round stands: its step, the resolved directories, the number of completed torrents,
/// and how many of them were organized.
pub struct Tidying {
    pub step: TidyStep,
    pub library: Vec<Vec<u8>>,
    pub downloads: Vec<Vec<u8>>,
    pub torrents: usize,
    pub organized: usize,
}

/// What a [`Tidying`] says.
#[verifier::ext_equal]
pub struct TidyView {
    pub step: TidyStep,
    pub library: Seq<Seq<u8>>,
    pub downloads: Seq<Seq<u8>>,
    pub torrents: usize,
    pub organized: usize,
}

impl View for Tidying {
    type V = TidyView;

    open spec fn view(&self) -> TidyView {
        TidyView {
            step: self.step,
            library: names(self.library@),
            downloads: names(self.downloads@),
            torrents: self.torrents,
            organized: self.organized,
        }
    }
}

impl TidyView {
    /// The torrents that had their turn.
    pub open spec fn taken(self) -> int {
        match self.step {
            TidyStep::Resolve(i) => i as int,
            TidyStep::Organize(i) => i as int,
            TidyStep::End(_) => self.torrents as int,
            _ => 0,
        }
    }

    /// No more torrents were organized than had their turn, and none of them before the
    /// directories were found to be separate.
    pub open spec fn well_formed(self) -> bool {
        &&& self.organized <= self.taken()
        &&& self.step is Resolve || self.step is Organize ==> self.taken() < self.torrents
        &&& self.step is ListTorrents || self.step is Resolve || self.step is Organize
            ==> are_separate(self.library, self.downloads)
        &&& self.step is End && self.step->End_0 is Organized ==> self.step->End_0->Organized_0
            == self.organized
    }

    /// The round with its next torrent, after `taken` had their turn.
    pub open spec fn upcoming(self, taken: int) -> TidyView {
        TidyView {
            step: if taken < self.torrents {
                TidyStep::Resolve(taken as usize)
            } else {
                TidyStep::End(TidyEnd::Organized(self.organized))
            },
            ..self
        }
    }

    /// The round, ended.
    pub open spec fn ended(self, end: TidyEnd) -> TidyView {
        TidyView { step: TidyStep::End(end), ..self }
    }
}

/// Where a round begins.
pub open spec fn tidy_start() -> TidyView {
    TidyView {
        step: TidyStep::FindDownloads,
        library: seq![],
        downloads: seq![],
        torrents: 0,
        organized: 0,
    }
}

/// Where a round stands after a step. Until the completed torrents are known a failure ends it;
/// from then on it takes every torrent in turn. A torrent whose directory is not a direct child
/// of the downloads is passed over, and so is one that cannot be organized.
pub open spec fn tidy_next(state: TidyView, event: TidyEventView) -> TidyView {
    match state.step {
        TidyStep::FindDownloads => match event {
            TidyEventView::Done => TidyView { step: TidyStep::CreateLibrary, ..state },
            _ => state.ended(TidyEnd::Failed),
        },
        TidyStep::CreateLibrary => match event {
            TidyEventView::Done => TidyView { step: TidyStep::ResolveDirectories, ..state },
            _ => state.ended(TidyEnd::Failed),
        },
        TidyStep::ResolveDirectories => match event {
            TidyEventView::Directories(library, downloads) => if are_separate(library, downloads) {
                TidyView { step: TidyStep::ListTorrents, library, downloads, ..state }
            } else {
                state.ended(TidyEnd::NotSeparate)
            },
            _ => state.ended(TidyEnd::Failed),
        },
        TidyStep::ListTorrents => match event {
            TidyEventView::Torrents(torrents) => (TidyView { torrents, ..state }).upcoming(0),
            _ => state.ended(TidyEnd::Failed),
        },
        TidyStep::Resolve(i) => match event {
            TidyEventView::Directory(directory) if is_child(directory, state.downloads) => {
                TidyView { step: TidyStep::Organize(i), ..state }
            },
            _ => state.upcoming(i + 1),
        },
        TidyStep::Organize(i) => match event {
            TidyEventView::Organized(true) => (TidyView {
                organized: (state.organized + 1) as usize,
                ..state
            }).upcoming(i + 1),
            _ => state.upcoming(i + 1),
        },
        TidyStep::End(_) => state,
    }
}

impl Tidying {
    /// Where a round begins.
    pub fn start() -> (tidying: Tidying)
        ensures
            tidying@ == tidy_start(),
            tidying@.well_formed(),
    {
        let tidying = Tidying {
            step: TidyStep::FindDownloads,
            library: Vec::new(),
            downloads: Vec::new(),
            torrents: 0,
            organized: 0,
        };
        assert(tidying@ =~= tidy_start());
        tidying
    }

    fn take(&mut self, taken: usize)
        ensures
            final(self)@ == old(self)@.upcoming(taken as int),
    {
        self.step = if taken < self.torrents {
            TidyStep::Resolve(taken)
        } else {
            TidyStep::End(TidyEnd::Organized(self.organized))
        };
    }

    fn end(&mut self, end: TidyEnd)
        ensures
            final(self)@ == old(self)@.ended(end),
    {
        self.step = TidyStep::End(end);
    }
}

/// Takes a round through the completed downloads one step further.
pub fn organize_completed(tidying: &mut Tidying, event: TidyEvent)
    requires
        old(tidying)@.well_formed(),
    ensures
        final(tidying)@ == tidy_next(old(tidying)@, event@),
        final(tidying)@.well_formed(),
{
    match tidying.step {
        TidyStep::FindDownloads => match event {
            TidyEvent::Done => {
                tidying.step = TidyStep::CreateLibrary;
            },
            _ => tidying.end(TidyEnd::Failed),
        },
        TidyStep::CreateLibrary => match event {
            TidyEvent::Done => {
                tidying.step = TidyStep::ResolveDirectories;
            },
            _ => tidying.end(TidyEnd::Failed),
        },
        TidyStep::ResolveDirectories => match event {
            TidyEvent::Directories(library, downloads) => {
                if directories_are_separate(&library, &downloads) {
                    tidying.library = library;
                    tidying.downloads = downloads;
                    tidying.step = TidyStep::ListTorrents;
                } else {
                    tidying.end(TidyEnd::NotSeparate)
                }
            },
            _ => tidying.end(TidyEnd::Failed),
        },
        TidyStep::ListTorrents => match event {
            TidyEvent::Torrents(torrents) => {
                tidying.torrents = torrents;
                tidying.take(0)
            },
            _ => tidying.end(TidyEnd::Failed),
        },
        TidyStep::Resolve(i) => {
            let managed = match &event {
                TidyEvent::Directory(directory) => managed_job_directory(
                    directory,
                    &tidying.downloads,
                ),
                _ => false,
            };
            if managed {
                tidying.step = TidyStep::Organize(i);
            } else {
                tidying.take(i + 1)
            }
        },
        TidyStep::Organize(i) => {
            match event {
                TidyEvent::Organized(true) => {
                    tidying.organized = tidying.organized + 1;
                },
                _ => {},
            }
            tidying.take(i + 1)
        },
        TidyStep::End(_) => {},
    }
}

// ---------------------------------------------------------------------------
// Laws
// ---------------------------------------------------------------------------

/// Where a round stands after several steps.
pub open spec fn tidy_after(events: Seq<TidyEventView>) -> TidyView
    decreases events.len(),
{
    if events.len() == 0 {
        tidy_start()
    } else {
        tidy_next(tidy_after(events.drop_last()), events.last())
    }
}

/// However its steps go, a round stays well formed: it has organized no more torrents than had
/// their turn, and none before the directories were found to be separate.
pub proof fn rounds_stay_well_formed(events: Seq<TidyEventView>)
    ensures
        tidy_after(events).well_formed(),
    decreases events.len(),
{
    if events.len() > 0 {
        rounds_stay_well_formed(events.drop_last());
    }
}

/// A torrent is organized only where its directory is a direct child of the downloads, which are
/// separate from the library.
pub proof fn only_managed_downloads_are_organized(events: Seq<TidyEventView>)
    requires
        tidy_after(events).step is Organize,
    ensures
        events.len() > 0,
        tidy_after(events.drop_last()).step == TidyStep::Resolve(
            tidy_after(events).step->Organize_0,
        ),
        events.last() is Directory,
        is_child(events.last()->Directory_0, tidy_after(events).downloads),
        are_separate(tidy_after(events).library, tidy_after(events).downloads),
{
    rounds_stay_well_formed(events);
    rounds_stay_well_formed(events.drop_last());
}

/// Once the completed torrents are known, no failure ends a round: whatever becomes of a torrent,
/// either it is organized now or the next one has its turn.
pub proof fn failures_do_not_stop_a_round(state: TidyView, event: TidyEventView)
    requires
        state.well_formed(),
        state.step is Resolve || state.step is Organize,
    ensures
        tidy_next(state, event).torrents == state.torrents,
        tidy_next(state, event).step == TidyStep::Organize(state.taken() as usize) || tidy_next(
            state,
            event,
        ).step == (if state.taken() + 1 < state.torrents {
            TidyStep::Resolve((state.taken() + 1) as usize)
        } else {
            TidyStep::End(TidyEnd::Organized(tidy_next(state, event).organized))
        }),
{
}

/// The torrents that were organized in the course of these steps.
pub open spec fn organized_in(events: Seq<TidyEventView>) -> int
    decreases events.len(),
{
    if events.len() == 0 {
        0
    } else if tidy_after(events.drop_last()).step is Organize && events.last()
        == TidyEventView::Organized(true) {
        organized_in(events.drop_last()) + 1
    } else {
        organized_in(events.drop_last())
    }
}

/// A round counts the torrents that were organized.
pub proof fn rounds_count_what_was_organized(events: Seq<TidyEventView>)
    ensures
        tidy_after(events).organized == organized_in(events),
        tidy_after(events).step matches TidyStep::End(TidyEnd::Organized(count)) ==> count
            == organized_in(events),
    decreases events.len(),
{
    if events.len() > 0 {
        let front = events.drop_last();
        rounds_count_what_was_organized(front);
        rounds_stay_well_formed(front);
    }
}

/// Where the library and the downloads are not separate, the round ends there and nothing is
/// organized, however it goes on.
pub proof fn rounds_refuse_directories_that_are_not_separate(
    events: Seq<TidyEventView>,
    at: int,
)
    requires
        0 <= at < events.len(),
        tidy_after(events.take(at)).step is ResolveDirectories,
        events[at] is Directories,
        !are_separate(events[at]->Directories_0, events[at]->Directories_1),
    ensures
        tidy_after(events).step == TidyStep::End(TidyEnd::NotSeparate),
        organized_in(events) == 0,
    decreases events.len(),
{
    let front = events.drop_last();
    rounds_stay_well_formed(events);
    rounds_count_what_was_organized(events);
    if at == events.len() - 1 {
        assert(front =~= events.take(at));
        rounds_stay_well_formed(front);
    } else {
        assert(front.take(at) =~= events.take(at));
        rounds_refuse_directories_that_are_not_separate(front, at);
        rounds_count_what_was_organized(front);
    }
}

/// The steps until the completed torrents are known.
pub open spec fn steps_to_listing(step: TidyStep) -> int {
    match step {
        TidyStep::FindDownloads => 4,
        TidyStep::CreateLibrary => 3,
        TidyStep::ResolveDirectories => 2,
        TidyStep::ListTorrents => 1,
        _ => 0,
    }
}

/// The most steps that a round takes once the completed torrents are known.
pub open spec fn steps_to_end(state: TidyView) -> int {
    match state.step {
        TidyStep::Resolve(i) => 2 * (state.torrents - i),
        TidyStep::Organize(i) => 2 * (state.torrents - i) - 1,
        _ => 0,
    }
}

/// Every step brings a round nearer to its end: the torrents are known after four steps, and
/// each of them takes two at the most.
pub proof fn rounds_come_to_an_end(state: TidyView, event: TidyEventView)
    requires
        state.well_formed(),
        !(state.step is End),
    ensures
        steps_to_listing(tidy_next(state, event).step) < steps_to_listing(state.step) || (
        steps_to_listing(state.step) == 0 && steps_to_listing(tidy_next(state, event).step) == 0
            && 0 <= steps_to_end(tidy_next(state, event)) < steps_to_end(state)),
        steps_to_listing(tidy_next(state, event).step) == 0 && steps_to_end(
            tidy_next(state, event),
        ) == 0 ==> tidy_next(state, event).step is End,
{
}

/// As long as all goes well, the downloads are looked for, the library is created, both are
/// resolved and the completed torrents are asked for, in that order.
pub proof fn rounds_prepare_in_order(library: Seq<Seq<u8>>, downloads: Seq<Seq<u8>>, count: usize)
    requires
        are_separate(library, downloads),
    ensures
        ({
            let done = TidyEventView::Done;
            let resolved = TidyEventView::Directories(library, downloads);
            let listed = tidy_after(seq![done, done, resolved, TidyEventView::Torrents(count)]);
            &&& tidy_after(Seq::empty()).step is FindDownloads
            &&& tidy_after(seq![done]).step is CreateLibrary
            &&& tidy_after(seq![done, done]).step is ResolveDirectories
            &&& tidy_after(seq![done, done, resolved]).step is ListTorrents
            &&& listed.step == if count > 0 {
                TidyStep::Resolve(0)
            } else {
                TidyStep::End(TidyEnd::Organized(0))
            }
            &&& listed.library == library
            &&& listed.downloads == downloads
            &&& listed.torrents == count
        }),
{
    let done = TidyEventView::Done;
    let resolved = TidyEventView::Directories(library, downloads);
    let torrents = TidyEventView::Torrents(count);
    reveal_with_fuel(tidy_after, 5);
    assert(seq![done].drop_last() =~= Seq::empty());
    assert(seq![done, done].drop_last() =~= seq![done]);
    assert(seq![done, done, resolved].drop_last() =~= seq![done, done]);
    assert(seq![done, done, resolved, torrents].drop_last() =~= seq![done, done, resolved]);
}

/// Until the completed torrents are known, a round goes on only with what each step is to bring;
/// anything else ends it. A round that has ended stays as it is.
pub proof fn early_failures_end_a_round(state: TidyView, event: TidyEventView)
    ensures
        (state.step is FindDownloads || state.step is CreateLibrary) && !(event is Done)
            ==> tidy_next(state, event).step == TidyStep::End(TidyEnd::Failed),
        state.step is ResolveDirectories && !(event is Directories) ==> tidy_next(state, event).step
            == TidyStep::End(TidyEnd::Failed),
        state.step is ListTorrents && !(event is Torrents) ==> tidy_next(state, event).step
            == TidyStep::End(TidyEnd::Failed),
        state.step is End ==> tidy_next(state, event) == state,
{
}

/// After a torrent had its turn the next one has it, whether the first was organized or not, and
/// after the last one the round ends with the number of those that were.
pub proof fn every_torrent_has_its_turn(state: TidyView, event: TidyEventView)
    requires
        state.well_formed(),
        state.step is Organize,
    ensures
        ({
            let i = state.step->Organize_0;
            let count = if event == TidyEventView::Organized(true) {
                state.organized + 1
            } else {
                state.organized as int
            };
            let next = tidy_next(state, event);
            &&& next.organized == count
            &&& next.torrents == state.torrents
            &&& next.downloads == state.downloads
            &&& next.step == if i + 1 < state.torrents {
                TidyStep::Resolve((i + 1) as usize)
            } else {
                TidyStep::End(TidyEnd::Organized(count as usize))
            }
        }),
{
}

/// A torrent whose directory is a direct child of the downloads is organized; one whose directory
/// is any other, or cannot be resolved, is passed over.
pub proof fn every_managed_download_is_organized(state: TidyView, directory: Seq<Seq<u8>>)
    requires
        state.well_formed(),
        state.step is Resolve,
    ensures
        ({
            let i = state.step->Resolve_0;
            let passed_over = if i + 1 < state.torrents {
                TidyStep::Resolve((i + 1) as usize)
            } else {
                TidyStep::End(TidyEnd::Organized(state.organized))
            };
            &&& tidy_next(state, TidyEventView::Directory(directory)).step == if directory.len()
                > 0 && directory.drop_last() == state.downloads {
                TidyStep::Organize(i)
            } else {
                passed_over
            }
            &&& tidy_next(state, TidyEventView::Failed).step == passed_over
        }),
{
    children_have_one_name_more(directory, state.downloads);
}

} // verus!
