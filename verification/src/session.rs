//! What is done about the files of one album, step by step: when to ask, what to
//! write, and which files to remove.
use vstd::prelude::*;

use crate::apple::catalog::upc_agrees;
use crate::select::{
    candidate_views, choose_candidate, is_confident, Candidate, CandidateView, Hint, HintView,
};

verus! {

/// How the work on an album ends.
#[derive(Clone, Copy, Debug, PartialEq, Eq, Structural)]
pub enum Outcome {
    /// No album was found.
    NotFound,
    /// None of the albums was picked.
    Skipped,
    /// Everything was shown, and nothing was to be written.
    Shown,
    /// The files are written.
    Written,
}

/// What to do next.
#[derive(Clone, Copy, Debug, PartialEq, Eq, Structural)]
pub enum Stage {
    /// Ask which of the albums it is.
    Ask,
    /// Read the files, and plan them as those of an album.
    Read(usize),
    /// Get the cover.
    Download,
    /// Show what is planned.
    Report,
    /// Make the directory of the album.
    MakeDir,
    /// Write a file.
    Save(usize),
    /// See whether a file was written over itself.
    Compare(usize),
    /// Remove the source of a file.
    Remove(usize),
    /// Say how many files were written.
    Count,
    /// Write the cover.
    PutCover,
    /// Nothing more.
    End(Outcome),
}

/// What came of the last step.
#[derive(Clone, Copy, Debug, PartialEq, Eq, Structural)]
pub enum Event {
    /// An album was picked.
    Picked(usize),
    /// None of the albums was picked.
    Declined,
    /// So many files are planned, for an album with a cover or without.
    Planned(usize, bool),
    /// The cover is there.
    Downloaded,
    /// What is planned has been shown.
    Reported,
    /// The directory is there.
    Made,
    /// The file is written.
    Saved,
    /// The file was written over itself, or not.
    Compared(bool),
    /// The source is removed.
    Removed,
    /// It has been said how many files were written.
    Counted,
    /// The cover is written.
    Put,
}

/// The work on an album: whether nothing is to be written, whether the sources
/// are to stay, what to do next, how many files there are, and whether there is
/// a cover to write.
#[derive(Clone, Copy, Debug, PartialEq, Eq, Structural)]
pub struct Session {
    pub dry_run: bool,
    pub copy: bool,
    pub stage: Stage,
    pub items: usize,
    pub cover: bool,
}

/// The start of the work on an album, with the albums that the files may be, the
/// best first: that is taken without asking where it can be.
pub open spec fn begun(
    dry_run: bool,
    copy: bool,
    candidates: Seq<CandidateView>,
    hint: HintView,
) -> Session {
    Session {
        dry_run,
        copy,
        stage: if candidates.len() == 0 {
            Stage::End(Outcome::NotFound)
        } else if is_confident(candidates[0], hint) {
            Stage::Read(0)
        } else {
            Stage::Ask
        },
        items: 0,
        cover: false,
    }
}

/// What to do once a file is dealt with: the next file, or what comes after the
/// last.
pub open spec fn after_file(items: usize, file: usize) -> Stage {
    if file + 1 < items {
        Stage::Save((file + 1) as usize)
    } else {
        Stage::Count
    }
}

/// The work on an album, after what came of a step. What does not belong to the
/// step changes nothing.
pub open spec fn after(session: Session, event: Event) -> Session {
    match (session.stage, event) {
        (Stage::Ask, Event::Picked(album)) => Session { stage: Stage::Read(album), ..session },
        (Stage::Ask, Event::Declined) => Session {
            stage: Stage::End(Outcome::Skipped),
            ..session
        },
        (Stage::Read(_), Event::Planned(items, art)) => Session {
            stage: if art && !session.dry_run {
                Stage::Download
            } else {
                Stage::Report
            },
            items,
            ..session
        },
        (Stage::Download, Event::Downloaded) => Session {
            stage: Stage::Report,
            cover: true,
            ..session
        },
        (Stage::Report, Event::Reported) => Session {
            stage: if session.dry_run {
                Stage::End(Outcome::Shown)
            } else {
                Stage::MakeDir
            },
            ..session
        },
        (Stage::MakeDir, Event::Made) => Session {
            stage: if session.items > 0 {
                Stage::Save(0)
            } else {
                Stage::Count
            },
            ..session
        },
        (Stage::Save(file), Event::Saved) => Session {
            stage: if session.copy {
                after_file(session.items, file)
            } else {
                Stage::Compare(file)
            },
            ..session
        },
        (Stage::Compare(file), Event::Compared(same)) => Session {
            stage: if same {
                after_file(session.items, file)
            } else {
                Stage::Remove(file)
            },
            ..session
        },
        (Stage::Remove(file), Event::Removed) => Session {
            stage: after_file(session.items, file),
            ..session
        },
        (Stage::Count, Event::Counted) => Session {
            stage: if session.cover {
                Stage::PutCover
            } else {
                Stage::End(Outcome::Written)
            },
            ..session
        },
        (Stage::PutCover, Event::Put) => Session {
            stage: Stage::End(Outcome::Written),
            ..session
        },
        _ => session,
    }
}

fn next_file(items: usize, file: usize) -> (stage: Stage)
    ensures
        stage == after_file(items, file),
{
    if file < items && file + 1 < items {
        Stage::Save(file + 1)
    } else {
        Stage::Count
    }
}

impl Session {
    /// Starts the work on an album.
    pub fn new(
        dry_run: bool,
        copy: bool,
        candidates: &Vec<Candidate>,
        hint: &Hint,
    ) -> (session: Session)
        ensures
            session == begun(dry_run, copy, candidate_views(candidates@), hint@),
    {
        proof {
            if candidates@.len() > 0 {
                assert(candidate_views(candidates@)[0] == candidates@[0]@);
            }
        }
        let stage = if candidates.len() == 0 {
            Stage::End(Outcome::NotFound)
        } else {
            match choose_candidate(candidates, hint) {
                Some(album) => Stage::Read(album),
                None => Stage::Ask,
            }
        };
        Session { dry_run, copy, stage, items: 0, cover: false }
    }

    /// Takes in what came of the last step.
    pub fn hear(&mut self, event: Event)
        ensures
            *final(self) == after(*old(self), event),
    {
        match (self.stage, event) {
            (Stage::Ask, Event::Picked(album)) => {
                self.stage = Stage::Read(album);
            },
            (Stage::Ask, Event::Declined) => {
                self.stage = Stage::End(Outcome::Skipped);
            },
            (Stage::Read(_), Event::Planned(items, art)) => {
                self.items = items;
                self.stage = if art && !self.dry_run {
                    Stage::Download
                } else {
                    Stage::Report
                };
            },
            (Stage::Download, Event::Downloaded) => {
                self.cover = true;
                self.stage = Stage::Report;
            },
            (Stage::Report, Event::Reported) => {
                self.stage = if self.dry_run {
                    Stage::End(Outcome::Shown)
                } else {
                    Stage::MakeDir
                };
            },
            (Stage::MakeDir, Event::Made) => {
                self.stage = if self.items > 0 {
                    Stage::Save(0)
                } else {
                    Stage::Count
                };
            },
            (Stage::Save(file), Event::Saved) => {
                self.stage = if self.copy {
                    next_file(self.items, file)
                } else {
                    Stage::Compare(file)
                };
            },
            (Stage::Compare(file), Event::Compared(same)) => {
                self.stage = if same {
                    next_file(self.items, file)
                } else {
                    Stage::Remove(file)
                };
            },
            (Stage::Remove(file), Event::Removed) => {
                self.stage = next_file(self.items, file);
            },
            (Stage::Count, Event::Counted) => {
                self.stage = if self.cover {
                    Stage::PutCover
                } else {
                    Stage::End(Outcome::Written)
                };
            },
            (Stage::PutCover, Event::Put) => {
                self.stage = Stage::End(Outcome::Written);
            },
            _ => {},
        }
    }
}

/// The work on an album, after some events.
pub open spec fn after_all(session: Session, events: Seq<Event>) -> Session
    decreases events.len(),
{
    if events.len() == 0 {
        session
    } else {
        after(after_all(session, events.drop_last()), events.last())
    }
}

/// Whether a step writes or removes anything.
pub open spec fn writes(stage: Stage) -> bool {
    match stage {
        Stage::MakeDir => true,
        Stage::Save(_) => true,
        Stage::Remove(_) => true,
        Stage::PutCover => true,
        _ => false,
    }
}

/// Whether a step is one of those that follow the report.
spec fn follows_report(stage: Stage) -> bool {
    writes(stage) || stage is Compare || stage == Stage::Count
}

/// A dry run writes nothing: whatever happens, no step is taken that writes or
/// removes anything, and no cover is downloaded.
pub proof fn dry_run_writes_nothing(
    copy: bool,
    candidates: Seq<CandidateView>,
    hint: HintView,
    events: Seq<Event>,
)
    ensures
        !writes(after_all(begun(true, copy, candidates, hint), events).stage),
        after_all(begun(true, copy, candidates, hint), events).stage != Stage::Download,
{
    lemma_dry_run(copy, candidates, hint, events);
}

proof fn lemma_dry_run(
    copy: bool,
    candidates: Seq<CandidateView>,
    hint: HintView,
    events: Seq<Event>,
)
    ensures
        ({
            let session = after_all(begun(true, copy, candidates, hint), events);
            &&& session.dry_run
            &&& !follows_report(session.stage)
            &&& session.stage != Stage::Download
        }),
    decreases events.len(),
{
    if events.len() > 0 {
        lemma_dry_run(copy, candidates, hint, events.drop_last());
    }
}

/// Where files are copied, their sources stay: whatever happens, none is
/// removed.
pub proof fn copying_keeps_the_sources(
    dry_run: bool,
    candidates: Seq<CandidateView>,
    hint: HintView,
    events: Seq<Event>,
)
    ensures
        !(after_all(begun(dry_run, true, candidates, hint), events).stage is Remove),
{
    lemma_copying(dry_run, candidates, hint, events);
}

proof fn lemma_copying(
    dry_run: bool,
    candidates: Seq<CandidateView>,
    hint: HintView,
    events: Seq<Event>,
)
    ensures
        ({
            let session = after_all(begun(dry_run, true, candidates, hint), events);
            &&& session.copy
            &&& !(session.stage is Remove)
            &&& !(session.stage is Compare)
        }),
    decreases events.len(),
{
    if events.len() > 0 {
        lemma_copying(dry_run, candidates, hint, events.drop_last());
    }
}

/// A source is removed only once its file is written, and not where that was
/// written over it: the step before was to see whether it was, and it was not;
/// and before that the file was written.
pub proof fn sources_go_only_once_they_are_written(
    session: Session,
    first: Event,
    second: Event,
    file: usize,
)
    requires
        session.stage != Stage::Remove(file),
        session.stage != Stage::Compare(file),
        after(after(session, first), second).stage == Stage::Remove(file),
    ensures
        session.stage == Stage::Save(file),
        !session.copy,
        first == Event::Saved,
        second == Event::Compared(false),
{
}

/// The files that have been dealt with when a step is due.
pub open spec fn dealt_with(session: Session) -> int {
    match session.stage {
        Stage::Save(file) => file as int,
        Stage::Compare(file) => file as int,
        Stage::Remove(file) => file as int,
        Stage::Count => session.items as int,
        Stage::PutCover => session.items as int,
        Stage::End(Outcome::Written) => session.items as int,
        _ => 0,
    }
}

/// Files are dealt with in turn, none of them left out: with each event the
/// number of those dealt with stays or grows by one, and it grows only by what
/// completes a file. Where the work ends with the files written, all of them
/// are.
pub proof fn files_are_written_in_turn(
    dry_run: bool,
    copy: bool,
    candidates: Seq<CandidateView>,
    hint: HintView,
    events: Seq<Event>,
    event: Event,
)
    ensures
        ({
            let before = after_all(begun(dry_run, copy, candidates, hint), events);
            let next = after(before, event);
            &&& 0 <= dealt_with(before) <= before.items
            &&& dealt_with(next) == dealt_with(before) || dealt_with(next) == dealt_with(before) + 1
            &&& dealt_with(next) > dealt_with(before) ==> {
                ||| before.stage is Save && event == Event::Saved && copy
                ||| before.stage is Compare && event == Event::Compared(true)
                ||| before.stage is Remove && event == Event::Removed
            }
        }),
{
    lemma_within(dry_run, copy, candidates, hint, events);
    lemma_within(dry_run, copy, candidates, hint, events.push(event));
    assert(events.push(event).drop_last() =~= events);
}

proof fn lemma_within(
    dry_run: bool,
    copy: bool,
    candidates: Seq<CandidateView>,
    hint: HintView,
    events: Seq<Event>,
)
    ensures
        ({
            let session = after_all(begun(dry_run, copy, candidates, hint), events);
            &&& session.copy == copy
            &&& match session.stage {
                Stage::Save(file) => file < session.items,
                Stage::Compare(file) => file < session.items,
                Stage::Remove(file) => file < session.items,
                _ => true,
            }
        }),
    decreases events.len(),
{
    if events.len() > 0 {
        lemma_within(dry_run, copy, candidates, hint, events.drop_last());
    }
}

proof fn lemma_after_more(session: Session, events: Seq<Event>, event: Event)
    ensures
        after_all(session, events.push(event)) == after(after_all(session, events), event),
{
    assert(events.push(event).drop_last() =~= events);
}

/// The work starts with the album that there is the evidence for, and else with the
/// one that is picked: where there are none it ends at once, and where none is
/// picked it ends without anything being planned or written.
pub proof fn work_starts_with_the_album_that_is_taken(
    dry_run: bool,
    copy: bool,
    candidates: Seq<CandidateView>,
    hint: HintView,
    album: usize,
)
    ensures
        ({
            let start = begun(dry_run, copy, candidates, hint);
            &&& candidates.len() == 0 ==> start.stage == Stage::End(Outcome::NotFound)
            &&& candidates.len() > 0 && (upc_agrees(candidates[0].album.upc, hint.upc)
                || candidates[0].isrc_hits == hint.files) ==> start.stage == Stage::Read(0)
            &&& candidates.len() > 0 && !upc_agrees(candidates[0].album.upc, hint.upc)
                && candidates[0].isrc_hits != hint.files ==> {
                &&& start.stage == Stage::Ask
                &&& after(start, Event::Picked(album)).stage == Stage::Read(album)
                &&& after(start, Event::Declined).stage == Stage::End(Outcome::Skipped)
            }
            &&& start.dry_run == dry_run
            &&& start.copy == copy
        }),
{
}

/// What is planned is shown before anything is written. The cover is downloaded
/// before that where the album has one, unless nothing is to be written; then the
/// work ends with what is shown, and else it goes on to write as many files as are
/// planned, with the cover if there is one.
pub proof fn what_is_planned_is_shown_and_then_written(
    session: Session,
    album: usize,
    items: usize,
    art: bool,
)
    requires
        session.stage == Stage::Read(album),
        !session.cover,
    ensures
        ({
            let events = if art && !session.dry_run {
                seq![Event::Planned(items, art), Event::Downloaded]
            } else {
                seq![Event::Planned(items, art)]
            };
            let shown = after_all(session, events);
            let next = after(shown, Event::Reported);
            &&& art && !session.dry_run ==> after(session, Event::Planned(items, art)).stage
                == Stage::Download
            &&& shown.stage == Stage::Report
            &&& session.dry_run ==> next.stage == Stage::End(Outcome::Shown)
            &&& !session.dry_run ==> next == (Session {
                stage: Stage::MakeDir,
                items,
                cover: art,
                ..session
            })
        }),
{
    let first = Event::Planned(items, art);
    lemma_after_more(session, seq![], first);
    assert(Seq::<Event>::empty().push(first) =~= seq![first]);
    lemma_after_more(session, seq![first], Event::Downloaded);
    assert(seq![first].push(Event::Downloaded) =~= seq![first, Event::Downloaded]);
}

/// The files of an album are written one after the other, from the first to the
/// last, and where they are copied nothing else is done about them; then it is said
/// how many they are.
pub proof fn copied_files_are_written_one_by_one(session: Session, n: nat)
    requires
        session.stage == Stage::MakeDir,
        session.copy,
        n <= session.items,
    ensures
        ({
            let events = seq![Event::Made] + Seq::new(n, |i: int| Event::Saved);
            after_all(session, events) == Session {
                stage: if n < session.items {
                    Stage::Save(n as usize)
                } else {
                    Stage::Count
                },
                ..session
            }
        }),
    decreases n,
{
    let events = seq![Event::Made] + Seq::new(n, |i: int| Event::Saved);
    if n == 0 {
        lemma_after_more(session, seq![], Event::Made);
        assert(events =~= Seq::<Event>::empty().push(Event::Made));
    } else {
        let m = (n - 1) as nat;
        let before = seq![Event::Made] + Seq::new(m, |i: int| Event::Saved);
        copied_files_are_written_one_by_one(session, m);
        lemma_after_more(session, before, Event::Saved);
        assert(events =~= before.push(Event::Saved));
    }
}

/// What comes of the steps on so many files that are moved: each is written, is not
/// found to be written over itself, and has its source removed.
pub open spec fn moved(n: nat) -> Seq<Event>
    decreases n,
{
    if n == 0 {
        seq![Event::Made]
    } else {
        moved((n - 1) as nat).push(Event::Saved).push(Event::Compared(false)).push(Event::Removed)
    }
}

/// The files of an album are moved one after the other: each is written, and then
/// its source is removed, unless that is the file that was written, and only then
/// is it the turn of the next. After the last it is said how many they are.
pub proof fn moved_files_lose_their_sources_one_by_one(session: Session, n: nat)
    requires
        session.stage == Stage::MakeDir,
        !session.copy,
        n <= session.items,
    ensures
        after_all(session, moved(n)) == (Session {
            stage: if n < session.items {
                Stage::Save(n as usize)
            } else {
                Stage::Count
            },
            ..session
        }),
        n < session.items ==> {
            let saved = moved(n).push(Event::Saved);
            &&& after_all(session, saved).stage == Stage::Compare(n as usize)
            &&& after_all(session, saved.push(Event::Compared(false))).stage == Stage::Remove(
                n as usize,
            )
            &&& after_all(session, saved.push(Event::Compared(true))) == after_all(
                session,
                moved(n + 1),
            )
        },
{
    lemma_moved(session, n);
    if n < session.items {
        lemma_moved(session, n + 1);
        let saved = moved(n).push(Event::Saved);
        lemma_after_more(session, moved(n), Event::Saved);
        lemma_after_more(session, saved, Event::Compared(false));
        lemma_after_more(session, saved, Event::Compared(true));
    }
}

proof fn lemma_moved(session: Session, n: nat)
    requires
        session.stage == Stage::MakeDir,
        !session.copy,
        n <= session.items,
    ensures
        after_all(session, moved(n)) == (Session {
            stage: if n < session.items {
                Stage::Save(n as usize)
            } else {
                Stage::Count
            },
            ..session
        }),
    decreases n,
{
    if n == 0 {
        lemma_after_more(session, seq![], Event::Made);
        assert(moved(0) =~= Seq::<Event>::empty().push(Event::Made));
    } else {
        let before = moved((n - 1) as nat);
        lemma_moved(session, (n - 1) as nat);
        let saved = before.push(Event::Saved);
        let compared = saved.push(Event::Compared(false));
        lemma_after_more(session, before, Event::Saved);
        lemma_after_more(session, saved, Event::Compared(false));
        lemma_after_more(session, compared, Event::Removed);
    }
}

/// The cover is written once the files are, where there is one, and that is the end
/// of the work.
pub proof fn covers_are_written_last(session: Session)
    requires
        session.stage == Stage::Count,
    ensures
        !session.cover ==> after(session, Event::Counted).stage == Stage::End(Outcome::Written),
        session.cover ==> {
            let next = after(session, Event::Counted);
            &&& next.stage == Stage::PutCover
            &&& after(next, Event::Put).stage == Stage::End(Outcome::Written)
        },
{
}

/// Once the work has ended, nothing that comes changes anything.
pub proof fn the_end_is_the_end(session: Session, event: Event)
    requires
        session.stage is End,
    ensures
        after(session, event) == session,
{
}

} // verus!
