use redbook::apple::catalog::Album;
use redbook::select::{Candidate, Hint, Source};
use redbook::session::{Event, Outcome, Session, Stage};

fn candidates(upcs: &[&str]) -> Vec<Candidate> {
    upcs.iter()
        .map(|upc| Candidate {
            album: Album {
                id: "1".to_string(),
                name: "Album".to_string(),
                artist: "Artist".to_string(),
                artists: vec![],
                upc: Some(upc.to_string()),
                release_date: None,
                disc_count: 1,
                is_compilation: false,
                artwork: None,
                tracks: vec![],
            },
            source: Source::Barcode,
            isrc_hits: 0,
        })
        .collect()
}

fn hint() -> Hint<'static> {
    Hint {
        upc: "42",
        album: None,
        artist: None,
        files: 2,
    }
}

fn stages(session: &mut Session, events: &[Event]) -> Vec<Stage> {
    let mut stages = vec![session.stage];
    for event in events {
        session.hear(*event);
        stages.push(session.stage);
    }
    stages
}

#[test]
fn nothing_is_done_where_no_album_was_found() {
    let session = Session::new(false, false, &candidates(&[]), &hint());
    assert_eq!(session.stage, Stage::End(Outcome::NotFound));
}

#[test]
fn a_convincing_album_is_taken_without_asking() {
    let session = Session::new(false, false, &candidates(&["042", "1"]), &hint());
    assert_eq!(session.stage, Stage::Read(0));
}

#[test]
fn other_albums_are_asked_about() {
    let mut session = Session::new(false, false, &candidates(&["1", "42"]), &hint());
    assert_eq!(
        stages(&mut session, &[Event::Picked(1)]),
        vec![Stage::Ask, Stage::Read(1)]
    );
    let mut session = Session::new(false, false, &candidates(&["1"]), &hint());
    assert_eq!(
        stages(&mut session, &[Event::Declined]),
        vec![Stage::Ask, Stage::End(Outcome::Skipped)]
    );
}

#[test]
fn files_are_moved_one_by_one() {
    let mut session = Session::new(false, false, &candidates(&["42"]), &hint());
    let events = [
        Event::Planned(2, true),
        Event::Downloaded,
        Event::Reported,
        Event::Made,
        Event::Saved,
        Event::Compared(false),
        Event::Removed,
        Event::Saved,
        Event::Compared(true),
        Event::Counted,
        Event::Put,
    ];
    assert_eq!(
        stages(&mut session, &events),
        vec![
            Stage::Read(0),
            Stage::Download,
            Stage::Report,
            Stage::MakeDir,
            Stage::Save(0),
            Stage::Compare(0),
            Stage::Remove(0),
            Stage::Save(1),
            Stage::Compare(1),
            Stage::Count,
            Stage::PutCover,
            Stage::End(Outcome::Written),
        ]
    );
}

#[test]
fn copying_removes_nothing() {
    let mut session = Session::new(false, true, &candidates(&["42"]), &hint());
    let events = [
        Event::Planned(2, false),
        Event::Reported,
        Event::Made,
        Event::Saved,
        Event::Saved,
        Event::Counted,
    ];
    assert_eq!(
        stages(&mut session, &events),
        vec![
            Stage::Read(0),
            Stage::Report,
            Stage::MakeDir,
            Stage::Save(0),
            Stage::Save(1),
            Stage::Count,
            Stage::End(Outcome::Written),
        ]
    );
}

#[test]
fn a_dry_run_only_shows() {
    let mut session = Session::new(true, false, &candidates(&["42"]), &hint());
    assert_eq!(
        stages(&mut session, &[Event::Planned(2, true), Event::Reported, Event::Made]),
        vec![
            Stage::Read(0),
            Stage::Report,
            Stage::End(Outcome::Shown),
            Stage::End(Outcome::Shown),
        ]
    );
}

#[test]
fn an_album_without_files_needs_none_written() {
    let mut session = Session::new(false, false, &candidates(&["42"]), &hint());
    let events = [Event::Planned(0, false), Event::Reported, Event::Made];
    assert_eq!(stages(&mut session, &events)[3], Stage::Count);
}

#[test]
fn what_does_not_belong_to_a_step_changes_nothing() {
    let mut session = Session::new(false, false, &candidates(&["1"]), &hint());
    for event in [Event::Saved, Event::Removed, Event::Compared(false), Event::Put, Event::Made] {
        session.hear(event);
        assert_eq!(session.stage, Stage::Ask);
    }
}
