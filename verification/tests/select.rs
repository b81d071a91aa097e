use redbook::apple::catalog::{Album, Found, Track};
use redbook::select::{
    by_barcode, by_isrc, by_search, choose_candidate, term, Candidate, Hint, Lead, Source,
    CANDIDATE_LIMIT,
};
use redbook::selection::{Next, Selection};
use redbook::table::Table;

fn strings(parts: &[&str]) -> Vec<String> {
    parts.iter().map(|part| part.to_string()).collect()
}

fn track() -> Track {
    Track {
        name: "T".to_string(),
        artist: "A".to_string(),
        artists: vec![],
        album_artist: None,
        isrc: None,
        content_rating: None,
        work: None,
        movement: None,
        movement_number: 0,
        movement_count: 0,
        disc_number: 1,
        track_number: 1,
        duration_ms: 0,
    }
}

fn album(id: &str, upc: Option<&str>, tracks: usize) -> Album {
    Album {
        id: id.to_string(),
        name: "Album".to_string(),
        artist: "Artist".to_string(),
        artists: vec![],
        upc: upc.map(str::to_string),
        release_date: None,
        disc_count: 1,
        is_compilation: false,
        artwork: None,
        tracks: (0..tracks).map(|_| track()).collect(),
    }
}

fn candidate(id: &str, upc: Option<&str>, tracks: usize, hits: usize) -> Candidate {
    Candidate {
        album: album(id, upc, tracks),
        source: Source::Isrc,
        isrc_hits: hits,
    }
}

fn hint(files: usize) -> Hint<'static> {
    Hint {
        upc: "0042",
        album: Some("Album"),
        artist: Some("Artist"),
        files,
    }
}

fn found(id: &str, artist: &str, name: &str, tracks: u16, upc: Option<&str>) -> Found {
    Found {
        id: id.to_string(),
        name: name.to_string(),
        artist: artist.to_string(),
        track_count: tracks,
        upc: upc.map(str::to_string),
    }
}

fn carried(list: &[(&str, &[&str])]) -> Table<Vec<String>> {
    let mut table = Table::new();
    for (isrc, ids) in list {
        table.insert(isrc.to_string(), strings(ids));
    }
    table
}

fn ids(leads: &[Lead]) -> Vec<(usize, String)> {
    leads.iter().map(|lead| (lead.hits, lead.id.clone())).collect()
}

fn listed(list: &[(usize, &str)]) -> Vec<(usize, String)> {
    list.iter().map(|(hits, id)| (*hits, id.to_string())).collect()
}

#[test]
fn sources_have_names() {
    assert_eq!(Source::Isrc.label(), "isrc");
    assert_eq!(Source::Barcode.label(), "barcode");
    assert_eq!(Source::Search.label(), "search");
}

#[test]
fn the_barcode_or_every_isrc_is_convincing() {
    assert!(candidate("1", Some("42"), 99, 0).confident(&hint(10)));
    assert!(candidate("1", None, 20, 10).confident(&hint(10)));
    assert!(!candidate("1", None, 20, 9).confident(&hint(10)));
    assert!(candidate("1", None, 21, 10).confident(&hint(10)));
    assert!(candidate("1", None, 3, 1).confident(&hint(1)));
    assert!(!candidate("1", Some("43"), 10, 0).confident(&hint(10)));
}

#[test]
fn ranks_put_the_evidence_in_order() {
    let max = usize::MAX as u64;
    assert_eq!(candidate("1", Some("42"), 12, 3).rank(&hint(10)), (max - 3, 0, 2, 0));
    assert_eq!(candidate("1", None, 30, 0).rank(&hint(10)), (max, 1, 20, 0));
    assert_eq!(candidate("1", None, 4, 10).rank(&hint(10)), (max - 10, 1, 6, 0));
    assert!(candidate("1", None, 3, 1).rank(&hint(1)) < candidate("2", None, 1, 0).rank(&hint(1)));
    let carrying = candidate("1", Some("42"), 99, 0);
    assert!(carrying.rank(&hint(1)) < candidate("2", None, 1, 0).rank(&hint(1)));
}

#[test]
fn only_the_first_is_taken_without_asking() {
    let sure = candidate("1", Some("42"), 10, 0);
    let unsure = candidate("2", None, 10, 3);
    assert_eq!(choose_candidate(&vec![], &hint(10)), None);
    assert_eq!(choose_candidate(&vec![unsure], &hint(10)), None);
    let unsure = candidate("2", None, 10, 3);
    assert_eq!(choose_candidate(&vec![sure, unsure], &hint(10)), Some(0));
    let sure = candidate("1", Some("42"), 10, 0);
    let unsure = candidate("2", None, 10, 3);
    assert_eq!(choose_candidate(&vec![unsure, sure], &hint(10)), None);
    assert_eq!(choose_candidate(&vec![candidate("3", None, 3, 1)], &hint(1)), Some(0));
}

#[test]
fn albums_that_half_of_the_isrcs_lead_to_are_gone_by() {
    let isrcs = strings(&["A", "B", "C", "D"]);
    let table = carried(&[
        ("A", &["1", "2", "3"]),
        ("B", &["1", "2"]),
        ("C", &["1", "9"]),
        ("E", &["9", "9", "9"]),
    ]);
    assert_eq!(ids(&by_isrc(&isrcs, &table)), listed(&[(3, "1"), (2, "2")]));
}

#[test]
fn albums_that_are_led_to_most_often_are_gone_by() {
    let isrcs = strings(&["A", "B", "C", "D", "E"]);
    let table = carried(&[("A", &["7"]), ("B", &["10"]), ("C", &["9"]), ("D", &[])]);
    assert_eq!(
        ids(&by_isrc(&isrcs, &table)),
        listed(&[(1, "10"), (1, "7"), (1, "9")])
    );
    assert!(by_isrc(&isrcs, &carried(&[])).is_empty());
    assert!(by_isrc(&vec![], &table).is_empty());
}

#[test]
fn no_more_than_so_many_albums_are_gone_by() {
    let many: Vec<String> = (0..20).map(|n| format!("{n:02}")).collect();
    let mut table = Table::new();
    table.insert("A".to_string(), many.clone());
    let leads = by_isrc(&strings(&["A"]), &table);
    assert_eq!(leads.len(), CANDIDATE_LIMIT);
    assert_eq!(leads[7].id, "07");
    let leads = by_barcode(many);
    assert_eq!(leads.len(), CANDIDATE_LIMIT);
    assert_eq!((leads[0].hits, leads[0].id.as_str()), (0, "00"));
    assert_eq!(ids(&by_barcode(strings(&["2", "1", "2"]))), listed(&[(0, "2"), (0, "1"), (0, "2")]));
}

#[test]
fn text_is_searched_for_by_artist_and_album() {
    assert_eq!(term(&hint(1)), Some("Artist Album".to_string()));
    let mut some = hint(1);
    some.artist = None;
    assert_eq!(term(&some), Some("Album".to_string()));
    some.album = None;
    assert_eq!(term(&some), None);
    some.artist = Some("Artist");
    assert_eq!(term(&some), None);
}

#[test]
fn findings_are_gone_by_where_they_are_much_the_same() {
    let all = vec![
        found("few", "Artist", "Album", 7, None),
        found("far", "Artist", "Album", 30, None),
        found("near", "artist!", "ALBUM (Deluxe)", 11, None),
        found("other", "Someone", "Album", 10, None),
        found("else", "Artist", "Record", 10, None),
        found("code", "Artist", "Album", 8, Some("42")),
        found("same", "Artist", "Album", 9, None),
    ];
    assert_eq!(
        ids(&by_search(all, &hint(10))),
        listed(&[(0, "code"), (0, "near"), (0, "same"), (0, "far")])
    );
    let mut open = hint(1);
    open.artist = None;
    open.album = None;
    let leads = by_search(vec![found("any", "x", "y", 0, None)], &open);
    assert_eq!(ids(&leads), listed(&[(0, "any")]));
}

#[test]
fn a_convincing_isrc_ends_the_search() {
    let mut selection = Selection::new(hint(2));
    assert!(matches!(selection.next(), Next::Isrcs));
    let table = carried(&[("A", &["1"]), ("B", &["1"])]);
    selection.isrcs(&strings(&["A", "B"]), &table);
    assert!(matches!(selection.next(), Next::Album(id) if id == "1"));
    selection.album(album("1", None, 2));
    assert!(matches!(selection.next(), Next::Nothing));
    let candidates = selection.candidates();
    assert_eq!(candidates.len(), 1);
    assert_eq!(candidates[0].isrc_hits, 2);
    assert!(candidates[0].source == Source::Isrc);
}

#[test]
fn the_barcode_comes_where_the_isrcs_lead_nowhere() {
    let mut selection = Selection::new(hint(2));
    selection.isrcs(&strings(&["A"]), &carried(&[("A", &[])]));
    assert!(matches!(selection.next(), Next::Barcode));
    selection.barcode(strings(&["5", "6"]));
    assert!(matches!(selection.next(), Next::Album(id) if id == "5"));
    selection.album(album("5", Some("42"), 2));
    assert!(matches!(selection.next(), Next::Album(id) if id == "6"));
    selection.album(album("6", None, 2));
    assert!(matches!(selection.next(), Next::Nothing));
    let candidates = selection.candidates();
    assert_eq!(candidates[0].album.id, "5");
    assert!(candidates[0].source == Source::Barcode);
    assert_eq!(candidates[1].album.id, "6");
}

#[test]
fn text_is_the_last_resort() {
    let mut selection = Selection::new(hint(3));
    let isrcs = strings(&["A", "B", "C"]);
    selection.isrcs(&isrcs, &carried(&[("A", &["1"]), ("B", &["1"])]));
    selection.album(album("1", None, 3));
    assert!(matches!(selection.next(), Next::Search(term) if term == "Artist Album"));
    selection.search(vec![
        found("1", "Artist", "Album", 3, None),
        found("2", "Artist", "Album", 3, None),
        found("3", "Artist", "Album", 3, Some("42")),
        found("4", "Artist", "Album", 99, None),
    ]);
    for (id, upc, tracks) in [("3", Some("42"), 3), ("1", None, 3), ("2", None, 9), ("4", None, 4)] {
        match selection.next() {
            Next::Album(asked) => assert_eq!(asked, id),
            _ => panic!("no album is asked for"),
        }
        selection.album(album(id, upc, tracks));
    }
    assert!(matches!(selection.next(), Next::Nothing));
    let candidates = selection.candidates();
    let order: Vec<&str> = candidates.iter().map(|c| c.album.id.as_str()).collect();
    assert_eq!(order, vec!["1", "3", "4", "2"]);
    assert_eq!(candidates[0].isrc_hits, 2);
    assert!(candidates[1].source == Source::Search);
}

#[test]
fn nothing_to_search_for_ends_the_search() {
    let mut bare = hint(1);
    bare.album = None;
    let mut selection = Selection::new(bare);
    selection.isrcs(&strings(&["A"]), &carried(&[]));
    selection.barcode(vec![]);
    assert!(matches!(selection.next(), Next::Nothing));
    assert!(selection.candidates().is_empty());
}

#[test]
fn an_album_that_is_there_is_not_added_again() {
    let mut selection = Selection::new(hint(4));
    selection.isrcs(&strings(&["A", "B"]), &carried(&[("A", &["1"])]));
    selection.album(album("one", None, 4));
    selection.search(vec![
        found("x", "Artist", "Album", 4, None),
        found("y", "Artist", "Album", 4, None),
    ]);
    selection.album(album("one", None, 4));
    selection.album(album("two", None, 4));
    let candidates = selection.candidates();
    let order: Vec<&str> = candidates.iter().map(|c| c.album.id.as_str()).collect();
    assert_eq!(order, vec!["one", "two"]);
    assert!(candidates[0].source == Source::Isrc);
}
