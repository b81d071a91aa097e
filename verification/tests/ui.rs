use redbook::apple::catalog::Album;
use redbook::flac::{Audio, FilePath, Skipped};
use redbook::select::{Candidate, Source};
use redbook::table::Table;
use redbook::tagger::{Item, Picture};
use redbook::ui::{
    cover_line, nothing_found, offers, picked, question, report, skipped, summary, truncate,
    written_line, SKIP,
};

fn strings(parts: &[&str]) -> Vec<String> {
    parts.iter().map(|part| part.to_string()).collect()
}

fn file(text: &str) -> FilePath {
    FilePath {
        place: 0,
        text: text.to_string(),
        name: text.rsplit('/').next().map(str::to_string),
    }
}

fn album(upc: Option<&str>, date: Option<&str>) -> Album {
    Album {
        id: "77".to_string(),
        name: "Name".to_string(),
        artist: "Artist".to_string(),
        artists: vec![],
        upc: upc.map(str::to_string),
        release_date: date.map(str::to_string),
        disc_count: 1,
        is_compilation: false,
        artwork: None,
        tracks: vec![],
    }
}

fn item(positional: bool, ms: u64, secs: Option<u64>) -> Item {
    let mut comments: Table<Vec<String>> = Table::new();
    comments.insert("OLD".to_string(), strings(&["x"]));
    comments.insert("TITLE".to_string(), strings(&[&"t".repeat(40)]));
    Item {
        audio: Audio {
            path: file("/rips/a.flac"),
            comments,
            duration_secs: secs,
        },
        disc: 1,
        track: 2,
        title: "Song".to_string(),
        duration_ms: ms,
        positional,
        comments: vec![
            ("TITLE".to_string(), strings(&["Song"])),
            ("ARTIST".to_string(), strings(&[&"é".repeat(70)])),
        ],
    }
}

#[test]
fn albums_in_one_line() {
    assert_eq!(
        summary(&album(Some("0123"), Some("1999-01-02"))),
        "Artist — Name (0 tracks, 1999-01-02, upc 0123, id 77)"
    );
    assert_eq!(summary(&album(None, None)), "Artist — Name (0 tracks, -, upc -, id 77)");
}

#[test]
fn long_texts_end_in_an_ellipsis() {
    assert_eq!(truncate("abc", 3), "abc");
    assert_eq!(truncate("abcd", 3), "ab…");
    assert_eq!(truncate("ééé", 2), "é…");
    assert_eq!(truncate("abc", 1), "…");
    assert_eq!(truncate("abc", 0), "…");
    assert_eq!(truncate("", 0), "");
}

#[test]
fn files_that_are_left_out_are_shown() {
    assert!(skipped(&vec![]).is_empty());
    let lines = skipped(&vec![
        Skipped::NoBarcode(file("/a")),
        Skipped::NoIsrc(file("/b")),
        Skipped::DuplicateIsrc(file("/c"), "GB1".to_string()),
    ]);
    assert_eq!(
        lines,
        strings(&[
            "skipped 3 files:",
            "  no barcode   /a",
            "  no isrc      /b",
            "  GB1 twice  /c",
            "",
        ])
    );
}

#[test]
fn a_report_counts_the_changes() {
    assert_eq!(
        report(&item(false, 200_000, Some(205)), false),
        strings(&["1-02  a.flac  →  Song", "      3 tag changes"])
    );
    assert_eq!(
        report(&item(true, 200_000, Some(206)), false),
        strings(&[
            "1-02  a.flac  →  Song",
            "      ! matched by (disc, track), not by isrc",
            "      ! runs 6s away from the apple track length",
            "      3 tag changes",
        ])
    );
}

#[test]
fn a_report_may_list_the_changes() {
    let lines = report(&item(false, 0, None), true);
    assert_eq!(
        lines,
        vec![
            "1-02  a.flac  →  Song".to_string(),
            format!("      + {:<16} {}…", "ARTIST", "é".repeat(59)),
            format!("      ~ {:<16} {}…  →  Song", "TITLE", "t".repeat(27)),
            format!("      - {:<16} x", "OLD"),
        ]
    );
}

#[test]
fn long_file_names_are_cut_in_a_report() {
    let mut item = item(false, 0, None);
    item.audio.path = file(&"n".repeat(47));
    item.track = 12;
    item.disc = 3;
    let line = report(&item, false)[0].clone();
    assert_eq!(line, format!("3-12  {}…  →  Song", "n".repeat(45)));
}

#[test]
fn albums_are_offered_with_the_evidence() {
    let candidates = vec![
        Candidate {
            album: album(None, None),
            source: Source::Isrc,
            isrc_hits: 3,
        },
        Candidate {
            album: album(None, None),
            source: Source::Search,
            isrc_hits: 0,
        },
    ];
    let line = summary(&album(None, None));
    assert_eq!(
        offers(&candidates, 5),
        vec![format!("[isrc 3/5] {line}"), format!("[search] {line}"), SKIP.to_string()]
    );
    assert_eq!(offers(&vec![], 5), vec!["skip this album".to_string()]);
    assert_eq!(question(2, 5), "5 files, 2 candidate(s), none confirmed by barcode");
    assert_eq!(picked(1, 2), Some(1));
    assert_eq!(picked(2, 2), None);
}

#[test]
fn other_lines() {
    assert_eq!(
        nothing_found("0123", &Some("Name".to_string())),
        "upc 0123: no album found by isrc, barcode or search for Name"
    );
    assert_eq!(
        nothing_found("0123", &None),
        "upc 0123: no album found by isrc, barcode or search for these files"
    );
    let picture = Picture {
        mime: "image/png".to_string(),
        width: 30,
        height: 20,
        data: vec![0; 2047],
    };
    assert_eq!(cover_line(&picture), "cover art  30×20 image/png, 1 KiB");
    assert_eq!(written_line(true, 1), "copied 1 files");
    assert_eq!(written_line(false, 12), "moved 12 files");
}
