use redbook::apple::catalog::Album;
use redbook::flac::{Audio, FilePath};
use redbook::library::{
    album_dir, cap, cover, sanitize, sanitize_within, track_path, Location, COMPONENT_LIMIT,
};
use redbook::table::Table;
use redbook::tagger::{Item, Picture};

fn album(artist: &str, name: &str, disc_count: u16) -> Album {
    Album {
        id: "1".to_string(),
        name: name.to_string(),
        artist: artist.to_string(),
        artists: vec![],
        upc: None,
        release_date: None,
        disc_count,
        is_compilation: false,
        artwork: None,
        tracks: vec![],
    }
}

fn item(disc: u16, track: u16, title: &str) -> Item {
    Item {
        audio: Audio {
            path: FilePath {
                place: 0,
                text: "x.flac".to_string(),
                name: None,
            },
            comments: Table::new(),
            duration_secs: None,
        },
        disc,
        track,
        title: title.to_string(),
        duration_ms: 0,
        positional: false,
        comments: vec![],
    }
}

fn picture(mime: &str) -> Picture {
    Picture {
        mime: mime.to_string(),
        width: 1,
        height: 1,
        data: vec![],
    }
}

#[test]
fn names_become_parts_of_paths() {
    assert_eq!(sanitize("AC/DC"), "AC-DC");
    assert_eq!(sanitize("What? <Now>: *\"|\\"), "What- -Now-- ----");
    assert_eq!(sanitize("line\nbreak\u{80}"), "line-break-");
    assert_eq!(sanitize("..."), "-");
    assert_eq!(sanitize("con"), "-");
    assert_eq!(sanitize("LPT1.txt"), "-");
    assert_eq!(sanitize("Sigh. . "), "Sigh-");
    assert_eq!(sanitize(" Sigur Rós"), " Sigur Rós");
    assert_eq!(sanitize(""), "Untitled");
}

#[test]
fn names_are_cut_to_two_hundred_bytes() {
    assert_eq!(sanitize(&"a".repeat(200)), "a".repeat(200));
    assert_eq!(sanitize(&"a".repeat(201)), "a".repeat(200));
    assert_eq!(sanitize(&"é".repeat(101)), "é".repeat(100));
    assert_eq!(sanitize(&format!("a{}", "é".repeat(100))), format!("a{}", "é".repeat(99)));
    let dotted = format!("{}. .{}", "a".repeat(197), "b".repeat(9));
    assert_eq!(sanitize(&dotted), "a".repeat(197));
}

#[test]
fn capping_goes_by_the_name_and_the_limit() {
    assert_eq!(cap("short.", 200), "short.");
    assert_eq!(cap("", 200), "Untitled");
    assert_eq!(cap(&".".repeat(300), 200), "Untitled");
    assert_eq!(cap(&format!("{} . x", "a".repeat(198)), 200), "a".repeat(198));
    assert_eq!(cap("abcdef", 4), "abcd");
    assert_eq!(cap("ab. cd", 4), "ab");
    assert_eq!(sanitize_within("a/b/c", 3), "a-b");
}

#[test]
fn ordinary_names_stay_as_they_are() {
    for name in ["Track Title", "Sigur Rós", "99 Luftballons", "conga", "a.b", "com10", "aux-in"] {
        assert_eq!(sanitize(name), name);
        assert_eq!(sanitize_within(name, 150), name);
    }
    for name in ["Con", "com1", "nul.txt", "LPT9.x"] {
        assert_eq!(sanitize(name), "-");
    }
}

#[test]
fn parts_hold_hyphens_and_characters_of_the_text() {
    assert_eq!(sanitize("a\u{7f}b"), "a\u{7f}b");
    for text in ["a\u{0}b", "tab\there", "\u{85}\u{9f}", ". .", "AUX.tar.gz", "\u{a0}x", "nul. "] {
        let part = sanitize(text);
        assert!(part.chars().all(|c| c == '-' || text.contains(c)), "{part}");
        assert!(!part.chars().any(char::is_control));
    }
    assert_eq!(sanitize(". ."), "-");
    assert_eq!(sanitize("x. .y. ."), "x. .y-");
    assert_eq!(sanitize(".hidden"), ".hidden");
    assert_eq!(sanitize("con "), "con-");
    assert_eq!(sanitize("con. "), "-");
    assert_eq!(sanitize("con:"), "con-");
    assert_eq!(sanitize("com\u{661}"), "com\u{661}");
}

#[test]
fn an_ordinary_name_is_only_cut() {
    let name = "Symphony No. 9, ".repeat(20) + "end";
    assert_eq!(sanitize(&name), cap(&name, COMPONENT_LIMIT));
    assert_eq!(sanitize_within(&name, 12), "Symphony No");
    assert_eq!(sanitize_within(&name, 14), cap(&name, 14));
}

#[test]
fn albums_go_below_their_artists() {
    let dir = album_dir(&album("A/B", "C: D", 1));
    assert_eq!(dir.parts, vec!["A-B".to_string(), "C- D".to_string()]);
}

#[test]
fn tracks_are_named_by_number_and_title() {
    let dir = album_dir(&album("A", "B", 1));
    let path = track_path(&dir, &album("A", "B", 1), &item(1, 3, "Song?"));
    assert_eq!(path.parts, vec!["A", "B", "03 Song-.flac"]);
    let path = track_path(&dir, &album("A", "B", 2), &item(2, 11, "Song"));
    assert_eq!(path.parts, vec!["A", "B", "2-11 Song.flac"]);
    let path = track_path(&dir, &album("A", "B", 0), &item(5, 123, ""));
    assert_eq!(path.parts, vec!["A", "B", "123 Untitled.flac"]);
}

#[test]
fn different_tracks_have_different_names() {
    let dir = Location { parts: vec![] };
    let several = album("A", "B", 12);
    let mut names: Vec<String> = vec![];
    for disc in [1u16, 11, 111] {
        for track in [1u16, 10, 11, 111] {
            let path = track_path(&dir, &several, &item(disc, track, "1-1 1"));
            let name = path.parts[0].clone();
            assert!(!names.contains(&name));
            names.push(name);
        }
    }
}

#[test]
fn names_of_files_are_capped_as_a_whole() {
    let dir = album_dir(&album("A", "B", 1));
    let one = album("A", "B", 1);
    let several = album("A", "B", 2);
    let name = |album: &Album, item: &Item| track_path(&dir, album, item).parts[2].clone();
    let long = "a".repeat(200);
    assert_eq!(name(&one, &item(1, 1, &long)), format!("01 {}.flac", "a".repeat(192)));
    assert_eq!(name(&one, &item(1, 1, &"a".repeat(192))), format!("01 {}.flac", "a".repeat(192)));
    assert_eq!(
        name(&several, &item(12, 345, &long)),
        format!("12-345 {}.flac", "a".repeat(188))
    );
    assert_eq!(
        name(&several, &item(65_535, 65_535, &long)).len(),
        COMPONENT_LIMIT
    );
    assert_eq!(name(&one, &item(1, 1, &"é".repeat(150))), format!("01 {}.flac", "é".repeat(96)));
    let dotted = format!("{}...b", "a".repeat(190));
    assert_eq!(name(&one, &item(1, 1, &dotted)), format!("01 {}.flac", "a".repeat(190)));
}

#[test]
fn covers_are_jpegs_by_name() {
    let dir = album_dir(&album("A", "B", 1));
    for mime in ["image/jpeg", "image/png", ""] {
        let mut picture = picture(mime);
        picture.data = vec![1, 2, 3];
        let (path, data) = cover(&dir, &picture);
        assert_eq!(path.parts, vec!["A", "B", "cover.jpg"]);
        assert_eq!(data, &vec![1, 2, 3]);
    }
}
