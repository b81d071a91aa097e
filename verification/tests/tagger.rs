use metaflac::Tag;
use redbook::apple::catalog::{Album, Artwork, ArtworkResource, Track};
use redbook::flac::{labels, rewrite, Audio, FilePath};
use redbook::pairing::pair;
use redbook::table::Table;
use redbook::tagger::{
    artwork, artwork_address, changes, drift, plan, Change, Item, ARTWORK_LIMIT,
};
use redbook::tags::{advisory, comments};

fn strings(parts: &[&str]) -> Vec<String> {
    parts.iter().map(|part| part.to_string()).collect()
}

fn track(name: &str, isrc: Option<&str>, disc: u16, number: u16) -> Track {
    Track {
        name: name.to_string(),
        artist: "A & B feat. C".to_string(),
        artists: strings(&["A", "B", "C"]),
        album_artist: None,
        isrc: isrc.map(str::to_string),
        content_rating: None,
        work: None,
        movement: None,
        movement_number: 0,
        movement_count: 0,
        disc_number: disc,
        track_number: number,
        duration_ms: 200_000,
    }
}

fn album(tracks: Vec<Track>) -> Album {
    Album {
        id: "1".to_string(),
        name: "Album".to_string(),
        artist: "Album Artist".to_string(),
        artists: vec![],
        upc: None,
        release_date: None,
        disc_count: 1,
        is_compilation: false,
        artwork: None,
        tracks,
    }
}

fn audio(place: usize, tags: &[(&str, &str)]) -> Audio {
    let mut comments: Table<Vec<String>> = Table::new();
    for (key, value) in tags {
        comments.insert(key.to_string(), strings(&[value]));
    }
    Audio {
        path: FilePath {
            place,
            text: format!("/rips/{place}.flac"),
            name: Some(format!("{place}.flac")),
        },
        comments,
        duration_secs: Some(200),
    }
}

fn song(isrc: &str, place: usize, tags: &[(&str, &str)]) -> (String, Audio) {
    (isrc.to_string(), audio(place, tags))
}

fn items(album: &Album, songs: Vec<(String, Audio)>) -> Vec<Item> {
    match plan(album, songs) {
        Ok(items) => items,
        Err(message) => panic!("{}", message),
    }
}

fn written(tags: Vec<(String, Vec<String>)>) -> Vec<(String, String)> {
    tags.into_iter().map(|(key, values)| (key, values.join("|"))).collect()
}

fn pairs(list: &[(&str, &str)]) -> Vec<(String, String)> {
    list.iter().map(|(key, value)| (key.to_string(), value.to_string())).collect()
}

#[test]
fn files_are_paired_by_isrc() {
    let album = album(vec![
        track("One", Some("GB1"), 1, 1),
        track("Two", Some("GB2"), 1, 2),
        track("Three", None, 1, 3),
    ]);
    let items = items(
        &album,
        vec![
            song("gb2", 0, &[("TRACKNUMBER", "1")]),
            song("GB1", 1, &[("TRACKNUMBER", "9")]),
        ],
    );
    assert_eq!(items.len(), 2);
    assert_eq!(items[0].title, "One");
    assert_eq!(items[0].audio.path.place, 1);
    assert_eq!(items[1].title, "Two");
    assert_eq!(items[1].audio.path.place, 0);
    assert!(!items[0].positional && !items[1].positional);
    assert_eq!(items[1].duration_ms, 200_000);
}

#[test]
fn what_is_left_over_goes_by_position() {
    let album = album(vec![
        track("One", Some("GB1"), 1, 1),
        track("Two", Some("GB2"), 1, 2),
        track("Other", Some("GB3"), 2, 2),
    ]);
    let items = items(
        &album,
        vec![
            song("XX1", 0, &[("TRACKNUMBER", "2/12"), ("DISCNUMBER", "2")]),
            song("XX2", 1, &[("TRACKNUMBER", "2"), ("DISCNUMBER", "0")]),
            song("GB1", 2, &[]),
        ],
    );
    let titles: Vec<&str> = items.iter().map(|item| item.title.as_str()).collect();
    assert_eq!(titles, vec!["One", "Two", "Other"]);
    let flags: Vec<bool> = items.iter().map(|item| item.positional).collect();
    assert_eq!(flags, vec![false, true, true]);
    assert_eq!((items[2].disc, items[2].track), (2, 2));
}

#[test]
fn isrcs_go_before_positions_whatever_the_order_of_files() {
    let album = album(vec![track("One", Some("GB1"), 1, 1)]);
    let message = plan(
        &album,
        vec![
            song("XX1", 0, &[("TRACKNUMBER", "1")]),
            song("GB1", 1, &[("TRACKNUMBER", "5")]),
        ],
    )
    .err()
    .unwrap();
    assert_eq!(
        message,
        "/rips/0.flac carries XX1, and Album has no track with that isrc or a free (1, 1) slot"
    );
}

#[test]
fn the_first_file_in_the_order_of_paths_gets_the_track() {
    let album = album(vec![
        track("One", Some("GB1"), 1, 1),
        track("Two", Some("GB1"), 1, 2),
    ]);
    let songs = vec![
        song("gb1", 7, &[("TRACKNUMBER", "2")]),
        song("GB1", 3, &[("TRACKNUMBER", "1")]),
    ];
    let items = items(&album, songs);
    assert_eq!(items[0].audio.path.place, 3);
    assert!(!items[0].positional);
    assert_eq!(items[1].audio.path.place, 7);
    assert_eq!(items[1].title, "Two");
    assert!(items[1].positional);
}

#[test]
fn the_first_file_that_matches_no_way_is_an_error() {
    let album = album(vec![track("One", Some("GB1"), 1, 1)]);
    let songs = vec![
        song("GB1", 0, &[]),
        song("YY", 2, &[("DISCNUMBER", "0"), ("TRACKNUMBER", "x")]),
        song("ZZ", 1, &[("TRACKNUMBER", "1")]),
    ];
    assert_eq!(
        plan(&album, songs).err().unwrap(),
        "/rips/1.flac carries ZZ, and Album has no track with that isrc or a free (1, 1) slot"
    );
    let songs = vec![song("YY", 2, &[("DISCNUMBER", "0"), ("TRACKNUMBER", "x")])];
    assert_eq!(
        plan(&album, songs).err().unwrap(),
        "/rips/2.flac carries YY, and Album has no track with that isrc or a free (0, ?) slot"
    );
}

#[test]
fn items_stand_in_the_order_of_tracks() {
    let album = album(vec![
        track("d2t1", Some("C"), 2, 1),
        track("d1t2", Some("B"), 1, 2),
        track("d1t1", Some("A"), 1, 1),
        track("again", Some("D"), 1, 1),
    ]);
    let songs = vec![
        song("A", 3, &[]),
        song("B", 1, &[]),
        song("C", 0, &[]),
        song("D", 2, &[]),
    ];
    let titles: Vec<String> = items(&album, songs).into_iter().map(|item| item.title).collect();
    assert_eq!(titles, strings(&["again", "d1t1", "d1t2", "d2t1"]));
    let songs = vec![
        song("D", 2, &[]),
        song("C", 0, &[]),
        song("A", 3, &[]),
        song("B", 1, &[]),
    ];
    let titles: Vec<String> = items(&album, songs).into_iter().map(|item| item.title).collect();
    assert_eq!(titles, strings(&["again", "d1t1", "d1t2", "d2t1"]));
    assert!(items(&album, vec![]).is_empty());
}

#[test]
fn no_track_is_given_twice() {
    let album = album(vec![
        track("One", Some("GB1"), 1, 1),
        track("Two", None, 1, 1),
        track("Three", None, 1, 3),
    ]);
    let songs = vec![
        song("GB1", 0, &[]),
        song("X", 1, &[("TRACKNUMBER", "1")]),
        song("Y", 2, &[("TRACKNUMBER", "3")]),
        song("Z", 3, &[("TRACKNUMBER", "3")]),
    ];
    let (slots, positional) = pair(&album, &songs);
    assert_eq!(slots, vec![Some(0), None, Some(2), None]);
    assert_eq!(positional, vec![false, false, true, false]);
}

#[test]
fn tags_of_a_plain_track() {
    let tags = comments(
        &album(vec![]),
        &track("Song", Some("GB1"), 1, 4),
        &audio(0, &[]),
    );
    assert_eq!(
        written(tags),
        pairs(&[
            ("TITLE", "Song"),
            ("ARTIST", "A & B feat. C"),
            ("ARTISTS", "A|B|C"),
            ("ALBUM", "Album"),
            ("ALBUMARTIST", "Album Artist"),
            ("TRACKNUMBER", "4"),
            ("DISCNUMBER", "1"),
            ("ISRC", "GB1"),
        ])
    );
}

#[test]
fn tags_of_a_track_with_everything() {
    let mut whole = album(vec![]);
    whole.artists = strings(&["P", "Q"]);
    whole.upc = Some("0123".to_string());
    whole.release_date = Some("1999-12-31".to_string());
    whole.is_compilation = true;
    let mut part = track("Song", Some("GB1"), 2, 14);
    part.album_artist = Some("Other".to_string());
    part.work = Some("Work".to_string());
    part.movement = Some("Movement".to_string());
    part.movement_number = 2;
    part.movement_count = 3;
    part.content_rating = Some("explicit".to_string());
    let tags = comments(&whole, &part, &audio(0, &[]));
    assert_eq!(
        written(tags),
        pairs(&[
            ("TITLE", "Song"),
            ("ARTIST", "A & B feat. C"),
            ("ARTISTS", "A|B|C"),
            ("ALBUM", "Album"),
            ("ALBUMARTIST", "Other"),
            ("ALBUMARTISTS", "P|Q"),
            ("TRACKNUMBER", "14"),
            ("DISCNUMBER", "2"),
            ("DATE", "1999-12-31"),
            ("YEAR", "1999"),
            ("WORK", "Work"),
            ("MOVEMENTNAME", "Movement"),
            ("MOVEMENT", "2"),
            ("MOVEMENTTOTAL", "3"),
            ("ISRC", "GB1"),
            ("BARCODE", "0123"),
            ("ITUNESADVISORY", "1"),
            ("COMPILATION", "1"),
        ])
    );
}

fn value(tags: &[(String, Vec<String>)], key: &str) -> Option<String> {
    tags.iter().find(|tag| tag.0 == key).map(|tag| tag.1.join("|"))
}

#[test]
fn codes_on_the_file_are_kept() {
    let mut whole = album(vec![]);
    whole.upc = Some("9".to_string());
    let part = track("Song", Some("CAT"), 1, 1);
    let tags = comments(&whole, &part, &audio(0, &[("ISRC", "own"), ("BARCODE", "1"), ("UPC", "2")]));
    assert_eq!(value(&tags, "ISRC"), Some("own".to_string()));
    assert_eq!(value(&tags, "BARCODE"), Some("1".to_string()));
    let tags = comments(&whole, &part, &audio(0, &[("ISRC", " "), ("BARCODE", ""), ("UPC", "2")]));
    assert_eq!(value(&tags, "ISRC"), Some("CAT".to_string()));
    assert_eq!(value(&tags, "BARCODE"), Some("2".to_string()));
    let tags = comments(&whole, &part, &audio(0, &[]));
    assert_eq!(value(&tags, "BARCODE"), Some("9".to_string()));
    whole.upc = Some(" ".to_string());
    let tags = comments(&whole, &part, &audio(0, &[]));
    assert_eq!(value(&tags, "BARCODE"), None);
}

#[test]
fn fields_that_do_not_apply_are_left_out() {
    let mut part = track("Song", None, 1, 1);
    part.artists = vec![];
    part.work = Some("  ".to_string());
    part.movement = Some("\t".to_string());
    part.content_rating = Some("other".to_string());
    let tags = comments(&album(vec![]), &part, &audio(0, &[]));
    let keys: Vec<String> = tags.into_iter().map(|tag| tag.0).collect();
    assert_eq!(
        keys,
        strings(&["TITLE", "ARTIST", "ALBUM", "ALBUMARTIST", "TRACKNUMBER", "DISCNUMBER"])
    );
    assert_eq!(advisory(Some("clean")), Some("2"));
    assert_eq!(advisory(Some("explicit")), Some("1"));
    assert_eq!(advisory(Some("Explicit")), None);
    assert_eq!(advisory(None), None);
}

#[test]
fn the_year_is_the_first_four_bytes_of_the_date() {
    let year = |date: &str| {
        let mut whole = album(vec![]);
        whole.release_date = Some(date.to_string());
        value(&comments(&whole, &track("S", None, 1, 1), &audio(0, &[])), "YEAR")
    };
    assert_eq!(year("1999"), Some("1999".to_string()));
    assert_eq!(year("199"), None);
    assert_eq!(year("199é"), None);
    assert_eq!(year("19é-"), Some("19é".to_string()));
    assert_eq!(year("    x"), Some("    ".to_string()));
}

#[test]
fn a_tagged_file_is_known_for_what_it_is() {
    let album = album(vec![track("Song", Some("CAT"), 1, 1)]);
    let items = items(&album, vec![song("cat", 0, &[("ISRC", "cat"), ("UPC", "0042")])]);
    let mut tag = Tag::new();
    tag.vorbis_comments_mut().set("UPC", vec!["0042"]);
    rewrite(&mut tag, &items[0].comments);
    let found = labels(&tag);
    assert_eq!(found.isrc, Some("cat".to_string()));
    assert_eq!(found.upc, Some("0042".to_string()));
    assert_eq!(found.album, Some("Album".to_string()));
    assert_eq!(found.artist, Some("Album Artist".to_string()));
}

fn item(before: &[(&str, &[&str])], after: &[(&str, &[&str])]) -> Item {
    let mut comments: Table<Vec<String>> = Table::new();
    for (key, values) in before {
        comments.insert(key.to_string(), strings(values));
    }
    Item {
        audio: Audio {
            path: FilePath {
                place: 0,
                text: "x".to_string(),
                name: None,
            },
            comments,
            duration_secs: None,
        },
        disc: 1,
        track: 1,
        title: "T".to_string(),
        duration_ms: 0,
        positional: false,
        comments: after.iter().map(|(key, values)| (key.to_string(), strings(values))).collect(),
    }
}

fn shown(change: &Change) -> String {
    match change {
        Change::Added(key, value) => format!("+{key}={value}"),
        Change::Updated(key, before, after) => format!("~{key}={before}>{after}"),
        Change::Removed(key, value) => format!("-{key}={value}"),
    }
}

#[test]
fn changes_are_told_in_the_order_of_keys() {
    let item = item(
        &[("ZED", &["1", "2"]), ("SAME", &["a", "b"]), ("OLD", &["x"]), ("GONE", &[])],
        &[("ZED", &["1"]), ("NEW", &["n", "m"]), ("SAME", &["a / b"]), ("ZED", &["3"])],
    );
    let list: Vec<String> = changes(&item).iter().map(shown).collect();
    assert_eq!(
        list,
        strings(&["+NEW=n / m", "~SAME=a / b>a / b", "~ZED=1 / 2>3", "-GONE=", "-OLD=x"])
    );
}

#[test]
fn nothing_changes_where_all_values_are_the_same() {
    let same = item(&[("A", &["1"]), ("B", &["x", "y"])], &[("B", &["x", "y"]), ("A", &["1"])]);
    assert!(changes(&same).is_empty());
    let split = item(&[("ARTISTS", &["A / B"])], &[("ARTISTS", &["A", "B"])]);
    let list: Vec<String> = changes(&split).iter().map(shown).collect();
    assert_eq!(list, strings(&["~ARTISTS=A / B>A / B"]));
    let none = item(&[("A", &[])], &[("A", &[""])]);
    assert_eq!(changes(&none).len(), 1);
}

#[test]
fn drift_is_in_rounded_seconds() {
    let mut item = item(&[], &[]);
    assert_eq!(drift(&item), None);
    item.audio.duration_secs = Some(200);
    item.duration_ms = 200_499;
    assert_eq!(drift(&item), Some(0));
    item.duration_ms = 200_500;
    assert_eq!(drift(&item), Some(1));
    item.duration_ms = 190_000;
    assert_eq!(drift(&item), Some(10));
    item.audio.duration_secs = Some(0);
    item.duration_ms = u64::MAX;
    assert_eq!(drift(&item), Some(18_446_744_073_709_552));
}

fn cover(width: u32, height: u32) -> Artwork {
    Artwork::from(ArtworkResource {
        url: "https://img/{w}x{h}.jpg".to_string(),
        width,
        height,
    })
}

#[test]
fn covers_are_asked_for_in_full_size() {
    assert_eq!(artwork_address(&cover(3000, 2000)), "https://img/3000x2000.jpg");
    assert_eq!(artwork_address(&cover(0, 5)), "https://img/10000x5.jpg");
    assert_eq!(ARTWORK_LIMIT, 32 * 1024 * 1024);
}

#[test]
fn covers_have_the_kind_that_the_header_names() {
    let picture = artwork(&cover(0, 7), Some(" image/png ; charset=x".to_string()), vec![1, 2]);
    assert_eq!(picture.mime, "image/png");
    assert_eq!((picture.width, picture.height), (10_000, 7));
    assert_eq!(picture.data, vec![1, 2]);
    assert_eq!(artwork(&cover(1, 1), None, vec![]).mime, "image/jpeg");
    assert_eq!(artwork(&cover(1, 1), Some(";x".to_string()), vec![]).mime, "");
}
