use metaflac::block::{Picture, StreamInfo};
use metaflac::{Block, Tag};
use redbook::flac::{
    collect, first, is_flac, labels, rewrite, tags_by_key, upper_keys, Audio, Collected, FilePath,
    Labels, Skipped,
};

fn file(place: usize) -> FilePath {
    FilePath {
        place,
        text: format!("/rips/{place}.flac"),
        name: Some(format!("{place}.flac")),
    }
}

fn tag(comments: &[(&str, &[&str])]) -> Tag {
    let mut tag = Tag::new();
    for (key, values) in comments {
        tag.vorbis_comments_mut().set(*key, values.to_vec());
    }
    tag
}

fn label(upc: Option<&str>, isrc: Option<&str>, album: Option<&str>, artist: Option<&str>) -> Labels {
    Labels {
        upc: upc.map(str::to_string),
        isrc: isrc.map(str::to_string),
        album: album.map(str::to_string),
        artist: artist.map(str::to_string),
    }
}

fn strings(parts: &[&str]) -> Vec<String> {
    parts.iter().map(|part| part.to_string()).collect()
}

#[test]
fn flac_files_are_known_by_their_ending() {
    for name in ["a.flac", "A.FLAC", "a.b.FlAc", "..flac", "é.flac"] {
        assert!(is_flac(name));
    }
    for name in [".flac", "flac", "a.flac.txt", "aflac", "a.flacc", ""] {
        assert!(!is_flac(name));
    }
}

#[test]
fn files_are_read_with_their_keys_in_upper_case() {
    let mut tag = tag(&[("Title", &["T"]), ("straße", &["1", "2"])]);
    let mut info = StreamInfo::new();
    info.sample_rate = 44_100;
    info.total_samples = 44_100 * 200 + 44_099;
    tag.set_streaminfo(info);
    let audio = Audio::open(file(3), &tag);
    assert_eq!(audio.comments.keys(), strings(&["STRASSE", "TITLE"]));
    assert_eq!(audio.comments.get("STRASSE"), Some(&strings(&["1", "2"])));
    assert_eq!(audio.duration_secs, Some(200));
    assert_eq!(audio.path.place, 3);
}

#[test]
fn a_length_needs_a_sample_rate() {
    assert_eq!(Audio::open(file(0), &Tag::new()).duration_secs, None);
    let mut tag = Tag::new();
    let mut info = StreamInfo::new();
    info.sample_rate = 0;
    info.total_samples = 100;
    tag.set_streaminfo(info);
    assert_eq!(Audio::open(file(0), &tag).duration_secs, None);
}

#[test]
fn the_first_value_counts_unless_it_is_blank() {
    let audio = Audio::open(
        file(0),
        &tag(&[
            ("A", &["x", "y"]),
            ("B", &[" \t", "y"]),
            ("C", &[]),
            ("D", &[" 7/12"]),
            ("E", &["x7"]),
            ("F", &["70000"]),
        ]),
    );
    assert_eq!(audio.first("A"), Some("x".to_string()));
    assert_eq!(audio.first("B"), None);
    assert_eq!(audio.first("C"), None);
    assert_eq!(audio.first("a"), None);
    assert_eq!(audio.first("D"), Some(" 7/12".to_string()));
    assert_eq!(audio.number("D"), Some(7));
    assert_eq!(audio.number("E"), None);
    assert_eq!(audio.number("F"), None);
    assert_eq!(audio.number("Z"), None);
}

#[test]
fn a_file_is_called_by_the_last_part_of_its_path() {
    let named = Audio::open(file(4), &Tag::new());
    assert_eq!(named.name(), "4.flac");
    let unnamed = Audio::open(
        FilePath {
            place: 0,
            text: "/..".to_string(),
            name: None,
        },
        &Tag::new(),
    );
    assert_eq!(unnamed.name(), "/..");
}

#[test]
fn later_comments_replace_earlier_ones_under_one_key() {
    let source = vec![
        ("key".to_string(), strings(&["1"])),
        ("KEY".to_string(), strings(&["2"])),
        ("other".to_string(), strings(&[])),
    ];
    let upper = upper_keys(&source);
    assert_eq!(upper.keys(), strings(&["KEY", "OTHER"]));
    assert_eq!(upper.get("KEY"), Some(&strings(&["2"])));
    let plain = tags_by_key(&source);
    assert_eq!(plain.keys(), strings(&["KEY", "key", "other"]));
    assert_eq!(plain.get("key"), Some(&strings(&["1"])));
}

#[test]
fn labels_come_from_the_tags_in_turn() {
    let found = labels(&tag(&[
        ("BARCODE", &["1", "2"]),
        ("UPC", &["3"]),
        ("ISRC", &["I"]),
        ("ALBUM", &["A"]),
        ("ALBUMARTIST", &["B"]),
        ("ARTIST", &["C"]),
    ]));
    assert_eq!(found.upc, Some("1".to_string()));
    assert_eq!(found.isrc, Some("I".to_string()));
    assert_eq!(found.album, Some("A".to_string()));
    assert_eq!(found.artist, Some("B".to_string()));
    let found = labels(&tag(&[("UPC", &["3"]), ("ARTIST", &["C"])]));
    assert_eq!(found.upc, Some("3".to_string()));
    assert_eq!(found.isrc, None);
    assert_eq!(found.album, None);
    assert_eq!(found.artist, Some("C".to_string()));
    assert_eq!(labels(&Tag::new()).upc, None);
    assert_eq!(first(&tag(&[("ISRC", &["I"])]), "isrc"), Some("I".to_string()));
    assert_eq!(first(&tag(&[("ISRC", &[])]), "ISRC"), None);
}

#[test]
fn files_are_grouped_by_barcode() {
    let collected = collect(vec![
        (file(0), label(Some("1"), Some("A"), None, Some("X"))),
        (file(1), label(Some("2"), Some("A"), Some("Two"), None)),
        (file(2), label(Some("1"), Some("B"), Some("One"), Some("Y"))),
        (file(3), label(Some("1"), Some("C"), Some("Uno"), None)),
    ]);
    assert!(collected.skipped.is_empty());
    assert_eq!(collected.albums.keys(), strings(&["1", "2"]));
    let one = collected.albums.get("1").unwrap();
    assert_eq!(one.songs.keys(), strings(&["A", "B", "C"]));
    assert_eq!(one.songs.get("B").unwrap().place, 2);
    assert_eq!(one.album, Some("One".to_string()));
    assert_eq!(one.artist, Some("X".to_string()));
    let two = collected.albums.get("2").unwrap();
    assert_eq!(two.songs.get("A").unwrap().place, 1);
    assert_eq!(two.artist, None);
}

#[test]
fn files_without_a_barcode_or_an_isrc_are_left_out() {
    let collected = collect(vec![
        (file(0), label(None, Some("A"), None, None)),
        (file(1), label(Some("1"), None, None, None)),
        (file(2), label(None, None, None, None)),
    ]);
    assert!(collected.albums.is_empty());
    assert_eq!(collected.skipped.len(), 3);
    assert!(matches!(&collected.skipped[0], Skipped::NoBarcode(file) if file.place == 0));
    assert!(matches!(&collected.skipped[1], Skipped::NoIsrc(file) if file.place == 1));
    assert!(matches!(&collected.skipped[2], Skipped::NoBarcode(file) if file.place == 2));
}

#[test]
fn the_last_of_two_files_with_one_isrc_stays() {
    let mut collected = Collected::default();
    for place in 0..3 {
        collected.file(file(place), label(Some("1"), Some("A"), None, None));
    }
    let group = collected.albums.get("1").unwrap();
    assert_eq!(group.songs.len(), 1);
    assert_eq!(group.songs.get("A").unwrap().place, 2);
    assert_eq!(collected.skipped.len(), 2);
    for (place, skipped) in collected.skipped.iter().enumerate() {
        assert!(
            matches!(skipped, Skipped::DuplicateIsrc(file, isrc) if file.place == place && isrc == "A")
        );
    }
}

#[test]
fn metadata_is_replaced_but_for_the_stream() {
    let mut tag = tag(&[("OLD", &["x"]), ("TITLE", &["before"])]);
    let mut info = StreamInfo::new();
    info.sample_rate = 48_000;
    info.total_samples = 96_000;
    info.min_block_size = 16;
    info.max_frame_size = 70_000;
    info.bits_per_sample = 24;
    info.md5 = vec![7; 16];
    tag.set_streaminfo(info.clone());
    tag.push_block(Block::Padding(10));
    tag.push_block(Block::Picture(Picture::new()));
    tag.push_block(Block::Unknown((100, vec![1, 2])));
    let comments = vec![
        ("TITLE".to_string(), strings(&["first"])),
        ("ARTISTS".to_string(), strings(&["a", "b"])),
        ("TITLE".to_string(), strings(&["after"])),
    ];
    rewrite(&mut tag, &comments);
    let kinds: Vec<metaflac::BlockType> = tag.blocks().map(Block::block_type).collect();
    assert_eq!(
        kinds,
        vec![metaflac::BlockType::StreamInfo, metaflac::BlockType::VorbisComment]
    );
    let vorbis = tag.vorbis_comments().unwrap();
    assert_eq!(vorbis.comments.len(), 2);
    assert_eq!(vorbis.comments["TITLE"], strings(&["after"]));
    assert_eq!(vorbis.comments["ARTISTS"], strings(&["a", "b"]));
    assert_eq!(Audio::open(file(0), &tag).duration_secs, Some(2));
    assert_eq!(tag.get_streaminfo(), Some(&info));
    rewrite(&mut tag, &vec![("X".to_string(), strings(&["y"]))]);
    assert_eq!(tag.vorbis_comments().unwrap().comments.len(), 1);
    assert_eq!(tag.blocks().count(), 2);
}

#[test]
fn a_file_without_metadata_gets_its_tags() {
    let mut tag = Tag::new();
    rewrite(&mut tag, &vec![]);
    assert_eq!(tag.blocks().count(), 1);
    assert!(tag.vorbis_comments().unwrap().comments.is_empty());
}
