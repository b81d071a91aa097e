//! The tags that are written into a file.
use vstd::prelude::*;

use crate::apple::catalog::{Album, AlbumView, Track, TrackView};
use crate::flac::{
    by_key, first_in, first_value, labels_in, rewriting_replaces, rewritten, tag_views, Audio,
    BlockView, TagView,
};
use crate::text::{
    ascii_upper, blank, byte_len, bytes_are_those_of_utf8, copy_all, copy_maybe, decimal,
    decimal_text, is_blank, lemma_ascii_bytes, lemma_byte_len_grows, lemma_within_prefix, maybe_text,
    same_text, take_within, texts, trimming_takes_white_space_alone, white_space, within,
};

verus! {

/// A tag with one value.
pub open spec fn one(key: Seq<char>, value: Seq<char>) -> Seq<TagView> {
    seq![(key, seq![value])]
}

/// A tag with one value, or none where the value is missing or blank.
pub open spec fn if_any(key: Seq<char>, value: Option<Seq<char>>) -> Seq<TagView> {
    match value {
        Some(value) => if blank(value) {
            seq![]
        } else {
            one(key, value)
        },
        None => seq![],
    }
}

/// A tag with several values, or none where there is no value.
pub open spec fn many(key: Seq<char>, values: Seq<Seq<char>>) -> Seq<TagView> {
    if values.len() == 0 {
        seq![]
    } else {
        seq![(key, values)]
    }
}

/// A tag for a number, or none where it is zero.
pub open spec fn if_counted(key: Seq<char>, number: u16) -> Seq<TagView> {
    if number > 0 {
        one(key, decimal(number as nat))
    } else {
        seq![]
    }
}

/// The year of a date: its first four bytes, where these are whole characters.
pub open spec fn year(date: Option<Seq<char>>) -> Option<Seq<char>> {
    match date {
        Some(date) => if byte_len(within(date, 4)) == 4 {
            Some(within(date, 4))
        } else {
            None
        },
        None => None,
    }
}

/// A tag with one value, or none where the value is missing.
pub open spec fn if_there(key: Seq<char>, value: Option<Seq<char>>) -> Seq<TagView> {
    match value {
        Some(value) => one(key, value),
        None => seq![],
    }
}

/// The number that stands for a rating.
pub open spec fn advisory_of(rating: Option<Seq<char>>) -> Option<Seq<char>> {
    match rating {
        Some(rating) => if rating == "explicit"@ {
            Some("1"@)
        } else if rating == "clean"@ {
            Some("2"@)
        } else {
            None
        },
        None => None,
    }
}

/// `value`, or else `other`.
pub open spec fn or_else(value: Option<Seq<char>>, other: Option<Seq<char>>) -> Option<Seq<char>> {
    match value {
        Some(value) => Some(value),
        None => other,
    }
}

/// The keys of the tags that are written, in the order in which they are.
pub open spec fn tag_keys() -> Seq<Seq<char>> {
    seq![
        "TITLE"@,
        "ARTIST"@,
        "ARTISTS"@,
        "ALBUM"@,
        "ALBUMARTIST"@,
        "ALBUMARTISTS"@,
        "TRACKNUMBER"@,
        "DISCNUMBER"@,
        "DATE"@,
        "YEAR"@,
        "WORK"@,
        "MOVEMENTNAME"@,
        "MOVEMENT"@,
        "MOVEMENTTOTAL"@,
        "ISRC"@,
        "BARCODE"@,
        "ITUNESADVISORY"@,
        "COMPILATION"@,
    ]
}

/// The tags of a file that is a track of an album, key by key: of each key one
/// tag or none.
pub open spec fn sections(album: AlbumView, track: TrackView, audio: Audio) -> Seq<Seq<TagView>> {
    let tags = audio.tags();
    seq![
        one("TITLE"@, track.name),
        one("ARTIST"@, track.artist),
        many("ARTISTS"@, track.artists),
        one("ALBUM"@, album.name),
        one(
            "ALBUMARTIST"@,
            match track.album_artist {
                Some(artist) => artist,
                None => album.artist,
            },
        ),
        many("ALBUMARTISTS"@, album.artists),
        one("TRACKNUMBER"@, decimal(track.track_number as nat)),
        one("DISCNUMBER"@, decimal(track.disc_number as nat)),
        if_any("DATE"@, album.release_date),
        if_there("YEAR"@, year(album.release_date)),
        if_any("WORK"@, track.work),
        if_any("MOVEMENTNAME"@, track.movement),
        if_counted("MOVEMENT"@, track.movement_number),
        if_counted("MOVEMENTTOTAL"@, track.movement_count),
        if_any("ISRC"@, or_else(first_value(tags, "ISRC"@), track.isrc)),
        if_any(
            "BARCODE"@,
            or_else(first_value(tags, "BARCODE"@), or_else(first_value(tags, "UPC"@), album.upc)),
        ),
        if_there("ITUNESADVISORY"@, advisory_of(track.content_rating)),
        if album.is_compilation {
            one("COMPILATION"@, "1"@)
        } else {
            seq![]
        },
    ]
}

/// Some sections, one after the other.
pub open spec fn flat(sections: Seq<Seq<TagView>>) -> Seq<TagView>
    decreases sections.len(),
{
    if sections.len() == 0 {
        seq![]
    } else {
        flat(sections.drop_last()) + sections.last()
    }
}

proof fn lemma_flat_next(sections: Seq<Seq<TagView>>, k: int)
    requires
        0 <= k < sections.len(),
    ensures
        flat(sections.take(k + 1)) == flat(sections.take(k)) + sections[k],
{
    assert(sections.take(k + 1).drop_last() =~= sections.take(k));
}

/// The tags of a file that is a track of an album.
pub open spec fn written(album: AlbumView, track: TrackView, audio: Audio) -> Seq<TagView> {
    flat(sections(album, track, audio))
}

proof fn lemma_flat(all: Seq<Seq<TagView>>)
    requires
        all.len() == 18,
    ensures
        flat(all) == all[0] + all[1] + all[2] + all[3] + all[4] + all[5] + all[6] + all[7] + all[8]
            + all[9] + all[10] + all[11] + all[12] + all[13] + all[14] + all[15] + all[16]
            + all[17],
{
    assert(flat(all.take(0)) =~= seq![]);
    lemma_flat_next(all, 0);
    lemma_flat_next(all, 1);
    lemma_flat_next(all, 2);
    lemma_flat_next(all, 3);
    lemma_flat_next(all, 4);
    lemma_flat_next(all, 5);
    lemma_flat_next(all, 6);
    lemma_flat_next(all, 7);
    lemma_flat_next(all, 8);
    lemma_flat_next(all, 9);
    lemma_flat_next(all, 10);
    lemma_flat_next(all, 11);
    lemma_flat_next(all, 12);
    lemma_flat_next(all, 13);
    lemma_flat_next(all, 14);
    lemma_flat_next(all, 15);
    lemma_flat_next(all, 16);
    lemma_flat_next(all, 17);
    assert(flat(all.take(1)) =~= all[0]);
    assert(all.take(18) =~= all);
}

/// Tags, as they are put together.
struct Builder(Vec<(String, Vec<String>)>);

impl Builder {
    /// Adds a tag with one value.
    fn set(&mut self, key: &str, value: String)
        ensures
            tag_views(final(self).0@) == tag_views(old(self).0@) + one(key@, value@),
    {
        let mut values: Vec<String> = Vec::new();
        values.push(value);
        let ghost before = tag_views(self.0@);
        proof {
            assert(texts(values@) =~= seq![value@]);
        }
        self.0.push((key.to_owned(), values));
        proof {
            assert(tag_views(self.0@) =~= before + one(key@, value@));
        }
    }

    /// Adds a tag with one value, unless that is missing or blank.
    fn maybe(&mut self, key: &str, value: Option<String>)
        ensures
            tag_views(final(self).0@) == tag_views(old(self).0@) + if_any(key@, maybe_text(value)),
    {
        if let Some(value) = value {
            if !is_blank(value.as_str()) {
                self.set(key, value);
                return;
            }
        }
        proof {
            assert(tag_views(self.0@) =~= tag_views(self.0@) + seq![]);
        }
    }

    /// Adds a tag with several values, unless there are none.
    fn many(&mut self, key: &str, values: Vec<String>)
        ensures
            tag_views(final(self).0@) == tag_views(old(self).0@) + many(key@, texts(values@)),
    {
        let ghost before = tag_views(self.0@);
        let ghost added = texts(values@);
        if values.len() > 0 {
            self.0.push((key.to_owned(), values));
        }
        proof {
            assert(tag_views(self.0@) =~= before + many(key@, added));
        }
    }

    /// Adds a tag with one value, unless that is missing.
    fn given(&mut self, key: &str, value: Option<String>)
        ensures
            tag_views(final(self).0@) == tag_views(old(self).0@) + if_there(
                key@,
                maybe_text(value),
            ),
    {
        match value {
            Some(value) => self.set(key, value),
            None => {
                proof {
                    assert(tag_views(self.0@) =~= tag_views(self.0@) + seq![]);
                }
            },
        }
    }

    /// Adds a tag for a number, unless that is zero.
    fn counted(&mut self, key: &str, number: u16)
        ensures
            tag_views(final(self).0@) == tag_views(old(self).0@) + if_counted(key@, number),
    {
        if number > 0 {
            self.set(key, decimal_text(number as u64));
        } else {
            proof {
                assert(tag_views(self.0@) =~= tag_views(self.0@) + seq![]);
            }
        }
    }
}

/// The number that stands for a rating.
pub fn advisory(rating: Option<&str>) -> (number: Option<&'static str>)
    ensures
        (match number {
            Some(number) => Some(number@),
            None => None,
        }) == advisory_of(
            match rating {
                Some(rating) => Some(rating@),
                None => None,
            },
        ),
{
    match rating {
        Some(rating) => if same_text(rating, "explicit") {
            Some("1")
        } else if same_text(rating, "clean") {
            Some("2")
        } else {
            None
        },
        None => None,
    }
}

/// The year of a date.
fn year_of(date: &Option<String>) -> (found: Option<String>)
    ensures
        maybe_text(found) == year(maybe_text(*date)),
{
    match date {
        Some(date) => {
            let (start, bytes) = take_within(date.as_str(), 4);
            if bytes == 4 {
                Some(start)
            } else {
                None
            }
        },
        None => None,
    }
}

/// The tags of a file that is a track of an album.
pub fn comments(album: &Album, track: &Track, audio: &Audio) -> (tags: Vec<(String, Vec<String>)>)
    ensures
        tag_views(tags@) == written(album@, track@, *audio),
{
    let mut out = Builder(Vec::new());
    proof {
        assert(tag_views(out.0@) + one("TITLE"@, track@.name) =~= one("TITLE"@, track@.name));
        lemma_flat(sections(album@, track@, *audio));
    }
    out.set("TITLE", track.name.clone());
    out.set("ARTIST", track.artist.clone());
    out.many("ARTISTS", copy_all(&track.artists));
    out.set("ALBUM", album.name.clone());
    out.set(
        "ALBUMARTIST",
        match &track.album_artist {
            Some(artist) => artist.clone(),
            None => album.artist.clone(),
        },
    );
    out.many("ALBUMARTISTS", copy_all(&album.artists));
    out.set("TRACKNUMBER", decimal_text(track.track_number as u64));
    out.set("DISCNUMBER", decimal_text(track.disc_number as u64));
    out.maybe("DATE", copy_maybe(&album.release_date));
    out.given("YEAR", year_of(&album.release_date));
    out.maybe("WORK", copy_maybe(&track.work));
    out.maybe("MOVEMENTNAME", copy_maybe(&track.movement));
    out.counted("MOVEMENT", track.movement_number);
    out.counted("MOVEMENTTOTAL", track.movement_count);
    let isrc = match audio.first("ISRC") {
        Some(isrc) => Some(isrc),
        None => copy_maybe(&track.isrc),
    };
    out.maybe("ISRC", isrc);
    let barcode = match audio.first("BARCODE") {
        Some(barcode) => Some(barcode),
        None => match audio.first("UPC") {
            Some(barcode) => Some(barcode),
            None => copy_maybe(&album.upc),
        },
    };
    out.maybe("BARCODE", barcode);
    let number = match &track.content_rating {
        Some(rating) => advisory(Some(rating.as_str())),
        None => advisory(None),
    };
    let number = match number {
        Some(number) => Some(number.to_owned()),
        None => None,
    };
    out.given("ITUNESADVISORY", number);
    if album.is_compilation {
        out.set("COMPILATION", "1".to_owned());
    } else {
        proof {
            assert(tag_views(out.0@) =~= tag_views(out.0@) + seq![]);
        }
    }
    out.0
}

proof fn lemma_keys_distinct()
    ensures
        tag_keys().no_duplicates(),
{
    reveal_strlit("TITLE");
    reveal_strlit("ARTIST");
    reveal_strlit("ARTISTS");
    reveal_strlit("ALBUM");
    reveal_strlit("ALBUMARTIST");
    reveal_strlit("ALBUMARTISTS");
    reveal_strlit("TRACKNUMBER");
    reveal_strlit("DISCNUMBER");
    reveal_strlit("DATE");
    reveal_strlit("YEAR");
    reveal_strlit("WORK");
    reveal_strlit("MOVEMENTNAME");
    reveal_strlit("MOVEMENT");
    reveal_strlit("MOVEMENTTOTAL");
    reveal_strlit("ISRC");
    reveal_strlit("BARCODE");
    reveal_strlit("ITUNESADVISORY");
    reveal_strlit("COMPILATION");
    let keys = tag_keys();
    assert forall|i: int, j: int|
        0 <= i < keys.len() && 0 <= j < keys.len() && i != j implies keys[i] != keys[j] by {
        assert(keys[i].len() != keys[j].len() || keys[i][0] != keys[j][0] || keys[i][3]
            != keys[j][3]);
    }
}

/// Whether each section holds one tag or none, under the key in its place.
spec fn keyed(sections: Seq<Seq<TagView>>, keys: Seq<Seq<char>>) -> bool {
    &&& sections.len() == keys.len()
    &&& forall|k: int|
        0 <= k < sections.len() ==> (#[trigger] sections[k]).len() <= 1 && (sections[k].len() == 1
            ==> sections[k][0].0 == keys[k])
}

proof fn lemma_flat_keyed(sections: Seq<Seq<TagView>>, keys: Seq<Seq<char>>)
    requires
        keyed(sections, keys),
        keys.no_duplicates(),
    ensures
        ({
            let tags = flat(sections);
            &&& forall|i: int| 0 <= i < tags.len() ==> keys.contains((#[trigger] tags[i]).0)
            &&& forall|i: int, j: int|
                0 <= i < j < tags.len() ==> (#[trigger] tags[i]).0 != (#[trigger] tags[j]).0
            &&& forall|k: int|
                0 <= k < sections.len() ==> (by_key(tags).contains_key(keys[k])
                    <==> (#[trigger] sections[k]).len() == 1) && (sections[k].len() == 1 ==> by_key(
                    tags,
                )[keys[k]] == sections[k][0].1)
            &&& forall|key: Seq<char>| #[trigger]
                by_key(tags).contains_key(key) ==> keys.contains(key)
        }),
    decreases sections.len(),
{
    if sections.len() > 0 {
        let n = sections.len() - 1;
        let front = sections.drop_last();
        let front_keys = keys.drop_last();
        assert forall|k: int| 0 <= k < front.len() implies (#[trigger] front[k]).len() <= 1 && (
        front[k].len() == 1 ==> front[k][0].0 == front_keys[k]) by {
            assert(sections[k].len() <= 1);
        }
        lemma_flat_keyed(front, front_keys);
        let before = flat(front);
        let tags = flat(sections);
        let last = sections[n];
        assert(last.len() <= 1);
        assert forall|key: Seq<char>| front_keys.contains(key) implies keys.contains(key) && key
            != keys[n] by {
            let k = choose|k: int| 0 <= k < front_keys.len() && front_keys[k] == key;
            assert(keys[k] == key);
        }
        assert(keys.contains(keys[n]));
        if last.len() == 0 {
            assert(tags =~= before);
        } else {
            assert(tags =~= before.push(last[0]));
            assert(tags.drop_last() =~= before);
        }
        assert forall|k: int| 0 <= k < sections.len() implies (by_key(tags).contains_key(keys[k])
            <==> (#[trigger] sections[k]).len() == 1) && (sections[k].len() == 1 ==> by_key(
            tags,
        )[keys[k]] == sections[k][0].1) by {
            if k < n {
                assert(front[k] == sections[k]);
                assert(front_keys[k] == keys[k]);
                assert(keys[k] != keys[n]);
            } else {
                if by_key(before).contains_key(keys[n]) {
                    assert(front_keys.contains(keys[n]));
                }
            }
        }
        assert forall|i: int, j: int| 0 <= i < j < tags.len() implies (#[trigger] tags[i]).0
            != (#[trigger] tags[j]).0 by {
            assert(tags[i] == before[i]);
            assert(front_keys.contains(before[i].0));
            if j < before.len() {
                assert(tags[j] == before[j]);
            }
        }
        assert forall|i: int| 0 <= i < tags.len() implies keys.contains((#[trigger] tags[i]).0) by {
            if i < before.len() {
                assert(tags[i] == before[i]);
            }
        }
    }
}

/// The tags that are written are those of the list and no others, no key twice,
/// and under each key stands what its section holds, if anything.
pub proof fn tags_are_those_listed(album: AlbumView, track: TrackView, audio: Audio)
    ensures
        forall|i: int|
            0 <= i < written(album, track, audio).len() ==> tag_keys().contains(
                (#[trigger] written(album, track, audio)[i]).0,
            ),
        forall|i: int, j: int|
            0 <= i < j < written(album, track, audio).len() ==> (#[trigger] written(
                album,
                track,
                audio,
            )[i]).0 != (#[trigger] written(album, track, audio)[j]).0,
        forall|k: int|
            0 <= k < tag_keys().len() ==> {
                let section = #[trigger] sections(album, track, audio)[k];
                let tags = by_key(written(album, track, audio));
                &&& tags.contains_key(tag_keys()[k]) <==> section.len() == 1
                &&& section.len() == 1 ==> tags[tag_keys()[k]] == section[0].1
            },
{
    lemma_keys_distinct();
    lemma_flat_keyed(sections(album, track, audio), tag_keys());
}

/// Whether `value` and nothing else stands under `key`.
pub open spec fn holds_one(
    tags: Map<Seq<char>, Seq<Seq<char>>>,
    key: Seq<char>,
    value: Seq<char>,
) -> bool {
    tags.contains_key(key) && tags[key] == seq![value]
}

/// Whether `value` stands under `key` where it is there and not blank, and
/// nothing where it is not.
pub open spec fn holds_any(
    tags: Map<Seq<char>, Seq<Seq<char>>>,
    key: Seq<char>,
    value: Option<Seq<char>>,
) -> bool {
    match value {
        Some(value) => if blank(value) {
            !tags.contains_key(key)
        } else {
            holds_one(tags, key, value)
        },
        None => !tags.contains_key(key),
    }
}

/// The ISRC and the barcode of a file stay: what stands on it is written again,
/// and what the catalog says only where nothing stands on it. A barcode under
/// `UPC` counts where there is none under `BARCODE`.
pub proof fn codes_of_the_file_stay(album: AlbumView, track: TrackView, audio: Audio)
    ensures
        ({
            let tags = by_key(written(album, track, audio));
            let isrc = first_value(audio.tags(), "ISRC"@);
            let barcode = first_value(audio.tags(), "BARCODE"@);
            let upc = first_value(audio.tags(), "UPC"@);
            &&& isrc matches Some(value) ==> holds_one(tags, "ISRC"@, value)
            &&& isrc is None ==> holds_any(tags, "ISRC"@, track.isrc)
            &&& barcode matches Some(value) ==> holds_one(tags, "BARCODE"@, value)
            &&& barcode is None ==> (upc matches Some(value) ==> holds_one(
                tags,
                "BARCODE"@,
                value,
            ))
            &&& barcode is None && upc is None ==> holds_any(tags, "BARCODE"@, album.upc)
        }),
{
    tags_are_those_listed(album, track, audio);
    let all = sections(album, track, audio);
    assert(tag_keys()[14] == "ISRC"@ && tag_keys()[15] == "BARCODE"@);
    let isrc = all[14];
    let barcode = all[15];
}

/// Fields that do not apply are left out: work and movement of a track that has
/// none, or for which they are blank, the advisory of one that is neither
/// explicit nor clean, and the mark of a compilation.
pub proof fn what_does_not_apply_is_left_out(album: AlbumView, track: TrackView, audio: Audio)
    ensures
        ({
            let tags = by_key(written(album, track, audio));
            &&& holds_any(tags, "WORK"@, track.work)
            &&& holds_any(tags, "MOVEMENTNAME"@, track.movement)
            &&& track.movement_number == 0 ==> !tags.contains_key("MOVEMENT"@)
            &&& track.movement_count == 0 ==> !tags.contains_key("MOVEMENTTOTAL"@)
            &&& advisory_of(track.content_rating) is None ==> !tags.contains_key(
                "ITUNESADVISORY"@,
            )
            &&& !album.is_compilation ==> !tags.contains_key("COMPILATION"@)
        }),
{
    tags_are_those_listed(album, track, audio);
    let all = sections(album, track, audio);
    let keys = tag_keys();
    assert(keys[10] == "WORK"@ && keys[11] == "MOVEMENTNAME"@ && keys[12] == "MOVEMENT"@);
    assert(keys[13] == "MOVEMENTTOTAL"@ && keys[16] == "ITUNESADVISORY"@);
    assert(keys[17] == "COMPILATION"@);
    let work = all[10];
    let movement = all[11];
    assert(track.movement_number == 0 ==> all[12].len() == 0);
    assert(track.movement_count == 0 ==> all[13].len() == 0);
    assert(advisory_of(track.content_rating) is None ==> all[16].len() == 0);
    assert(!album.is_compilation ==> all[17].len() == 0);
}

/// Whether some tags hold what the year of a date is: its first four bytes, where
/// these are whole characters, as they are where all of them are ASCII; and else
/// nothing.
pub open spec fn holds_year(
    tags: Map<Seq<char>, Seq<Seq<char>>>,
    date: Option<Seq<char>>,
) -> bool {
    match date {
        Some(date) => {
            &&& date.len() >= 4 && (forall|i: int| 0 <= i < 4 ==> #[trigger] date[i] <= '\u{7f}')
                ==> tags.contains_key("YEAR"@) && tags["YEAR"@] == seq![date.take(4)]
            &&& tags.contains_key("YEAR"@) <==> exists|n: int|
                0 <= n <= date.len() && vstd::utf8::encode_utf8(#[trigger] date.take(n)).len() == 4
            &&& tags.contains_key("YEAR"@) ==> {
                let year = tags["YEAR"@];
                &&& year.len() == 1
                &&& year[0] == date.take(year[0].len() as int)
                &&& vstd::utf8::encode_utf8(year[0]).len() == 4
            }
        },
        None => !tags.contains_key("YEAR"@),
    }
}

proof fn lemma_year(date: Seq<char>)
    ensures
        ({
            let found = year(Some(date));
            &&& date.len() >= 4 && (forall|i: int| 0 <= i < 4 ==> #[trigger] date[i] <= '\u{7f}')
                ==> found == Some(date.take(4))
            &&& found is Some <==> exists|n: int|
                0 <= n <= date.len() && vstd::utf8::encode_utf8(#[trigger] date.take(n)).len() == 4
            &&& found matches Some(start) ==> start == date.take(start.len() as int)
                && vstd::utf8::encode_utf8(start).len() == 4
        }),
{
    let start = within(date, 4);
    lemma_within_prefix(date, 4);
    bytes_are_those_of_utf8(date, 4);
    bytes_are_those_of_utf8(start, 4);
    let k = start.len() as int;
    assert(start == date.take(k));
    if exists|n: int|
        0 <= n <= date.len() && vstd::utf8::encode_utf8(#[trigger] date.take(n)).len() == 4 {
        let n = choose|n: int|
            0 <= n <= date.len() && vstd::utf8::encode_utf8(#[trigger] date.take(n)).len() == 4;
        bytes_are_those_of_utf8(date.take(n), 4);
        if n > k {
            lemma_byte_len_grows(date.take(n), k + 1);
            assert(date.take(n).take(k + 1) =~= date.take(k + 1));
        } else {
            lemma_byte_len_grows(start, n);
            assert(start.take(n) =~= date.take(n));
        }
    }
    if date.len() >= 4 && (forall|i: int| 0 <= i < 4 ==> #[trigger] date[i] <= '\u{7f}') {
        let four = date.take(4);
        assert forall|i: int| 0 <= i < four.len() implies #[trigger] four[i] <= '\u{7f}' by {
            assert(date[i] <= '\u{7f}');
        }
        lemma_ascii_bytes(four);
        bytes_are_those_of_utf8(four, 4);
        if k > 4 {
            assert(start.take(5).drop_last() =~= four);
            lemma_byte_len_grows(start, 5);
            assert(byte_len(start.take(5)) > 4);
        } else if k < 4 {
            lemma_byte_len_grows(four, k + 1);
            assert(four.take(k + 1) =~= date.take(k + 1));
        }
        assert(start =~= four);
    }
}

/// What the catalog says of a track and its album is what is written: under each
/// key the value of its own field, and all of it that applies. A movement and how
/// many there are is written where the catalog numbers them, from the first on; the
/// advisory of what is explicit is 1 and of what is clean 2; and no tag is written
/// that is not in the list.
pub proof fn what_applies_is_written(album: AlbumView, track: TrackView, audio: Audio)
    ensures
        ({
            let tags = by_key(written(album, track, audio));
            &&& tags.contains_key("TITLE"@) && tags["TITLE"@] == seq![track.name]
            &&& tags.contains_key("ALBUM"@) && tags["ALBUM"@] == seq![album.name]
            &&& tags.contains_key("TRACKNUMBER"@) && tags["TRACKNUMBER"@] == seq![
                decimal(track.track_number as nat),
            ]
            &&& tags.contains_key("DISCNUMBER"@) && tags["DISCNUMBER"@] == seq![
                decimal(track.disc_number as nat),
            ]
            &&& holds_any(tags, "DATE"@, album.release_date)
            &&& holds_year(tags, album.release_date)
            &&& tags.contains_key("MOVEMENT"@) <==> track.movement_number > 0
            &&& track.movement_number > 0 ==> tags["MOVEMENT"@] == seq![
                decimal(track.movement_number as nat),
            ]
            &&& tags.contains_key("MOVEMENTTOTAL"@) <==> track.movement_count > 0
            &&& track.movement_count > 0 ==> tags["MOVEMENTTOTAL"@] == seq![
                decimal(track.movement_count as nat),
            ]
            &&& tags.contains_key("ITUNESADVISORY"@) <==> (track.content_rating == Some(
                "explicit"@,
            ) || track.content_rating == Some("clean"@))
            &&& track.content_rating == Some("explicit"@) ==> tags["ITUNESADVISORY"@] == seq!["1"@]
            &&& track.content_rating == Some("clean"@) ==> tags["ITUNESADVISORY"@] == seq!["2"@]
            &&& tags.contains_key("COMPILATION"@) <==> album.is_compilation
            &&& album.is_compilation ==> tags["COMPILATION"@] == seq!["1"@]
            &&& forall|key: Seq<char>| #[trigger]
                tags.contains_key(key) ==> {
                    ||| key == "TITLE"@ || key == "ARTIST"@ || key == "ARTISTS"@
                    ||| key == "ALBUM"@ || key == "ALBUMARTIST"@ || key == "ALBUMARTISTS"@
                    ||| key == "TRACKNUMBER"@ || key == "DISCNUMBER"@ || key == "DATE"@
                    ||| key == "YEAR"@ || key == "WORK"@ || key == "MOVEMENTNAME"@
                    ||| key == "MOVEMENT"@ || key == "MOVEMENTTOTAL"@ || key == "ISRC"@
                    ||| key == "BARCODE"@ || key == "ITUNESADVISORY"@ || key == "COMPILATION"@
                }
        }),
{
    lemma_keys_distinct();
    lemma_flat_keyed(sections(album, track, audio), tag_keys());
    let all = sections(album, track, audio);
    let keys = tag_keys();
    let tags = by_key(written(album, track, audio));
    assert(keys[0] == "TITLE"@ && all[0] == one("TITLE"@, track.name));
    assert(keys[3] == "ALBUM"@ && all[3] == one("ALBUM"@, album.name));
    assert(keys[6] == "TRACKNUMBER"@ && all[6] == one(
        "TRACKNUMBER"@,
        decimal(track.track_number as nat),
    ));
    assert(keys[7] == "DISCNUMBER"@ && all[7] == one(
        "DISCNUMBER"@,
        decimal(track.disc_number as nat),
    ));
    assert(keys[8] == "DATE"@ && all[8] == if_any("DATE"@, album.release_date));
    assert(keys[9] == "YEAR"@ && all[9] == if_there("YEAR"@, year(album.release_date)));
    assert(keys[12] == "MOVEMENT"@ && all[12] == if_counted("MOVEMENT"@, track.movement_number));
    assert(keys[13] == "MOVEMENTTOTAL"@ && all[13] == if_counted(
        "MOVEMENTTOTAL"@,
        track.movement_count,
    ));
    assert(keys[16] == "ITUNESADVISORY"@ && all[16] == if_there(
        "ITUNESADVISORY"@,
        advisory_of(track.content_rating),
    ));
    assert(keys[17] == "COMPILATION"@ && all[17].len() == if album.is_compilation {
        1nat
    } else {
        0nat
    });
    if let Some(date) = album.release_date {
        lemma_year(date);
    }
    reveal_strlit("explicit");
    reveal_strlit("clean");
    assert("explicit"@.len() != "clean"@.len());
    assert forall|key: Seq<char>| #[trigger] tags.contains_key(key) implies {
        ||| key == "TITLE"@ || key == "ARTIST"@ || key == "ARTISTS"@
        ||| key == "ALBUM"@ || key == "ALBUMARTIST"@ || key == "ALBUMARTISTS"@
        ||| key == "TRACKNUMBER"@ || key == "DISCNUMBER"@ || key == "DATE"@
        ||| key == "YEAR"@ || key == "WORK"@ || key == "MOVEMENTNAME"@
        ||| key == "MOVEMENT"@ || key == "MOVEMENTTOTAL"@ || key == "ISRC"@
        ||| key == "BARCODE"@ || key == "ITUNESADVISORY"@ || key == "COMPILATION"@
    } by {
        assert(keys.contains(key));
    }
}

/// The credits are written as they are shown, each as one value, and next to
/// them the participants, one name for each value, where there are any.
pub proof fn credits_and_participants(album: AlbumView, track: TrackView, audio: Audio)
    ensures
        ({
            let tags = by_key(written(album, track, audio));
            &&& holds_one(tags, "ARTIST"@, track.artist)
            &&& holds_one(
                tags,
                "ALBUMARTIST"@,
                match track.album_artist {
                    Some(artist) => artist,
                    None => album.artist,
                },
            )
            &&& tags.contains_key("ARTISTS"@) <==> track.artists.len() > 0
            &&& track.artists.len() > 0 ==> tags["ARTISTS"@] == track.artists
            &&& tags.contains_key("ALBUMARTISTS"@) <==> album.artists.len() > 0
            &&& album.artists.len() > 0 ==> tags["ALBUMARTISTS"@] == album.artists
        }),
{
    tags_are_those_listed(album, track, audio);
    let all = sections(album, track, audio);
    let keys = tag_keys();
    assert(keys[1] == "ARTIST"@ && keys[2] == "ARTISTS"@);
    assert(keys[4] == "ALBUMARTIST"@ && keys[5] == "ALBUMARTISTS"@);
    assert(all[1].len() == 1 && all[4].len() == 1);
    assert(all[2] == many("ARTISTS"@, track.artists));
    assert(all[5] == many("ALBUMARTISTS"@, album.artists));
}

/// A file that was tagged is known again for what it is: with the ISRC and the
/// barcode that stood on it, and as part of the album.
pub proof fn tagged_file_is_known_again(
    album: AlbumView,
    track: TrackView,
    audio: Audio,
    blocks: Seq<BlockView>,
)
    requires
        first_value(audio.tags(), "ISRC"@) is Some,
        or_else(
            first_value(audio.tags(), "BARCODE"@),
            first_value(audio.tags(), "UPC"@),
        ) is Some,
    ensures
        ({
            let labels = labels_in(rewritten(blocks, written(album, track, audio)));
            &&& labels.isrc == first_value(audio.tags(), "ISRC"@)
            &&& labels.upc == or_else(
                first_value(audio.tags(), "BARCODE"@),
                first_value(audio.tags(), "UPC"@),
            )
            &&& labels.album == Some(album.name)
            &&& labels.artist == Some(
                match track.album_artist {
                    Some(artist) => artist,
                    None => album.artist,
                },
            )
        }),
{
    let tags = written(album, track, audio);
    let after = rewritten(blocks, tags);
    rewriting_replaces(blocks, tags, tags);
    tags_are_those_listed(album, track, audio);
    codes_of_the_file_stay(album, track, audio);
    credits_and_participants(album, track, audio);
    reveal_strlit("ISRC");
    reveal_strlit("BARCODE");
    reveal_strlit("ALBUM");
    reveal_strlit("ALBUMARTIST");
    let upper = |c: char| ascii_upper(c);
    assert("ISRC"@.map_values(upper) =~= "ISRC"@);
    assert("BARCODE"@.map_values(upper) =~= "BARCODE"@);
    assert("ALBUM"@.map_values(upper) =~= "ALBUM"@);
    assert("ALBUMARTIST"@.map_values(upper) =~= "ALBUMARTIST"@);
    let all = sections(album, track, audio);
    assert(tag_keys()[3] == "ALBUM"@ && all[3] == one("ALBUM"@, album.name));
    assert(first_in(after, "ALBUM"@) == Some(album.name));
}

/// Whether a text holds something that is not white space.
pub open spec fn says_something(value: Seq<char>) -> bool {
    exists|i: int| 0 <= i < value.len() && !white_space(#[trigger] value[i])
}

/// A value that says something is written as it is, white space around it
/// included, and one that is missing or made of white space is not: the date of an
/// album, the work and the movement of a track, and the codes of both where the
/// file has none of its own.
pub proof fn values_are_written_as_they_are(
    album: AlbumView,
    track: TrackView,
    audio: Audio,
    value: Seq<char>,
)
    ensures
        ({
            let tags = by_key(written(album, track, audio));
            let isrc = first_value(audio.tags(), "ISRC"@);
            let barcode = first_value(audio.tags(), "BARCODE"@);
            let upc = first_value(audio.tags(), "UPC"@);
            &&& album.release_date == Some(value) ==> {
                &&& says_something(value) <==> tags.contains_key("DATE"@)
                &&& says_something(value) ==> tags["DATE"@] == seq![value]
            }
            &&& album.release_date is None ==> !tags.contains_key("DATE"@)
            &&& track.work == Some(value) ==> {
                &&& says_something(value) <==> tags.contains_key("WORK"@)
                &&& says_something(value) ==> tags["WORK"@] == seq![value]
            }
            &&& track.work is None ==> !tags.contains_key("WORK"@)
            &&& track.movement == Some(value) ==> {
                &&& says_something(value) <==> tags.contains_key("MOVEMENTNAME"@)
                &&& says_something(value) ==> tags["MOVEMENTNAME"@] == seq![value]
            }
            &&& track.movement is None ==> !tags.contains_key("MOVEMENTNAME"@)
            &&& isrc == Some(value) ==> tags.contains_key("ISRC"@) && tags["ISRC"@] == seq![value]
            &&& isrc is None && track.isrc == Some(value) ==> {
                &&& says_something(value) <==> tags.contains_key("ISRC"@)
                &&& says_something(value) ==> tags["ISRC"@] == seq![value]
            }
            &&& isrc is None && track.isrc is None ==> !tags.contains_key("ISRC"@)
            &&& barcode == Some(value) || (barcode is None && upc == Some(value))
                ==> tags.contains_key("BARCODE"@) && tags["BARCODE"@] == seq![value]
            &&& barcode is None && upc is None && album.upc == Some(value) ==> {
                &&& says_something(value) <==> tags.contains_key("BARCODE"@)
                &&& says_something(value) ==> tags["BARCODE"@] == seq![value]
            }
            &&& barcode is None && upc is None && album.upc is None ==> !tags.contains_key(
                "BARCODE"@,
            )
        }),
{
    let _ = trimming_takes_white_space_alone(value);
    what_applies_is_written(album, track, audio);
    what_does_not_apply_is_left_out(album, track, audio);
    codes_of_the_file_stay(album, track, audio);
}

} // verus!
