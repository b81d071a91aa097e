//! What becomes of the files of an album: which track each of them is, what is
//! written into it, and what that changes.
use vstd::prelude::*;

use crate::apple::catalog::{artwork_url, Album, AlbumView, Artwork, TrackView};
use crate::apple::lookup::lists;
use crate::flac::{by_key, number_value, tag_views, tags_by_key, Audio, TagView};
use crate::pairing::{
    carries_isrc, first_at, is_first, isrc_goes_before_position, lemma_first_at, lemma_no_first,
    no_track_goes_to_two_files, pair, paired_by_isrc_is_carried, places, position,
    position_takes_free_tracks, slots, slots_by_isrc, Song,
};
use crate::ranking::{
    apart, arrange, in_rank_order, lemma_rank_order_map, rank_le, rank_order, rank_order_arranges,
    values_in_rank_order, Rank,
};
use crate::table::{in_order, lemma_order_exists, lemma_ordered_distinct, ordered};
use crate::tags::{comments, credits_and_participants, what_applies_is_written, written};
use crate::text::{
    decimal, decimal_text, join, joined, maybe_text, same_but_for_case, same_texts, split,
    split_text, splitting_starts_with_the_first_part, starts_with, text_before, texts,
    trim, trimmed,
};

verus! {

/// A file that is to be written: the file, where its track stands, what the
/// track is called and how long it lasts, whether it was paired by position, and
/// the tags it gets.
pub struct Item {
    pub audio: Audio,
    pub disc: u16,
    pub track: u16,
    pub title: String,
    pub duration_ms: u64,
    pub positional: bool,
    pub comments: Vec<(String, Vec<String>)>,
}

/// A file that is to be written, by the characters of what it gets.
pub struct ItemView {
    pub audio: Audio,
    pub disc: u16,
    pub track: u16,
    pub title: Seq<char>,
    pub duration_ms: u64,
    pub positional: bool,
    pub comments: Seq<TagView>,
}

impl View for Item {
    type V = ItemView;

    open spec fn view(&self) -> ItemView {
        ItemView {
            audio: self.audio,
            disc: self.disc,
            track: self.track,
            title: self.title@,
            duration_ms: self.duration_ms,
            positional: self.positional,
            comments: tag_views(self.comments@),
        }
    }
}

/// Some files that are to be written, by the characters of what they get.
pub open spec fn item_views(items: Seq<Item>) -> Seq<ItemView> {
    items.map_values(|item: Item| item@)
}

/// What becomes of a file that is paired with a track.
pub open spec fn item_of(
    album: AlbumView,
    track: TrackView,
    audio: Audio,
    positional: bool,
) -> ItemView {
    ItemView {
        audio,
        disc: track.disc_number,
        track: track.track_number,
        title: track.name,
        duration_ms: track.duration_ms,
        positional,
        comments: written(album, track, audio),
    }
}

/// Some files, each with its rank in the order of their paths.
pub open spec fn path_ranked(songs: Seq<Song>) -> Seq<(Rank, Song)> {
    songs.map_values(|song: Song| ((song.1.path.place as u64, 0u64, 0u64, 0u64), song))
}

/// Some files in the order of their paths.
pub open spec fn by_path(songs: Seq<Song>) -> Seq<Song> {
    values_in_rank_order(path_ranked(songs))
}

/// What becomes of files that are all paired with tracks.
pub open spec fn paired_items(album: AlbumView, songs: Seq<Song>) -> Seq<ItemView> {
    let by_isrc = slots_by_isrc(album.tracks, songs);
    let found = slots(album.tracks, songs);
    Seq::new(
        songs.len(),
        |i: int| item_of(album, album.tracks[found[i]->0], songs[i].1, by_isrc[i] is None),
    )
}

/// Some files that are to be written, each with its rank in the order of their
/// tracks.
pub open spec fn track_ranked(items: Seq<ItemView>) -> Seq<(Rank, ItemView)> {
    items.map_values(
        |item: ItemView| ((item.disc as u64, item.track as u64, 0u64, 0u64), item),
    )
}

/// Some files that are to be written, in the order of their tracks.
pub open spec fn by_track(items: Seq<ItemView>) -> Seq<ItemView> {
    values_in_rank_order(track_ranked(items))
}

/// What is said of a file that gets no track.
pub open spec fn unmatched(album: Seq<char>, song: Song) -> Seq<char> {
    let tags = song.1.tags();
    song.1.path.text@ + " carries "@ + song.0@ + ", and "@ + album
        + " has no track with that isrc or a free ("@ + decimal(
        match number_value(tags, "DISCNUMBER"@) {
            Some(disc) => disc as nat,
            None => 1,
        },
    ) + ", "@ + match number_value(tags, "TRACKNUMBER"@) {
        Some(number) => decimal(number as nat),
        None => "?"@,
    } + ") slot"@
}

/// What becomes of some files as tracks of an album: what is written into each
/// of them, in the order of the tracks, or what is said of the first that gets
/// no track.
pub open spec fn planned(
    album: AlbumView,
    songs: Seq<Song>,
) -> Result<Seq<ItemView>, Seq<char>> {
    let ordered = by_path(songs);
    match first_at(slots(album.tracks, ordered), |slot: Option<int>| slot is None) {
        Some(i) => Err(unmatched(album.name, ordered[i])),
        None => Ok(by_track(paired_items(album, ordered))),
    }
}

/// Some files in the order of their paths.
fn sort_by_path(songs: Vec<Song>) -> (sorted: Vec<Song>)
    ensures
        sorted@ == by_path(songs@),
{
    let ghost all = songs@;
    let ghost ranked = |song: Song| ((song.1.path.place as u64, 0u64, 0u64, 0u64), song);
    let mut entries: Vec<(Rank, Song)> = Vec::new();
    for song in it: songs
        invariant
            it.seq() == all,
            ranked == |song: Song| ((song.1.path.place as u64, 0u64, 0u64, 0u64), song),
            entries@ == all.take(it.index() as int).map_values(ranked),
    {
        entries.push(((song.1.path.place as u64, 0, 0, 0), song));
        proof {
            assert(entries@ =~= all.take(it.index() + 1).map_values(ranked));
        }
    }
    proof {
        assert(all.take(all.len() as int) =~= all);
    }
    arrange(entries)
}

/// Some files that are to be written, in the order of their tracks.
fn sort_by_track(items: Vec<Item>) -> (sorted: Vec<Item>)
    ensures
        item_views(sorted@) == by_track(item_views(items@)),
{
    let ghost all = items@;
    let ghost ranked = |item: Item| ((item.disc as u64, item.track as u64, 0u64, 0u64), item);
    let mut entries: Vec<(Rank, Item)> = Vec::new();
    for item in it: items
        invariant
            it.seq() == all,
            ranked == |item: Item| ((item.disc as u64, item.track as u64, 0u64, 0u64), item),
            entries@ == all.take(it.index() as int).map_values(ranked),
    {
        entries.push(((item.disc as u64, item.track as u64, 0, 0), item));
        proof {
            assert(entries@ =~= all.take(it.index() + 1).map_values(ranked));
        }
    }
    let ghost listed = entries@;
    let sorted = arrange(entries);
    proof {
        assert(all.take(all.len() as int) =~= all);
        let view = |item: Item| item@;
        lemma_rank_order_map(listed, view);
        assert(listed.map_values(|entry: (Rank, Item)| (entry.0, view(entry.1))) =~= item_views(
            all,
        ).map_values(
            |item: ItemView| ((item.disc as u64, item.track as u64, 0u64, 0u64), item),
        ));
        assert(item_views(sorted@) =~= by_track(item_views(all)));
    }
    sorted
}

/// What is said of a file that gets no track.
fn complain(album: &Album, isrc: &str, audio: &Audio) -> (message: String)
    ensures
        forall|song: Song|
            song.0@ == isrc@ && song.1 == *audio ==> message@ == #[trigger] unmatched(
                album@.name,
                song,
            ),
{
    let mut message = audio.path.text.clone();
    message.append(" carries ");
    message.append(isrc);
    message.append(", and ");
    message.append(album.name.as_str());
    message.append(" has no track with that isrc or a free (");
    let disc = match audio.number("DISCNUMBER") {
        Some(disc) => disc as u64,
        None => 1,
    };
    message.append(decimal_text(disc).as_str());
    message.append(", ");
    match audio.number("TRACKNUMBER") {
        Some(number) => message.append(decimal_text(number as u64).as_str()),
        None => message.append("?"),
    }
    message.append(") slot");
    message
}

/// Pairs some files with the tracks of an album, and says what is written into
/// each of them.
pub fn plan(album: &Album, songs: Vec<Song>) -> (items: Result<Vec<Item>, String>)
    ensures
        planned(album@, songs@) == match items {
            Ok(items) => Ok(item_views(items@)),
            Err(message) => Err(message@),
        },
{
    let ghost given = songs@;
    let sorted = sort_by_path(songs);
    let count = sorted.len();
    let (assigned, positional) = pair(album, &sorted);
    let ghost ordered = sorted@;
    let ghost tracks = album@.tracks;
    let ghost found = slots(tracks, ordered);
    let ghost unpaired = |slot: Option<int>| slot is None;
    let ghost expected = paired_items(album@, ordered);
    let mut items: Vec<Item> = Vec::new();
    let mut index: usize = 0;
    proof {
        assert(places(assigned@).len() == assigned@.len());
    }
    for song in it: sorted
        invariant
            it.seq() == ordered,
            index == it.index(),
            index <= count == ordered.len(),
            given == songs@,
            ordered == by_path(given),
            tracks == album@.tracks,
            found == slots(tracks, ordered),
            unpaired == |slot: Option<int>| slot is None,
            expected == paired_items(album@, ordered),
            places(assigned@) == found,
            assigned@.len() == ordered.len(),
            positional@.len() == ordered.len(),
            forall|i: int|
                0 <= i < ordered.len() ==> #[trigger] positional@[i] == (slots_by_isrc(
                    tracks,
                    ordered,
                )[i] is None && assigned@[i] is Some),
            forall|i: int|
                0 <= i < ordered.len() ==> (#[trigger] assigned@[i] matches Some(track) ==> track
                    < tracks.len()),
            forall|i: int| 0 <= i < index ==> !unpaired(#[trigger] found[i]),
            item_views(items@) == expected.take(index as int),
    {
        let ghost before = item_views(items@);
        proof {
            assert(found[index as int] == places(assigned@)[index as int]);
        }
        let (isrc, audio) = song;
        match assigned[index] {
            None => {
                let message = complain(album, isrc.as_str(), &audio);
                proof {
                    assert(is_first(found, unpaired, index as int));
                    lemma_first_at(found, unpaired, index as int);
                    assert(ordered[index as int] == (isrc, audio));
                }
                return Err(message);
            },
            Some(track) => {
                let matched = &album.tracks[track];
                let comments = comments(album, matched, &audio);
                let item = Item {
                    audio,
                    disc: matched.disc_number,
                    track: matched.track_number,
                    title: matched.name.clone(),
                    duration_ms: matched.duration_ms,
                    positional: positional[index],
                    comments,
                };
                proof {
                    assert(tracks[track as int] == matched@);
                    assert(positional@[index as int] == (slots_by_isrc(
                        tracks,
                        ordered,
                    )[index as int] is None));
                    assert(item@ == expected[index as int]);
                }
                items.push(item);
                index += 1;
                proof {
                    assert(item_views(items@) =~= before.push(item@));
                    assert(item_views(items@) =~= expected.take(index as int));
                }
            },
        }
    }
    proof {
        lemma_no_first(found, unpaired);
        assert(expected.take(index as int) =~= expected);
    }
    Ok(sort_by_track(items))
}

/// How a tag changes: it is added, or gets another value, or is removed.
pub enum Change {
    Added(String, String),
    Updated(String, String, String),
    Removed(String, String),
}

/// How a tag changes, by its characters.
pub enum ChangeView {
    Added(Seq<char>, Seq<char>),
    Updated(Seq<char>, Seq<char>, Seq<char>),
    Removed(Seq<char>, Seq<char>),
}

impl View for Change {
    type V = ChangeView;

    open spec fn view(&self) -> ChangeView {
        match *self {
            Change::Added(key, value) => ChangeView::Added(key@, value@),
            Change::Updated(key, before, after) => ChangeView::Updated(key@, before@, after@),
            Change::Removed(key, value) => ChangeView::Removed(key@, value@),
        }
    }
}

/// Some changes, by their characters.
pub open spec fn change_views(changes: Seq<Change>) -> Seq<ChangeView> {
    changes.map_values(|change: Change| change@)
}

/// Several values as one text.
pub open spec fn shown(values: Seq<Seq<char>>) -> Seq<char> {
    joined(values, " / "@)
}

/// How the tag under `key` changes, where it does: where it is there before and
/// after with the same values, it does not, though other values may read the
/// same.
pub open spec fn change_under(
    before: Map<Seq<char>, Seq<Seq<char>>>,
    after: Map<Seq<char>, Seq<Seq<char>>>,
    key: Seq<char>,
) -> Option<ChangeView> {
    if before.contains_key(key) && after.contains_key(key) {
        if before[key] == after[key] {
            None
        } else {
            Some(ChangeView::Updated(key, shown(before[key]), shown(after[key])))
        }
    } else if after.contains_key(key) {
        Some(ChangeView::Added(key, shown(after[key])))
    } else if before.contains_key(key) {
        Some(ChangeView::Removed(key, shown(before[key])))
    } else {
        None
    }
}

/// How the tags under some keys change.
pub open spec fn changes_under(
    before: Map<Seq<char>, Seq<Seq<char>>>,
    after: Map<Seq<char>, Seq<Seq<char>>>,
    keys: Seq<Seq<char>>,
) -> Seq<ChangeView>
    decreases keys.len(),
{
    if keys.len() == 0 {
        seq![]
    } else {
        let earlier = changes_under(before, after, keys.drop_last());
        match change_under(before, after, keys.last()) {
            Some(change) => earlier.push(change),
            None => earlier,
        }
    }
}

/// How tags change: in the order of their keys, those that are there afterwards
/// and then those that are not.
pub open spec fn changes_between(
    before: Map<Seq<char>, Seq<Seq<char>>>,
    after: Map<Seq<char>, Seq<Seq<char>>>,
) -> Seq<ChangeView> {
    changes_under(before, after, in_order(after.dom())) + changes_under(
        before,
        after,
        in_order(before.dom()).filter(|key: Seq<char>| !after.contains_key(key)),
    )
}

/// How the tags of a file change.
pub fn changes(item: &Item) -> (changes: Vec<Change>)
    ensures
        change_views(changes@) == changes_between(item.audio.tags(), by_key(item@.comments)),
{
    let table = tags_by_key(&item.comments);
    let ghost before = item.audio.tags();
    let ghost after = by_key(item@.comments);
    let mut out: Vec<Change> = Vec::new();
    let keys = table.keys();
    let ghost all = texts(keys@);
    proof {
        assert(table@.dom() =~= after.dom());
    }
    let mut i: usize = 0;
    proof {
        assert(change_views(out@) =~= changes_under(before, after, all.take(0)));
    }
    while i < keys.len()
        invariant
            i <= keys@.len(),
            all == texts(keys@),
            all.to_set() == table@.dom(),
            after == lists(table@),
            before == item.audio.tags(),
            change_views(out@) == changes_under(before, after, all.take(i as int)),
        decreases keys@.len() - i,
    {
        let ghost earlier = change_views(out@);
        let key = &keys[i];
        proof {
            assert(all.take(i + 1).drop_last() =~= all.take(i as int));
            assert(all[i as int] == key@);
            assert(all.to_set().contains(all[i as int]));
        }
        let mut change: Option<Change> = None;
        if let Some(values) = table.get(key.as_str()) {
            proof {
                assert(after[key@] == texts(values@));
            }
            let value = join(values, " / ");
            match item.audio.comments.get(key.as_str()) {
                Some(old_values) => {
                    proof {
                        assert(before[key@] == texts(old_values@));
                    }
                    if !same_texts(old_values, values) {
                        let earlier = join(old_values, " / ");
                        change = Some(Change::Updated(key.clone(), earlier, value));
                    }
                },
                None => {
                    change = Some(Change::Added(key.clone(), value));
                },
            }
        }
        proof {
            assert((match change {
                Some(change) => Some(change@),
                None => None,
            }) == change_under(before, after, key@));
        }
        if let Some(change) = change {
            out.push(change);
            proof {
                assert(change_views(out@) =~= earlier.push(change@));
            }
        }
        i += 1;
    }
    let ghost first = change_views(out@);
    proof {
        assert(all.take(i as int) =~= all);
    }
    let keys = item.audio.comments.keys();
    let ghost all = texts(keys@);
    let ghost gone = |key: Seq<char>| !after.contains_key(key);
    proof {
        assert(item.audio.comments@.dom() =~= before.dom());
    }
    let mut i: usize = 0;
    proof {
        reveal(Seq::filter);
        assert(all.take(0).filter(gone) =~= seq![]);
        assert(first =~= first + changes_under(before, after, all.take(0).filter(gone)));
    }
    while i < keys.len()
        invariant
            i <= keys@.len(),
            all == texts(keys@),
            all.to_set() == item.audio.comments@.dom(),
            after == lists(table@),
            before == item.audio.tags(),
            gone == |key: Seq<char>| !after.contains_key(key),
            change_views(out@) == first + changes_under(
                before,
                after,
                all.take(i as int).filter(gone),
            ),
        decreases keys@.len() - i,
    {
        let ghost earlier = change_views(out@);
        let key = &keys[i];
        let ghost kept = all.take(i as int).filter(gone);
        proof {
            reveal(Seq::filter);
            assert(all.take(i + 1).drop_last() =~= all.take(i as int));
            assert(all[i as int] == key@);
            assert(all.to_set().contains(all[i as int]));
            assert(kept.push(key@).drop_last() =~= kept);
        }
        if !table.contains(key.as_str()) {
            if let Some(values) = item.audio.comments.get(key.as_str()) {
                proof {
                    assert(before[key@] == texts(values@));
                }
                let change = Change::Removed(key.clone(), join(values, " / "));
                out.push(change);
                proof {
                    assert(gone(key@));
                    assert(change_views(out@) =~= earlier.push(change@));
                    assert(change_views(out@) =~= first + changes_under(
                        before,
                        after,
                        kept.push(key@),
                    ));
                }
            }
        }
        i += 1;
    }
    proof {
        assert(all.take(i as int) =~= all);
    }
    out
}

/// A length in milliseconds, in whole seconds.
pub open spec fn rounded_secs(ms: u64) -> int {
    (ms + 500) / 1000
}

/// By how many seconds a file and its track differ in length, where the length
/// of the file is known.
pub open spec fn drift_of(item: ItemView) -> Option<u64> {
    match item.audio.duration_secs {
        Some(actual) => Some(apart(rounded_secs(item.duration_ms), actual as int) as u64),
        None => None,
    }
}

/// By how many seconds a file and its track differ in length, where the length
/// of the file is known.
pub fn drift(item: &Item) -> (secs: Option<u64>)
    ensures
        secs == drift_of(item@),
{
    let expected = item.duration_ms / 1000 + if item.duration_ms % 1000 >= 500 {
        1
    } else {
        0
    };
    match item.audio.duration_secs {
        Some(actual) => Some(
            if expected < actual {
                actual - expected
            } else {
                expected - actual
            },
        ),
        None => None,
    }
}

/// How large a cover may be, in bytes.
pub const ARTWORK_LIMIT: u64 = 33_554_432;

/// The width and height that are asked for where the catalog gives none.
pub const ARTWORK_UNKNOWN: u32 = 10_000;

/// A cover, as it was downloaded.
pub struct Picture {
    pub mime: String,
    pub width: u32,
    pub height: u32,
    pub data: Vec<u8>,
}

/// The width or height to ask for.
pub open spec fn full_size(size: u32) -> u32 {
    if size == 0 {
        ARTWORK_UNKNOWN
    } else {
        size
    }
}

/// The kind of image that a header names.
pub open spec fn named_mime(content_type: Option<Seq<char>>) -> Seq<char> {
    match content_type {
        Some(value) => trimmed(split(value, ';')[0]),
        None => "image/jpeg"@,
    }
}

/// The width and height to ask for.
fn ask_for(art: &Artwork) -> (size: (u32, u32))
    ensures
        size.0 == full_size(art@.width),
        size.1 == full_size(art@.height),
{
    (
        if art.width == 0 {
            ARTWORK_UNKNOWN
        } else {
            art.width
        },
        if art.height == 0 {
            ARTWORK_UNKNOWN
        } else {
            art.height
        },
    )
}

/// Where to get a cover in full size.
pub fn artwork_address(art: &Artwork) -> (url: String)
    ensures
        url@ == artwork_url(art@.template, full_size(art@.width), full_size(art@.height)),
{
    let (width, height) = ask_for(art);
    art.url(width, height)
}

/// A cover from what was downloaded: the value of the header that names its
/// kind, and its bytes.
pub fn artwork(art: &Artwork, content_type: Option<String>, data: Vec<u8>) -> (picture: Picture)
    ensures
        picture.mime@ == named_mime(maybe_text(content_type)),
        picture.width == full_size(art@.width),
        picture.height == full_size(art@.height),
        picture.data == data,
{
    let (width, height) = ask_for(art);
    let mime = match content_type {
        Some(value) => {
            let parts = split_text(value.as_str(), ';');
            proof {
                assert(texts(parts@)[0] == parts@[0]@);
            }
            trim(parts[0].as_str())
        },
        None => "image/jpeg".to_owned(),
    };
    Picture { mime, width, height, data }
}

/// Whether each of some files is written once: `items` holds that at `order[i]`
/// in place `i`.
pub open spec fn each_written_once(
    songs: Seq<Song>,
    items: Seq<ItemView>,
    order: Seq<int>,
) -> bool {
    &&& items.len() == songs.len()
    &&& order.len() == songs.len()
    &&& order.no_duplicates()
    &&& forall|i: int|
        0 <= i < items.len() ==> 0 <= #[trigger] order[i] < songs.len() && items[i].audio
            == songs[order[i]].1
}

/// Whether an item stands no later than another: on an earlier disc, or on the
/// same disc as an earlier track, or as the same track no later in the order of
/// paths.
pub open spec fn no_later(a: ItemView, b: ItemView) -> bool {
    ||| a.disc < b.disc
    ||| a.disc == b.disc && a.track < b.track
    ||| a.disc == b.disc && a.track == b.track && a.audio.path.place <= b.audio.path.place
}

/// Where a plan is made, each file is written once, and the files stand in the
/// order of their discs and tracks, and those of one track in the order of their
/// paths.
pub proof fn plan_writes_each_file_once(album: AlbumView, songs: Seq<Song>) -> (order: Seq<int>)
    requires
        planned(album, songs) is Ok,
    ensures
        each_written_once(songs, planned(album, songs)->Ok_0, order),
        forall|i: int, j: int|
            0 <= i < j < songs.len() ==> no_later(
                #[trigger] (planned(album, songs)->Ok_0)[i],
                #[trigger] (planned(album, songs)->Ok_0)[j],
            ),
{
    let ordered = by_path(songs);
    let paired = paired_items(album, ordered);
    let items = planned(album, songs)->Ok_0;
    let p = path_ranked(songs);
    let t = track_ranked(paired);
    rank_order_arranges(p);
    rank_order_arranges(t);
    let first = rank_order(p);
    let second = rank_order(t);
    let order = Seq::new(songs.len(), |i: int| first[second[i]]);
    assert forall|i: int| 0 <= i < items.len() implies 0 <= #[trigger] order[i] < songs.len()
        && items[i].audio == songs[order[i]].1 by {
        let k = second[i];
        assert(0 <= k < t.len());
        assert(items[i] == in_rank_order(t)[i].1);
        assert(items[i] == paired[k]);
        assert(paired[k].audio == ordered[k].1);
        assert(0 <= first[k] < songs.len());
        assert(ordered[k] == in_rank_order(p)[k].1);
        assert(ordered[k] == songs[first[k]]);
    }
    assert(order.no_duplicates()) by {
        assert forall|i: int, j: int|
            0 <= i < order.len() && 0 <= j < order.len() && i != j implies order[i]
            != order[j] by {
            assert(second[i] != second[j]);
            assert(0 <= second[i] < t.len() && 0 <= second[j] < t.len());
            assert(first[second[i]] != first[second[j]]);
        }
    }
    assert forall|i: int, j: int| 0 <= i < j < songs.len() implies no_later(
        #[trigger] items[i],
        #[trigger] items[j],
    ) by {
        let sorted = in_rank_order(t);
        assert(items[i] == sorted[i].1 && items[j] == sorted[j].1);
        assert(second[i] != second[j]);
        assert(sorted[i] == t[second[i]] && sorted[j] == t[second[j]]);
        assert(rank_le(sorted[i].0, sorted[j].0));
        if items[i].disc == items[j].disc && items[i].track == items[j].track {
            assert(rank_le(sorted[j].0, sorted[i].0));
            let a = second[i];
            let b = second[j];
            assert(a < b);
            let lined = in_rank_order(p);
            assert(lined[a] == p[first[a]] && lined[b] == p[first[b]]);
            assert(rank_le(lined[a].0, lined[b].0));
            assert(items[i].audio == ordered[a].1 && items[j].audio == ordered[b].1);
        }
    }
    order
}

/// Whether no two of some files have the same place in the order of paths.
pub open spec fn places_differ(songs: Seq<Song>) -> bool {
    forall|i: int, j: int|
        0 <= i < j < songs.len() ==> (#[trigger] songs[i]).1.path.place != (
        #[trigger] songs[j]).1.path.place
}

/// Whether some files stand in the order of their paths.
spec fn in_line(songs: Seq<Song>) -> bool {
    forall|i: int, j: int|
        0 <= i < j < songs.len() ==> (#[trigger] songs[i]).1.path.place < (
        #[trigger] songs[j]).1.path.place
}

proof fn lemma_by_path(songs: Seq<Song>)
    requires
        places_differ(songs),
    ensures
        in_line(by_path(songs)),
        by_path(songs).to_set() == songs.to_set(),
{
    let p = path_ranked(songs);
    let sorted = by_path(songs);
    let lined = in_rank_order(p);
    let order = rank_order(p);
    rank_order_arranges(p);
    assert forall|i: int| 0 <= i < sorted.len() implies #[trigger] sorted[i]
        == songs[order[i]] by {
        assert(lined[i] == p[order[i]]);
    }
    assert forall|i: int, j: int| 0 <= i < j < sorted.len() implies (
    #[trigger] sorted[i]).1.path.place < (#[trigger] sorted[j]).1.path.place by {
        assert(lined[i] == p[order[i]] && lined[j] == p[order[j]]);
        assert(order[i] != order[j]);
        assert(rank_le(lined[i].0, lined[j].0));
        if order[i] < order[j] {
            assert(songs[order[i]].1.path.place != songs[order[j]].1.path.place);
        } else {
            assert(songs[order[j]].1.path.place != songs[order[i]].1.path.place);
        }
    }
    lemma_covers(order, songs.len() as int);
    assert forall|song: Song| sorted.to_set().contains(song) <==> songs.to_set().contains(
        song,
    ) by {
        if sorted.contains(song) {
            let i = choose|i: int| 0 <= i < sorted.len() && sorted[i] == song;
            assert(songs[order[i]] == song);
        }
        if songs.contains(song) {
            let k = choose|k: int| 0 <= k < songs.len() && songs[k] == song;
            assert(order.contains(k));
            let i = choose|i: int| 0 <= i < order.len() && order[i] == k;
            assert(sorted[i] == song);
        }
    }
    assert(sorted.to_set() =~= songs.to_set());
}

/// So many different numbers below `n` as `n` are all of them.
proof fn lemma_covers(order: Seq<int>, n: int)
    requires
        order.len() == n,
        order.no_duplicates(),
        forall|i: int| 0 <= i < order.len() ==> 0 <= #[trigger] order[i] < n,
    ensures
        forall|k: int| 0 <= k < n ==> #[trigger] order.contains(k),
{
    let all = vstd::set_lib::set_int_range(0, n);
    vstd::set_lib::lemma_int_range(0, n);
    order.unique_seq_to_set();
    let there = order.to_set();
    assert(there.subset_of(all));
    vstd::set_lib::lemma_subset_equality(there, all);
    assert forall|k: int| 0 <= k < n implies #[trigger] order.contains(k) by {
        assert(all.contains(k));
        assert(there.contains(k));
    }
}

proof fn lemma_one_line(a: Seq<Song>, b: Seq<Song>)
    requires
        in_line(a),
        in_line(b),
        a.to_set() == b.to_set(),
    ensures
        a == b,
    decreases a.len(),
{
    if a.len() == 0 {
        if b.len() > 0 {
            assert(b.to_set().contains(b[0]));
            assert(a.contains(b[0]));
        }
        assert(a =~= b);
    } else {
        assert(a.to_set().contains(a.last()));
        assert(b.contains(a.last()));
        assert(b.to_set().contains(b.last()));
        assert(a.contains(b.last()));
        let i = choose|i: int| 0 <= i < b.len() && b[i] == a.last();
        let j = choose|j: int| 0 <= j < a.len() && a[j] == b.last();
        if i < b.len() - 1 && j < a.len() - 1 {
            assert(b[i].1.path.place < b[b.len() - 1].1.path.place);
            assert(a[j].1.path.place < a[a.len() - 1].1.path.place);
        }
        assert(a.last() == b.last());
        let p = a.drop_last();
        let q = b.drop_last();
        lemma_front(a);
        lemma_front(b);
        assert(p.to_set() =~= q.to_set());
        lemma_one_line(p, q);
        assert(a =~= p.push(a.last()));
        assert(b =~= q.push(b.last()));
    }
}

proof fn lemma_front(a: Seq<Song>)
    requires
        in_line(a),
        a.len() > 0,
    ensures
        a.drop_last().to_set() == a.to_set().remove(a.last()),
{
    let p = a.drop_last();
    assert forall|song: Song| p.to_set().contains(song) <==> a.to_set().remove(
        a.last(),
    ).contains(song) by {
        if p.contains(song) {
            let i = choose|i: int| 0 <= i < p.len() && p[i] == song;
            assert(a[i] == song);
            assert(a[i].1.path.place < a[a.len() - 1].1.path.place);
        }
        if a.contains(song) && song != a.last() {
            let i = choose|i: int| 0 <= i < a.len() && a[i] == song;
            assert(p[i] == song);
        }
    }
    assert(p.to_set() =~= a.to_set().remove(a.last()));
}

/// A plan does not depend on the order in which the files are given.
pub proof fn plan_does_not_depend_on_the_order(album: AlbumView, a: Seq<Song>, b: Seq<Song>)
    requires
        places_differ(a),
        places_differ(b),
        a.to_set() == b.to_set(),
    ensures
        planned(album, a) == planned(album, b),
{
    lemma_by_path(a);
    lemma_by_path(b);
    lemma_one_line(by_path(a), by_path(b));
}

/// The key of the tag that changes.
pub open spec fn changed_key(change: ChangeView) -> Seq<char> {
    match change {
        ChangeView::Added(key, _) => key,
        ChangeView::Updated(key, _, _) => key,
        ChangeView::Removed(key, _) => key,
    }
}

proof fn lemma_filter_distinct(keys: Seq<Seq<char>>, p: spec_fn(Seq<char>) -> bool)
    requires
        keys.no_duplicates(),
    ensures
        keys.filter(p).no_duplicates(),
        forall|i: int| 0 <= i < keys.filter(p).len() ==> keys.contains(#[trigger] keys.filter(p)[i]),
    decreases keys.len(),
{
    reveal(Seq::filter);
    if keys.len() > 0 {
        let front = keys.drop_last();
        let kept = front.filter(p);
        lemma_filter_distinct(front, p);
        assert forall|i: int| 0 <= i < kept.len() implies keys.contains(#[trigger] kept[i])
            && kept[i] != keys.last() by {
            assert(front.contains(kept[i]));
            let j = choose|j: int| 0 <= j < front.len() && front[j] == kept[i];
            assert(keys[j] == kept[i]);
            assert(keys[j] != keys[keys.len() - 1]);
        }
        assert(keys[keys.len() - 1] == keys.last());
        assert forall|i: int| 0 <= i < keys.filter(p).len() implies keys.contains(
            #[trigger] keys.filter(p)[i],
        ) by {
            if i < kept.len() {
                assert(keys.filter(p)[i] == kept[i]);
            }
        }
    }
}

proof fn lemma_changes_under(
    before: Map<Seq<char>, Seq<Seq<char>>>,
    after: Map<Seq<char>, Seq<Seq<char>>>,
    keys: Seq<Seq<char>>,
)
    requires
        keys.no_duplicates(),
    ensures
        ({
            let changes = changes_under(before, after, keys);
            &&& forall|i: int|
                0 <= i < changes.len() ==> keys.contains(changed_key(#[trigger] changes[i]))
                    && change_under(before, after, changed_key(changes[i])) == Some(changes[i])
            &&& forall|key: Seq<char>|
                keys.contains(key) ==> (#[trigger] change_under(before, after, key) matches Some(
                    change,
                ) ==> changes.contains(change))
            &&& forall|i: int, j: int|
                0 <= i < j < changes.len() ==> changed_key(#[trigger] changes[i]) != changed_key(
                    #[trigger] changes[j],
                )
        }),
    decreases keys.len(),
{
    if keys.len() > 0 {
        let front = keys.drop_last();
        let last = keys.last();
        assert(front.no_duplicates());
        lemma_changes_under(before, after, front);
        let earlier = changes_under(before, after, front);
        let changes = changes_under(before, after, keys);
        assert forall|key: Seq<char>| front.contains(key) implies keys.contains(key) && key
            != last by {
            let i = choose|i: int| 0 <= i < front.len() && front[i] == key;
            assert(keys[i] == key);
            assert(keys[i] != keys[keys.len() - 1]);
        }
        assert(keys.contains(last)) by {
            assert(keys[keys.len() - 1] == last);
        }
        assert forall|key: Seq<char>| keys.contains(key) implies (#[trigger] change_under(
            before,
            after,
            key,
        ) matches Some(change) ==> changes.contains(change)) by {
            let i = choose|i: int| 0 <= i < keys.len() && keys[i] == key;
            if i < front.len() {
                assert(front[i] == key);
                if let Some(change) = change_under(before, after, key) {
                    assert(earlier.contains(change));
                    let k = choose|k: int| 0 <= k < earlier.len() && earlier[k] == change;
                    assert(changes[k] == change);
                }
            } else {
                if let Some(change) = change_under(before, after, key) {
                    assert(changes[earlier.len() as int] == change);
                }
            }
        }
        assert forall|i: int| 0 <= i < changes.len() implies keys.contains(
            changed_key(#[trigger] changes[i]),
        ) && change_under(before, after, changed_key(changes[i])) == Some(changes[i]) by {
            if i < earlier.len() {
                assert(changes[i] == earlier[i]);
            }
        }
        assert forall|i: int, j: int| 0 <= i < j < changes.len() implies changed_key(
            #[trigger] changes[i],
        ) != changed_key(#[trigger] changes[j]) by {
            assert(changes[i] == earlier[i]);
            assert(front.contains(changed_key(earlier[i])));
            if j < earlier.len() {
                assert(changes[j] == earlier[j]);
            }
        }
    }
}

/// The changes are just those that there are: each tag that is added, gets
/// another value or is removed is among them, once, and no other is.
pub proof fn changes_tell_every_difference(
    before: Map<Seq<char>, Seq<Seq<char>>>,
    after: Map<Seq<char>, Seq<Seq<char>>>,
)
    requires
        before.dom().finite(),
        after.dom().finite(),
    ensures
        forall|key: Seq<char>| #[trigger]
            change_under(before, after, key) matches Some(change) ==> changes_between(
                before,
                after,
            ).contains(change),
        forall|i: int|
            0 <= i < changes_between(before, after).len() ==> change_under(
                before,
                after,
                changed_key(#[trigger] changes_between(before, after)[i]),
            ) == Some(changes_between(before, after)[i]),
        forall|i: int, j: int|
            0 <= i < j < changes_between(before, after).len() ==> changed_key(
                #[trigger] changes_between(before, after)[i],
            ) != changed_key(#[trigger] changes_between(before, after)[j]),
{
    let all = changes_between(before, after);
    let there = in_order(after.dom());
    let was = in_order(before.dom());
    let gone = |key: Seq<char>| !after.contains_key(key);
    let left = was.filter(gone);
    lemma_order_exists(after.dom());
    lemma_order_exists(before.dom());
    lemma_ordered_distinct(there);
    lemma_ordered_distinct(was);
    lemma_filter_distinct(was, gone);
    lemma_changes_under(before, after, there);
    lemma_changes_under(before, after, left);
    let first = changes_under(before, after, there);
    let second = changes_under(before, after, left);
    assert forall|key: Seq<char>| #[trigger] change_under(before, after, key) matches Some(
        change,
    ) implies all.contains(change_under(before, after, key)->0) by {
        let change = change_under(before, after, key)->0;
        if after.contains_key(key) {
            assert(there.to_set().contains(key));
            let k = choose|k: int| 0 <= k < first.len() && first[k] == change;
            assert(first.contains(change));
            assert(all[k] == change);
        } else {
            assert(was.to_set().contains(key));
            assert(gone(key));
            let at = choose|at: int| 0 <= at < was.len() && was[at] == key;
            was.lemma_filter_contains(gone, at);
            assert(left.contains(key));
            assert(second.contains(change));
            let k = choose|k: int| 0 <= k < second.len() && second[k] == change;
            assert(all[first.len() + k] == change);
        }
    }
    assert forall|i: int| 0 <= i < all.len() implies change_under(
        before,
        after,
        changed_key(#[trigger] all[i]),
    ) == Some(all[i]) by {
        if i < first.len() {
            assert(all[i] == first[i]);
        } else {
            assert(all[i] == second[i - first.len()]);
        }
    }
    assert forall|i: int, j: int| 0 <= i < j < all.len() implies changed_key(#[trigger] all[i])
        != changed_key(#[trigger] all[j]) by {
        let n = first.len();
        if j < n {
            assert(all[i] == first[i] && all[j] == first[j]);
        } else if i >= n {
            assert(all[i] == second[i - n] && all[j] == second[j - n]);
        } else {
            assert(all[i] == first[i] && all[j] == second[j - n]);
            assert(there.to_set().contains(changed_key(first[i])));
            let key = changed_key(second[j - n]);
            let k = choose|k: int| 0 <= k < left.len() && left[k] == key;
            was.lemma_filter_pred(gone, k);
        }
    }
}

/// Each file is written as the track that it is paired with, and no two as the
/// same: by its ISRC as the first track that carries it, or by position as one that
/// stands where the file says, and it is told which. Its place, name and length
/// are those of that track, and so are the title, the number and the disc in its
/// tags, with all else that is written of the track. In place `i` of the plan is
/// the file at `paired.0[i]`, as the track at `paired.1[i]`.
pub proof fn files_are_written_as_their_tracks(
    album: AlbumView,
    songs: Seq<Song>,
) -> (paired: (Seq<int>, Seq<int>))
    requires
        planned(album, songs) is Ok,
    ensures
        each_written_once(songs, planned(album, songs)->Ok_0, paired.0),
        paired.1.len() == songs.len(),
        paired.1.no_duplicates(),
        forall|i: int|
            0 <= i < songs.len() ==> {
                let item = (planned(album, songs)->Ok_0)[i];
                let song = songs[paired.0[i]];
                let track = album.tracks[#[trigger] paired.1[i]];
                let tags = by_key(item.comments);
                &&& 0 <= paired.1[i] < album.tracks.len()
                &&& exists|k: int|
                    0 <= k < songs.len() && #[trigger] by_path(songs)[k] == song && slots(
                        album.tracks,
                        by_path(songs),
                    )[k] == Some(paired.1[i])
                &&& !item.positional ==> (track.isrc matches Some(isrc) && same_but_for_case(
                    isrc,
                    song.0@,
                ))
                &&& item.positional ==> position(song.1) == Some(
                    (track.disc_number, track.track_number),
                )
                &&& item.disc == track.disc_number
                &&& item.track == track.track_number
                &&& item.title == track.name
                &&& item.duration_ms == track.duration_ms
                &&& tags.contains_key("TITLE"@) && tags["TITLE"@] == seq![track.name]
                &&& tags.contains_key("TRACKNUMBER"@) && tags["TRACKNUMBER"@] == seq![
                    decimal(track.track_number as nat),
                ]
                &&& tags.contains_key("DISCNUMBER"@) && tags["DISCNUMBER"@] == seq![
                    decimal(track.disc_number as nat),
                ]
                &&& tags.contains_key("ARTIST"@) && tags["ARTIST"@] == seq![track.artist]
                &&& tags.contains_key("ALBUM"@) && tags["ALBUM"@] == seq![album.name]
                &&& item.comments == written(album, track, song.1)
            },
        forall|i: int, j: int|
            0 <= i < songs.len() && 0 <= j < songs.len() && album.tracks[#[trigger] paired.1[i]].name
                != album.tracks[#[trigger] paired.1[j]].name ==> by_key(
                (planned(album, songs)->Ok_0)[i].comments,
            )["TITLE"@] != by_key((planned(album, songs)->Ok_0)[j].comments)["TITLE"@],
{
    let ordered = by_path(songs);
    let found = slots(album.tracks, ordered);
    let items = planned(album, songs)->Ok_0;
    let paired = paired_items(album, ordered);
    let p = path_ranked(songs);
    let t = track_ranked(paired);
    rank_order_arranges(p);
    rank_order_arranges(t);
    let first = rank_order(p);
    let second = rank_order(t);
    let order = Seq::new(songs.len(), |i: int| first[second[i]]);
    let tracks = Seq::new(songs.len(), |i: int| found[second[i]]->0);
    assert forall|k: int| 0 <= k < found.len() implies #[trigger] found[k] is Some by {
        lemma_none_unpaired(found, k);
    }
    assert forall|i: int| 0 <= i < items.len() implies 0 <= #[trigger] order[i] < songs.len()
        && items[i].audio == songs[order[i]].1 && 0 <= second[i] < songs.len() && ordered[second[i]]
        == songs[order[i]] && items[i] == paired[second[i]] by {
        let k = second[i];
        assert(0 <= k < t.len());
        assert(items[i] == in_rank_order(t)[i].1);
        assert(0 <= first[k] < songs.len());
        assert(ordered[k] == in_rank_order(p)[k].1);
        assert(ordered[k] == songs[first[k]]);
    }
    assert(order.no_duplicates()) by {
        assert forall|i: int, j: int|
            0 <= i < order.len() && 0 <= j < order.len() && i != j implies order[i]
            != order[j] by {
            assert(second[i] != second[j]);
            assert(0 <= second[i] < t.len() && 0 <= second[j] < t.len());
            assert(first[second[i]] != first[second[j]]);
        }
    }
    assert(tracks.no_duplicates()) by {
        assert forall|i: int, j: int|
            0 <= i < tracks.len() && 0 <= j < tracks.len() && i != j implies tracks[i]
            != tracks[j] by {
            assert(second[i] != second[j]);
            assert(0 <= second[i] < t.len() && 0 <= second[j] < t.len());
            no_track_goes_to_two_files(album.tracks, ordered, second[i], second[j]);
            assert(found[second[i]] is Some && found[second[j]] is Some);
        }
    }
    assert forall|i: int| 0 <= i < songs.len() implies {
        let item = items[i];
        let song = songs[order[i]];
        let track = album.tracks[#[trigger] tracks[i]];
        let tags = by_key(item.comments);
        &&& 0 <= tracks[i] < album.tracks.len()
        &&& exists|k: int|
            0 <= k < songs.len() && #[trigger] by_path(songs)[k] == song && slots(
                album.tracks,
                by_path(songs),
            )[k] == Some(tracks[i])
        &&& !item.positional ==> (track.isrc matches Some(isrc) && same_but_for_case(
            isrc,
            song.0@,
        ))
        &&& item.positional ==> position(song.1) == Some((track.disc_number, track.track_number))
        &&& item.disc == track.disc_number
        &&& item.track == track.track_number
        &&& item.title == track.name
        &&& item.duration_ms == track.duration_ms
        &&& tags.contains_key("TITLE"@) && tags["TITLE"@] == seq![track.name]
        &&& tags.contains_key("TRACKNUMBER"@) && tags["TRACKNUMBER"@] == seq![
            decimal(track.track_number as nat),
        ]
        &&& tags.contains_key("DISCNUMBER"@) && tags["DISCNUMBER"@] == seq![
            decimal(track.disc_number as nat),
        ]
        &&& tags.contains_key("ARTIST"@) && tags["ARTIST"@] == seq![track.artist]
        &&& tags.contains_key("ALBUM"@) && tags["ALBUM"@] == seq![album.name]
        &&& item.comments == written(album, track, song.1)
    } by {
        let k = second[i];
        assert(order[i] == first[k]);
        assert(ordered[k] == songs[order[i]]);
        assert(found[k] is Some);
        let track = album.tracks[tracks[i]];
        if slots_by_isrc(album.tracks, ordered)[k] is Some {
            paired_by_isrc_is_carried(album.tracks, ordered, k);
        } else {
            position_takes_free_tracks(album.tracks, ordered, k);
        }
        assert(items[i] == item_of(
            album,
            track,
            ordered[k].1,
            slots_by_isrc(album.tracks, ordered)[k] is None,
        ));
        what_applies_is_written(album, track, ordered[k].1);
        credits_and_participants(album, track, ordered[k].1);
    }
    assert forall|i: int, j: int|
        0 <= i < songs.len() && 0 <= j < songs.len() && album.tracks[#[trigger] tracks[i]].name
            != album.tracks[#[trigger] tracks[j]].name implies by_key(items[i].comments)["TITLE"@]
        != by_key(items[j].comments)["TITLE"@] by {
        let a = by_key(items[i].comments)["TITLE"@];
        let b = by_key(items[j].comments)["TITLE"@];
        assert(a == seq![album.tracks[tracks[i]].name]);
        assert(b == seq![album.tracks[tracks[j]].name]);
        assert(a[0] != b[0]);
    }
    (order, tracks)
}

proof fn lemma_none_unpaired(found: Seq<Option<int>>, k: int)
    requires
        first_at(found, |slot: Option<int>| slot is None) is None,
        0 <= k < found.len(),
    ensures
        found[k] is Some,
    decreases k,
{
    let unpaired = |slot: Option<int>| slot is None;
    assert forall|j: int| 0 <= j < k implies !unpaired(#[trigger] found[j]) by {
        lemma_none_unpaired(found, j);
    }
    if found[k] is None {
        assert(is_first(found, unpaired, k));
        lemma_first_at(found, unpaired, k);
    }
}

/// ISRCs alone suffice: where each file has one that a track of the album carries,
/// and no two have the same but for case, a plan is made, and every file is paired
/// by its ISRC.
pub proof fn isrcs_alone_suffice(album: AlbumView, songs: Seq<Song>)
    requires
        forall|i: int|
            0 <= i < songs.len() ==> exists|t: int|
                0 <= t < album.tracks.len() && #[trigger] carries_isrc(
                    album.tracks[t],
                    (#[trigger] songs[i]).0@,
                ),
        forall|i: int, j: int|
            0 <= i < songs.len() && 0 <= j < songs.len() && i != j ==> !same_but_for_case(
                (#[trigger] songs[i]).0@,
                (#[trigger] songs[j]).0@,
            ),
    ensures
        planned(album, songs) is Ok,
        (planned(album, songs)->Ok_0).len() == songs.len(),
        forall|i: int|
            0 <= i < songs.len() ==> !(#[trigger] (planned(album, songs)->Ok_0)[i]).positional,
{
    let ordered = by_path(songs);
    let found = slots(album.tracks, ordered);
    let p = path_ranked(songs);
    let order = rank_order(p);
    rank_order_arranges(p);
    assert forall|k: int| 0 <= k < songs.len() implies #[trigger] ordered[k]
        == songs[order[k]] by {
        assert(in_rank_order(p)[k] == p[order[k]]);
    }
    assert forall|k: int| 0 <= k < songs.len() implies (#[trigger] found[k]) is Some
        && slots_by_isrc(album.tracks, ordered)[k] is Some by {
        let song = ordered[k];
        assert(song == songs[order[k]]);
        let carried = |track: TrackView| carries_isrc(track, song.0@);
        let t = choose|t: int|
            0 <= t < album.tracks.len() && #[trigger] carries_isrc(album.tracks[t], song.0@);
        let first = lemma_some_first(album.tracks, carried, t);
        assert forall|j: int| 0 <= j < k implies !same_but_for_case(
            (#[trigger] ordered[j]).0@,
            song.0@,
        ) by {
            assert(ordered[j] == songs[order[j]]);
            assert(order[j] != order[k]);
        }
        isrc_goes_before_position(album.tracks, ordered, k, first);
    }
    let unpaired = |slot: Option<int>| slot is None;
    assert forall|k: int| 0 <= k < found.len() implies !unpaired(#[trigger] found[k]) by {
        assert(found[k] is Some);
    }
    lemma_no_first(found, unpaired);
    let paired = paired_items(album, ordered);
    let t = track_ranked(paired);
    rank_order_arranges(t);
    let items = planned(album, songs)->Ok_0;
    let second = rank_order(t);
    assert forall|i: int| 0 <= i < songs.len() implies !(#[trigger] items[i]).positional by {
        assert(in_rank_order(t)[i] == t[second[i]]);
        assert(items[i] == paired[second[i]]);
        assert(found[second[i]] is Some);
    }
}

proof fn lemma_some_first<A>(s: Seq<A>, p: spec_fn(A) -> bool, i: int) -> (first: int)
    requires
        0 <= i < s.len(),
        p(s[i]),
    ensures
        is_first(s, p, first),
    decreases i,
{
    if exists|j: int| 0 <= j < i && p(#[trigger] s[j]) {
        let j = choose|j: int| 0 <= j < i && p(#[trigger] s[j]);
        lemma_some_first(s, p, j)
    } else {
        i
    }
}

/// Where there is no plan, one of the files gets no track, and it is said which:
/// its path, its ISRC and the album are named, in that order.
pub proof fn unpaired_files_are_named(album: AlbumView, songs: Seq<Song>) -> (i: int)
    requires
        planned(album, songs) is Err,
    ensures
        0 <= i < songs.len(),
        slots(album.tracks, by_path(songs)).contains(None),
        starts_with(
            planned(album, songs)->Err_0,
            songs[i].1.path.text@ + " carries "@ + songs[i].0@ + ", and "@ + album.name,
        ),
{
    let ordered = by_path(songs);
    let found = slots(album.tracks, ordered);
    let unpaired = |slot: Option<int>| slot is None;
    let k = first_at(found, unpaired)->0;
    assert(is_first(found, unpaired, k));
    assert(found[k] == None::<int>);
    let p = path_ranked(songs);
    rank_order_arranges(p);
    let order = rank_order(p);
    assert(in_rank_order(p)[k] == p[order[k]]);
    assert(ordered[k] == songs[order[k]]);
    let song = songs[order[k]];
    let start = song.1.path.text@ + " carries "@ + song.0@ + ", and "@ + album.name;
    assert(planned(album, songs)->Err_0 == unmatched(album.name, song));
    assert(unmatched(album.name, song).take(start.len() as int) =~= start);
    order[k]
}

/// A tag changes just where what stands under its key does: it is added where
/// nothing stood there, removed where nothing does any more, and else gets other
/// values, which are told with what they were.
pub proof fn tags_change_where_their_values_do(
    before: Map<Seq<char>, Seq<Seq<char>>>,
    after: Map<Seq<char>, Seq<Seq<char>>>,
    key: Seq<char>,
)
    ensures
        change_under(before, after, key) is None <==> before.contains_key(key)
            == after.contains_key(key) && (before.contains_key(key) ==> before[key] == after[key]),
        !before.contains_key(key) && after.contains_key(key) ==> change_under(before, after, key)
            == Some(ChangeView::Added(key, joined(after[key], " / "@))),
        before.contains_key(key) && !after.contains_key(key) ==> change_under(before, after, key)
            == Some(ChangeView::Removed(key, joined(before[key], " / "@))),
        before.contains_key(key) && after.contains_key(key) && before[key] != after[key]
            ==> change_under(before, after, key) == Some(
            ChangeView::Updated(key, joined(before[key], " / "@), joined(after[key], " / "@)),
        ),
{
}

/// A file and its track differ in length by whole seconds, where the length of the
/// track counts as the nearest number of them: by none where that is the length of
/// the file, and by as much where it is longer as where it is shorter.
pub proof fn drift_is_in_whole_seconds(item: ItemView, secs: int)
    requires
        1000 * secs - 500 <= item.duration_ms < 1000 * secs + 500,
    ensures
        drift_of(item) is Some <==> item.audio.duration_secs is Some,
        item.audio.duration_secs matches Some(actual) ==> {
            &&& actual >= secs ==> drift_of(item) == Some((actual - secs) as u64)
            &&& actual <= secs ==> drift_of(item) == Some((secs - actual) as u64)
        },
{
}

/// The kind of an image is what its header names before any parameter, without
/// white space around it, and where there is no header that of a JPEG; and a cover
/// is asked for in its own size where that is known.
pub proof fn covers_are_what_their_header_names(
    kind: Seq<char>,
    parameters: Seq<char>,
    size: u32,
)
    requires
        !kind.contains(';'),
    ensures
        named_mime(Some(kind)) == trimmed(kind),
        named_mime(Some(kind.push(';') + parameters)) == trimmed(kind),
        named_mime(None) == "image/jpeg"@,
        size > 0 ==> full_size(size) == size,
        full_size(0) == 10_000,
{
    splitting_starts_with_the_first_part(kind, ';', parameters);
}

proof fn lemma_changes_in_order(
    before: Map<Seq<char>, Seq<Seq<char>>>,
    after: Map<Seq<char>, Seq<Seq<char>>>,
    keys: Seq<Seq<char>>,
)
    requires
        ordered(keys),
    ensures
        forall|i: int, j: int|
            0 <= i < j < changes_under(before, after, keys).len() ==> text_before(
                changed_key(#[trigger] changes_under(before, after, keys)[i]),
                changed_key(#[trigger] changes_under(before, after, keys)[j]),
            ),
    decreases keys.len(),
{
    if keys.len() > 0 {
        let front = keys.drop_last();
        let last = keys.last();
        let earlier = changes_under(before, after, front);
        let all = changes_under(before, after, keys);
        assert forall|i: int, j: int| 0 <= i < j < front.len() implies text_before(
            front[i],
            front[j],
        ) by {
            assert(text_before(keys[i], keys[j]));
        }
        lemma_changes_in_order(before, after, front);
        lemma_ordered_distinct(front);
        lemma_changes_under(before, after, front);
        assert forall|i: int, j: int| 0 <= i < j < all.len() implies text_before(
            changed_key(#[trigger] all[i]),
            changed_key(#[trigger] all[j]),
        ) by {
            assert(all[i] == earlier[i]);
            if j < earlier.len() {
                assert(all[j] == earlier[j]);
            } else {
                assert(front.contains(changed_key(earlier[i])));
                let k = choose|k: int| 0 <= k < front.len() && front[k] == changed_key(earlier[i]);
                assert(text_before(keys[k], keys[keys.len() - 1]));
            }
        }
    }
}

proof fn lemma_filter_ordered(keys: Seq<Seq<char>>, p: spec_fn(Seq<char>) -> bool)
    requires
        ordered(keys),
    ensures
        ordered(keys.filter(p)),
    decreases keys.len(),
{
    reveal(Seq::filter);
    if keys.len() > 0 {
        let front = keys.drop_last();
        let kept = front.filter(p);
        let all = keys.filter(p);
        assert forall|i: int, j: int| 0 <= i < j < front.len() implies text_before(
            front[i],
            front[j],
        ) by {
            assert(text_before(keys[i], keys[j]));
        }
        lemma_filter_ordered(front, p);
        lemma_ordered_distinct(front);
        lemma_filter_distinct(front, p);
        assert forall|i: int, j: int| 0 <= i < j < all.len() implies text_before(
            all[i],
            all[j],
        ) by {
            assert(all[i] == kept[i]);
            if j < kept.len() {
                assert(text_before(kept[i], kept[j]));
            } else {
                assert(front.contains(kept[i]));
                let k = choose|k: int| 0 <= k < front.len() && front[k] == kept[i];
                assert(text_before(keys[k], keys[keys.len() - 1]));
            }
        }
    }
}

/// Changes are told in the order of their keys, and those of tags that are removed
/// behind all others.
pub proof fn changes_are_told_in_order(
    before: Map<Seq<char>, Seq<Seq<char>>>,
    after: Map<Seq<char>, Seq<Seq<char>>>,
)
    requires
        before.dom().finite(),
        after.dom().finite(),
    ensures
        forall|i: int, j: int|
            0 <= i < j < changes_between(before, after).len() ==> {
                let a = #[trigger] changes_between(before, after)[i];
                let b = #[trigger] changes_between(before, after)[j];
                &&& a is Removed ==> b is Removed
                &&& a is Removed == b is Removed ==> text_before(changed_key(a), changed_key(b))
            },
{
    let all = changes_between(before, after);
    let there = in_order(after.dom());
    let was = in_order(before.dom());
    let gone = |key: Seq<char>| !after.contains_key(key);
    let left = was.filter(gone);
    lemma_order_exists(after.dom());
    lemma_order_exists(before.dom());
    lemma_filter_ordered(was, gone);
    lemma_ordered_distinct(there);
    lemma_ordered_distinct(left);
    lemma_changes_in_order(before, after, there);
    lemma_changes_in_order(before, after, left);
    lemma_changes_under(before, after, there);
    lemma_changes_under(before, after, left);
    let first = changes_under(before, after, there);
    let second = changes_under(before, after, left);
    let n = first.len() as int;
    assert forall|i: int| 0 <= i < all.len() implies (#[trigger] all[i] is Removed <==> i >= n) by {
        if i < n {
            assert(all[i] == first[i]);
            assert(there.to_set().contains(changed_key(first[i])));
        } else {
            assert(all[i] == second[i - n]);
            let k = choose|k: int| 0 <= k < left.len() && left[k] == changed_key(second[i - n]);
            was.lemma_filter_pred(gone, k);
        }
    }
    assert forall|i: int, j: int| 0 <= i < j < all.len() implies {
        let a = #[trigger] all[i];
        let b = #[trigger] all[j];
        &&& a is Removed ==> b is Removed
        &&& a is Removed == b is Removed ==> text_before(changed_key(a), changed_key(b))
    } by {
        if j < n {
            assert(all[i] == first[i] && all[j] == first[j]);
        } else if i >= n {
            assert(all[i] == second[i - n] && all[j] == second[j - n]);
        }
    }
}

} // verus!
