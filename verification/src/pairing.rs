//! Pairing files with the tracks of an album.
use vstd::prelude::*;

use crate::apple::catalog::{track_views, Album, TrackView};
use crate::flac::{number_value, Audio};
use crate::text::{
    ascii_lower, same_but_for_case, same_ignoring_case, sameness_but_for_case,
};

verus! {

/// Whether the first element that satisfies `p` stands at `i`.
pub open spec fn is_first<A>(s: Seq<A>, p: spec_fn(A) -> bool, i: int) -> bool {
    &&& 0 <= i < s.len()
    &&& p(s[i])
    &&& forall|j: int| 0 <= j < i ==> !p(#[trigger] s[j])
}

/// Where the first element stands that satisfies `p`, if there is one.
pub open spec fn first_at<A>(s: Seq<A>, p: spec_fn(A) -> bool) -> Option<int> {
    if exists|i: int| is_first(s, p, i) {
        Some(choose|i: int| is_first(s, p, i))
    } else {
        None
    }
}

/// No more than one element is the first that satisfies `p`.
pub proof fn lemma_first_at<A>(s: Seq<A>, p: spec_fn(A) -> bool, i: int)
    requires
        is_first(s, p, i),
    ensures
        first_at(s, p) == Some(i),
{
    let other = choose|i: int| is_first(s, p, i);
    if other < i {
        assert(!p(s[other]));
    } else if i < other {
        assert(!p(s[i]));
    }
}

/// Where no element satisfies `p`, there is no first.
pub proof fn lemma_no_first<A>(s: Seq<A>, p: spec_fn(A) -> bool)
    requires
        forall|i: int| 0 <= i < s.len() ==> !p(#[trigger] s[i]),
    ensures
        first_at(s, p) is None,
{
}

/// A file to be paired with a track: its ISRC, and the file.
pub type Song = (String, Audio);

/// Whether a track carries an ISRC. The case of ASCII letters does not count.
pub open spec fn carries_isrc(track: TrackView, isrc: Seq<char>) -> bool {
    match track.isrc {
        Some(found) => same_but_for_case(found, isrc),
        None => false,
    }
}

/// Where a file says that it stands: on which disc, and as which track. The
/// first disc is meant where it names none.
pub open spec fn position(audio: Audio) -> Option<(u16, u16)> {
    match number_value(audio.tags(), "TRACKNUMBER"@) {
        Some(number) => Some((
            match number_value(audio.tags(), "DISCNUMBER"@) {
                Some(disc) => if disc >= 1 {
                    disc
                } else {
                    1
                },
                None => 1,
            },
            number,
        )),
        None => None,
    }
}

/// Which tracks the files ask for by their ISRCs: for each the first that
/// carries it.
pub open spec fn wanted_by_isrc(tracks: Seq<TrackView>, songs: Seq<Song>) -> Seq<Option<int>> {
    songs.map_values(
        |song: Song| first_at(tracks, |track: TrackView| carries_isrc(track, song.0@)),
    )
}

/// What is granted of what is wanted, where of several that want the same the
/// first gets it.
pub open spec fn granted(wanted: Seq<Option<int>>) -> Seq<Option<int>> {
    Seq::new(
        wanted.len(),
        |i: int|
            if exists|j: int| 0 <= j < i && #[trigger] wanted[j] == wanted[i] {
                None
            } else {
                wanted[i]
            },
    )
}

/// Which tracks the files get by their ISRCs.
pub open spec fn slots_by_isrc(tracks: Seq<TrackView>, songs: Seq<Song>) -> Seq<Option<int>> {
    granted(wanted_by_isrc(tracks, songs))
}

/// Which tracks the files that got none by their ISRCs ask for by position: for
/// each the first that stands there, if it is still free.
pub open spec fn wanted_by_position(tracks: Seq<TrackView>, songs: Seq<Song>) -> Seq<Option<int>> {
    let taken = slots_by_isrc(tracks, songs);
    Seq::new(
        songs.len(),
        |i: int|
            match position(songs[i].1) {
                Some((disc, number)) if taken[i] is None => {
                    let found = first_at(
                        tracks,
                        |track: TrackView|
                            track.disc_number == disc && track.track_number == number,
                    );
                    if taken.contains(found) {
                        None
                    } else {
                        found
                    }
                },
                _ => None,
            },
    )
}

/// Which tracks the files get: by their ISRCs first, and what is left by
/// position.
pub open spec fn slots(tracks: Seq<TrackView>, songs: Seq<Song>) -> Seq<Option<int>> {
    let by_isrc = slots_by_isrc(tracks, songs);
    let by_position = granted(wanted_by_position(tracks, songs));
    Seq::new(
        songs.len(),
        |i: int|
            match by_isrc[i] {
                Some(track) => Some(track),
                None => by_position[i],
            },
    )
}

proof fn lemma_granted(wanted: Seq<Option<int>>, n: int, track: int)
    requires
        0 <= n <= wanted.len(),
    ensures
        (exists|j: int| 0 <= j < n && #[trigger] wanted[j] == Some(track)) <==> (exists|j: int|
            0 <= j < n && #[trigger] granted(wanted)[j] == Some(track)),
    decreases n,
{
    if n > 0 {
        lemma_granted(wanted, n - 1, track);
        if exists|j: int| 0 <= j < n && #[trigger] wanted[j] == Some(track) {
            let j = choose|j: int| 0 <= j < n && #[trigger] wanted[j] == Some(track);
            if exists|k: int| 0 <= k < n - 1 && #[trigger] wanted[k] == Some(track) {
                let k = choose|k: int|
                    0 <= k < n - 1 && #[trigger] granted(wanted)[k] == Some(track);
                assert(granted(wanted)[k] == Some(track));
            } else {
                assert(j == n - 1);
                assert(granted(wanted)[j] == Some(track));
            }
        }
        if exists|j: int| 0 <= j < n && #[trigger] granted(wanted)[j] == Some(track) {
            let j = choose|j: int| 0 <= j < n && #[trigger] granted(wanted)[j] == Some(track);
            assert(wanted[j] == Some(track));
        }
    }
}

/// Which track the first that carries `isrc` is.
fn find_isrc(album: &Album, isrc: &str) -> (found: Option<usize>)
    ensures
        (match found {
            Some(found) => Some(found as int),
            None => None,
        }) == first_at(album@.tracks, |track: TrackView| carries_isrc(track, isrc@)),
        found matches Some(found) ==> found < album@.tracks.len(),
{
    let ghost tracks = album@.tracks;
    let ghost p = |track: TrackView| carries_isrc(track, isrc@);
    let mut i: usize = 0;
    while i < album.tracks.len()
        invariant
            i <= album.tracks@.len(),
            tracks == track_views(album.tracks@),
            p == |track: TrackView| carries_isrc(track, isrc@),
            forall|j: int| 0 <= j < i ==> !p(#[trigger] tracks[j]),
        decreases album.tracks@.len() - i,
    {
        proof {
            assert(tracks[i as int] == album.tracks@[i as int]@);
        }
        let same = match &album.tracks[i].isrc {
            Some(found) => same_ignoring_case(found.as_str(), isrc),
            None => false,
        };
        if same {
            proof {
                lemma_first_at(tracks, p, i as int);
            }
            return Some(i);
        }
        i += 1;
    }
    proof {
        lemma_no_first(tracks, p);
    }
    None
}

/// Which track the first is that stands on `disc` as `number`.
fn find_position(album: &Album, disc: u16, number: u16) -> (found: Option<usize>)
    ensures
        (match found {
            Some(found) => Some(found as int),
            None => None,
        }) == first_at(
            album@.tracks,
            |track: TrackView| track.disc_number == disc && track.track_number == number,
        ),
        found matches Some(found) ==> found < album@.tracks.len(),
{
    let ghost tracks = album@.tracks;
    let ghost p = |track: TrackView| track.disc_number == disc && track.track_number == number;
    let mut i: usize = 0;
    while i < album.tracks.len()
        invariant
            i <= album.tracks@.len(),
            tracks == track_views(album.tracks@),
            p == |track: TrackView| track.disc_number == disc && track.track_number == number,
            forall|j: int| 0 <= j < i ==> !p(#[trigger] tracks[j]),
        decreases album.tracks@.len() - i,
    {
        proof {
            assert(tracks[i as int] == album.tracks@[i as int]@);
        }
        if album.tracks[i].disc_number == disc && album.tracks[i].track_number == number {
            proof {
                lemma_first_at(tracks, p, i as int);
            }
            return Some(i);
        }
        i += 1;
    }
    proof {
        lemma_no_first(tracks, p);
    }
    None
}

/// Where a file says that it stands.
fn position_of(audio: &Audio) -> (found: Option<(u16, u16)>)
    ensures
        found == position(*audio),
{
    let number = match audio.number("TRACKNUMBER") {
        Some(number) => number,
        None => return None,
    };
    let disc = match audio.number("DISCNUMBER") {
        Some(disc) => if disc >= 1 {
            disc
        } else {
            1
        },
        None => 1,
    };
    Some((disc, number))
}

/// Some places as integers.
pub open spec fn places(found: Seq<Option<usize>>) -> Seq<Option<int>> {
    found.map_values(
        |place: Option<usize>|
            match place {
                Some(place) => Some(place as int),
                None => None,
            },
    )
}

/// `n` times the same.
fn repeated<A: Copy>(value: A, n: usize) -> (values: Vec<A>)
    ensures
        values@ == Seq::new(n as nat, |i: int| value),
{
    let mut values: Vec<A> = Vec::new();
    let mut i: usize = 0;
    while i < n
        invariant
            i <= n,
            values@ == Seq::new(i as nat, |i: int| value),
        decreases n - i,
    {
        values.push(value);
        i += 1;
        proof {
            assert(values@ =~= Seq::new(i as nat, |i: int| value));
        }
    }
    values
}

/// Pairs the files with tracks: which one each gets, by its ISRC or by
/// position, and whether it was by position.
pub fn pair(album: &Album, songs: &Vec<Song>) -> (paired: (Vec<Option<usize>>, Vec<bool>))
    ensures
        places(paired.0@) == slots(album@.tracks, songs@),
        paired.1@.len() == songs@.len(),
        forall|i: int|
            0 <= i < songs@.len() ==> #[trigger] paired.1@[i] == (slots_by_isrc(
                album@.tracks,
                songs@,
            )[i] is None && paired.0@[i] is Some),
        forall|i: int|
            0 <= i < songs@.len() ==> (#[trigger] paired.0@[i] matches Some(track) ==> track
                < album@.tracks.len()),
{
    let ghost tracks = album@.tracks;
    let ghost wanted = wanted_by_isrc(tracks, songs@);
    let ghost by_isrc = slots_by_isrc(tracks, songs@);
    let count = songs.len();
    let mut claimed: Vec<bool> = repeated(false, album.tracks.len());
    let mut assigned: Vec<Option<usize>> = repeated(None, count);
    let mut i: usize = 0;
    while i < count
        invariant
            i <= count,
            count == songs@.len(),
            tracks == album@.tracks,
            wanted == wanted_by_isrc(tracks, songs@),
            by_isrc == granted(wanted),
            claimed@.len() == tracks.len(),
            assigned@.len() == count,
            forall|j: int| 0 <= j < i ==> places(assigned@)[j] == #[trigger] by_isrc[j],
            forall|j: int| i <= j < count ==> #[trigger] assigned@[j] is None,
            forall|j: int|
                0 <= j < count ==> (#[trigger] assigned@[j] matches Some(track) ==> track
                    < tracks.len()),
            forall|t: int|
                0 <= t < tracks.len() ==> (#[trigger] claimed@[t] <==> exists|j: int|
                    0 <= j < i && #[trigger] by_isrc[j] == Some(t)),
        decreases count - i,
    {
        let ghost before = assigned@;
        let ghost was = claimed@;
        let found = find_isrc(album, songs[i].0.as_str());
        proof {
            match found {
                Some(found) => lemma_granted(wanted, i as int, found as int),
                None => {},
            }
        }
        if let Some(found) = found {
            if !claimed[found] {
                claimed.set(found, true);
                assigned.set(i, Some(found));
            }
        }
        proof {
            assert(wanted[i as int] == match found {
                Some(found) => Some(found as int),
                None => None,
            });
            assert(by_isrc[i as int] == places(assigned@)[i as int]);
            assert forall|j: int| 0 <= j < i + 1 implies places(assigned@)[j]
                == #[trigger] by_isrc[j] by {
                if j < i {
                    assert(places(before)[j] == by_isrc[j]);
                    assert(assigned@[j] == before[j]);
                }
            }
            assert forall|t: int| 0 <= t < tracks.len() implies (#[trigger] claimed@[t]
                <==> exists|j: int| 0 <= j < i + 1 && #[trigger] by_isrc[j] == Some(t)) by {
                if claimed@[t] {
                    if was[t] {
                        let j = choose|j: int| 0 <= j < i && #[trigger] by_isrc[j] == Some(t);
                        assert(by_isrc[j] == Some(t));
                    } else {
                        assert(by_isrc[i as int] == Some(t));
                    }
                }
                if exists|j: int| 0 <= j < i + 1 && #[trigger] by_isrc[j] == Some(t) {
                    let j = choose|j: int| 0 <= j < i + 1 && #[trigger] by_isrc[j] == Some(t);
                    if j < i {
                        assert(was[t]);
                    }
                }
            }
        }
        i += 1;
    }
    let ghost taken = claimed@;
    let ghost first = assigned@;
    let ghost wished = wanted_by_position(tracks, songs@);
    let ghost by_position = granted(wished);
    let ghost all = slots(tracks, songs@);
    let mut positional: Vec<bool> = repeated(false, count);
    let mut i: usize = 0;
    while i < count
        invariant
            i <= count,
            count == songs@.len(),
            tracks == album@.tracks,
            by_isrc == slots_by_isrc(tracks, songs@),
            by_isrc.len() == count,
            wished == wanted_by_position(tracks, songs@),
            by_position == granted(wished),
            all == slots(tracks, songs@),
            claimed@.len() == tracks.len(),
            taken.len() == tracks.len(),
            assigned@.len() == count,
            positional@.len() == count,
            forall|t: int|
                0 <= t < tracks.len() ==> (#[trigger] taken[t] <==> exists|j: int|
                    0 <= j < count && #[trigger] by_isrc[j] == Some(t)),
            forall|j: int| 0 <= j < i ==> places(assigned@)[j] == #[trigger] all[j],
            forall|j: int| i <= j < count ==> places(assigned@)[j] == #[trigger] by_isrc[j],
            forall|j: int|
                0 <= j < count ==> (#[trigger] assigned@[j] matches Some(track) ==> track
                    < tracks.len()),
            forall|j: int|
                0 <= j < i ==> #[trigger] positional@[j] == (by_isrc[j] is None
                    && assigned@[j] is Some),
            forall|j: int| i <= j < count ==> !#[trigger] positional@[j],
            forall|t: int|
                0 <= t < tracks.len() ==> (#[trigger] claimed@[t] <==> taken[t] || exists|j: int|
                    0 <= j < i && #[trigger] by_position[j] == Some(t)),
        decreases count - i,
    {
        let ghost before = assigned@;
        let ghost was = claimed@;
        let ghost flags = positional@;
        let mut found: Option<usize> = None;
        proof {
            assert(places(assigned@)[i as int] == by_isrc[i as int]);
        }
        if assigned[i].is_none() {
            if let Some((disc, number)) = position_of(&songs[i].1) {
                found = find_position(album, disc, number);
            }
        }
        proof {
            let want = wished[i as int];
            match found {
                Some(found) => {
                    lemma_granted(wished, i as int, found as int);
                    assert(taken[found as int] <==> by_isrc.contains(Some(found as int)));
                    assert(want == if taken[found as int] {
                        None
                    } else {
                        Some(found as int)
                    });
                },
                None => {
                    assert(want is None);
                },
            }
        }
        if let Some(found) = found {
            if !claimed[found] {
                claimed.set(found, true);
                assigned.set(i, Some(found));
                positional.set(i, true);
            }
        }
        proof {
            assert(by_position[i as int] == match found {
                Some(found) if !was[found as int] => Some(found as int),
                _ => None,
            });
            assert(all[i as int] == places(assigned@)[i as int]);
            assert forall|j: int| 0 <= j < i + 1 implies places(assigned@)[j] == #[trigger] all[j] by {
                if j < i {
                    assert(places(before)[j] == all[j]);
                    assert(assigned@[j] == before[j]);
                }
            }
            assert forall|j: int| i + 1 <= j < count implies places(assigned@)[j]
                == #[trigger] by_isrc[j] by {
                assert(places(before)[j] == by_isrc[j]);
                assert(assigned@[j] == before[j]);
            }
            assert forall|t: int| 0 <= t < tracks.len() implies (#[trigger] claimed@[t]
                <==> taken[t] || exists|j: int|
                0 <= j < i + 1 && #[trigger] by_position[j] == Some(t)) by {
                if claimed@[t] && !taken[t] {
                    if was[t] {
                        let j = choose|j: int| 0 <= j < i && #[trigger] by_position[j] == Some(t);
                        assert(by_position[j] == Some(t));
                    } else {
                        assert(by_position[i as int] == Some(t));
                    }
                }
                if exists|j: int| 0 <= j < i + 1 && #[trigger] by_position[j] == Some(t) {
                    let j = choose|j: int| 0 <= j < i + 1 && #[trigger] by_position[j] == Some(t);
                    if j < i {
                        assert(was[t]);
                    }
                }
            }
        }
        i += 1;
    }
    proof {
        assert(places(assigned@) =~= all);
    }
    (assigned, positional)
}

proof fn lemma_granted_once(wanted: Seq<Option<int>>, i: int, j: int)
    requires
        0 <= i < j < wanted.len(),
        granted(wanted)[i] is Some,
    ensures
        granted(wanted)[i] != granted(wanted)[j],
{
    assert(granted(wanted)[i] == wanted[i]);
    if granted(wanted)[j] == granted(wanted)[i] {
        assert(wanted[i] == wanted[j]);
    }
}

/// No track goes to two files, and each that goes to a file is one of the
/// album.
pub proof fn no_track_goes_to_two_files(
    tracks: Seq<TrackView>,
    songs: Seq<Song>,
    i: int,
    j: int,
)
    requires
        0 <= i < songs.len(),
        0 <= j < songs.len(),
        i != j,
        slots(tracks, songs)[i] is Some,
    ensures
        slots(tracks, songs)[i] != slots(tracks, songs)[j],
        0 <= slots(tracks, songs)[i]->0 < tracks.len(),
{
    let by_isrc = slots_by_isrc(tracks, songs);
    let wished = wanted_by_position(tracks, songs);
    let by_position = granted(wished);
    let wanted = wanted_by_isrc(tracks, songs);
    assert(by_isrc[i] is Some ==> by_isrc[i] == wanted[i]);
    assert(by_position[i] is Some ==> by_position[i] == wished[i]);
    assert(by_position[j] is Some ==> by_position[j] == wished[j]);
    if by_isrc[i] is Some && by_isrc[j] is Some {
        if i < j {
            lemma_granted_once(wanted, i, j);
        } else {
            lemma_granted_once(wanted, j, i);
        }
    } else if by_isrc[i] is None && by_isrc[j] is None {
        if by_position[j] is Some {
            if i < j {
                lemma_granted_once(wished, i, j);
            } else {
                lemma_granted_once(wished, j, i);
            }
        }
    } else if by_isrc[i] is Some {
        assert(by_isrc.contains(by_isrc[i]));
    } else {
        assert(by_isrc.contains(by_isrc[j]));
    }
}

/// Files are paired by their ISRCs first: a file gets the first track that
/// carries its ISRC, unless an earlier file has the same ISRC.
pub proof fn isrc_goes_before_position(
    tracks: Seq<TrackView>,
    songs: Seq<Song>,
    i: int,
    track: int,
)
    requires
        0 <= i < songs.len(),
        is_first(tracks, |track: TrackView| carries_isrc(track, songs[i].0@), track),
        forall|j: int|
            0 <= j < i ==> !same_but_for_case((#[trigger] songs[j]).0@, songs[i].0@),
    ensures
        slots(tracks, songs)[i] == Some(track),
        slots_by_isrc(tracks, songs)[i] == Some(track),
{
    let p = |track: TrackView| carries_isrc(track, songs[i].0@);
    lemma_first_at(tracks, p, track);
    let wanted = wanted_by_isrc(tracks, songs);
    assert(wanted[i] == Some(track));
    if exists|j: int| 0 <= j < i && #[trigger] wanted[j] == wanted[i] {
        let j = choose|j: int| 0 <= j < i && #[trigger] wanted[j] == wanted[i];
        let q = |track: TrackView| carries_isrc(track, songs[j].0@);
        assert(first_at(tracks, q) == Some(track));
        assert(is_first(tracks, q, track));
        let carried = tracks[track].isrc->0;
        assert(same_but_for_case(carried, songs[i].0@));
        assert(same_but_for_case(carried, songs[j].0@));
        assert forall|k: int| 0 <= k < carried.len() implies ascii_lower(
            #[trigger] songs[j].0@[k],
        ) == ascii_lower(songs[i].0@[k]) by {
            assert(ascii_lower(carried[k]) == ascii_lower(
                songs[i].0@[k],
            ));
            assert(ascii_lower(carried[k]) == ascii_lower(
                songs[j].0@[k],
            ));
        }
        assert(same_but_for_case(songs[j].0@, songs[i].0@));
    }
}

/// What is left over goes by position, to free tracks only: a file that got no
/// track by its ISRC gets one only where that stands on the disc and under the
/// number that the file names, and no file has it by its ISRC.
pub proof fn position_takes_free_tracks(tracks: Seq<TrackView>, songs: Seq<Song>, i: int)
    requires
        0 <= i < songs.len(),
        slots_by_isrc(tracks, songs)[i] is None,
        slots(tracks, songs)[i] is Some,
    ensures
        ({
            let track = slots(tracks, songs)[i]->0;
            &&& 0 <= track < tracks.len()
            &&& position(songs[i].1) == Some(
                (tracks[track].disc_number, tracks[track].track_number),
            )
            &&& !slots_by_isrc(tracks, songs).contains(Some(track))
        }),
{
    let wished = wanted_by_position(tracks, songs);
    assert(granted(wished)[i] == wished[i]);
    let (disc, number) = position(songs[i].1)->0;
    let p = |track: TrackView| track.disc_number == disc && track.track_number == number;
    assert(wished[i] == first_at(tracks, p));
}

/// A file that is paired by its ISRC gets a track that carries it, the first of
/// those that do.
pub proof fn paired_by_isrc_is_carried(tracks: Seq<TrackView>, songs: Seq<Song>, i: int)
    requires
        0 <= i < songs.len(),
        slots_by_isrc(tracks, songs)[i] is Some,
    ensures
        slots(tracks, songs)[i] == slots_by_isrc(tracks, songs)[i],
        ({
            let track = slots(tracks, songs)[i]->0;
            &&& 0 <= track < tracks.len()
            &&& tracks[track].isrc matches Some(isrc) && same_but_for_case(isrc, songs[i].0@)
            &&& forall|j: int|
                0 <= j < track ==> ((#[trigger] tracks[j]).isrc matches Some(isrc)
                    ==> !same_but_for_case(isrc, songs[i].0@))
        }),
{
    let p = |track: TrackView| carries_isrc(track, songs[i].0@);
    let wanted = wanted_by_isrc(tracks, songs);
    assert(slots_by_isrc(tracks, songs)[i] == wanted[i]);
    assert(wanted[i] == first_at(tracks, p));
    let track = wanted[i]->0;
    assert(is_first(tracks, p, track));
    assert forall|j: int| 0 <= j < track implies ((#[trigger] tracks[j]).isrc matches Some(isrc)
        ==> !same_but_for_case(isrc, songs[i].0@)) by {
        assert(!p(tracks[j]));
    }
}

/// A file is left without a track only where others have those it could have: the
/// first that carries its ISRC went to an earlier file, and the first that stands
/// where the file says it does went to another.
pub proof fn left_out_only_where_others_have_its_tracks(
    tracks: Seq<TrackView>,
    songs: Seq<Song>,
    i: int,
    track: int,
)
    requires
        0 <= i < songs.len(),
        slots(tracks, songs)[i] is None,
    ensures
        is_first(tracks, |track: TrackView| carries_isrc(track, songs[i].0@), track)
            ==> exists|j: int| 0 <= j < i && #[trigger] slots(tracks, songs)[j] == Some(track),
        position(songs[i].1) matches Some((disc, number)) && is_first(
            tracks,
            |track: TrackView| track.disc_number == disc && track.track_number == number,
            track,
        ) ==> exists|j: int|
            0 <= j < songs.len() && j != i && #[trigger] slots(tracks, songs)[j] == Some(track),
{
    let p = |track: TrackView| carries_isrc(track, songs[i].0@);
    let wanted = wanted_by_isrc(tracks, songs);
    let by_isrc = slots_by_isrc(tracks, songs);
    let wished = wanted_by_position(tracks, songs);
    let by_position = granted(wished);
    let all = slots(tracks, songs);
    assert(by_isrc[i] is None && by_position[i] is None);
    if is_first(tracks, p, track) {
        lemma_first_at(tracks, p, track);
        assert(wanted[i] == Some(track));
        assert(exists|j: int| 0 <= j < i && #[trigger] wanted[j] == Some(track));
        lemma_granted(wanted, i, track);
        let j = choose|j: int| 0 <= j < i && #[trigger] granted(wanted)[j] == Some(track);
        assert(all[j] == Some(track));
    }
    if let Some((disc, number)) = position(songs[i].1) {
        let q = |track: TrackView| track.disc_number == disc && track.track_number == number;
        if is_first(tracks, q, track) {
            lemma_first_at(tracks, q, track);
            if by_isrc.contains(Some(track)) {
                let j = choose|j: int| 0 <= j < by_isrc.len() && by_isrc[j] == Some(track);
                assert(all[j] == Some(track));
                assert(j != i);
            } else {
                assert(wished[i] == Some(track));
                assert(exists|j: int| 0 <= j < i && #[trigger] wished[j] == Some(track));
                lemma_granted(wished, i, track);
                let j = choose|j: int| 0 <= j < i && #[trigger] by_position[j] == Some(track);
                assert(wished[j] == Some(track));
                assert(by_isrc[j] is None);
                assert(all[j] == Some(track));
            }
        }
    }
}

/// A file says where it stands by the number of its track, without which it says
/// nothing, and by that of its disc, where no number and zero mean the first.
pub proof fn files_say_where_they_stand(audio: Audio)
    ensures
        ({
            let number = number_value(audio.tags(), "TRACKNUMBER"@);
            let disc = number_value(audio.tags(), "DISCNUMBER"@);
            &&& position(audio) is Some <==> number is Some
            &&& position(audio) matches Some(place) ==> {
                &&& number == Some(place.1)
                &&& disc is None || disc == Some(0u16) ==> place.0 == 1
                &&& disc is Some && disc != Some(0u16) ==> disc == Some(place.0)
            }
        }),
{
}

/// A track carries an ISRC just where it has one, and that is the same but for the
/// case of ASCII letters.
pub proof fn tracks_carry_isrcs_in_any_case(track: TrackView, isrc: Seq<char>, other: Seq<char>)
    ensures
        track.isrc is None ==> !carries_isrc(track, isrc),
        track.isrc == Some(other) ==> (carries_isrc(track, isrc) <==> isrc.map_values(
            |c: char| ascii_lower(c),
        ) == other.map_values(|c: char| ascii_lower(c))),
{
    sameness_but_for_case(other, isrc, isrc);
}

} // verus!
