//! Where things go in the music library.
use vstd::prelude::*;

use crate::apple::catalog::{Album, AlbumView};
use crate::tagger::{Item, ItemView, Picture};
use crate::text::{
    ascii_digit, byte_len, bytes_are_those_of_utf8, chars_of, copy_all, decimal,
    decimal_goes_digit_by_digit, decimal_text, lemma_ascii_bytes, lemma_byte_len_add,
    lemma_byte_len_grows, lemma_decimal, lemma_end_cut, lemma_stripped_end,
    lemma_stripped_end_prefix, lemma_two_digits, lemma_within_prefix, lemma_within_whole,
    same_but_for_case, same_text, starts_with, stripped_end, take_within, text_before,
    text_before_at, text_of, texts, two_digit_text, two_digits, two_digits_are_tens_and_ones, within,
};

verus! {

/// How many bytes a part of a path may take.
pub const COMPONENT_LIMIT: usize = 200;

/// Whether `c` may stand in a part of a path on any system: it is no control
/// character, and none of those that separate parts or stand for others.
pub open spec fn plain(c: char) -> bool {
    &&& '\u{1f}' < c <= '\u{7f}' || '\u{9f}' < c
    &&& c != '/' && c != '\\' && c != '?' && c != '<' && c != '>' && c != ':' && c != '*' && c
        != '|' && c != '"'
}

/// Whether `c` may not stand at the end of a part of a path.
pub open spec fn trailing(c: char) -> bool {
    c == '.' || c == ' '
}

/// Whether a text is the name of a device, alone or with an ending, in any case.
pub open spec fn device_name(s: Seq<char>) -> bool {
    let start = s.take(3);
    ||| {
        &&& s.len() == 3 || (s.len() > 3 && s[3] == '.')
        &&& same_but_for_case(start, "con"@) || same_but_for_case(start, "prn"@)
            || same_but_for_case(start, "aux"@) || same_but_for_case(start, "nul"@)
    }
    ||| {
        &&& s.len() == 4 || (s.len() > 4 && s[4] == '.')
        &&& ascii_digit(s[3])
        &&& same_but_for_case(start, "com"@) || same_but_for_case(start, "lpt"@)
    }
}

/// Whether a text can be part of a path as it is, but for its length: it holds
/// plain characters only, ends neither in a dot nor in a space, and is not the
/// name of a device.
pub open spec fn ordinary(s: Seq<char>) -> bool {
    &&& forall|i: int| 0 <= i < s.len() ==> plain(#[trigger] s[i])
    &&& s.len() > 0 ==> !trailing(s.last())
    &&& !device_name(s)
}

/// A text as the name of a file on any system, whatever its length: a hyphen
/// stands for each character that is not plain, for a name of dots alone or of
/// a device, and for the dots and spaces at the end, taken together.
pub open spec fn cleaned(text: Seq<char>) -> Seq<char> {
    let name = text.map_values(|c: char| if plain(c) { c } else { '-' });
    let end = |c: char| trailing(c);
    if device_name(name) || (name.len() > 0 && forall|i: int|
        0 <= i < name.len() ==> #[trigger] name[i] == '.') {
        seq!['-']
    } else if name.len() > 0 && trailing(name.last()) {
        stripped_end(name, end).push('-')
    } else {
        name
    }
}

/// `sanitize_filename::sanitize_with_options`, by the rules of Windows, not
/// truncated and with a hyphen in place of what is refused. It puts the hyphen
/// in place of each character that is not plain, then in place of the whole name
/// where that is made of dots alone or is that of a device, and then in place of
/// the dots and spaces at the end.
#[verifier::external_body]
fn sanitize_with_options(
    text: &str,
    windows: bool,
    truncate: bool,
    replacement: &str,
) -> (name: String)
    requires
        windows,
        !truncate,
        replacement@ == "-"@,
    ensures
        name@ == cleaned(text@),
{
    sanitize_filename::sanitize_with_options(
        text,
        sanitize_filename::Options { windows, truncate, replacement },
    )
}

/// What a cleaned text holds: plain characters only, each a hyphen or one of the
/// text, with neither a dot nor a space at the end. It is empty just where the
/// text is, and an ordinary text stays as it is.
pub proof fn cleaned_is_plain(text: Seq<char>)
    ensures
        forall|i: int|
            0 <= i < cleaned(text).len() ==> plain(#[trigger] cleaned(text)[i]) && (cleaned(
                text,
            )[i] == '-' || text.contains(cleaned(text)[i])),
        cleaned(text).len() > 0 ==> !trailing(cleaned(text).last()),
        cleaned(text).len() == 0 <==> text.len() == 0,
        ordinary(text) ==> cleaned(text) == text,
{
    let name = text.map_values(|c: char| if plain(c) { c } else { '-' });
    let end = |c: char| trailing(c);
    let kept = stripped_end(name, end);
    lemma_stripped_end_prefix(name, end);
    let s = cleaned(text);
    assert forall|i: int| 0 <= i < s.len() implies plain(#[trigger] s[i]) && (s[i] == '-'
        || text.contains(s[i])) by {
        if s[i] != '-' {
            assert(s[i] == name[i] && name[i] == text[i]);
        }
    }
    if ordinary(text) {
        assert(name =~= text);
        if name.len() > 0 {
            assert(name.last() == name[name.len() - 1]);
        }
    }
}

/// A name, cut where it takes more than `limit` bytes, with another in its place
/// where nothing is left.
pub open spec fn capped(name: Seq<char>, limit: nat) -> Seq<char> {
    let kept = if byte_len(name) > limit {
        stripped_end(within(name, limit), |c: char| trailing(c))
    } else {
        name
    };
    if kept.len() == 0 {
        "Untitled"@
    } else {
        kept
    }
}

/// A text as part of a path, or of a part of it, in no more than `limit` bytes.
pub open spec fn fitted(text: Seq<char>, limit: nat) -> Seq<char> {
    capped(cleaned(text), limit)
}

/// A text as part of a path.
pub open spec fn component(text: Seq<char>) -> Seq<char> {
    fitted(text, COMPONENT_LIMIT as nat)
}

/// Whether a text can stand for a single part of a path of no more than `limit`
/// bytes: it is not empty, takes no more than these, holds plain characters only,
/// and ends neither in a dot nor in a space.
pub open spec fn safe_within(s: Seq<char>, limit: nat) -> bool {
    &&& s.len() > 0
    &&& byte_len(s) <= limit
    &&& forall|i: int| 0 <= i < s.len() ==> plain(#[trigger] s[i])
    &&& !trailing(s.last())
}

/// Whether a text can stand for a single part of a path.
pub open spec fn safe_component(s: Seq<char>) -> bool {
    safe_within(s, COMPONENT_LIMIT as nat)
}

/// A name, cut where it takes more than `limit` bytes.
pub fn cap(name: &str, limit: usize) -> (kept: String)
    ensures
        kept@ == capped(name@, limit as nat),
{
    let (start, _) = take_within(name, limit);
    proof {
        lemma_within_prefix(name@, limit as nat);
    }
    let kept = if same_text(start.as_str(), name) {
        start
    } else {
        let chars = chars_of(start.as_str());
        let ghost drop = |c: char| trailing(c);
        let mut to: usize = chars.len();
        while to > 0 && (chars[to - 1] == '.' || chars[to - 1] == ' ')
            invariant
                to <= chars@.len(),
                drop == |c: char| trailing(c),
                forall|j: int| to <= j < chars@.len() ==> #[trigger] drop(chars@[j]),
            decreases to,
        {
            proof {
                assert(drop(chars@[to - 1]));
            }
            to -= 1;
        }
        proof {
            lemma_stripped_end(chars@, drop, to as int);
            assert(chars@.subrange(0, to as int) =~= chars@.take(to as int));
        }
        text_of(&chars, 0, to)
    };
    if kept.as_str().is_empty() {
        "Untitled".to_owned()
    } else {
        kept
    }
}

proof fn lemma_capped_fits(name: Seq<char>, limit: nat)
    requires
        limit >= 8,
    ensures
        byte_len(capped(name, limit)) <= limit,
{
    reveal_strlit("Untitled");
    let drop = |c: char| trailing(c);
    let start = within(name, limit);
    lemma_within_prefix(name, limit);
    lemma_stripped_end_prefix(start, drop);
    lemma_byte_len_grows(start, stripped_end(start, drop).len() as int);
    lemma_ascii_bytes("Untitled"@);
}

proof fn lemma_capped_safe(name: Seq<char>, limit: nat)
    requires
        limit >= 8,
        forall|i: int| 0 <= i < name.len() ==> plain(#[trigger] name[i]),
        name.len() > 0 ==> !trailing(name.last()),
    ensures
        safe_within(capped(name, limit), limit),
{
    reveal_strlit("Untitled");
    let drop = |c: char| trailing(c);
    let start = within(name, limit);
    lemma_within_prefix(name, limit);
    lemma_stripped_end_prefix(start, drop);
    lemma_capped_fits(name, limit);
    let kept = stripped_end(start, drop);
    let s = capped(name, limit);
    if byte_len(name) > limit && kept.len() > 0 {
        assert forall|i: int| 0 <= i < s.len() implies plain(#[trigger] s[i]) by {
            assert(s[i] == name[i]);
        }
        assert(!drop(kept.last()));
    } else if byte_len(name) <= limit && name.len() > 0 {
        assert(s == name);
    } else {
        assert(s =~= "Untitled"@);
    }
}

proof fn lemma_capped_holds(name: Seq<char>, limit: nat)
    ensures
        capped(name, limit) != "Untitled"@ ==> forall|i: int|
            0 <= i < capped(name, limit).len() ==> name.contains(#[trigger] capped(name, limit)[i]),
{
    let drop = |c: char| trailing(c);
    let start = within(name, limit);
    lemma_within_prefix(name, limit);
    lemma_stripped_end_prefix(start, drop);
    let s = capped(name, limit);
    if s != "Untitled"@ {
        assert forall|i: int| 0 <= i < s.len() implies name.contains(#[trigger] s[i]) by {
            assert(s[i] == name[i]);
        }
    }
}

/// A text as part of a path, or of a part of it, in no more than `limit` bytes.
/// An ordinary text is only cut, and but for the name that stands where nothing
/// is left, the part holds hyphens and characters of the text alone.
pub fn sanitize_within(text: &str, limit: usize) -> (part: String)
    ensures
        part@ == fitted(text@, limit as nat),
        limit >= 8 ==> safe_within(part@, limit as nat),
        ordinary(text@) ==> part@ == capped(text@, limit as nat),
        ordinary(text@) && 0 < byte_len(text@) <= limit ==> part@ == text@,
        part@ != "Untitled"@ ==> forall|i: int|
            0 <= i < part@.len() ==> #[trigger] part@[i] == '-' || text@.contains(part@[i]),
{
    let name = sanitize_with_options(text, true, false, "-");
    proof {
        cleaned_is_plain(text@);
        lemma_capped_holds(name@, limit as nat);
        if limit >= 8 {
            lemma_capped_safe(name@, limit as nat);
        }
    }
    cap(name.as_str(), limit)
}

/// A text as part of a path. Whatever the text, the part can stand for itself:
/// it names no other directory, and takes no more bytes than it may. An ordinary
/// text is only cut where it takes more, and but for the name that stands where
/// nothing is left, the part holds hyphens and characters of the text alone: a
/// text without control characters has none in its part.
pub fn sanitize(text: &str) -> (part: String)
    ensures
        part@ == component(text@),
        safe_component(part@),
        ordinary(text@) ==> part@ == capped(text@, COMPONENT_LIMIT as nat),
        ordinary(text@) && 0 < byte_len(text@) <= COMPONENT_LIMIT ==> part@ == text@,
        part@ != "Untitled"@ ==> forall|i: int|
            0 <= i < part@.len() ==> #[trigger] part@[i] == '-' || text@.contains(part@[i]),
        !text@.contains('\u{7f}') ==> !part@.contains('\u{7f}'),
{
    let part = sanitize_within(text, COMPONENT_LIMIT);
    proof {
        reveal_strlit("Untitled");
    }
    part
}

/// A place below the root of the music library: the names of the directories
/// that lead to it, and its own.
pub struct Location {
    pub parts: Vec<String>,
}

impl View for Location {
    type V = Seq<Seq<char>>;

    open spec fn view(&self) -> Seq<Seq<char>> {
        texts(self.parts@)
    }
}

impl Location {
    /// What is called `name` in this directory.
    pub fn join(&self, name: String) -> (location: Location)
        ensures
            location@ == self@.push(name@),
    {
        let mut parts = copy_all(&self.parts);
        parts.push(name);
        let location = Location { parts };
        proof {
            assert(location@ =~= self@.push(name@));
        }
        location
    }
}

/// Whether a text is part of a path as it is: it is ordinary, and neither empty
/// nor too long.
pub open spec fn keeps_its_name(text: Seq<char>) -> bool {
    ordinary(text) && 0 < byte_len(text) <= COMPONENT_LIMIT
}

/// The directory of an album: that of its artist, and in it one for the album.
pub open spec fn album_parts(album: AlbumView) -> Seq<Seq<char>> {
    seq![component(album.artist), component(album.name)]
}

/// The directory of an album.
pub fn album_dir(album: &Album) -> (dir: Location)
    ensures
        dir@ == album_parts(album@),
        safe_component(dir@[0]),
        safe_component(dir@[1]),
        keeps_its_name(album@.artist) ==> dir@[0] == album@.artist,
        keeps_its_name(album@.name) ==> dir@[1] == album@.name,
{
    let mut parts: Vec<String> = Vec::new();
    parts.push(sanitize(album.artist.as_str()));
    parts.push(sanitize(album.name.as_str()));
    let dir = Location { parts };
    proof {
        assert(dir@ =~= album_parts(album@));
        assert(dir@[0] == parts@[0]@ && dir@[1] == parts@[1]@);
    }
    dir
}

/// What stands before the title in the name of a file: the number of its track,
/// and before that the number of its disc where the album has several.
pub open spec fn track_prefix(several: bool, disc: u16, track: u16) -> Seq<char> {
    if several {
        decimal(disc as nat) + "-"@ + two_digits(track as nat) + " "@
    } else {
        two_digits(track as nat) + " "@
    }
}

/// How many bytes are left for the title in the name of a file.
pub open spec fn title_room(several: bool, disc: u16, track: u16) -> nat {
    (COMPONENT_LIMIT - byte_len(track_prefix(several, disc, track)) - byte_len(".flac"@)) as nat
}

/// The name of the file of a track, with as much of the title as there is room
/// for.
pub open spec fn track_file(album: AlbumView, item: ItemView) -> Seq<char> {
    let several = album.disc_count > 1;
    track_prefix(several, item.disc, item.track) + fitted(
        item.title,
        title_room(several, item.disc, item.track),
    ) + ".flac"@
}

proof fn lemma_short_decimal(n: u16)
    ensures
        decimal(n as nat).len() <= 5,
        two_digits(n as nat).len() <= 5,
{
    reveal_with_fuel(decimal, 6);
}

proof fn lemma_track_prefix(several: bool, disc: u16, track: u16)
    ensures
        ({
            let prefix = track_prefix(several, disc, track);
            &&& byte_len(prefix) == prefix.len()
            &&& prefix.len() <= 12
            &&& byte_len(".flac"@) == 5
            &&& forall|i: int| 0 <= i < prefix.len() ==> plain(#[trigger] prefix[i])
            &&& forall|i: int| 0 <= i < 5 ==> plain(#[trigger] ".flac"@[i])
        }),
{
    reveal_strlit("-");
    reveal_strlit(" ");
    reveal_strlit(".flac");
    let prefix = track_prefix(several, disc, track);
    let d = decimal(disc as nat);
    let t = two_digits(track as nat);
    lemma_decimal(disc as nat);
    lemma_two_digits(track as nat);
    lemma_short_decimal(disc);
    lemma_short_decimal(track);
    assert forall|i: int| 0 <= i < prefix.len() implies plain(#[trigger] prefix[i]) && prefix[i]
        <= '\u{7f}' by {
        if several {
            if i < d.len() {
                assert(prefix[i] == d[i]);
            } else if d.len() < i < d.len() + 1 + t.len() {
                assert(prefix[i] == t[i - d.len() - 1]);
            }
        } else if i < t.len() {
            assert(prefix[i] == t[i]);
        }
    }
    lemma_ascii_bytes(prefix);
    lemma_ascii_bytes(".flac"@);
}

/// The name of a file takes no more bytes than a part of a path may, whatever
/// the title, and keeps its ending.
pub proof fn file_names_are_capped(album: AlbumView, item: ItemView)
    ensures
        byte_len(track_file(album, item)) <= COMPONENT_LIMIT,
        track_file(album, item).skip(track_file(album, item).len() - 5) == ".flac"@,
{
    reveal_strlit(".flac");
    let several = album.disc_count > 1;
    let prefix = track_prefix(several, item.disc, item.track);
    let room = title_room(several, item.disc, item.track);
    let title = fitted(item.title, room);
    lemma_track_prefix(several, item.disc, item.track);
    lemma_capped_fits(cleaned(item.title), room);
    lemma_byte_len_add(prefix, title);
    lemma_byte_len_add(prefix + title, ".flac"@);
    let name = track_file(album, item);
    assert(name.skip(name.len() - 5) =~= ".flac"@);
}

/// The file of a track, in the directory of its album. An ordinary title stays
/// as it is where there is room for it.
pub fn track_path(dir: &Location, album: &Album, item: &Item) -> (path: Location)
    ensures
        path@ == dir@.push(track_file(album@, item@)),
        safe_component(track_file(album@, item@)),
        ordinary(item@.title) && 0 < byte_len(item@.title) <= title_room(
            album.disc_count > 1,
            item.disc,
            item.track,
        ) ==> track_file(album@, item@) == track_prefix(
            album.disc_count > 1,
            item.disc,
            item.track,
        ) + item@.title + ".flac"@,
{
    let mut name = if album.disc_count > 1 {
        let mut name = decimal_text(item.disc as u64);
        name.append("-");
        name.append(two_digit_text(item.track as u64).as_str());
        name
    } else {
        two_digit_text(item.track as u64)
    };
    name.append(" ");
    let ghost prefix = track_prefix(album.disc_count > 1, item.disc, item.track);
    proof {
        reveal_strlit(".flac");
        lemma_track_prefix(album.disc_count > 1, item.disc, item.track);
        lemma_within_whole(prefix, COMPONENT_LIMIT as nat);
    }
    let (_, used) = take_within(name.as_str(), COMPONENT_LIMIT);
    let title = sanitize_within(item.title.as_str(), COMPONENT_LIMIT - used - 5);
    name.append(title.as_str());
    name.append(".flac");
    proof {
        file_names_are_capped(album@, item@);
        let end = ".flac"@;
        assert(name@ =~= track_file(album@, item@));
        assert forall|i: int| 0 <= i < name@.len() implies plain(#[trigger] name@[i]) by {
            if i < prefix.len() {
                assert(name@[i] == prefix[i]);
            } else if i < prefix.len() + title@.len() {
                assert(name@[i] == title@[i - prefix.len()]);
            } else {
                assert(name@[i] == end[i - prefix.len() - title@.len()]);
            }
        }
        assert(name@.last() == end[4]);
    }
    dir.join(name)
}

/// What is written for the cover of an album: the file in its directory, and
/// the bytes that go there.
pub fn cover<'a>(dir: &Location, picture: &'a Picture) -> (file: (Location, &'a Vec<u8>))
    ensures
        file.0@ == dir@.push("cover.jpg"@),
        *file.1 == picture.data,
{
    (dir.join("cover.jpg".to_owned()), &picture.data)
}

proof fn lemma_same_digits(
    a: Seq<char>,
    b: Seq<char>,
    rest_a: Seq<char>,
    rest_b: Seq<char>,
    end: char,
)
    requires
        forall|i: int| 0 <= i < a.len() ==> ascii_digit(#[trigger] a[i]),
        forall|i: int| 0 <= i < b.len() ==> ascii_digit(#[trigger] b[i]),
        !ascii_digit(end),
        a.push(end) + rest_a == b.push(end) + rest_b,
    ensures
        a == b,
        rest_a == rest_b,
{
    let x = a.push(end) + rest_a;
    let y = b.push(end) + rest_b;
    if a.len() < b.len() {
        assert(x[a.len() as int] == end);
        assert(y[a.len() as int] == b[a.len() as int]);
    } else if b.len() < a.len() {
        assert(y[b.len() as int] == end);
        assert(x[b.len() as int] == a[b.len() as int]);
    }
    assert forall|i: int| 0 <= i < a.len() implies a[i] == b[i] by {
        assert(x[i] == a[i] && y[i] == b[i]);
    }
    assert(a =~= b);
    let n = a.len() + 1;
    assert(x.skip(n as int) =~= rest_a);
    assert(y.skip(n as int) =~= rest_b);
}

/// Different tracks of an album go to different files: where it has several
/// discs, tracks that differ in disc or number, and else tracks that differ in
/// number.
pub proof fn tracks_go_to_different_files(album: AlbumView, a: ItemView, b: ItemView)
    requires
        a.track != b.track || (album.disc_count > 1 && a.disc != b.disc),
    ensures
        track_file(album, a) != track_file(album, b),
{
    reveal_strlit("-");
    reveal_strlit(" ");
    lemma_two_digits(a.track as nat);
    lemma_two_digits(b.track as nat);
    lemma_decimal(a.disc as nat);
    lemma_decimal(b.disc as nat);
    let several = album.disc_count > 1;
    let end_a = fitted(a.title, title_room(several, a.disc, a.track)) + ".flac"@;
    let end_b = fitted(b.title, title_room(several, b.disc, b.track)) + ".flac"@;
    let t_a = two_digits(a.track as nat);
    let t_b = two_digits(b.track as nat);
    if track_file(album, a) == track_file(album, b) {
        if album.disc_count > 1 {
            let d_a = decimal(a.disc as nat);
            let d_b = decimal(b.disc as nat);
            assert(track_file(album, a) =~= d_a.push('-') + (t_a.push(' ') + end_a));
            assert(track_file(album, b) =~= d_b.push('-') + (t_b.push(' ') + end_b));
            lemma_same_digits(d_a, d_b, t_a.push(' ') + end_a, t_b.push(' ') + end_b, '-');
        } else {
            assert(track_file(album, a) =~= t_a.push(' ') + end_a);
            assert(track_file(album, b) =~= t_b.push(' ') + end_b);
        }
        lemma_same_digits(t_a, t_b, end_a, end_b, ' ');
    }
}

/// What stands before the number of a track in the name of its file: the number
/// of the disc and a hyphen where the album has several discs, and else nothing.
pub open spec fn disc_mark(several: bool, disc: u16) -> Seq<char> {
    if several {
        decimal(disc as nat).push('-')
    } else {
        seq![]
    }
}

proof fn lemma_track_prefix_is(several: bool, disc: u16, track: u16)
    ensures
        track_prefix(several, disc, track) == disc_mark(several, disc) + two_digits(
            track as nat,
        ).push(' '),
{
    reveal_strlit("-");
    reveal_strlit(" ");
    assert(track_prefix(several, disc, track) =~= disc_mark(several, disc) + two_digits(
        track as nat,
    ).push(' '));
}

/// How the name of a file reads: the number of the disc and a hyphen where the
/// album has more than one, the number of the track in at least two digits, a
/// space, something of the title, and the ending. A title that can be part of a
/// path as it is stands there whole where the name has room for it, which takes
/// no more than 200 bytes in all.
pub proof fn file_names_start_with_the_number(album: AlbumView, item: ItemView)
    ensures
        ({
            let name = track_file(album, item);
            let mark = if album.disc_count > 1 {
                decimal(item.disc as nat).push('-')
            } else {
                Seq::<char>::empty()
            };
            let n = mark.len() as int;
            &&& name.len() >= n + 3 + 5
            &&& name.take(n) == mark
            &&& item.track < 100 ==> name.subrange(n, n + 3) == seq![
                ('0' as u32 + item.track / 10) as char,
                ('0' as u32 + item.track % 10) as char,
                ' ',
            ]
            &&& item.track >= 100 ==> starts_with(
                name.skip(n),
                decimal(item.track as nat).push(' '),
            )
            &&& name.skip(name.len() - 5) == seq!['.', 'f', 'l', 'a', 'c']
            &&& vstd::utf8::encode_utf8(name).len() <= 200
            &&& ordinary(item.title) && item.title.len() > 0 && item.track < 100
                && vstd::utf8::encode_utf8(item.title).len() + n + 3 + 5 <= 200 ==> name.subrange(
                n + 3,
                name.len() - 5,
            ) == item.title
        }),
{
    reveal_strlit(".flac");
    let several = album.disc_count > 1;
    let name = track_file(album, item);
    let mark = disc_mark(several, item.disc);
    let n = mark.len() as int;
    let digits = two_digits(item.track as nat);
    let room = title_room(several, item.disc, item.track);
    let title = fitted(item.title, room);
    lemma_track_prefix_is(several, item.disc, item.track);
    lemma_track_prefix(several, item.disc, item.track);
    two_digits_are_tens_and_ones(item.track as nat);
    file_names_are_capped(album, item);
    bytes_are_those_of_utf8(name, 0);
    bytes_are_those_of_utf8(item.title, 0);
    assert(name =~= mark + digits.push(' ') + title + ".flac"@);
    assert(name.take(n) =~= mark);
    if item.track < 100 {
        assert(name.subrange(n, n + 3) =~= digits.push(' '));
    } else {
        let head = decimal(item.track as nat).push(' ');
        assert(name.skip(n).take(head.len() as int) =~= head);
    }
    assert(".flac"@ =~= seq!['.', 'f', 'l', 'a', 'c']);
    cleaned_is_plain(item.title);
    if ordinary(item.title) && item.title.len() > 0 && item.track < 100
        && vstd::utf8::encode_utf8(item.title).len() + n + 3 + 5 <= 200 {
        assert(title == item.title);
        assert(name.subrange(n + 3, name.len() - 5) =~= title);
    }
}

/// The files of a disc stand in the order of their tracks where they are listed
/// by name, as long as no number has more than two digits; and where the album has
/// several discs, but fewer than ten, those of an earlier disc come before those of
/// a later one.
pub proof fn files_are_listed_in_order(album: AlbumView, a: ItemView, b: ItemView)
    requires
        ({
            ||| (album.disc_count <= 1 || a.disc == b.disc) && a.track < b.track < 100
            ||| album.disc_count > 1 && a.disc < b.disc < 10
        }),
    ensures
        text_before(track_file(album, a), track_file(album, b)),
{
    let several = album.disc_count > 1;
    let x = track_file(album, a);
    let y = track_file(album, b);
    lemma_track_prefix_is(several, a.disc, a.track);
    lemma_track_prefix_is(several, b.disc, b.track);
    two_digits_are_tens_and_ones(a.track as nat);
    two_digits_are_tens_and_ones(b.track as nat);
    decimal_goes_digit_by_digit(0, a.disc as nat % 10);
    decimal_goes_digit_by_digit(0, b.disc as nat % 10);
    let m = disc_mark(several, a.disc);
    let n = m.len() as int;
    if several && a.disc < b.disc {
        assert(x[0] == decimal(a.disc as nat)[0]);
        assert(y[0] == decimal(b.disc as nat)[0]);
        assert(text_before_at(x, y, 0));
    } else {
        assert forall|i: int| 0 <= i < n implies x[i] == y[i] by {
            assert(x[i] == m[i] && y[i] == m[i]);
        }
        let s = two_digits(a.track as nat);
        let t = two_digits(b.track as nat);
        assert(x[n] == s[0] && x[n + 1] == s[1]);
        assert(y[n] == t[0] && y[n + 1] == t[1]);
        if a.track / 10 < b.track / 10 {
            assert(text_before_at(x, y, n));
        } else {
            assert(text_before_at(x, y, n + 1));
        }
    }
}

/// A name is cut only where it takes more bytes than it may: then as many of its
/// characters stay as fit, `kept.1` of them, but for dots and spaces at the end.
/// Where nothing stays, and only there, another name takes its place.
pub proof fn only_what_is_too_long_is_cut(name: Seq<char>, limit: nat) -> (kept: (int, int))
    ensures
        0 <= kept.0 <= kept.1 <= name.len(),
        vstd::utf8::encode_utf8(name).len() <= limit ==> kept == (
            name.len() as int,
            name.len() as int,
        ),
        vstd::utf8::encode_utf8(name).len() > limit ==> {
            &&& vstd::utf8::encode_utf8(name.take(kept.1)).len() <= limit
            &&& vstd::utf8::encode_utf8(name.take(kept.1 + 1)).len() > limit
            &&& forall|i: int|
                kept.0 <= i < kept.1 ==> (#[trigger] name[i] == '.' || name[i] == ' ')
            &&& kept.0 > 0 ==> name[kept.0 - 1] != '.' && name[kept.0 - 1] != ' '
        },
        kept.0 > 0 ==> capped(name, limit) == name.take(kept.0),
        kept.0 == 0 ==> capped(name, limit) == "Untitled"@,
{
    bytes_are_those_of_utf8(name, limit);
    if byte_len(name) <= limit {
        assert(name.take(name.len() as int) =~= name);
        (name.len() as int, name.len() as int)
    } else {
        let drop = |c: char| trailing(c);
        let start = within(name, limit);
        let m = start.len() as int;
        lemma_within_prefix(name, limit);
        if m == name.len() {
            assert(start =~= name);
        }
        bytes_are_those_of_utf8(start, limit);
        bytes_are_those_of_utf8(name.take(m + 1), limit);
        lemma_stripped_end_prefix(start, drop);
        lemma_end_cut(start, drop);
        let n = stripped_end(start, drop).len() as int;
        assert(start.take(n) =~= name.take(n));
        assert forall|i: int| n <= i < m implies (#[trigger] name[i] == '.' || name[i] == ' ') by {
            assert(drop(start[i]));
        }
        if n > 0 {
            assert(!drop(stripped_end(start, drop).last()));
            assert(name[n - 1] == stripped_end(start, drop).last());
        }
        (n, m)
    }
}

/// Each character that may not stand in a part of a path gives way to a hyphen,
/// in its place, and each other stays: this is all that becomes of a text that
/// does not end in a dot or a space and is not the name of a device. Of the ASCII
/// characters up to the last printable one the control characters may not stand
/// there, nor the nine that have a meaning in paths.
pub proof fn refused_characters_give_way_to_hyphens(text: Seq<char>)
    ensures
        ({
            let name = text.map_values(|c: char| if plain(c) { c } else { '-' });
            !device_name(name) && (name.len() > 0 ==> name.last() != '.' && name.last() != ' ')
                ==> cleaned(text) == name
        }),
        forall|c: char|
            c < '\u{7f}' ==> (#[trigger] plain(c) <==> c >= ' ' && c != '/' && c != '\\' && c != '?'
                && c != '<' && c != '>' && c != ':' && c != '*' && c != '|' && c != '"'),
{
    let name = text.map_values(|c: char| if plain(c) { c } else { '-' });
    if name.len() > 0 {
        assert(name[name.len() - 1] == name.last());
    }
}

/// The directory of an album is that of its name, in that of its artist, and what
/// is in it goes nowhere else: no part of the way there holds a separator, is one
/// of the names that lead elsewhere, or takes more than 200 bytes.
pub proof fn albums_stay_below_their_artists(album: AlbumView)
    ensures
        album_parts(album).len() == 2,
        album_parts(album)[0] == component(album.artist),
        album_parts(album)[1] == component(album.name),
        forall|i: int|
            0 <= i < 2 ==> {
                let part = #[trigger] album_parts(album)[i];
                &&& part.len() > 0
                &&& !part.contains('/')
                &&& !part.contains('\\')
                &&& part != "."@
                &&& part != ".."@
                &&& vstd::utf8::encode_utf8(part).len() <= 200
            },
{
    reveal_strlit(".");
    reveal_strlit("..");
    assert forall|i: int| 0 <= i < 2 implies {
        let part = #[trigger] album_parts(album)[i];
        &&& part.len() > 0
        &&& !part.contains('/')
        &&& !part.contains('\\')
        &&& part != "."@
        &&& part != ".."@
        &&& vstd::utf8::encode_utf8(part).len() <= 200
    } by {
        let text = if i == 0 {
            album.artist
        } else {
            album.name
        };
        let part = album_parts(album)[i];
        cleaned_is_plain(text);
        lemma_capped_safe(cleaned(text), COMPONENT_LIMIT as nat);
        bytes_are_those_of_utf8(part, 0);
        assert(safe_component(part));
        if part.contains('/') {
            let k = choose|k: int| 0 <= k < part.len() && part[k] == '/';
            assert(plain(part[k]));
        }
        if part.contains('\\') {
            let k = choose|k: int| 0 <= k < part.len() && part[k] == '\\';
            assert(plain(part[k]));
        }
        assert(!trailing(part.last()));
    }
}

} // verus!
