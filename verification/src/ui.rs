//! What is shown to whoever runs a session.
use vstd::prelude::*;

use crate::apple::catalog::{Album, AlbumView};
use crate::flac::{by_key, left_out, name_of, Skipped, SkippedView};
use crate::select::{candidate_views, label_of, Candidate, CandidateView, Source};
use crate::tagger::{
    changed_key, changes, changes_between, drift, drift_of, Change, ChangeView, Item, ItemView,
    Picture,
};
use crate::text::{
    chars_of, decimal, decimal_text, maybe_text, pad, padded, padding_puts_spaces_behind,
    starts_with, text_of, texts, two_digit_text, two_digits,
};

verus! {

/// What is offered last where one of several albums is to be picked.
pub const SKIP: &'static str = "skip this album";

/// By how many seconds a file may differ from its track without a word.
pub const DRIFT_LIMIT: u64 = 5;

/// A text that may be missing, or a dash.
pub open spec fn or_dash(text: Option<Seq<char>>) -> Seq<char> {
    match text {
        Some(text) => text,
        None => "-"@,
    }
}

/// An album in one line.
pub open spec fn summary_of(album: AlbumView) -> Seq<char> {
    album.artist + " — "@ + album.name + " ("@ + decimal(album.tracks.len()) + " tracks, "@ + or_dash(
        album.release_date,
    ) + ", upc "@ + or_dash(album.upc) + ", id "@ + album.id + ")"@
}

fn dash_or(text: &Option<String>) -> (shown: String)
    ensures
        shown@ == or_dash(maybe_text(*text)),
{
    match text {
        Some(text) => text.clone(),
        None => "-".to_owned(),
    }
}

/// An album in one line.
pub fn summary(album: &Album) -> (line: String)
    ensures
        line@ == summary_of(album@),
{
    let mut line = album.artist.clone();
    line.append(" — ");
    line.append(album.name.as_str());
    line.append(" (");
    line.append(decimal_text(album.tracks.len() as u64).as_str());
    line.append(" tracks, ");
    line.append(dash_or(&album.release_date).as_str());
    line.append(", upc ");
    line.append(dash_or(&album.upc).as_str());
    line.append(", id ");
    line.append(album.id.as_str());
    line.append(")");
    line
}

/// A text in no more than so many characters: where it has more, its end gives
/// way to an ellipsis.
pub open spec fn truncated(text: Seq<char>, width: int) -> Seq<char> {
    if text.len() <= width {
        text
    } else {
        text.take(
            if width > 0 {
                width - 1
            } else {
                0
            },
        ).push('…')
    }
}

/// A text in no more than so many characters.
pub fn truncate(text: &str, width: usize) -> (shown: String)
    ensures
        shown@ == truncated(text@, width as int),
{
    let chars = chars_of(text);
    if chars.len() <= width {
        return text.to_owned();
    }
    let kept = if width > 0 {
        width - 1
    } else {
        0
    };
    let mut shown = text_of(&chars, 0, kept);
    shown.push('…');
    proof {
        assert(chars@.subrange(0, kept as int) =~= chars@.take(kept as int));
    }
    shown
}

/// What is shown never takes more characters than it may.
pub proof fn truncated_fits(text: Seq<char>, width: int)
    requires
        width >= 1,
    ensures
        truncated(text, width).len() <= width,
        text.len() <= width ==> truncated(text, width) == text,
{
}

/// How a file that is left out is shown.
pub open spec fn skipped_line(skipped: SkippedView) -> Seq<char> {
    match skipped {
        SkippedView::NoBarcode(file) => "  no barcode   "@ + file.text@,
        SkippedView::NoIsrc(file) => "  no isrc      "@ + file.text@,
        SkippedView::DuplicateIsrc(file, isrc) => "  "@ + isrc + " twice  "@ + file.text@,
    }
}

/// How the files that are left out are shown: nothing where there are none, and
/// else a heading, a line for each, and an empty line.
pub open spec fn skipped_lines(skipped: Seq<SkippedView>) -> Seq<Seq<char>> {
    if skipped.len() == 0 {
        seq![]
    } else {
        seq!["skipped "@ + decimal(skipped.len()) + " files:"@] + skipped.map_values(
            |skipped: SkippedView| skipped_line(skipped),
        ) + seq![""@]
    }
}

fn show_skipped(skipped: &Skipped) -> (line: String)
    ensures
        line@ == skipped_line(skipped@),
{
    match skipped {
        Skipped::NoBarcode(file) => {
            let mut line = "  no barcode   ".to_owned();
            line.append(file.text.as_str());
            line
        },
        Skipped::NoIsrc(file) => {
            let mut line = "  no isrc      ".to_owned();
            line.append(file.text.as_str());
            line
        },
        Skipped::DuplicateIsrc(file, isrc) => {
            let mut line = "  ".to_owned();
            line.append(isrc.as_str());
            line.append(" twice  ");
            line.append(file.text.as_str());
            line
        },
    }
}

fn put(lines: &mut Vec<String>, line: String)
    ensures
        texts(final(lines)@) == texts(old(lines)@).push(line@),
{
    let ghost before = texts(lines@);
    lines.push(line);
    proof {
        assert(texts(lines@) =~= before.push(line@));
    }
}

/// How the files that are left out are shown.
pub fn skipped(files: &Vec<Skipped>) -> (lines: Vec<String>)
    ensures
        texts(lines@) == skipped_lines(files@.map_values(|skipped: Skipped| skipped@)),
{
    let ghost all = files@.map_values(|skipped: Skipped| skipped@);
    let ghost show = |skipped: SkippedView| skipped_line(skipped);
    let mut lines: Vec<String> = Vec::new();
    if files.len() == 0 {
        proof {
            assert(texts(lines@) =~= seq![]);
        }
        return lines;
    }
    let mut heading = "skipped ".to_owned();
    heading.append(decimal_text(files.len() as u64).as_str());
    heading.append(" files:");
    let ghost first = heading@;
    put(&mut lines, heading);
    let mut i: usize = 0;
    proof {
        assert(texts(lines@) =~= seq![first] + all.take(0).map_values(show));
    }
    while i < files.len()
        invariant
            i <= files@.len(),
            all == files@.map_values(|skipped: Skipped| skipped@),
            show == |skipped: SkippedView| skipped_line(skipped),
            texts(lines@) == seq![first] + all.take(i as int).map_values(show),
        decreases files@.len() - i,
    {
        put(&mut lines, show_skipped(&files[i]));
        i += 1;
        proof {
            assert(all[i - 1] == files@[i - 1]@);
            assert(texts(lines@) =~= seq![first] + all.take(i as int).map_values(show));
        }
    }
    put(&mut lines, "".to_owned());
    proof {
        assert(all.take(i as int) =~= all);
        assert(texts(lines@) =~= seq![first] + all.map_values(show) + seq![""@]);
    }
    lines
}

/// How a change of a tag is shown.
pub open spec fn change_line(change: ChangeView) -> Seq<char> {
    match change {
        ChangeView::Added(key, value) => "      + "@ + padded(key, 16) + " "@ + truncated(value, 60),
        ChangeView::Updated(key, before, after) => "      ~ "@ + padded(key, 16) + " "@ + truncated(
            before,
            28,
        ) + "  →  "@ + truncated(after, 28),
        ChangeView::Removed(key, value) => "      - "@ + padded(key, 16) + " "@ + truncated(
            value,
            60,
        ),
    }
}

fn show_change(change: &Change) -> (line: String)
    ensures
        line@ == change_line(change@),
{
    match change {
        Change::Added(key, value) => {
            let mut line = "      + ".to_owned();
            line.append(pad(key.as_str(), 16).as_str());
            line.append(" ");
            line.append(truncate(value.as_str(), 60).as_str());
            line
        },
        Change::Updated(key, before, after) => {
            let mut line = "      ~ ".to_owned();
            line.append(pad(key.as_str(), 16).as_str());
            line.append(" ");
            line.append(truncate(before.as_str(), 28).as_str());
            line.append("  →  ");
            line.append(truncate(after.as_str(), 28).as_str());
            line
        },
        Change::Removed(key, value) => {
            let mut line = "      - ".to_owned();
            line.append(pad(key.as_str(), 16).as_str());
            line.append(" ");
            line.append(truncate(value.as_str(), 60).as_str());
            line
        },
    }
}

/// The first line on a file: where its track stands, what the file is called,
/// and what the track is called.
pub open spec fn item_line(item: ItemView) -> Seq<char> {
    decimal(item.disc as nat) + "-"@ + two_digits(item.track as nat) + "  "@ + truncated(
        name_of(item.audio.path),
        46,
    ) + "  →  "@ + item.title
}

/// A word on a file that was paired by position.
pub open spec fn position_lines(item: ItemView) -> Seq<Seq<char>> {
    if item.positional {
        seq!["      ! matched by (disc, track), not by isrc"@]
    } else {
        seq![]
    }
}

/// A word on a file whose length is not that of its track.
pub open spec fn drift_lines(item: ItemView) -> Seq<Seq<char>> {
    match drift_of(item) {
        Some(secs) => if secs > DRIFT_LIMIT {
            seq!["      ! runs "@ + decimal(secs as nat) + "s away from the apple track length"@]
        } else {
            seq![]
        },
        None => seq![],
    }
}

/// How the changes of a file are shown: one by one, or how many there are.
pub open spec fn change_lines(item: ItemView, verbose: bool) -> Seq<Seq<char>> {
    let changes = changes_between(item.audio.tags(), by_key(item.comments));
    if verbose {
        changes.map_values(|change: ChangeView| change_line(change))
    } else {
        seq!["      "@ + decimal(changes.len()) + " tag changes"@]
    }
}

/// What is shown of a file that is to be written.
pub open spec fn report_lines(item: ItemView, verbose: bool) -> Seq<Seq<char>> {
    seq![item_line(item)] + position_lines(item) + drift_lines(item) + change_lines(item, verbose)
}

/// What is shown of a file that is to be written.
pub fn report(item: &Item, verbose: bool) -> (lines: Vec<String>)
    ensures
        texts(lines@) == report_lines(item@, verbose),
{
    let changes = changes(item);
    let mut lines: Vec<String> = Vec::new();
    let mut line = decimal_text(item.disc as u64);
    line.append("-");
    line.append(two_digit_text(item.track as u64).as_str());
    line.append("  ");
    line.append(truncate(item.audio.name().as_str(), 46).as_str());
    line.append("  →  ");
    line.append(item.title.as_str());
    put(&mut lines, line);
    proof {
        assert(texts(lines@) =~= seq![item_line(item@)]);
    }
    if item.positional {
        put(&mut lines, "      ! matched by (disc, track), not by isrc".to_owned());
    }
    proof {
        assert(texts(lines@) =~= seq![item_line(item@)] + position_lines(item@));
    }
    if let Some(secs) = drift(item) {
        if secs > DRIFT_LIMIT {
            let mut line = "      ! runs ".to_owned();
            line.append(decimal_text(secs).as_str());
            line.append("s away from the apple track length");
            put(&mut lines, line);
        }
    }
    let ghost head = seq![item_line(item@)] + position_lines(item@) + drift_lines(item@);
    proof {
        assert(texts(lines@) =~= head);
    }
    if verbose {
        let ghost all = crate::tagger::change_views(changes@);
        let ghost show = |change: ChangeView| change_line(change);
        let mut i: usize = 0;
        proof {
            assert(texts(lines@) =~= head + all.take(0).map_values(show));
        }
        while i < changes.len()
            invariant
                i <= changes@.len(),
                all == crate::tagger::change_views(changes@),
                show == |change: ChangeView| change_line(change),
                texts(lines@) == head + all.take(i as int).map_values(show),
            decreases changes@.len() - i,
        {
            put(&mut lines, show_change(&changes[i]));
            i += 1;
            proof {
                assert(all[i - 1] == changes@[i - 1]@);
                assert(texts(lines@) =~= head + all.take(i as int).map_values(show));
            }
        }
        proof {
            assert(all.take(i as int) =~= all);
        }
    } else {
        let mut line = "      ".to_owned();
        line.append(decimal_text(changes.len() as u64).as_str());
        line.append(" tag changes");
        put(&mut lines, line);
        proof {
            assert(crate::tagger::change_views(changes@).len() == changes@.len());
            assert(texts(lines@) =~= head + change_lines(item@, verbose));
        }
    }
    lines
}

/// How an album is offered: what gave it, with how many of the files led to it
/// where any did, and the album.
pub open spec fn offer_of(candidate: CandidateView, files: usize) -> Seq<char> {
    "["@ + label_of(candidate.source) + (if candidate.isrc_hits > 0 {
        " "@ + decimal(candidate.isrc_hits as nat) + "/"@ + decimal(files as nat)
    } else {
        ""@
    }) + "] "@ + summary_of(candidate.album)
}

/// What is offered where one of several albums is to be picked: each of them,
/// and at the end to skip the files.
pub open spec fn offered(candidates: Seq<CandidateView>, files: usize) -> Seq<Seq<char>> {
    candidates.map_values(|candidate: CandidateView| offer_of(candidate, files)).push(SKIP@)
}

fn show_offer(candidate: &Candidate, files: usize) -> (line: String)
    ensures
        line@ == offer_of(candidate@, files),
{
    let mut line = "[".to_owned();
    line.append(candidate.source.label());
    let mut hits = "".to_owned();
    if candidate.isrc_hits > 0 {
        hits = " ".to_owned();
        hits.append(decimal_text(candidate.isrc_hits as u64).as_str());
        hits.append("/");
        hits.append(decimal_text(files as u64).as_str());
    }
    line.append(hits.as_str());
    line.append("] ");
    line.append(summary(&candidate.album).as_str());
    line
}

/// What is offered where one of several albums is to be picked.
pub fn offers(candidates: &Vec<Candidate>, files: usize) -> (lines: Vec<String>)
    ensures
        texts(lines@) == offered(candidate_views(candidates@), files),
{
    let ghost all = candidate_views(candidates@);
    let ghost show = |candidate: CandidateView| offer_of(candidate, files);
    let mut lines: Vec<String> = Vec::new();
    let mut i: usize = 0;
    proof {
        assert(texts(lines@) =~= all.take(0).map_values(show));
    }
    while i < candidates.len()
        invariant
            i <= candidates@.len(),
            all == candidate_views(candidates@),
            show == |candidate: CandidateView| offer_of(candidate, files),
            texts(lines@) == all.take(i as int).map_values(show),
        decreases candidates@.len() - i,
    {
        put(&mut lines, show_offer(&candidates[i], files));
        i += 1;
        proof {
            assert(all[i - 1] == candidates@[i - 1]@);
            assert(texts(lines@) =~= all.take(i as int).map_values(show));
        }
    }
    put(&mut lines, SKIP.to_owned());
    proof {
        assert(all.take(i as int) =~= all);
    }
    lines
}

/// What is asked where one of several albums is to be picked.
pub fn question(candidates: usize, files: usize) -> (line: String)
    ensures
        line@ == decimal(files as nat) + " files, "@ + decimal(candidates as nat)
            + " candidate(s), none confirmed by barcode"@,
{
    let mut line = decimal_text(files as u64);
    line.append(" files, ");
    line.append(decimal_text(candidates as u64).as_str());
    line.append(" candidate(s), none confirmed by barcode");
    line
}

/// Which album was picked, where it was not what is offered last.
pub fn picked(index: usize, candidates: usize) -> (album: Option<usize>)
    ensures
        album == if index < candidates {
            Some(index)
        } else {
            None
        },
{
    if index < candidates {
        Some(index)
    } else {
        None
    }
}

/// What is said of files for which no album was found.
pub fn nothing_found(upc: &str, album: &Option<String>) -> (line: String)
    ensures
        line@ == "upc "@ + upc@ + ": no album found by isrc, barcode or search for "@ + match *album {
            Some(album) => album@,
            None => "these files"@,
        },
{
    let mut line = "upc ".to_owned();
    line.append(upc);
    line.append(": no album found by isrc, barcode or search for ");
    match album {
        Some(album) => line.append(album.as_str()),
        None => line.append("these files"),
    }
    line
}

/// What is said of a cover that was downloaded.
pub fn cover_line(picture: &Picture) -> (line: String)
    ensures
        line@ == "cover art  "@ + decimal(picture.width as nat) + "×"@ + decimal(
            picture.height as nat,
        ) + " "@ + picture.mime@ + ", "@ + decimal(picture.data@.len() / 1024) + " KiB"@,
{
    let mut line = "cover art  ".to_owned();
    line.append(decimal_text(picture.width as u64).as_str());
    line.append("×");
    line.append(decimal_text(picture.height as u64).as_str());
    line.append(" ");
    line.append(picture.mime.as_str());
    line.append(", ");
    line.append(decimal_text((picture.data.len() / 1024) as u64).as_str());
    line.append(" KiB");
    line
}

/// What is said once the files of an album are written.
pub fn written_line(copy: bool, files: usize) -> (line: String)
    ensures
        line@ == (if copy {
            "copied"@
        } else {
            "moved"@
        }) + " "@ + decimal(files as nat) + " files"@,
{
    let mut line = if copy {
        "copied".to_owned()
    } else {
        "moved".to_owned()
    };
    line.append(" ");
    line.append(decimal_text(files as u64).as_str());
    line.append(" files");
    line
}

/// What is shown in full is shown as it is, and what is too long up to the last
/// place, where an ellipsis stands.
pub proof fn what_is_too_long_ends_in_an_ellipsis(text: Seq<char>, width: int)
    requires
        width >= 1,
    ensures
        text.len() <= width ==> truncated(text, width) == text,
        text.len() > width ==> {
            &&& truncated(text, width).len() == width
            &&& truncated(text, width).drop_last() == text.take(width - 1)
            &&& truncated(text, width).last() == '…'
        },
{
    if text.len() > width {
        assert(truncated(text, width).drop_last() =~= text.take(width - 1));
    }
}

/// A report on a file says where its track stands, and how the file and the track
/// are called. It has a word on a file that was paired by position, and one on a
/// file that runs more than five seconds away from its track, and on no other. At
/// the end it has a line for each change, or where these are not to be shown how
/// many there are.
pub proof fn reports_warn_where_there_is_cause(item: ItemView, verbose: bool)
    ensures
        ({
            let lines = report_lines(item, verbose);
            let changes = changes_between(item.audio.tags(), by_key(item.comments));
            let by_position: int = if item.positional {
                1
            } else {
                0
            };
            let drifts = drift_of(item) is Some && drift_of(item)->0 > 5;
            let by_length: int = if drifts {
                1
            } else {
                0
            };
            let n = 1 + by_position + by_length;
            &&& starts_with(
                lines[0],
                decimal(item.disc as nat) + "-"@ + two_digits(item.track as nat) + "  "@,
            )
            &&& lines[0].skip(lines[0].len() - item.title.len()) == item.title
            &&& item.audio.path.name matches Some(name) ==> (name@.len() <= 46 ==> lines[0]
                == decimal(item.disc as nat) + "-"@ + two_digits(item.track as nat) + "  "@ + name@
                + "  →  "@ + item.title)
            &&& item.positional ==> lines[1] == "      ! matched by (disc, track), not by isrc"@
            &&& drifts ==> lines[n - 1] == "      ! runs "@ + decimal(drift_of(item)->0 as nat)
                + "s away from the apple track length"@
            &&& verbose ==> lines.len() == n + changes.len() && forall|i: int|
                0 <= i < changes.len() ==> lines[n + i] == change_line(#[trigger] changes[i])
            &&& !verbose ==> lines.len() == n + 1 && lines[n] == "      "@ + decimal(changes.len())
                + " tag changes"@
        }),
{
    let lines = report_lines(item, verbose);
    let line = item_line(item);
    let head = decimal(item.disc as nat) + "-"@ + two_digits(item.track as nat) + "  "@;
    assert(lines[0] == line);
    assert(line.take(head.len() as int) =~= head);
    assert(line.skip(line.len() - item.title.len()) =~= item.title);
}

/// A change is marked for what it is: with a plus where a tag is added, a minus
/// where it is removed, and a tilde where it gets another value, with what that was
/// and what it becomes in this order.
pub proof fn changes_are_marked(change: ChangeView)
    ensures
        ({
            let line = change_line(change);
            let start = line.take(8);
            &&& change is Added ==> start == "      + "@
            &&& change is Removed ==> start == "      - "@
            &&& change is Updated ==> start == "      ~ "@
            &&& starts_with(line.skip(8), changed_key(change))
            &&& change matches ChangeView::Added(_, value) ==> (value.len() <= 60 ==> line.skip(
                line.len() - value.len(),
            ) == value)
            &&& change matches ChangeView::Removed(_, value) ==> (value.len() <= 60 ==> line.skip(
                line.len() - value.len(),
            ) == value)
            &&& change matches ChangeView::Updated(_, before, after) ==> (before.len() <= 28
                && after.len() <= 28 ==> line.skip(
                line.len() - after.len() - before.len() - "  →  "@.len(),
            ) == before + "  →  "@ + after)
        }),
{
    reveal_strlit("      + ");
    reveal_strlit("      - ");
    reveal_strlit("      ~ ");
    let line = change_line(change);
    let key = changed_key(change);
    padding_puts_spaces_behind(key, 16);
    assert(padded(key, 16).take(key.len() as int) == key);
    assert(line.skip(8).take(key.len() as int) =~= key) by {
        assert forall|i: int| 0 <= i < key.len() implies line.skip(8)[i] == key[i] by {
            assert(line[8 + i] == padded(key, 16)[i]);
            assert(padded(key, 16).take(key.len() as int)[i] == key[i]);
        }
    }
    match change {
        ChangeView::Added(_, value) => {
            assert(line.take(8) =~= "      + "@);
            if value.len() <= 60 {
                assert(line.skip(line.len() - value.len()) =~= value);
            }
        },
        ChangeView::Removed(_, value) => {
            assert(line.take(8) =~= "      - "@);
            if value.len() <= 60 {
                assert(line.skip(line.len() - value.len()) =~= value);
            }
        },
        ChangeView::Updated(_, before, after) => {
            assert(line.take(8) =~= "      ~ "@);
            if before.len() <= 28 && after.len() <= 28 {
                assert(line.skip(line.len() - after.len() - before.len() - "  →  "@.len())
                    =~= before + "  →  "@ + after);
            }
        },
    }
}

/// Each file that is left out is shown, in a line of its own that ends in its path
/// and says why, behind one that says how many there are; where none is left out,
/// nothing is shown.
pub proof fn every_file_left_out_is_shown(skipped: Seq<SkippedView>, i: int)
    requires
        0 <= i < skipped.len(),
    ensures
        ({
            let lines = skipped_lines(skipped);
            let line = lines[i + 1];
            let path = left_out(skipped[i]).text@;
            &&& lines.len() == skipped.len() + 2
            &&& lines[0] == "skipped "@ + decimal(skipped.len()) + " files:"@
            &&& line.skip(line.len() - path.len()) == path
            &&& skipped[i] is NoBarcode ==> starts_with(line, "  no barcode   "@)
            &&& skipped[i] is NoIsrc ==> starts_with(line, "  no isrc      "@)
            &&& skipped[i] matches SkippedView::DuplicateIsrc(_, isrc) ==> starts_with(
                line,
                "  "@ + isrc + " twice  "@,
            )
        }),
        skipped_lines(seq![]).len() == 0,
{
    let lines = skipped_lines(skipped);
    let line = lines[i + 1];
    let path = left_out(skipped[i]).text@;
    assert(line == skipped_line(skipped[i]));
    assert(line.skip(line.len() - path.len()) =~= path);
    let start = line.take(line.len() - path.len());
    match skipped[i] {
        SkippedView::NoBarcode(_) => {
            assert(start =~= "  no barcode   "@);
        },
        SkippedView::NoIsrc(_) => {
            assert(start =~= "  no isrc      "@);
        },
        SkippedView::DuplicateIsrc(_, isrc) => {
            assert(start =~= "  "@ + isrc + " twice  "@);
        },
    }
}

/// Each album is offered in its place, with what gave it and how many of the files
/// led to it where any did, and the album in one line; and at the end it is offered
/// to skip them.
pub proof fn every_album_is_offered(candidates: Seq<CandidateView>, files: usize, i: int)
    requires
        0 <= i < candidates.len(),
    ensures
        ({
            let lines = offered(candidates, files);
            let album = candidates[i].album;
            let label = match candidates[i].source {
                Source::Isrc => "isrc"@,
                Source::Barcode => "barcode"@,
                Source::Search => "search"@,
            };
            &&& lines.len() == candidates.len() + 1
            &&& lines.last() == "skip this album"@
            &&& candidates[i].isrc_hits == 0 ==> lines[i] == "["@ + label + "] "@ + summary_of(
                album,
            )
            &&& candidates[i].isrc_hits > 0 ==> lines[i] == "["@ + label + " "@ + decimal(
                candidates[i].isrc_hits as nat,
            ) + "/"@ + decimal(files as nat) + "] "@ + summary_of(album)
            &&& starts_with(summary_of(album), album.artist + " — "@ + album.name + " ("@ + decimal(
                album.tracks.len(),
            ) + " tracks, "@)
            &&& album.release_date is Some && album.upc is Some ==> summary_of(album)
                == album.artist + " — "@ + album.name + " ("@ + decimal(album.tracks.len())
                + " tracks, "@ + album.release_date->0 + ", upc "@ + album.upc->0 + ", id "@
                + album.id + ")"@
            &&& or_dash(None) == "-"@
        }),
{
    let lines = offered(candidates, files);
    let candidate = candidates[i];
    let album = candidate.album;
    reveal_strlit("");
    assert(lines[i] == offer_of(candidate, files));
    let label = label_of(candidate.source);
    if candidate.isrc_hits == 0 {
        assert(lines[i] =~= "["@ + label + "] "@ + summary_of(album));
    } else {
        let hits = decimal(candidate.isrc_hits as nat);
        let all = decimal(files as nat);
        assert(lines[i] =~= "["@ + label + " "@ + hits + "/"@ + all + "] "@ + summary_of(album));
    }
    let start = album.artist + " — "@ + album.name + " ("@ + decimal(album.tracks.len())
        + " tracks, "@;
    assert(summary_of(album).take(start.len() as int) =~= start);
}

} // verus!
