//! FLAC files: what their tags say, how files are grouped into albums, and how
//! their tags are rewritten.
use vstd::prelude::*;

use crate::apple::lookup::lists;
use crate::table::Table;
use crate::text::{
    ascii_digit, ascii_lower, ascii_upper, blank, chars_of, copy_all, decimal, is_blank,
    leading_number, leading_number_of, lemma_decimal, maybe_text, numbers_are_read_back,
    same_but_for_case, same_ignoring_case, text_of, texts, to_upper, trim, trimmed,
    trimming_takes_white_space_alone, two_digits, two_digits_are_tens_and_ones, upper_case,
    white_space,
};

verus! {

/// A source file: its place among the files of a run in the order of their
/// paths, how its path reads, and how the last part of its path reads, where it
/// has one.
pub struct FilePath {
    pub place: usize,
    pub text: String,
    pub name: Option<String>,
}

/// How the last part of a path reads, or the path where it has none.
pub open spec fn name_of(path: FilePath) -> Seq<char> {
    match path.name {
        Some(name) => name@,
        None => path.text@,
    }
}

/// Whether a file with a given name is taken for a FLAC file: its name ends in
/// `.flac`, in any case, and something stands before that.
pub open spec fn flac_name(name: Seq<char>) -> bool {
    &&& name.len() > 5
    &&& name[name.len() - 5] == '.'
    &&& same_but_for_case(name.skip(name.len() - 4), "flac"@)
}

/// Whether a file with a given name is taken for a FLAC file.
pub fn is_flac(name: &str) -> (yes: bool)
    ensures
        yes == flac_name(name@),
{
    let chars = chars_of(name);
    let len = chars.len();
    if len <= 5 || chars[len - 5] != '.' {
        return false;
    }
    let end = text_of(&chars, len - 4, len);
    proof {
        assert(end@ =~= name@.skip(name@.len() - 4));
    }
    same_ignoring_case(end.as_str(), "flac")
}

/// The metadata of a FLAC file.
#[verifier::external_type_specification]
#[verifier::external_body]
pub struct ExTag(metaflac::Tag);

/// What kind of metadata a block holds.
#[derive(Clone, Copy, PartialEq, Eq, Structural)]
pub enum BlockKind {
    StreamInfo,
    Padding,
    Application,
    SeekTable,
    VorbisComment,
    CueSheet,
    Picture,
    Unknown(u8),
}

/// What a block says of the stream of a file.
pub struct StreamView {
    pub min_block_size: u16,
    pub max_block_size: u16,
    pub min_frame_size: u32,
    pub max_frame_size: u32,
    pub sample_rate: u32,
    pub num_channels: u8,
    pub bits_per_sample: u8,
    pub total_samples: u64,
    pub md5: Seq<u8>,
}

/// A block of metadata, as far as it matters to the library: all that it says of
/// a stream, the values of comments by their keys, and of all else the kind only.
pub enum BlockView {
    StreamInfo(StreamView),
    VorbisComment(Map<Seq<char>, Seq<Seq<char>>>),
    Other(BlockKind),
}

/// What kind of metadata a block holds.
pub open spec fn kind_of(block: BlockView) -> BlockKind {
    match block {
        BlockView::StreamInfo(_) => BlockKind::StreamInfo,
        BlockView::VorbisComment(_) => BlockKind::VorbisComment,
        BlockView::Other(kind) => kind,
    }
}

/// The blocks of a tag, in order.
pub uninterp spec fn tag_blocks(tag: metaflac::Tag) -> Seq<BlockView>;

/// The comments in the first of some blocks that holds comments.
pub open spec fn comments_in(blocks: Seq<BlockView>) -> Option<Map<Seq<char>, Seq<Seq<char>>>>
    decreases blocks.len(),
{
    if blocks.len() == 0 {
        None
    } else {
        match blocks[0] {
            BlockView::VorbisComment(comments) => Some(comments),
            _ => comments_in(blocks.drop_first()),
        }
    }
}

/// What the first of some blocks that speaks of the stream says of it.
pub open spec fn stream_in(blocks: Seq<BlockView>) -> Option<StreamView>
    decreases blocks.len(),
{
    if blocks.len() == 0 {
        None
    } else {
        match blocks[0] {
            BlockView::StreamInfo(stream) => Some(stream),
            _ => stream_in(blocks.drop_first()),
        }
    }
}

/// Some blocks with one for comments among them: that is put behind the others,
/// and is empty, where there was none.
pub open spec fn with_comments(blocks: Seq<BlockView>) -> Seq<BlockView> {
    if comments_in(blocks) is Some {
        blocks
    } else {
        blocks.push(BlockView::VorbisComment(Map::empty()))
    }
}

/// Some blocks with `values` under `key` in the first of them that holds
/// comments.
pub open spec fn comment_set(
    blocks: Seq<BlockView>,
    key: Seq<char>,
    values: Seq<Seq<char>>,
) -> Seq<BlockView>
    decreases blocks.len(),
{
    if blocks.len() == 0 {
        blocks
    } else {
        match blocks[0] {
            BlockView::VorbisComment(comments) => blocks.update(
                0,
                BlockView::VorbisComment(comments.insert(key, values)),
            ),
            _ => seq![blocks[0]] + comment_set(blocks.drop_first(), key, values),
        }
    }
}

/// `Tag::blocks` and `Block::block_type` of the `metaflac` crate: the kinds of
/// the blocks of a tag, in order.
#[verifier::external_body]
fn block_kinds(tag: &metaflac::Tag) -> (kinds: Vec<BlockKind>)
    ensures
        kinds@ == tag_blocks(*tag).map_values(|block: BlockView| kind_of(block)),
{
    tag.blocks().map(|block| match block.block_type() {
        metaflac::BlockType::StreamInfo => BlockKind::StreamInfo,
        metaflac::BlockType::Padding => BlockKind::Padding,
        metaflac::BlockType::Application => BlockKind::Application,
        metaflac::BlockType::SeekTable => BlockKind::SeekTable,
        metaflac::BlockType::VorbisComment => BlockKind::VorbisComment,
        metaflac::BlockType::CueSheet => BlockKind::CueSheet,
        metaflac::BlockType::Picture => BlockKind::Picture,
        metaflac::BlockType::Unknown(code) => BlockKind::Unknown(code),
    }).collect()
}

/// `Tag::remove_blocks` of the `metaflac` crate: the blocks of one kind are
/// taken out of a tag, and the others stay as they are.
#[verifier::external_body]
fn remove_blocks(tag: &mut metaflac::Tag, kind: BlockKind)
    ensures
        tag_blocks(*final(tag)) == tag_blocks(*old(tag)).filter(
            |block: BlockView| kind_of(block) != kind,
        ),
{
    tag.remove_blocks(match kind {
        BlockKind::StreamInfo => metaflac::BlockType::StreamInfo,
        BlockKind::Padding => metaflac::BlockType::Padding,
        BlockKind::Application => metaflac::BlockType::Application,
        BlockKind::SeekTable => metaflac::BlockType::SeekTable,
        BlockKind::VorbisComment => metaflac::BlockType::VorbisComment,
        BlockKind::CueSheet => metaflac::BlockType::CueSheet,
        BlockKind::Picture => metaflac::BlockType::Picture,
        BlockKind::Unknown(code) => metaflac::BlockType::Unknown(code),
    })
}

/// `Tag::vorbis_comments_mut` of the `metaflac` crate: a tag without a block for
/// comments gets an empty one, behind its other blocks.
#[verifier::external_body]
fn start_comments(tag: &mut metaflac::Tag)
    ensures
        tag_blocks(*final(tag)) == with_comments(tag_blocks(*old(tag))),
{
    tag.vorbis_comments_mut();
}

/// `VorbisComment::set` of the `metaflac` crate, on the block that
/// `Tag::vorbis_comments_mut` gives: the values under a key are replaced.
#[verifier::external_body]
fn set_comment(tag: &mut metaflac::Tag, key: String, values: Vec<String>)
    ensures
        tag_blocks(*final(tag)) == comment_set(
            with_comments(tag_blocks(*old(tag))),
            key@,
            texts(values@),
        ),
{
    tag.vorbis_comments_mut().set(key, values);
}

/// `Tag::get_vorbis` of the `metaflac` crate: the values under a key, for which
/// the case of ASCII letters in `key` does not count.
#[verifier::external_body]
fn comment_values(tag: &metaflac::Tag, key: &str) -> (values: Option<Vec<String>>)
    ensures
        match values {
            Some(values) => values_in(tag_blocks(*tag), key@) == Some(texts(values@)),
            None => values_in(tag_blocks(*tag), key@) is None,
        },
{
    tag.get_vorbis(key).map(|values| values.map(str::to_owned).collect())
}

/// `Tag::vorbis_comments` of the `metaflac` crate: the comments of a tag, each
/// key once with its values, in no particular order.
#[verifier::external_body]
fn all_comments(tag: &metaflac::Tag) -> (comments: Vec<(String, Vec<String>)>)
    ensures
        match comments_in(tag_blocks(*tag)) {
            Some(map) => holds_all(comments@, map),
            None => comments@.len() == 0,
        },
{
    match tag.vorbis_comments() {
        Some(vorbis) => vorbis.comments.clone().into_iter().collect(),
        None => Vec::new(),
    }
}

/// `Tag::get_streaminfo` of the `metaflac` crate: the sample rate and the number
/// of samples.
#[verifier::external_body]
fn stream_info(tag: &metaflac::Tag) -> (info: Option<(u32, u64)>)
    ensures
        info == (match stream_in(tag_blocks(*tag)) {
            Some(stream) => Some((stream.sample_rate, stream.total_samples)),
            None => None,
        }),
{
    tag.get_streaminfo().map(|info| (info.sample_rate, info.total_samples))
}

/// The values under `key` in some blocks, where the case of ASCII letters in
/// `key` does not count.
pub open spec fn values_in(blocks: Seq<BlockView>, key: Seq<char>) -> Option<Seq<Seq<char>>> {
    let upper = key.map_values(|c: char| ascii_upper(c));
    match comments_in(blocks) {
        Some(comments) => if comments.contains_key(upper) {
            Some(comments[upper])
        } else {
            None
        },
        None => None,
    }
}

/// Whether `comments` holds each entry of `map` once, and nothing else.
pub open spec fn holds_all(
    comments: Seq<(String, Vec<String>)>,
    map: Map<Seq<char>, Seq<Seq<char>>>,
) -> bool {
    &&& forall|i: int|
        0 <= i < comments.len() ==> map.contains_key((#[trigger] comments[i]).0@)
            && map[comments[i].0@] == texts(comments[i].1@)
    &&& forall|key: Seq<char>| #[trigger]
        map.contains_key(key) ==> exists|i: int|
            0 <= i < comments.len() && (#[trigger] comments[i]).0@ == key
    &&& forall|i: int, j: int|
        0 <= i < j < comments.len() ==> (#[trigger] comments[i]).0@ != (#[trigger] comments[j]).0@
}

/// The first of the values under `key` in some blocks.
pub open spec fn first_in(blocks: Seq<BlockView>, key: Seq<char>) -> Option<Seq<char>> {
    match values_in(blocks, key) {
        Some(values) if values.len() > 0 => Some(values[0]),
        _ => None,
    }
}

/// The first of the values under `key` in a tag.
pub fn first(tag: &metaflac::Tag, key: &str) -> (value: Option<String>)
    ensures
        maybe_text(value) == first_in(tag_blocks(*tag), key@),
{
    match comment_values(tag, key) {
        Some(values) => {
            let mut values = values;
            proof {
                if values@.len() > 0 {
                    assert(texts(values@)[0] == values@[0]@);
                }
            }
            if values.len() > 0 {
                Some(values.remove(0))
            } else {
                None
            }
        },
        None => None,
    }
}

/// A FLAC file: its path, its comments by their keys in upper case, and how
/// many seconds it lasts, where that is known.
pub struct Audio {
    pub path: FilePath,
    pub comments: Table<Vec<String>>,
    pub duration_secs: Option<u64>,
}

/// Whether `comments` are those of `source`, with their keys in upper case.
/// Where two keys are the same in upper case, the values are those of either.
pub open spec fn in_upper_case(
    source: Map<Seq<char>, Seq<Seq<char>>>,
    comments: Map<Seq<char>, Seq<Seq<char>>>,
) -> bool {
    &&& forall|key: Seq<char>| #[trigger]
        source.contains_key(key) ==> comments.contains_key(upper_case(key))
    &&& forall|upper: Seq<char>| #[trigger]
        comments.contains_key(upper) ==> exists|key: Seq<char>| #[trigger]
            source.contains_key(key) && upper_case(key) == upper && comments[upper] == source[key]
}

/// Whether `comments` are those of `source`, with each ASCII letter of their keys
/// in upper case, as far as the keys are ASCII.
pub open spec fn in_ascii_upper_case(
    source: Map<Seq<char>, Seq<Seq<char>>>,
    comments: Map<Seq<char>, Seq<Seq<char>>>,
) -> bool {
    &&& forall|key: Seq<char>| #[trigger]
        source.contains_key(key) && vstd::utf8::is_ascii_chars(key) ==> comments.contains_key(
            key.map_values(|c: char| ascii_upper(c)),
        )
    &&& (forall|key: Seq<char>| #[trigger]
        source.contains_key(key) ==> vstd::utf8::is_ascii_chars(key)) ==> forall|
        upper: Seq<char>,
    | #[trigger]
        comments.contains_key(upper) ==> exists|key: Seq<char>| #[trigger]
            source.contains_key(key) && key.map_values(|c: char| ascii_upper(c)) == upper
                && comments[upper] == source[key]
}

/// How many whole seconds a stream lasts.
pub open spec fn duration(stream: Option<StreamView>) -> Option<u64> {
    match stream {
        Some(stream) => if stream.sample_rate > 0 {
            Some((stream.total_samples / stream.sample_rate as u64) as u64)
        } else {
            None
        },
        None => None,
    }
}

/// The first of the values under `key`, where it is more than white space.
pub open spec fn first_value(
    comments: Map<Seq<char>, Seq<Seq<char>>>,
    key: Seq<char>,
) -> Option<Seq<char>> {
    if comments.contains_key(key) && comments[key].len() > 0 && !blank(comments[key][0]) {
        Some(comments[key][0])
    } else {
        None
    }
}

/// The number that the first of the values under `key` starts with.
pub open spec fn number_value(
    comments: Map<Seq<char>, Seq<Seq<char>>>,
    key: Seq<char>,
) -> Option<u16> {
    match first_value(comments, key) {
        Some(value) => leading_number(trimmed(value)),
        None => None,
    }
}

impl Audio {
    /// The comments by their keys.
    pub open spec fn tags(self) -> Map<Seq<char>, Seq<Seq<char>>> {
        lists(self.comments@)
    }

    /// A file from its metadata.
    pub fn open(path: FilePath, tag: &metaflac::Tag) -> (audio: Audio)
        ensures
            audio.path == path,
            audio.duration_secs == duration(stream_in(tag_blocks(*tag))),
            match comments_in(tag_blocks(*tag)) {
                Some(source) => in_upper_case(source, audio.tags()) && in_ascii_upper_case(
                    source,
                    audio.tags(),
                ),
                None => audio.tags() == Map::<Seq<char>, Seq<Seq<char>>>::empty(),
            },
    {
        let source = all_comments(tag);
        let comments = upper_keys(&source);
        let ghost audio_tags = lists(comments@);
        proof {
            match comments_in(tag_blocks(*tag)) {
                Some(map) => {
                    lemma_in_upper_case(source@, map);
                    lemma_in_ascii_upper_case(source@, map, audio_tags);
                },
                None => {
                    assert(upper_tags(tag_views(source@)).len() == 0);
                },
            }
        }
        let duration_secs = match stream_info(tag) {
            Some((rate, samples)) => if rate > 0 {
                Some(samples / rate as u64)
            } else {
                None
            },
            None => None,
        };
        Audio { path, comments, duration_secs }
    }

    /// The first of the values under `key`, where it is more than white space.
    pub fn first(&self, key: &str) -> (value: Option<String>)
        ensures
            maybe_text(value) == first_value(self.tags(), key@),
    {
        match self.comments.get(key) {
            Some(values) => {
                proof {
                    assert(self.tags()[key@] == texts(values@));
                    if values@.len() > 0 {
                        assert(texts(values@)[0] == values@[0]@);
                    }
                }
                if values.len() > 0 && !is_blank(values[0].as_str()) {
                    Some(values[0].clone())
                } else {
                    None
                }
            },
            None => None,
        }
    }

    /// The number that the first of the values under `key` starts with.
    pub fn number(&self, key: &str) -> (number: Option<u16>)
        ensures
            number == number_value(self.tags(), key@),
    {
        match self.first(key) {
            Some(value) => leading_number_of(trim(value.as_str()).as_str()),
            None => None,
        }
    }

    /// How the last part of the path reads, or the path where it has none.
    pub fn name(&self) -> (name: String)
        ensures
            name@ == name_of(self.path),
    {
        match &self.path.name {
            Some(name) => name.clone(),
            None => self.path.text.clone(),
        }
    }
}

/// A tag: its key and its values.
pub type TagView = (Seq<char>, Seq<Seq<char>>);

/// Some tags, by their characters.
pub open spec fn tag_views(tags: Seq<(String, Vec<String>)>) -> Seq<TagView> {
    tags.map_values(|tag: (String, Vec<String>)| (tag.0@, texts(tag.1@)))
}

/// Some tags by their keys: the later of two under one key.
pub open spec fn by_key(tags: Seq<TagView>) -> Map<Seq<char>, Seq<Seq<char>>>
    decreases tags.len(),
{
    if tags.len() == 0 {
        Map::empty()
    } else {
        by_key(tags.drop_last()).insert(tags.last().0, tags.last().1)
    }
}

/// Some tags by their keys: the later of two under one key.
pub fn tags_by_key(tags: &Vec<(String, Vec<String>)>) -> (table: Table<Vec<String>>)
    ensures
        lists(table@) == by_key(tag_views(tags@)),
{
    let ghost all = tag_views(tags@);
    let mut table: Table<Vec<String>> = Table::new();
    let mut n: usize = 0;
    proof {
        assert(lists(table@) =~= by_key(all.take(0)));
    }
    while n < tags.len()
        invariant
            n <= tags@.len(),
            all == tag_views(tags@),
            lists(table@) == by_key(all.take(n as int)),
        decreases tags@.len() - n,
    {
        let ghost before = lists(table@);
        table.insert(tags[n].0.clone(), copy_all(&tags[n].1));
        proof {
            assert(all.take(n + 1).drop_last() =~= all.take(n as int));
            assert(lists(table@) =~= before.insert(all[n as int].0, all[n as int].1));
        }
        n += 1;
    }
    proof {
        assert(all.take(n as int) =~= all);
    }
    table
}

/// Some tags with their keys in upper case.
pub open spec fn upper_tags(tags: Seq<TagView>) -> Seq<TagView> {
    tags.map_values(|tag: TagView| (upper_case(tag.0), tag.1))
}

/// Some comments by their keys in upper case, the later of two under one key.
pub fn upper_keys(source: &Vec<(String, Vec<String>)>) -> (comments: Table<Vec<String>>)
    ensures
        lists(comments@) == by_key(upper_tags(tag_views(source@))),
        forall|i: int|
            0 <= i < source@.len() && vstd::utf8::is_ascii_chars((#[trigger] source@[i]).0@)
                ==> upper_case(source@[i].0@) == source@[i].0@.map_values(|c: char| ascii_upper(c)),
{
    let ghost all = upper_tags(tag_views(source@));
    let mut tags: Vec<(String, Vec<String>)> = Vec::new();
    let mut n: usize = 0;
    proof {
        assert(tag_views(tags@) =~= all.take(0));
    }
    while n < source.len()
        invariant
            n <= source@.len(),
            all == upper_tags(tag_views(source@)),
            tag_views(tags@) == all.take(n as int),
            forall|i: int|
                0 <= i < n && vstd::utf8::is_ascii_chars((#[trigger] source@[i]).0@) ==> upper_case(
                    source@[i].0@,
                ) == source@[i].0@.map_values(|c: char| ascii_upper(c)),
        decreases source@.len() - n,
    {
        let ghost before = tag_views(tags@);
        let upper = to_upper(source[n].0.as_str());
        let values = copy_all(&source[n].1);
        tags.push((upper, values));
        n += 1;
        proof {
            assert(tag_views(tags@) =~= before.push(all[n - 1]));
            assert(tag_views(tags@) =~= all.take(n as int));
        }
    }
    proof {
        assert(all.take(n as int) =~= all);
    }
    tags_by_key(&tags)
}

proof fn lemma_by_key(tags: Seq<TagView>)
    ensures
        forall|i: int|
            0 <= i < tags.len() ==> by_key(tags).contains_key((#[trigger] tags[i]).0),
        forall|key: Seq<char>| #[trigger]
            by_key(tags).contains_key(key) ==> exists|i: int|
                0 <= i < tags.len() && (#[trigger] tags[i]).0 == key && by_key(tags)[key]
                    == tags[i].1,
    decreases tags.len(),
{
    if tags.len() > 0 {
        let front = tags.drop_last();
        let n = front.len() as int;
        lemma_by_key(front);
        assert forall|i: int| 0 <= i < tags.len() implies by_key(tags).contains_key(
            (#[trigger] tags[i]).0,
        ) by {
            if i < n {
                assert(by_key(front).contains_key(front[i].0));
            }
        }
        assert forall|key: Seq<char>| #[trigger] by_key(tags).contains_key(key) implies exists|
            i: int,
        |
            0 <= i < tags.len() && (#[trigger] tags[i]).0 == key && by_key(tags)[key]
                == tags[i].1 by {
            if key == tags[n].0 {
                assert(tags[n].0 == key);
            } else {
                assert(by_key(front).contains_key(key));
                let i = choose|i: int|
                    0 <= i < front.len() && (#[trigger] front[i]).0 == key && by_key(front)[key]
                        == front[i].1;
                assert(tags[i].0 == key);
            }
        }
    }
}

proof fn lemma_in_upper_case(
    source: Seq<(String, Vec<String>)>,
    map: Map<Seq<char>, Seq<Seq<char>>>,
)
    requires
        holds_all(source, map),
    ensures
        in_upper_case(map, by_key(upper_tags(tag_views(source)))),
{
    let tags = upper_tags(tag_views(source));
    let upper = by_key(tags);
    lemma_by_key(tags);
    assert forall|key: Seq<char>| #[trigger] map.contains_key(key) implies upper.contains_key(
        upper_case(key),
    ) by {
        let i = choose|i: int| 0 <= i < source.len() && (#[trigger] source[i]).0@ == key;
        assert(upper.contains_key(tags[i].0));
    }
    assert forall|found: Seq<char>| #[trigger] upper.contains_key(found) implies exists|
        key: Seq<char>,
    | #[trigger]
        map.contains_key(key) && upper_case(key) == found && upper[found] == map[key] by {
        let i = choose|i: int|
            0 <= i < tags.len() && (#[trigger] tags[i]).0 == found && upper[found] == tags[i].1;
        assert(map.contains_key(source[i].0@));
    }
}

proof fn lemma_in_ascii_upper_case(
    source: Seq<(String, Vec<String>)>,
    map: Map<Seq<char>, Seq<Seq<char>>>,
    comments: Map<Seq<char>, Seq<Seq<char>>>,
)
    requires
        holds_all(source, map),
        in_upper_case(map, comments),
        forall|i: int|
            0 <= i < source.len() && vstd::utf8::is_ascii_chars((#[trigger] source[i]).0@)
                ==> upper_case(source[i].0@) == source[i].0@.map_values(|c: char| ascii_upper(c)),
    ensures
        in_ascii_upper_case(map, comments),
{
    assert forall|key: Seq<char>| #[trigger]
        map.contains_key(key) && vstd::utf8::is_ascii_chars(key) implies upper_case(key)
        == key.map_values(|c: char| ascii_upper(c)) by {
        let i = choose|i: int| 0 <= i < source.len() && (#[trigger] source[i]).0@ == key;
        assert(vstd::utf8::is_ascii_chars(source[i].0@));
    }
    if forall|key: Seq<char>| #[trigger]
        map.contains_key(key) ==> vstd::utf8::is_ascii_chars(key) {
        assert forall|upper: Seq<char>| #[trigger] comments.contains_key(upper) implies exists|
            key: Seq<char>,
        | #[trigger]
            map.contains_key(key) && key.map_values(|c: char| ascii_upper(c)) == upper
                && comments[upper] == map[key] by {
            let key = choose|key: Seq<char>| #[trigger]
                map.contains_key(key) && upper_case(key) == upper && comments[upper] == map[key];
            assert(map.contains_key(key) && vstd::utf8::is_ascii_chars(key));
        }
    }
}

/// The blocks of a file that is tagged anew: those on the stream stay, and
/// behind them are the new comments; all others are dropped.
pub open spec fn rewritten(
    blocks: Seq<BlockView>,
    comments: Seq<TagView>,
) -> Seq<BlockView> {
    blocks.filter(|block: BlockView| kind_of(block) == BlockKind::StreamInfo).push(
        BlockView::VorbisComment(by_key(comments)),
    )
}

proof fn lemma_filter_twice<A>(
    s: Seq<A>,
    p: spec_fn(A) -> bool,
    q: spec_fn(A) -> bool,
    both: spec_fn(A) -> bool,
)
    requires
        forall|a: A| #[trigger] both(a) == (p(a) && q(a)),
    ensures
        s.filter(p).filter(q) == s.filter(both),
    decreases s.len(),
{
    reveal(Seq::filter);
    if s.len() > 0 {
        lemma_filter_twice(s.drop_last(), p, q, both);
        let a = s.last();
        assert(both(a) == (p(a) && q(a)));
        if p(a) {
            assert(s.drop_last().filter(p).push(a).drop_last() =~= s.drop_last().filter(p));
        }
    }
}

proof fn lemma_filter_same<A>(s: Seq<A>, p: spec_fn(A) -> bool, q: spec_fn(A) -> bool)
    requires
        forall|i: int| 0 <= i < s.len() ==> p(#[trigger] s[i]) == q(s[i]),
    ensures
        s.filter(p) == s.filter(q),
    decreases s.len(),
{
    reveal(Seq::filter);
    if s.len() > 0 {
        assert forall|i: int| 0 <= i < s.drop_last().len() implies p(
            #[trigger] s.drop_last()[i],
        ) == q(s.drop_last()[i]) by {
            assert(p(s[i]) == q(s[i]));
        }
        lemma_filter_same(s.drop_last(), p, q);
        assert(p(s[s.len() - 1]) == q(s[s.len() - 1]));
    }
}

proof fn lemma_no_comments(blocks: Seq<BlockView>)
    requires
        forall|i: int|
            0 <= i < blocks.len() ==> kind_of(#[trigger] blocks[i]) == BlockKind::StreamInfo,
    ensures
        comments_in(blocks) is None,
    decreases blocks.len(),
{
    if blocks.len() > 0 {
        assert(kind_of(blocks[0]) == BlockKind::StreamInfo);
        let rest = blocks.drop_first();
        assert forall|i: int| 0 <= i < rest.len() implies kind_of(#[trigger] rest[i])
            == BlockKind::StreamInfo by {
            assert(kind_of(blocks[i + 1]) == BlockKind::StreamInfo);
        }
        lemma_no_comments(rest);
    }
}

proof fn lemma_comment_set(
    streams: Seq<BlockView>,
    map: Map<Seq<char>, Seq<Seq<char>>>,
    key: Seq<char>,
    values: Seq<Seq<char>>,
)
    requires
        forall|i: int|
            0 <= i < streams.len() ==> kind_of(#[trigger] streams[i]) == BlockKind::StreamInfo,
    ensures
        comments_in(streams.push(BlockView::VorbisComment(map))) is Some,
        comment_set(streams.push(BlockView::VorbisComment(map)), key, values) == streams.push(
            BlockView::VorbisComment(map.insert(key, values)),
        ),
    decreases streams.len(),
{
    let blocks = streams.push(BlockView::VorbisComment(map));
    let after = streams.push(BlockView::VorbisComment(map.insert(key, values)));
    if streams.len() == 0 {
        assert(comment_set(blocks, key, values) =~= after);
    } else {
        assert(kind_of(streams[0]) == BlockKind::StreamInfo);
        let rest = streams.drop_first();
        assert forall|i: int| 0 <= i < rest.len() implies kind_of(#[trigger] rest[i])
            == BlockKind::StreamInfo by {
            assert(kind_of(streams[i + 1]) == BlockKind::StreamInfo);
        }
        lemma_comment_set(rest, map, key, values);
        assert(blocks.drop_first() =~= rest.push(BlockView::VorbisComment(map)));
        assert(after =~= seq![blocks[0]] + rest.push(
            BlockView::VorbisComment(map.insert(key, values)),
        ));
    }
}

/// Tags a file anew: everything but what describes the stream is dropped from
/// its metadata, and `comments` are put in.
pub fn rewrite(tag: &mut metaflac::Tag, comments: &Vec<(String, Vec<String>)>)
    ensures
        tag_blocks(*final(tag)) == rewritten(tag_blocks(*old(tag)), tag_views(comments@)),
{
    let ghost blocks = tag_blocks(*tag);
    let ghost stream = |block: BlockView| kind_of(block) == BlockKind::StreamInfo;
    let kinds = block_kinds(tag);
    let mut i: usize = 0;
    let ghost mut kept = |block: BlockView| true;
    proof {
        lemma_filter_all(blocks, kept);
    }
    while i < kinds.len()
        invariant
            i <= kinds@.len(),
            kinds@ == blocks.map_values(|block: BlockView| kind_of(block)),
            tag_blocks(*tag) == blocks.filter(kept),
            forall|block: BlockView| stream(block) ==> #[trigger] kept(block),
            forall|j: int, block: BlockView|
                #![trigger kinds@[j], kept(block)]
                0 <= j < i && kinds@[j] != BlockKind::StreamInfo && kind_of(block) == kinds@[j]
                    ==> !kept(block),
            stream == |block: BlockView| kind_of(block) == BlockKind::StreamInfo,
        decreases kinds@.len() - i,
    {
        let kind = kinds[i];
        if kind != BlockKind::StreamInfo {
            remove_blocks(tag, kind);
            proof {
                let was = kept;
                let now = |block: BlockView| was(block) && kind_of(block) != kind;
                lemma_filter_twice(blocks, was, |block: BlockView| kind_of(block) != kind, now);
                kept = now;
            }
        }
        i += 1;
    }
    proof {
        assert forall|j: int| 0 <= j < blocks.len() implies kept(#[trigger] blocks[j]) == stream(
            blocks[j],
        ) by {
            assert(kinds@[j] == kind_of(blocks[j]));
        }
        lemma_filter_same(blocks, kept, stream);
    }
    let ghost streams = blocks.filter(stream);
    proof {
        assert forall|j: int| 0 <= j < streams.len() implies kind_of(#[trigger] streams[j])
            == BlockKind::StreamInfo by {
            blocks.lemma_filter_pred(stream, j);
        }
        lemma_no_comments(streams);
    }
    start_comments(tag);
    let ghost all = tag_views(comments@);
    let mut n: usize = 0;
    proof {
        assert(by_key(all.take(0)) =~= Map::empty());
    }
    while n < comments.len()
        invariant
            n <= comments@.len(),
            all == tag_views(comments@),
            forall|j: int|
                0 <= j < streams.len() ==> kind_of(#[trigger] streams[j])
                    == BlockKind::StreamInfo,
            tag_blocks(*tag) == streams.push(
                BlockView::VorbisComment(by_key(all.take(n as int))),
            ),
        decreases comments@.len() - n,
    {
        let key = comments[n].0.clone();
        let values = copy_all(&comments[n].1);
        proof {
            assert(all.take(n + 1).drop_last() =~= all.take(n as int));
            lemma_comment_set(
                streams,
                by_key(all.take(n as int)),
                key@,
                texts(values@),
            );
        }
        set_comment(tag, key, values);
        n += 1;
    }
    proof {
        assert(all.take(n as int) =~= all);
    }
}

proof fn lemma_filter_all<A>(s: Seq<A>, p: spec_fn(A) -> bool)
    requires
        forall|a: A| #[trigger] p(a),
    ensures
        s.filter(p) == s,
    decreases s.len(),
{
    reveal(Seq::filter);
    if s.len() > 0 {
        lemma_filter_all(s.drop_last(), p);
        assert(p(s.last()));
        assert(s.drop_last().push(s.last()) =~= s);
    }
}

proof fn lemma_comments_behind_streams(
    streams: Seq<BlockView>,
    map: Map<Seq<char>, Seq<Seq<char>>>,
)
    requires
        forall|i: int|
            0 <= i < streams.len() ==> kind_of(#[trigger] streams[i]) == BlockKind::StreamInfo,
    ensures
        comments_in(streams.push(BlockView::VorbisComment(map))) == Some(map),
        stream_in(streams.push(BlockView::VorbisComment(map))) == stream_in(streams),
    decreases streams.len(),
{
    reveal_with_fuel(stream_in, 2);
    let blocks = streams.push(BlockView::VorbisComment(map));
    if streams.len() > 0 {
        assert(kind_of(streams[0]) == BlockKind::StreamInfo);
        let rest = streams.drop_first();
        assert forall|i: int| 0 <= i < rest.len() implies kind_of(#[trigger] rest[i])
            == BlockKind::StreamInfo by {
            assert(kind_of(streams[i + 1]) == BlockKind::StreamInfo);
        }
        lemma_comments_behind_streams(rest, map);
        assert(blocks.drop_first() =~= rest.push(BlockView::VorbisComment(map)));
    }
}

proof fn lemma_stream_kept(blocks: Seq<BlockView>)
    ensures
        stream_in(blocks.filter(|block: BlockView| kind_of(block) == BlockKind::StreamInfo))
            == stream_in(blocks),
    decreases blocks.len(),
{
    let stream = |block: BlockView| kind_of(block) == BlockKind::StreamInfo;
    reveal(Seq::filter);
    if blocks.len() > 0 {
        let rest = blocks.drop_first();
        lemma_stream_kept(rest);
        assert(blocks =~= seq![blocks[0]] + rest);
        Seq::filter_distributes_over_add(seq![blocks[0]], rest, stream);
        let first = seq![blocks[0]].filter(stream);
        assert(seq![blocks[0]].drop_last() =~= seq![]);
        reveal_with_fuel(Seq::filter, 2);
        if stream(blocks[0]) {
            assert(first =~= seq![blocks[0]]);
            assert(blocks.filter(stream).drop_first() =~= rest.filter(stream));
        } else {
            assert(first =~= seq![]);
            assert(blocks.filter(stream) =~= rest.filter(stream));
        }
    }
}

/// Existing metadata is replaced, not merged: what a file says of its stream
/// stays whole, its comments are the new ones and no others, and no block of another
/// kind is left. What is read under a key afterwards is what was written there.
/// Tagging it once more leaves nothing of the first time.
pub proof fn rewriting_replaces(
    blocks: Seq<BlockView>,
    comments: Seq<TagView>,
    others: Seq<TagView>,
)
    ensures
        comments_in(rewritten(blocks, comments)) == Some(by_key(comments)),
        stream_in(rewritten(blocks, comments)) == stream_in(blocks),
        rewritten(blocks, comments).drop_last() == blocks.filter(
            |block: BlockView| kind_of(block) == BlockKind::StreamInfo,
        ),
        forall|i: int|
            0 <= i < rewritten(blocks, comments).len() - 1 ==> kind_of(
                #[trigger] rewritten(blocks, comments)[i],
            ) == BlockKind::StreamInfo,
        rewritten(rewritten(blocks, comments), others) == rewritten(blocks, others),
        forall|key: Seq<char>| #[trigger]
            values_in(rewritten(blocks, comments), key) == {
                let upper = key.map_values(|c: char| ascii_upper(c));
                if by_key(comments).contains_key(upper) {
                    Some(by_key(comments)[upper])
                } else {
                    None
                }
            },
{
    let stream = |block: BlockView| kind_of(block) == BlockKind::StreamInfo;
    let streams = blocks.filter(stream);
    assert forall|i: int| 0 <= i < streams.len() implies kind_of(#[trigger] streams[i])
        == BlockKind::StreamInfo by {
        blocks.lemma_filter_pred(stream, i);
    }
    lemma_comments_behind_streams(streams, by_key(comments));
    lemma_stream_kept(blocks);
    let after = rewritten(blocks, comments);
    lemma_filter_twice(blocks, stream, stream, stream);
    reveal(Seq::filter);
    assert(after.drop_last() =~= streams);
    assert(after.filter(stream) == streams);
}

/// What a file says of itself: the barcode of its album, its ISRC, and the name
/// and artist of its album.
pub struct Labels {
    pub upc: Option<String>,
    pub isrc: Option<String>,
    pub album: Option<String>,
    pub artist: Option<String>,
}

/// What a file says of itself, by its characters.
pub struct LabelsView {
    pub upc: Option<Seq<char>>,
    pub isrc: Option<Seq<char>>,
    pub album: Option<Seq<char>>,
    pub artist: Option<Seq<char>>,
}

impl View for Labels {
    type V = LabelsView;

    open spec fn view(&self) -> LabelsView {
        LabelsView {
            upc: maybe_text(self.upc),
            isrc: maybe_text(self.isrc),
            album: maybe_text(self.album),
            artist: maybe_text(self.artist),
        }
    }
}

/// The first of the values under `key`, or else under `other`.
pub open spec fn first_of_either(
    blocks: Seq<BlockView>,
    key: Seq<char>,
    other: Seq<char>,
) -> Option<Seq<char>> {
    match first_in(blocks, key) {
        Some(value) => Some(value),
        None => first_in(blocks, other),
    }
}

/// What some blocks of metadata say of their file.
pub open spec fn labels_in(blocks: Seq<BlockView>) -> LabelsView {
    LabelsView {
        upc: first_of_either(blocks, "BARCODE"@, "UPC"@),
        isrc: first_in(blocks, "ISRC"@),
        album: first_in(blocks, "ALBUM"@),
        artist: first_of_either(blocks, "ALBUMARTIST"@, "ARTIST"@),
    }
}

/// What the metadata of a file says of it.
pub fn labels(tag: &metaflac::Tag) -> (labels: Labels)
    ensures
        labels@ == labels_in(tag_blocks(*tag)),
{
    let upc = match first(tag, "BARCODE") {
        Some(value) => Some(value),
        None => first(tag, "UPC"),
    };
    let artist = match first(tag, "ALBUMARTIST") {
        Some(value) => Some(value),
        None => first(tag, "ARTIST"),
    };
    Labels { upc, isrc: first(tag, "ISRC"), album: first(tag, "ALBUM"), artist }
}

/// The files of one album: each under its ISRC, and the name and artist of the
/// album, as the files give them.
pub struct Group {
    pub songs: Table<FilePath>,
    pub album: Option<String>,
    pub artist: Option<String>,
}

/// The files of one album, by the characters of what they say.
pub struct GroupView {
    pub songs: Map<Seq<char>, FilePath>,
    pub album: Option<Seq<char>>,
    pub artist: Option<Seq<char>>,
}

impl View for Group {
    type V = GroupView;

    open spec fn view(&self) -> GroupView {
        GroupView {
            songs: self.songs@,
            album: maybe_text(self.album),
            artist: maybe_text(self.artist),
        }
    }
}

/// A file that is left out, and why: it has no barcode, or no ISRC, or another
/// file took its place under the ISRC of both.
pub enum Skipped {
    NoBarcode(FilePath),
    NoIsrc(FilePath),
    DuplicateIsrc(FilePath, String),
}

/// A file that is left out, by the characters of its ISRC.
pub enum SkippedView {
    NoBarcode(FilePath),
    NoIsrc(FilePath),
    DuplicateIsrc(FilePath, Seq<char>),
}

impl View for Skipped {
    type V = SkippedView;

    open spec fn view(&self) -> SkippedView {
        match *self {
            Skipped::NoBarcode(file) => SkippedView::NoBarcode(file),
            Skipped::NoIsrc(file) => SkippedView::NoIsrc(file),
            Skipped::DuplicateIsrc(file, isrc) => SkippedView::DuplicateIsrc(file, isrc@),
        }
    }
}

/// The files of a run: those of each album under its barcode, and those that
/// are left out.
pub struct Collected {
    pub albums: Table<Group>,
    pub skipped: Vec<Skipped>,
}

/// The files of a run, by the characters of what they say.
pub struct CollectedView {
    pub albums: Map<Seq<char>, GroupView>,
    pub skipped: Seq<SkippedView>,
}

impl View for Collected {
    type V = CollectedView;

    open spec fn view(&self) -> CollectedView {
        CollectedView {
            albums: self.albums@.map_values(|group: Group| group@),
            skipped: self.skipped@.map_values(|skipped: Skipped| skipped@),
        }
    }
}

/// Nothing collected.
pub open spec fn nothing_collected() -> CollectedView {
    CollectedView { albums: Map::empty(), skipped: seq![] }
}

/// A group without files.
pub open spec fn empty_group() -> GroupView {
    GroupView { songs: Map::empty(), album: None, artist: None }
}

/// The group under a barcode, which is empty where there is none yet.
pub open spec fn group_under(albums: Map<Seq<char>, GroupView>, upc: Seq<char>) -> GroupView {
    if albums.contains_key(upc) {
        albums[upc]
    } else {
        empty_group()
    }
}

/// A group with one more file in it. What an earlier file said of the name and
/// artist of the album stands.
pub open spec fn joined_by(
    group: GroupView,
    file: FilePath,
    isrc: Seq<char>,
    labels: LabelsView,
) -> GroupView {
    GroupView {
        songs: group.songs.insert(isrc, file),
        album: match group.album {
            Some(album) => Some(album),
            None => labels.album,
        },
        artist: match group.artist {
            Some(artist) => Some(artist),
            None => labels.artist,
        },
    }
}

/// `collected` with one more file in it.
pub open spec fn filed(
    collected: CollectedView,
    file: FilePath,
    labels: LabelsView,
) -> CollectedView {
    match (labels.upc, labels.isrc) {
        (None, _) => CollectedView {
            albums: collected.albums,
            skipped: collected.skipped.push(SkippedView::NoBarcode(file)),
        },
        (Some(_), None) => CollectedView {
            albums: collected.albums,
            skipped: collected.skipped.push(SkippedView::NoIsrc(file)),
        },
        (Some(upc), Some(isrc)) => {
            let group = group_under(collected.albums, upc);
            CollectedView {
                albums: collected.albums.insert(upc, joined_by(group, file, isrc, labels)),
                skipped: if group.songs.contains_key(isrc) {
                    collected.skipped.push(SkippedView::DuplicateIsrc(group.songs[isrc], isrc))
                } else {
                    collected.skipped
                },
            }
        },
    }
}

/// Some files, one after the other, with what they say of themselves.
pub open spec fn filed_all(files: Seq<(FilePath, LabelsView)>) -> CollectedView
    decreases files.len(),
{
    if files.len() == 0 {
        nothing_collected()
    } else {
        filed(filed_all(files.drop_last()), files.last().0, files.last().1)
    }
}

/// Some files with what they say of themselves, by its characters.
pub open spec fn labelled(files: Seq<(FilePath, Labels)>) -> Seq<(FilePath, LabelsView)> {
    files.map_values(|entry: (FilePath, Labels)| (entry.0, entry.1@))
}

impl Default for Collected {
    /// Nothing collected.
    fn default() -> (collected: Self)
        ensures
            collected@ == nothing_collected(),
    {
        let collected = Collected { albums: Table::new(), skipped: Vec::new() };
        proof {
            assert(collected@.albums =~= Map::<Seq<char>, GroupView>::empty());
            assert(collected@.skipped =~= seq![]);
        }
        collected
    }
}

impl Collected {
    fn skip(&mut self, skipped: Skipped)
        ensures
            final(self)@.albums == old(self)@.albums,
            final(self)@.skipped == old(self)@.skipped.push(skipped@),
    {
        let ghost before = self@.skipped;
        self.skipped.push(skipped);
        proof {
            assert(self@.skipped =~= before.push(skipped@));
        }
    }

    /// Takes in one more file, by what it says of itself.
    pub fn file(&mut self, file: FilePath, labels: Labels)
        ensures
            final(self)@ == filed(old(self)@, file, labels@),
    {
        let ghost before = self@;
        let ghost groups = self.albums@;
        let upc = match labels.upc {
            Some(upc) => upc,
            None => {
                self.skip(Skipped::NoBarcode(file));
                return;
            },
        };
        let isrc = match labels.isrc {
            Some(isrc) => isrc,
            None => {
                self.skip(Skipped::NoIsrc(file));
                return;
            },
        };
        let mut group = match self.albums.remove(upc.as_str()) {
            Some(group) => group,
            None => Group { songs: Table::new(), album: None, artist: None },
        };
        let ghost earlier = group_under(before.albums, upc@);
        proof {
            assert(group@ == earlier);
        }
        if group.album.is_none() {
            group.album = labels.album;
        }
        if group.artist.is_none() {
            group.artist = labels.artist;
        }
        let replaced = group.songs.insert(isrc.clone(), file);
        let ghost after = group@;
        let ghost taken = group;
        let ghost key = upc@;
        self.albums.insert(upc, group);
        proof {
            assert(self.albums@ =~= groups.insert(key, taken));
            assert(self@.albums =~= before.albums.insert(key, after));
        }
        if let Some(replaced) = replaced {
            self.skip(Skipped::DuplicateIsrc(replaced, isrc));
        }
    }
}

/// Takes in some files, one after the other, by what they say of themselves.
pub fn collect(files: Vec<(FilePath, Labels)>) -> (collected: Collected)
    ensures
        collected@ == filed_all(labelled(files@)),
{
    let ghost all = files@;
    let mut collected = Collected::default();
    proof {
        assert(labelled(all.take(0)) =~= seq![]);
    }
    for entry in it: files
        invariant
            it.seq() == all,
            collected@ == filed_all(labelled(all.take(it.index() as int))),
    {
        proof {
            let next = labelled(all.take(it.index() + 1));
            assert(next.drop_last() =~= labelled(all.take(it.index() as int)));
            assert(next.last() == (entry.0, entry.1@));
        }
        let (file, labels) = entry;
        collected.file(file, labels);
    }
    proof {
        assert(all.take(all.len() as int) =~= all);
    }
    collected
}

/// Whether a file is in one of the groups, or among those left out.
pub open spec fn accounted_for(collected: CollectedView, file: FilePath) -> bool {
    ||| exists|upc: Seq<char>, isrc: Seq<char>|
        collected.albums.contains_key(upc) && collected.albums[upc].songs.contains_key(isrc)
            && #[trigger] collected.albums[upc].songs[isrc] == file
    ||| exists|i: int| 0 <= i < collected.skipped.len() && left_out(#[trigger] collected.skipped[i])
        == file
}

/// The file that is left out.
pub open spec fn left_out(skipped: SkippedView) -> FilePath {
    match skipped {
        SkippedView::NoBarcode(file) => file,
        SkippedView::NoIsrc(file) => file,
        SkippedView::DuplicateIsrc(file, _) => file,
    }
}

proof fn lemma_filed_keeps(
    collected: CollectedView,
    file: FilePath,
    labels: LabelsView,
    other: FilePath,
)
    requires
        accounted_for(collected, other),
    ensures
        accounted_for(filed(collected, file, labels), other),
{
    let after = filed(collected, file, labels);
    if exists|i: int|
        0 <= i < collected.skipped.len() && left_out(#[trigger] collected.skipped[i]) == other {
        let i = choose|i: int|
            0 <= i < collected.skipped.len() && left_out(#[trigger] collected.skipped[i]) == other;
        assert(after.skipped[i] == collected.skipped[i]);
    } else {
        let (u, s) = choose|upc: Seq<char>, isrc: Seq<char>|
            collected.albums.contains_key(upc) && collected.albums[upc].songs.contains_key(isrc)
                && #[trigger] collected.albums[upc].songs[isrc] == other;
        if labels.upc == Some(u) && labels.isrc == Some(s) {
            assert(after.skipped[collected.skipped.len() as int] == SkippedView::DuplicateIsrc(
                other,
                s,
            ));
        } else {
            assert(after.albums[u].songs[s] == other);
        }
    }
}

/// No file is lost: each one that is collected is in one of the groups, or
/// among those that are left out.
pub proof fn no_file_is_lost(files: Seq<(FilePath, LabelsView)>, i: int)
    requires
        0 <= i < files.len(),
    ensures
        accounted_for(filed_all(files), files[i].0),
    decreases files.len(),
{
    let before = filed_all(files.drop_last());
    let (file, labels) = files.last();
    if i < files.len() - 1 {
        no_file_is_lost(files.drop_last(), i);
        lemma_filed_keeps(before, file, labels, files[i].0);
    } else {
        let after = filed(before, file, labels);
        match (labels.upc, labels.isrc) {
            (Some(upc), Some(isrc)) => {
                assert(after.albums[upc].songs[isrc] == file);
            },
            _ => {
                assert(left_out(after.skipped[before.skipped.len() as int]) == file);
            },
        }
    }
}

/// What is missing is reported: each file without a barcode, and each with a
/// barcode but without an ISRC, is left out for that reason.
pub proof fn missing_codes_are_reported(files: Seq<(FilePath, LabelsView)>, i: int)
    requires
        0 <= i < files.len(),
    ensures
        files[i].1.upc is None ==> filed_all(files).skipped.contains(
            SkippedView::NoBarcode(files[i].0),
        ),
        files[i].1.upc is Some && files[i].1.isrc is None ==> filed_all(files).skipped.contains(
            SkippedView::NoIsrc(files[i].0),
        ),
    decreases files.len(),
{
    let before = filed_all(files.drop_last()).skipped;
    let after = filed_all(files).skipped;
    let reason = if files[i].1.upc is None {
        SkippedView::NoBarcode(files[i].0)
    } else {
        SkippedView::NoIsrc(files[i].0)
    };
    if files[i].1.upc is None || files[i].1.isrc is None {
        if i < files.len() - 1 {
            missing_codes_are_reported(files.drop_last(), i);
            let k = choose|k: int| 0 <= k < before.len() && before[k] == reason;
            assert(after[k] == reason);
        } else {
            assert(after[before.len() as int] == reason);
        }
    }
}

/// Whether a file carries a barcode and an ISRC.
pub open spec fn carries(labels: LabelsView, upc: Seq<char>, isrc: Seq<char>) -> bool {
    labels.upc == Some(upc) && labels.isrc == Some(isrc)
}

/// A group is one album: under a barcode and an ISRC there is a file just where
/// one carries both, and it is the last of those that do.
pub proof fn groups_go_by_barcode_and_isrc(
    files: Seq<(FilePath, LabelsView)>,
    upc: Seq<char>,
    isrc: Seq<char>,
)
    ensures
        ({
            let albums = filed_all(files).albums;
            let present = albums.contains_key(upc) && albums[upc].songs.contains_key(isrc);
            &&& present <==> exists|i: int|
                0 <= i < files.len() && carries((#[trigger] files[i]).1, upc, isrc)
            &&& present ==> exists|i: int|
                0 <= i < files.len() && carries((#[trigger] files[i]).1, upc, isrc)
                    && albums[upc].songs[isrc] == files[i].0 && forall|j: int|
                    i < j < files.len() ==> !carries((#[trigger] files[j]).1, upc, isrc)
        }),
    decreases files.len(),
{
    if files.len() > 0 {
        let front = files.drop_last();
        let n = front.len() as int;
        groups_go_by_barcode_and_isrc(front, upc, isrc);
        let before = filed_all(front).albums;
        let albums = filed_all(files).albums;
        let labels = files.last().1;
        let was = before.contains_key(upc) && before[upc].songs.contains_key(isrc);
        let present = albums.contains_key(upc) && albums[upc].songs.contains_key(isrc);
        if carries(labels, upc, isrc) {
            assert(carries(files[n].1, upc, isrc));
            assert(albums[upc].songs[isrc] == files[n].0);
        } else {
            assert(present == was);
            if present {
                assert(albums[upc].songs[isrc] == before[upc].songs[isrc]);
                let i = choose|i: int|
                    0 <= i < front.len() && carries((#[trigger] front[i]).1, upc, isrc)
                        && before[upc].songs[isrc] == front[i].0 && forall|j: int|
                        i < j < front.len() ==> !carries((#[trigger] front[j]).1, upc, isrc);
                assert(carries(files[i].1, upc, isrc));
                assert forall|j: int| i < j < files.len() implies !carries(
                    (#[trigger] files[j]).1,
                    upc,
                    isrc,
                ) by {
                    if j < n {
                        assert(!carries(front[j].1, upc, isrc));
                    }
                }
            } else {
                assert forall|i: int| 0 <= i < files.len() implies !carries(
                    (#[trigger] files[i]).1,
                    upc,
                    isrc,
                ) by {
                    if i < n {
                        assert(!carries(front[i].1, upc, isrc));
                    }
                }
            }
        }
    }
}

/// Whether a file is put into the group under a barcode.
pub open spec fn belongs(labels: LabelsView, upc: Seq<char>) -> bool {
    labels.upc == Some(upc) && labels.isrc is Some
}

/// The first name that some files of a group give, where `name` picks it from
/// what a file says of itself.
pub open spec fn first_named(
    files: Seq<(FilePath, LabelsView)>,
    upc: Seq<char>,
    name: spec_fn(LabelsView) -> Option<Seq<char>>,
) -> Option<Seq<char>>
    decreases files.len(),
{
    if files.len() == 0 {
        None
    } else {
        match first_named(files.drop_last(), upc, name) {
            Some(found) => Some(found),
            None => if belongs(files.last().1, upc) {
                name(files.last().1)
            } else {
                None
            },
        }
    }
}

/// The album and the artist of a group are those that the first of its files
/// gives that gives any.
pub proof fn groups_are_called_as_their_first_files_say(
    files: Seq<(FilePath, LabelsView)>,
    upc: Seq<char>,
)
    ensures
        group_under(filed_all(files).albums, upc).album == first_named(
            files,
            upc,
            |labels: LabelsView| labels.album,
        ),
        group_under(filed_all(files).albums, upc).artist == first_named(
            files,
            upc,
            |labels: LabelsView| labels.artist,
        ),
    decreases files.len(),
{
    if files.len() > 0 {
        groups_are_called_as_their_first_files_say(files.drop_last(), upc);
    }
}

/// A file that another takes the place of is reported as a duplicate, with the
/// ISRC of both.
pub proof fn replaced_files_are_reported(
    files: Seq<(FilePath, LabelsView)>,
    upc: Seq<char>,
    isrc: Seq<char>,
    i: int,
    j: int,
)
    requires
        0 <= i < j < files.len(),
        carries(files[i].1, upc, isrc),
        carries(files[j].1, upc, isrc),
    ensures
        filed_all(files).skipped.contains(SkippedView::DuplicateIsrc(files[i].0, isrc)),
    decreases files.len(),
{
    let front = files.drop_last();
    let n = front.len() as int;
    let before = filed_all(front);
    let after = filed_all(files);
    let reason = SkippedView::DuplicateIsrc(files[i].0, isrc);
    if exists|k: int| i < k < n && carries((#[trigger] front[k]).1, upc, isrc) {
        let k = choose|k: int| i < k < n && carries((#[trigger] front[k]).1, upc, isrc);
        replaced_files_are_reported(front, upc, isrc, i, k);
        let at = choose|at: int| 0 <= at < before.skipped.len() && before.skipped[at] == reason;
        assert(after.skipped[at] == reason);
    } else {
        if j < n {
            assert(carries(front[j].1, upc, isrc));
        }
        assert(j == n);
        assert(carries(front[i].1, upc, isrc));
        groups_go_by_barcode_and_isrc(front, upc, isrc);
        let k = choose|k: int|
            0 <= k < front.len() && carries((#[trigger] front[k]).1, upc, isrc)
                && before.albums[upc].songs[isrc] == front[k].0 && forall|m: int|
                k < m < front.len() ==> !carries((#[trigger] front[m]).1, upc, isrc);
        if k < i {
            assert(!carries(front[i].1, upc, isrc));
        }
        assert(k == i);
        assert(after.skipped[before.skipped.len() as int] == reason);
    }
}

/// Whether there is a file under a barcode and an ISRC.
pub open spec fn held(collected: CollectedView, upc: Seq<char>, isrc: Seq<char>) -> bool {
    collected.albums.contains_key(upc) && collected.albums[upc].songs.contains_key(isrc)
}

/// Whether no file is accounted for twice: in two groups or under two ISRCs, left
/// out twice, or in a group and left out.
pub open spec fn none_twice(collected: CollectedView) -> bool {
    &&& forall|u: Seq<char>, s: Seq<char>, v: Seq<char>, t: Seq<char>| #[trigger]
        held(collected, u, s) && #[trigger] held(collected, v, t) && collected.albums[u].songs[s]
            == collected.albums[v].songs[t] ==> u == v && s == t
    &&& forall|i: int, j: int|
        0 <= i < j < collected.skipped.len() ==> left_out(#[trigger] collected.skipped[i])
            != left_out(#[trigger] collected.skipped[j])
    &&& forall|u: Seq<char>, s: Seq<char>, i: int| #[trigger]
        held(collected, u, s) && 0 <= i < collected.skipped.len()
            ==> collected.albums[u].songs[s] != left_out(#[trigger] collected.skipped[i])
}

/// Whether every file that is accounted for is one of some files.
pub open spec fn only_these(
    collected: CollectedView,
    files: Seq<(FilePath, LabelsView)>,
) -> bool {
    &&& forall|u: Seq<char>, s: Seq<char>| #[trigger]
        held(collected, u, s) ==> among(files, collected.albums[u].songs[s])
    &&& forall|i: int|
        0 <= i < collected.skipped.len() ==> among(
            files,
            left_out(#[trigger] collected.skipped[i]),
        )
}

/// Whether a file is one of some files.
pub open spec fn among(files: Seq<(FilePath, LabelsView)>, file: FilePath) -> bool {
    exists|i: int| 0 <= i < files.len() && (#[trigger] files[i]).0 == file
}

/// Each file is accounted for once: where all files differ, none of them is in
/// the groups or among those left out more than once, and no other file is.
pub proof fn each_file_is_accounted_for_once(files: Seq<(FilePath, LabelsView)>)
    requires
        forall|i: int, j: int|
            0 <= i < j < files.len() ==> (#[trigger] files[i]).0 != (#[trigger] files[j]).0,
    ensures
        none_twice(filed_all(files)),
        only_these(filed_all(files), files),
        forall|i: int|
            0 <= i < files.len() ==> accounted_for(filed_all(files), (#[trigger] files[i]).0),
    decreases files.len(),
{
    assert forall|i: int| 0 <= i < files.len() implies accounted_for(
        filed_all(files),
        (#[trigger] files[i]).0,
    ) by {
        no_file_is_lost(files, i);
    }
    if files.len() > 0 {
        let front = files.drop_last();
        let n = front.len() as int;
        each_file_is_accounted_for_once(front);
        let before = filed_all(front);
        let after = filed_all(files);
        let (file, labels) = files.last();
        assert forall|other: FilePath| among(front, other) implies among(files, other) && other
            != file by {
            let i = choose|i: int| 0 <= i < front.len() && (#[trigger] front[i]).0 == other;
            assert(files[i].0 == other);
            assert(files[i].0 != files[n].0);
        }
        assert(files[n].0 == file);
        assert(among(files, file));
        assert forall|u: Seq<char>, s: Seq<char>| #[trigger] held(after, u, s) implies (if carries(
            labels,
            u,
            s,
        ) {
            after.albums[u].songs[s] == file
        } else {
            held(before, u, s) && after.albums[u].songs[s] == before.albums[u].songs[s]
        }) by {}
        let m = before.skipped.len() as int;
        assert forall|i: int| 0 <= i < m implies #[trigger] after.skipped[i]
            == before.skipped[i] by {}
        if after.skipped.len() > m {
            let last = left_out(after.skipped[m]);
            match (labels.upc, labels.isrc) {
                (Some(upc), Some(isrc)) => {
                    assert(held(before, upc, isrc));
                    assert(last == before.albums[upc].songs[isrc]);
                    assert(among(front, last));
                },
                _ => {
                    assert(last == file);
                },
            }
        }
        assert forall|i: int, j: int| 0 <= i < j < after.skipped.len() implies left_out(
            #[trigger] after.skipped[i],
        ) != left_out(#[trigger] after.skipped[j]) by {
            assert(after.skipped[i] == before.skipped[i]);
            assert(among(front, left_out(before.skipped[i])));
            if j < m {
                assert(after.skipped[j] == before.skipped[j]);
            }
        }
        assert forall|u: Seq<char>, s: Seq<char>, i: int| #[trigger]
            held(after, u, s) && 0 <= i < after.skipped.len() implies after.albums[u].songs[s]
            != left_out(#[trigger] after.skipped[i]) by {
            if i < m {
                assert(after.skipped[i] == before.skipped[i]);
                assert(among(front, left_out(before.skipped[i])));
            }
        }
        assert(none_twice(after));
        assert(only_these(after, files));
    }
}

/// A file is taken for a FLAC file by its extension alone: what stands behind the
/// last dot is `flac`, in any case, and something stands before the dot.
pub proof fn flac_files_go_by_their_extension(stem: Seq<char>, extension: Seq<char>)
    requires
        !extension.contains('.'),
    ensures
        flac_name(stem.push('.') + extension) <==> stem.len() > 0 && same_but_for_case(
            extension,
            seq!['f', 'l', 'a', 'c'],
        ),
        !flac_name(extension),
{
    reveal_strlit("flac");
    assert("flac"@ =~= seq!['f', 'l', 'a', 'c']);
    let name = stem.push('.') + extension;
    let n = stem.len() as int;
    if extension.len() == 4 {
        assert(name.skip(name.len() - 4) =~= extension);
        assert(name[name.len() - 5] == '.');
    } else if flac_name(name) {
        let at = name.len() - 5;
        if at > n {
            assert(extension[at - n - 1] == '.');
        } else {
            let end = name.skip(name.len() - 4);
            assert(end[n - at - 1] == '.');
            assert(ascii_lower(end[n - at - 1]) == ascii_lower("flac"@[n - at - 1]));
        }
    }
    if flac_name(extension) {
        assert(extension[extension.len() - 5] == '.');
    }
}

/// A file lasts as many whole seconds as its samples fill at their rate; where the
/// rate is not known, neither is that.
pub proof fn files_last_as_long_as_their_samples(stream: StreamView)
    ensures
        stream.sample_rate == 0 ==> duration(Some(stream)) is None,
        stream.sample_rate > 0 ==> (duration(Some(stream)) matches Some(secs) && secs
            * stream.sample_rate <= stream.total_samples < (secs + 1) * stream.sample_rate),
        duration(None) is None,
{
    let rate = stream.sample_rate as int;
    let total = stream.total_samples as int;
    if rate > 0 {
        let secs = total / rate;
        vstd::arithmetic::div_mod::lemma_fundamental_div_mod(total, rate);
        vstd::arithmetic::div_mod::lemma_div_is_ordered_by_denominator(total, 1, rate);
        assert(0 <= total % rate < rate);
        assert(rate * secs == secs * rate) by (nonlinear_arith);
        assert((secs + 1) * rate == secs * rate + rate) by (nonlinear_arith);
        assert(0 <= secs <= total) by (nonlinear_arith)
            requires
                rate > 0,
                total >= 0,
                secs == total / rate,
        ;
        assert((stream.total_samples / stream.sample_rate as u64) as int == secs);
    }
}

/// The first of the values under a key counts, as it stands there, unless it is
/// blank; and the number that it starts with is what stands before the first
/// character that is no digit, whatever white space is around it.
pub proof fn first_values_count(
    comments: Map<Seq<char>, Seq<Seq<char>>>,
    key: Seq<char>,
    n: nat,
    rest: Seq<char>,
)
    requires
        rest.len() > 0 ==> !ascii_digit(rest[0]),
    ensures
        !comments.contains_key(key) ==> first_value(comments, key) is None && number_value(
            comments,
            key,
        ) is None,
        comments.contains_key(key) && comments[key].len() > 0 ==> {
            let value = comments[key][0];
            &&& (exists|i: int| 0 <= i < value.len() && !white_space(#[trigger] value[i]))
                ==> first_value(comments, key) == Some(value)
            &&& (forall|i: int| 0 <= i < value.len() ==> white_space(#[trigger] value[i]))
                ==> first_value(comments, key) is None
            &&& trimmed(value) == decimal(n) + rest && n <= 65535 ==> number_value(comments, key)
                == Some(n as u16)
            &&& trimmed(value) == two_digits(n) + rest && n <= 65535 ==> number_value(
                comments,
                key,
            ) == Some(n as u16)
            &&& trimmed(value) == decimal(n) + rest && n > 65535 ==> number_value(comments, key)
                is None
            &&& trimmed(value) == rest ==> number_value(comments, key) is None
        },
{
    if comments.contains_key(key) && comments[key].len() > 0 {
        let value = comments[key][0];
        let _ = trimming_takes_white_space_alone(value);
        numbers_are_read_back(n, rest);
        lemma_decimal(n);
        two_digits_are_tens_and_ones(n);
    }
}

/// What a file says of itself stands in its comments: the barcode under `BARCODE`
/// or else under `UPC`, the ISRC and the album under their names, and the artist of
/// the album under `ALBUMARTIST` or else under `ARTIST`; of each the first value.
pub proof fn labels_stand_in_the_comments(
    blocks: Seq<BlockView>,
    comments: Map<Seq<char>, Seq<Seq<char>>>,
)
    requires
        comments_in(blocks) == Some(comments),
        forall|key: Seq<char>| #[trigger]
            comments.contains_key(key) ==> comments[key].len() > 0,
    ensures
        ({
            let labels = labels_in(blocks);
            &&& comments.contains_key("BARCODE"@) ==> labels.upc == Some(comments["BARCODE"@][0])
            &&& !comments.contains_key("BARCODE"@) && comments.contains_key("UPC"@) ==> labels.upc
                == Some(comments["UPC"@][0])
            &&& labels.upc is Some <==> comments.contains_key("BARCODE"@)
                || comments.contains_key("UPC"@)
            &&& labels.isrc is Some <==> comments.contains_key("ISRC"@)
            &&& comments.contains_key("ISRC"@) ==> labels.isrc == Some(comments["ISRC"@][0])
            &&& labels.album is Some <==> comments.contains_key("ALBUM"@)
            &&& comments.contains_key("ALBUM"@) ==> labels.album == Some(comments["ALBUM"@][0])
            &&& comments.contains_key("ALBUMARTIST"@) ==> labels.artist == Some(
                comments["ALBUMARTIST"@][0],
            )
            &&& !comments.contains_key("ALBUMARTIST"@) && comments.contains_key("ARTIST"@)
                ==> labels.artist == Some(comments["ARTIST"@][0])
            &&& labels.artist is Some <==> comments.contains_key("ALBUMARTIST"@)
                || comments.contains_key("ARTIST"@)
        }),
{
    reveal_strlit("BARCODE");
    reveal_strlit("UPC");
    reveal_strlit("ISRC");
    reveal_strlit("ALBUM");
    reveal_strlit("ALBUMARTIST");
    reveal_strlit("ARTIST");
    let upper = |c: char| ascii_upper(c);
    assert("BARCODE"@.map_values(upper) =~= "BARCODE"@);
    assert("UPC"@.map_values(upper) =~= "UPC"@);
    assert("ISRC"@.map_values(upper) =~= "ISRC"@);
    assert("ALBUM"@.map_values(upper) =~= "ALBUM"@);
    assert("ALBUMARTIST"@.map_values(upper) =~= "ALBUMARTIST"@);
    assert("ARTIST"@.map_values(upper) =~= "ARTIST"@);
}

/// A file without comments says nothing of itself, and what one says stands in the
/// first block that holds comments, whatever blocks are before it.
pub proof fn first_comments_count(
    before: Seq<BlockView>,
    comments: Map<Seq<char>, Seq<Seq<char>>>,
    behind: Seq<BlockView>,
)
    requires
        forall|i: int| 0 <= i < before.len() ==> !(#[trigger] before[i] is VorbisComment),
    ensures
        comments_in(before) is None,
        comments_in(before.push(BlockView::VorbisComment(comments)) + behind) == Some(comments),
        labels_in(before) == (LabelsView { upc: None, isrc: None, album: None, artist: None }),
    decreases before.len(),
{
    let all = before.push(BlockView::VorbisComment(comments)) + behind;
    if before.len() > 0 {
        let rest = before.drop_first();
        assert forall|i: int| 0 <= i < rest.len() implies !(#[trigger] rest[i] is VorbisComment) by {
            assert(!(before[i + 1] is VorbisComment));
        }
        first_comments_count(rest, comments, behind);
        assert(!(before[0] is VorbisComment));
        assert(all[0] == before[0]);
        assert(all.drop_first() =~= rest.push(BlockView::VorbisComment(comments)) + behind);
    } else {
        assert(all[0] == BlockView::VorbisComment(comments));
    }
}

/// The album of a group is called as the first of its files says that says it, and
/// its artist likewise; a file counts where it carries the barcode of the group and
/// an ISRC.
pub proof fn first_files_name_their_group(
    files: Seq<(FilePath, LabelsView)>,
    upc: Seq<char>,
    i: int,
)
    requires
        0 <= i < files.len(),
        files[i].1.upc == Some(upc),
        files[i].1.isrc is Some,
    ensures
        filed_all(files).albums.contains_key(upc),
        files[i].1.album is Some && (forall|j: int|
            0 <= j < i && (#[trigger] files[j]).1.upc == Some(upc) && files[j].1.isrc is Some
                ==> files[j].1.album is None) ==> filed_all(files).albums[upc].album
            == files[i].1.album,
        files[i].1.artist is Some && (forall|j: int|
            0 <= j < i && (#[trigger] files[j]).1.upc == Some(upc) && files[j].1.isrc is Some
                ==> files[j].1.artist is None) ==> filed_all(files).albums[upc].artist
            == files[i].1.artist,
{
    groups_go_by_barcode_and_isrc(files, upc, files[i].1.isrc->0);
    assert(carries(files[i].1, upc, files[i].1.isrc->0));
    groups_are_called_as_their_first_files_say(files, upc);
    let album = |labels: LabelsView| labels.album;
    let artist = |labels: LabelsView| labels.artist;
    if files[i].1.album is Some && (forall|j: int|
        0 <= j < i && (#[trigger] files[j]).1.upc == Some(upc) && files[j].1.isrc is Some
            ==> files[j].1.album is None) {
        lemma_first_named(files, upc, album, i);
    }
    if files[i].1.artist is Some && (forall|j: int|
        0 <= j < i && (#[trigger] files[j]).1.upc == Some(upc) && files[j].1.isrc is Some
            ==> files[j].1.artist is None) {
        lemma_first_named(files, upc, artist, i);
    }
}

proof fn lemma_first_named(
    files: Seq<(FilePath, LabelsView)>,
    upc: Seq<char>,
    name: spec_fn(LabelsView) -> Option<Seq<char>>,
    i: int,
)
    requires
        0 <= i < files.len(),
        belongs(files[i].1, upc),
        name(files[i].1) is Some,
        forall|j: int|
            0 <= j < i && belongs((#[trigger] files[j]).1, upc) ==> name(files[j].1) is None,
    ensures
        first_named(files, upc, name) == name(files[i].1),
    decreases files.len(),
{
    let front = files.drop_last();
    if i < front.len() {
        lemma_first_named(front, upc, name, i);
    } else {
        lemma_none_named(front, upc, name);
    }
}

proof fn lemma_none_named(
    files: Seq<(FilePath, LabelsView)>,
    upc: Seq<char>,
    name: spec_fn(LabelsView) -> Option<Seq<char>>,
)
    requires
        forall|j: int|
            0 <= j < files.len() && belongs((#[trigger] files[j]).1, upc) ==> name(files[j].1)
                is None,
    ensures
        first_named(files, upc, name) is None,
    decreases files.len(),
{
    if files.len() > 0 {
        let front = files.drop_last();
        assert forall|j: int|
            0 <= j < front.len() && belongs((#[trigger] front[j]).1, upc) implies name(front[j].1)
            is None by {
            assert(belongs(files[j].1, upc));
        }
        lemma_none_named(front, upc, name);
        assert(files[files.len() - 1] == files.last());
    }
}

/// Of several tags under one key the last counts, and under a key that no tag has
/// nothing stands.
pub proof fn last_tags_count(tags: Seq<TagView>, key: Seq<char>, i: int)
    ensures
        (forall|j: int| 0 <= j < tags.len() ==> (#[trigger] tags[j]).0 != key) ==> !by_key(
            tags,
        ).contains_key(key),
        0 <= i < tags.len() && tags[i].0 == key && (forall|j: int|
            i < j < tags.len() ==> (#[trigger] tags[j]).0 != key) ==> by_key(tags).contains_key(key)
            && by_key(tags)[key] == tags[i].1,
    decreases tags.len(),
{
    if tags.len() > 0 {
        let front = tags.drop_last();
        let n = tags.len() - 1;
        last_tags_count(front, key, i);
        assert(tags[n] == tags.last());
        if forall|j: int| 0 <= j < tags.len() ==> (#[trigger] tags[j]).0 != key {
            assert forall|j: int| 0 <= j < front.len() implies (#[trigger] front[j]).0 != key by {
                assert(tags[j].0 != key);
            }
        }
        if 0 <= i < n && tags[i].0 == key && (forall|j: int|
            i < j < tags.len() ==> (#[trigger] tags[j]).0 != key) {
            assert(tags[n].0 != key);
            assert forall|j: int| i < j < front.len() implies (#[trigger] front[j]).0 != key by {
                assert(tags[j].0 != key);
            }
        }
    }
}

} // verus!
