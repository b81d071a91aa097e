//! The catalog: its albums and tracks, and how they are put together from what
//! it answers.
use vstd::prelude::*;

use crate::apple::exchange::{Request, RequestView};
use crate::table::Table;
use crate::text::{
    ascii_digit, chars_of, contains_text, copy_all, copy_maybe, decimal,
    decimal_goes_digit_by_digit, decimal_text, decimal_value, is_ascii_digit, lemma_decimal,
    lemma_stripped_end, lemma_stripped_start, lemma_trimmed_ends, maybe_text, occurs_at,
    prefix_is_taken_off, replace, replaced, replacing_goes_from_left_to_right, same_text,
    starts_with, strip_prefix, stripped_start, texts, trim, trimmed, white_space, without_prefix,
};

verus! {

/// An album of the catalog.
#[derive(Debug)]
pub struct Album {
    pub id: String,
    pub name: String,
    pub artist: String,
    pub artists: Vec<String>,
    pub upc: Option<String>,
    pub release_date: Option<String>,
    pub disc_count: u16,
    pub is_compilation: bool,
    pub artwork: Option<Artwork>,
    pub tracks: Vec<Track>,
}

/// An album by its characters.
pub struct AlbumView {
    pub id: Seq<char>,
    pub name: Seq<char>,
    pub artist: Seq<char>,
    pub artists: Seq<Seq<char>>,
    pub upc: Option<Seq<char>>,
    pub release_date: Option<Seq<char>>,
    pub disc_count: u16,
    pub is_compilation: bool,
    pub artwork: Option<ArtworkView>,
    pub tracks: Seq<TrackView>,
}

/// A track of an album.
#[derive(Debug)]
pub struct Track {
    pub name: String,
    pub artist: String,
    pub artists: Vec<String>,
    pub album_artist: Option<String>,
    pub isrc: Option<String>,
    pub content_rating: Option<String>,
    pub work: Option<String>,
    pub movement: Option<String>,
    pub movement_number: u16,
    pub movement_count: u16,
    pub disc_number: u16,
    pub track_number: u16,
    pub duration_ms: u64,
}

/// A track by its characters.
pub struct TrackView {
    pub name: Seq<char>,
    pub artist: Seq<char>,
    pub artists: Seq<Seq<char>>,
    pub album_artist: Option<Seq<char>>,
    pub isrc: Option<Seq<char>>,
    pub content_rating: Option<Seq<char>>,
    pub work: Option<Seq<char>>,
    pub movement: Option<Seq<char>>,
    pub movement_number: u16,
    pub movement_count: u16,
    pub disc_number: u16,
    pub track_number: u16,
    pub duration_ms: u64,
}

/// An album that a search found.
#[derive(Debug)]
pub struct Found {
    pub id: String,
    pub name: String,
    pub artist: String,
    pub track_count: u16,
    pub upc: Option<String>,
}

/// The cover of an album: where to get it, and how large it is.
#[derive(Debug)]
pub struct Artwork {
    pub template: String,
    pub width: u32,
    pub height: u32,
}

/// A cover by its characters.
pub struct ArtworkView {
    pub template: Seq<char>,
    pub width: u32,
    pub height: u32,
}

impl View for Track {
    type V = TrackView;

    open spec fn view(&self) -> TrackView {
        TrackView {
            name: self.name@,
            artist: self.artist@,
            artists: texts(self.artists@),
            album_artist: maybe_text(self.album_artist),
            isrc: maybe_text(self.isrc),
            content_rating: maybe_text(self.content_rating),
            work: maybe_text(self.work),
            movement: maybe_text(self.movement),
            movement_number: self.movement_number,
            movement_count: self.movement_count,
            disc_number: self.disc_number,
            track_number: self.track_number,
            duration_ms: self.duration_ms,
        }
    }
}

impl View for Artwork {
    type V = ArtworkView;

    open spec fn view(&self) -> ArtworkView {
        ArtworkView { template: self.template@, width: self.width, height: self.height }
    }
}

/// Some tracks by their characters.
pub open spec fn track_views(tracks: Seq<Track>) -> Seq<TrackView> {
    tracks.map_values(|track: Track| track@)
}

impl View for Album {
    type V = AlbumView;

    open spec fn view(&self) -> AlbumView {
        AlbumView {
            id: self.id@,
            name: self.name@,
            artist: self.artist@,
            artists: texts(self.artists@),
            upc: maybe_text(self.upc),
            release_date: maybe_text(self.release_date),
            disc_count: self.disc_count,
            is_compilation: self.is_compilation,
            artwork: match self.artwork {
                Some(artwork) => Some(artwork@),
                None => None,
            },
            tracks: track_views(self.tracks@),
        }
    }
}

impl Clone for Track {
    fn clone(&self) -> (copy: Self)
        ensures
            copy@ == self@,
    {
        Track {
            name: self.name.clone(),
            artist: self.artist.clone(),
            artists: copy_all(&self.artists),
            album_artist: copy_maybe(&self.album_artist),
            isrc: copy_maybe(&self.isrc),
            content_rating: copy_maybe(&self.content_rating),
            work: copy_maybe(&self.work),
            movement: copy_maybe(&self.movement),
            movement_number: self.movement_number,
            movement_count: self.movement_count,
            disc_number: self.disc_number,
            track_number: self.track_number,
            duration_ms: self.duration_ms,
        }
    }
}

impl Clone for Artwork {
    fn clone(&self) -> (copy: Self)
        ensures
            copy@ == self@,
    {
        Artwork { template: self.template.clone(), width: self.width, height: self.height }
    }
}

impl Clone for Found {
    fn clone(&self) -> (copy: Self)
        ensures
            copy == *self,
    {
        Found {
            id: self.id.clone(),
            name: self.name.clone(),
            artist: self.artist.clone(),
            track_count: self.track_count,
            upc: copy_maybe(&self.upc),
        }
    }
}

impl Clone for Album {
    fn clone(&self) -> (copy: Self)
        ensures
            copy@ == self@,
    {
        let mut tracks: Vec<Track> = Vec::new();
        let mut i: usize = 0;
        while i < self.tracks.len()
            invariant
                i <= self.tracks@.len(),
                track_views(tracks@) == track_views(self.tracks@).take(i as int),
            decreases self.tracks@.len() - i,
        {
            let ghost before = track_views(tracks@);
            let track = self.tracks[i].clone();
            tracks.push(track);
            i += 1;
            proof {
                assert(track_views(tracks@) =~= before.push(track@));
                assert(track_views(tracks@) =~= track_views(self.tracks@).take(i as int));
            }
        }
        proof {
            assert(track_views(self.tracks@).take(i as int) =~= track_views(self.tracks@));
        }
        Album {
            id: self.id.clone(),
            name: self.name.clone(),
            artist: self.artist.clone(),
            artists: copy_all(&self.artists),
            upc: copy_maybe(&self.upc),
            release_date: copy_maybe(&self.release_date),
            disc_count: self.disc_count,
            is_compilation: self.is_compilation,
            artwork: match &self.artwork {
                Some(artwork) => Some(artwork.clone()),
                None => None,
            },
            tracks,
        }
    }
}

/// What counts of a barcode: its digits, without zeros at the start.
pub open spec fn barcode_digits(code: Seq<char>) -> Seq<char> {
    stripped_start(trimmed(code), |c: char| c == '0').filter(|c: char| ascii_digit(c))
}

/// Whether two barcodes are the same, as far as they count.
pub open spec fn barcodes_agree(left: Seq<char>, right: Seq<char>) -> bool {
    barcode_digits(left).len() > 0 && barcode_digits(left) == barcode_digits(right)
}

/// What counts of a barcode.
fn digits(code: &str) -> (digits: String)
    ensures
        digits@ == barcode_digits(code@),
{
    let inner = trim(code);
    let chars = chars_of(inner.as_str());
    let ghost zero = |c: char| c == '0';
    let ghost digit = |c: char| ascii_digit(c);
    let mut from: usize = 0;
    while from < chars.len() && chars[from] == '0'
        invariant
            from <= chars@.len(),
            zero == |c: char| c == '0',
            forall|j: int| 0 <= j < from ==> #[trigger] zero(chars@[j]),
        decreases chars@.len() - from,
    {
        proof {
            assert(zero(chars@[from as int]));
        }
        from += 1;
    }
    proof {
        lemma_stripped_start(chars@, zero, from as int);
    }
    let ghost rest = chars@.skip(from as int);
    let mut digits = String::new();
    let mut i: usize = from;
    proof {
        reveal(Seq::filter);
        assert(rest.take(0).filter(digit) =~= seq![]);
    }
    while i < chars.len()
        invariant
            from <= i <= chars@.len(),
            rest == chars@.skip(from as int),
            digit == |c: char| ascii_digit(c),
            digits@ == rest.take(i - from).filter(digit),
        decreases chars@.len() - i,
    {
        let c = chars[i];
        proof {
            reveal(Seq::filter);
            assert(rest.take(i - from + 1).drop_last() =~= rest.take(i - from));
            assert(rest.take(i - from + 1).last() == c);
        }
        if is_ascii_digit(c) {
            digits.push(c);
        }
        i += 1;
    }
    proof {
        assert(rest.take(i - from) =~= rest);
    }
    digits
}

/// Whether two barcodes are the same, as far as they count.
pub fn same_barcode(left: &str, right: &str) -> (same: bool)
    ensures
        same == barcodes_agree(left@, right@),
{
    let left = digits(left);
    let right = digits(right);
    !left.as_str().is_empty() && same_text(left.as_str(), right.as_str())
}

/// Whether a barcode that may be missing is there and agrees with `barcode`.
pub open spec fn upc_agrees(upc: Option<Seq<char>>, barcode: Seq<char>) -> bool {
    match upc {
        Some(found) => barcodes_agree(found, barcode),
        None => false,
    }
}

impl Album {
    /// Whether the album carries `barcode`.
    pub fn matches_barcode(&self, barcode: &str) -> (yes: bool)
        ensures
            yes == upc_agrees(self@.upc, barcode@),
    {
        match &self.upc {
            Some(found) => same_barcode(found.as_str(), barcode),
            None => false,
        }
    }
}

impl Found {
    /// Whether the album carries `barcode`.
    pub fn matches_barcode(&self, barcode: &str) -> (yes: bool)
        ensures
            yes == upc_agrees(maybe_text(self.upc), barcode@),
    {
        match &self.upc {
            Some(found) => same_barcode(found.as_str(), barcode),
            None => false,
        }
    }
}

/// The address of a cover in a given size.
pub open spec fn artwork_url(template: Seq<char>, width: u32, height: u32) -> Seq<char> {
    replaced(
        replaced(template, "{w}"@, decimal(width as nat)),
        "{h}"@,
        decimal(height as nat),
    )
}

impl Artwork {
    /// The address of the cover in a given size.
    pub fn url(&self, width: u32, height: u32) -> (url: String)
        ensures
            url@ == artwork_url(self@.template, width, height),
    {
        proof {
            reveal_strlit("{w}");
            reveal_strlit("{h}");
        }
        let wide = replace(self.template.as_str(), "{w}", decimal_text(width as u64).as_str());
        replace(wide.as_str(), "{h}", decimal_text(height as u64).as_str())
    }

    /// A cover as the catalog answers it.
    pub fn from(resource: ArtworkResource) -> (artwork: Artwork)
        ensures
            artwork@ == (ArtworkView {
                template: resource.url@,
                width: resource.width,
                height: resource.height,
            }),
    {
        Artwork { template: resource.url, width: resource.width, height: resource.height }
    }
}

/// Some resources that belong to another, and where there are more of them.
pub struct Relationship<T> {
    pub data: Vec<T>,
    pub next: Option<String>,
}

/// An album as the catalog answers it.
pub struct AlbumResource {
    pub id: String,
    pub attributes: AlbumAttributes,
    pub relationships: AlbumRelationships,
}

/// What belongs to an album.
pub struct AlbumRelationships {
    pub tracks: Option<Relationship<TrackResource>>,
    pub artists: Option<Relationship<ArtistResource>>,
}

/// What belongs to a track.
pub struct TrackRelationships {
    pub artists: Option<Relationship<ArtistResource>>,
}

/// An artist as the catalog answers it.
pub struct ArtistResource {
    pub attributes: Option<ArtistAttributes>,
}

/// What is said of an artist.
pub struct ArtistAttributes {
    pub name: String,
}

/// What is said of an album.
pub struct AlbumAttributes {
    pub name: String,
    pub artist_name: String,
    pub upc: Option<String>,
    pub release_date: Option<String>,
    pub is_compilation: bool,
    pub artwork: Option<ArtworkResource>,
}

/// A song as the catalog answers it.
pub struct SongResource {
    pub attributes: SongAttributes,
    pub relationships: SongRelationships,
}

/// What is said of a song.
pub struct SongAttributes {
    pub isrc: Option<String>,
}

/// What belongs to a song.
pub struct SongRelationships {
    pub albums: Option<Relationship<AlbumStub>>,
}

/// An album, by its identifier only.
pub struct AlbumStub {
    pub id: String,
}

/// The answer to a search.
pub struct SearchResponse {
    pub results: SearchResults,
}

/// What a search found.
pub struct SearchResults {
    pub albums: Option<Relationship<SearchAlbum>>,
}

/// An album as a search answers it.
pub struct SearchAlbum {
    pub id: String,
    pub attributes: SearchAlbumAttributes,
}

/// What is said of an album that a search found.
pub struct SearchAlbumAttributes {
    pub name: String,
    pub artist_name: String,
    pub track_count: u16,
    pub upc: Option<String>,
}

/// A track as the catalog answers it.
pub struct TrackResource {
    pub attributes: TrackAttributes,
    pub relationships: TrackRelationships,
}

/// What is said of a track.
pub struct TrackAttributes {
    pub name: String,
    pub artist_name: String,
    pub album_artist_name: Option<String>,
    pub isrc: Option<String>,
    pub content_rating: Option<String>,
    pub work_name: Option<String>,
    pub movement_name: Option<String>,
    pub movement_number: u16,
    pub movement_count: u16,
    pub disc_number: u16,
    pub track_number: u16,
    pub duration_in_millis: u64,
}

/// A cover as the catalog answers it.
pub struct ArtworkResource {
    pub url: String,
    pub width: u32,
    pub height: u32,
}

/// The name of an artist, where it is given.
pub open spec fn artist_name(artist: ArtistResource) -> Option<Seq<char>> {
    match artist.attributes {
        Some(attributes) => Some(attributes.name@),
        None => None,
    }
}

/// The names of some artists, of those that have one.
pub open spec fn artist_names(artists: Option<Relationship<ArtistResource>>) -> Seq<Seq<char>> {
    match artists {
        Some(artists) => artists.data@.filter_map(|artist: ArtistResource| artist_name(artist)),
        None => seq![],
    }
}

/// The names of some artists, of those that have one.
pub fn names(relationship: Option<Relationship<ArtistResource>>) -> (names: Vec<String>)
    ensures
        texts(names@) == artist_names(relationship),
{
    let mut names: Vec<String> = Vec::new();
    if let Some(artists) = relationship {
        let ghost all = artists.data@;
        let ghost f = |artist: ArtistResource| artist_name(artist);
        proof {
            assert(texts(names@) =~= all.take(0).filter_map(f));
        }
        for artist in it: artists.data
            invariant
                it.seq() == all,
                f == |artist: ArtistResource| artist_name(artist),
                texts(names@) == all.take(it.index() as int).filter_map(f),
        {
            let ghost before = texts(names@);
            proof {
                all.lemma_filter_map_take_succ(f, it.index() as int);
            }
            if let Some(attributes) = artist.attributes {
                let ghost name = attributes.name@;
                names.push(attributes.name);
                proof {
                    assert(texts(names@) =~= before.push(name));
                    assert(before.push(name) =~= before + seq![name]);
                }
            } else {
                proof {
                    assert(before + Seq::<Seq<char>>::empty() =~= before);
                }
            }
        }
        proof {
            assert(all.take(all.len() as int) =~= all);
        }
    } else {
        proof {
            assert(texts(names@) =~= seq![]);
        }
    }
    names
}

/// A track as the library keeps it.
pub open spec fn track_of(resource: TrackResource) -> TrackView {
    let attributes = resource.attributes;
    TrackView {
        name: attributes.name@,
        artist: attributes.artist_name@,
        artists: artist_names(resource.relationships.artists),
        album_artist: maybe_text(attributes.album_artist_name),
        isrc: maybe_text(attributes.isrc),
        content_rating: maybe_text(attributes.content_rating),
        work: maybe_text(attributes.work_name),
        movement: maybe_text(attributes.movement_name),
        movement_number: attributes.movement_number,
        movement_count: attributes.movement_count,
        disc_number: if attributes.disc_number < 1 {
            1
        } else {
            attributes.disc_number
        },
        track_number: attributes.track_number,
        duration_ms: attributes.duration_in_millis,
    }
}

/// Some tracks as the library keeps them.
pub open spec fn tracks_of(resources: Seq<TrackResource>) -> Seq<TrackView> {
    resources.map_values(|resource: TrackResource| track_of(resource))
}

impl Track {
    /// A track from what the catalog answers.
    pub fn from(resource: TrackResource) -> (track: Track)
        ensures
            track@ == track_of(resource),
            track.name == resource.attributes.name,
            track.artist == resource.attributes.artist_name,
            texts(track.artists@) == artist_names(resource.relationships.artists),
            track.album_artist == resource.attributes.album_artist_name,
            track.isrc == resource.attributes.isrc,
            track.content_rating == resource.attributes.content_rating,
            track.work == resource.attributes.work_name,
            track.movement == resource.attributes.movement_name,
    {
        let attributes = resource.attributes;
        Track {
            name: attributes.name,
            artist: attributes.artist_name,
            artists: names(resource.relationships.artists),
            album_artist: attributes.album_artist_name,
            isrc: attributes.isrc,
            content_rating: attributes.content_rating,
            work: attributes.work_name,
            movement: attributes.movement_name,
            movement_number: attributes.movement_number,
            movement_count: attributes.movement_count,
            disc_number: if attributes.disc_number < 1 {
                1
            } else {
                attributes.disc_number
            },
            track_number: attributes.track_number,
            duration_ms: attributes.duration_in_millis,
        }
    }
}

/// How many discs some tracks are spread over: the highest disc number, and at
/// least one.
pub open spec fn discs(tracks: Seq<TrackView>) -> u16
    decreases tracks.len(),
{
    if tracks.len() == 0 {
        1
    } else {
        let before = discs(tracks.drop_last());
        if tracks.last().disc_number > before {
            tracks.last().disc_number
        } else {
            before
        }
    }
}

/// The number of discs is at least one, no track is beyond it, and where it is
/// more than one, some track is on the last disc.
pub proof fn discs_reach(tracks: Seq<TrackView>)
    ensures
        discs(tracks) >= 1,
        forall|i: int| 0 <= i < tracks.len() ==> (#[trigger] tracks[i]).disc_number <= discs(tracks),
        discs(tracks) > 1 ==> exists|i: int|
            0 <= i < tracks.len() && (#[trigger] tracks[i]).disc_number == discs(tracks),
    decreases tracks.len(),
{
    if tracks.len() > 0 {
        let front = tracks.drop_last();
        discs_reach(front);
        assert forall|i: int| 0 <= i < tracks.len() implies (#[trigger] tracks[i]).disc_number
            <= discs(tracks) by {
            if i < front.len() {
                assert(front[i].disc_number <= discs(front));
            }
        }
        if discs(tracks) > 1 {
            if tracks.last().disc_number > discs(front) {
                assert(tracks[tracks.len() - 1].disc_number == discs(tracks));
            } else {
                let i = choose|i: int|
                    0 <= i < front.len() && (#[trigger] front[i]).disc_number == discs(front);
                assert(tracks[i].disc_number == discs(tracks));
            }
        }
    }
}

/// The request for a further page, as the catalog names it.
pub open spec fn page_request(next: Seq<char>) -> RequestView {
    RequestView { path: without_prefix(next, "/v1"@), query: seq![] }
}

/// The request for a further page, as the catalog names it.
pub fn request_page(next: &str) -> (request: Request)
    ensures
        request@ == page_request(next@),
{
    proof {
        reveal_strlit("/v1");
    }
    Request::new(strip_prefix(next, "/v1"))
}

/// An album that is being put together, page by page.
pub struct AlbumBuild {
    id: String,
    attributes: AlbumAttributes,
    artists: Vec<String>,
    tracks: Vec<Track>,
    next: Option<String>,
}

/// An album that is being put together, by its characters.
pub struct AlbumBuildView {
    pub id: Seq<char>,
    pub attributes: AlbumAttributes,
    pub artists: Seq<Seq<char>>,
    pub tracks: Seq<TrackView>,
    pub next: Option<Seq<char>>,
}

impl View for AlbumBuild {
    type V = AlbumBuildView;

    closed spec fn view(&self) -> AlbumBuildView {
        AlbumBuildView {
            id: self.id@,
            attributes: self.attributes,
            artists: texts(self.artists@),
            tracks: track_views(self.tracks@),
            next: maybe_text(self.next),
        }
    }
}

/// An album with the first of its tracks.
pub open spec fn begun(resource: AlbumResource) -> AlbumBuildView {
    AlbumBuildView {
        id: resource.id@,
        attributes: resource.attributes,
        artists: artist_names(resource.relationships.artists),
        tracks: match resource.relationships.tracks {
            Some(tracks) => tracks_of(tracks.data@),
            None => seq![],
        },
        next: match resource.relationships.tracks {
            Some(tracks) => maybe_text(tracks.next),
            None => None,
        },
    }
}

/// An album with one more page of tracks.
pub open spec fn extended(
    build: AlbumBuildView,
    page: Relationship<TrackResource>,
) -> AlbumBuildView {
    AlbumBuildView {
        tracks: build.tracks + tracks_of(page.data@),
        next: maybe_text(page.next),
        ..build
    }
}

/// The album that was put together.
pub open spec fn built(build: AlbumBuildView) -> AlbumView {
    AlbumView {
        id: build.id,
        name: build.attributes.name@,
        artist: build.attributes.artist_name@,
        artists: build.artists,
        upc: maybe_text(build.attributes.upc),
        release_date: maybe_text(build.attributes.release_date),
        disc_count: discs(build.tracks),
        is_compilation: build.attributes.is_compilation,
        artwork: match build.attributes.artwork {
            Some(artwork) => Some(
                ArtworkView {
                    template: artwork.url@,
                    width: artwork.width,
                    height: artwork.height,
                },
            ),
            None => None,
        },
        tracks: build.tracks,
    }
}

/// Puts some tracks behind others.
fn add_tracks(tracks: &mut Vec<Track>, resources: Vec<TrackResource>)
    ensures
        track_views(final(tracks)@) == track_views(old(tracks)@) + tracks_of(resources@),
{
    let ghost before = track_views(tracks@);
    let ghost all = resources@;
    proof {
        assert(track_views(tracks@) =~= before + tracks_of(all.take(0)));
    }
    for resource in it: resources
        invariant
            it.seq() == all,
            track_views(tracks@) == before + tracks_of(all.take(it.index() as int)),
    {
        let ghost so_far = track_views(tracks@);
        let track = Track::from(resource);
        tracks.push(track);
        proof {
            assert(track_views(tracks@) =~= so_far.push(track@));
            assert(track_views(tracks@) =~= before + tracks_of(all.take(it.index() + 1)));
        }
    }
    proof {
        assert(all.take(all.len() as int) =~= all);
    }
}

impl AlbumBuild {
    /// Starts on the first of the albums that the catalog answers for `id`; an
    /// answer without one is an error.
    pub fn begin(id: &str, data: Vec<AlbumResource>) -> (build: Result<AlbumBuild, String>)
        ensures
            match build {
                Ok(build) => data@.len() > 0 && build@ == begun(data@[0]),
                Err(message) => data@.len() == 0 && message@ == "apple: album "@ + id@
                    + " returned no data"@,
            },
    {
        let mut data = data;
        if data.len() == 0 {
            let mut message = "apple: album ".to_owned();
            message.append(id);
            message.append(" returned no data");
            return Err(message);
        }
        let resource = data.remove(0);
        let artists = names(resource.relationships.artists);
        let mut tracks: Vec<Track> = Vec::new();
        let mut next: Option<String> = None;
        proof {
            assert(track_views(tracks@) =~= seq![]);
        }
        if let Some(relationship) = resource.relationships.tracks {
            add_tracks(&mut tracks, relationship.data);
            next = relationship.next;
            proof {
                assert(track_views(tracks@) =~= tracks_of(relationship.data@));
            }
        }
        Ok(
            AlbumBuild {
                id: resource.id,
                attributes: resource.attributes,
                artists,
                tracks,
                next,
            },
        )
    }

    /// The request for the next page of tracks, if there is one.
    pub fn pending(&self) -> (request: Option<Request>)
        ensures
            match request {
                Some(request) => self@.next is Some && request@ == (RequestView {
                    query: seq![("include"@, "artists"@)],
                    ..page_request(self@.next->0)
                }),
                None => self@.next is None,
            },
    {
        match &self.next {
            Some(next) => {
                let request = request_page(next.as_str()).with("include", "artists");
                proof {
                    assert(request@.query =~= seq![("include"@, "artists"@)]);
                }
                Some(request)
            },
            None => None,
        }
    }

    /// What is said where the next page of tracks does not come.
    pub fn note(&self) -> (message: Option<String>)
        ensures
            match message {
                Some(message) => self@.next is Some && message@ == "apple: paging tracks via "@
                    + self@.next->0,
                None => self@.next is None,
            },
    {
        match &self.next {
            Some(next) => {
                let mut message = "apple: paging tracks via ".to_owned();
                message.append(next.as_str());
                Some(message)
            },
            None => None,
        }
    }

    /// Takes the next page of tracks.
    pub fn page(&mut self, page: Relationship<TrackResource>)
        ensures
            final(self)@ == extended(old(self)@, page),
    {
        add_tracks(&mut self.tracks, page.data);
        self.next = page.next;
    }

    /// The album, once there is no further page.
    pub fn finish(self) -> (album: Album)
        requires
            self@.next is None,
        ensures
            album@ == built(self@),
    {
        let mut disc_count: u16 = 1;
        let mut i: usize = 0;
        let ghost views = track_views(self.tracks@);
        while i < self.tracks.len()
            invariant
                i <= self.tracks@.len(),
                views == track_views(self.tracks@),
                disc_count == discs(views.take(i as int)),
            decreases self.tracks@.len() - i,
        {
            if self.tracks[i].disc_number > disc_count {
                disc_count = self.tracks[i].disc_number;
            }
            i += 1;
            proof {
                assert(views.take(i as int).drop_last() =~= views.take(i - 1));
                assert(views.take(i as int).last() == self.tracks@[i - 1]@);
            }
        }
        proof {
            assert(views.take(i as int) =~= views);
        }
        Album {
            id: self.id,
            name: self.attributes.name,
            artist: self.attributes.artist_name,
            artists: self.artists,
            upc: self.attributes.upc,
            release_date: self.attributes.release_date,
            disc_count,
            is_compilation: self.attributes.is_compilation,
            artwork: match self.attributes.artwork {
                Some(artwork) => Some(Artwork::from(artwork)),
                None => None,
            },
            tracks: self.tracks,
        }
    }
}

/// An album with some more pages of tracks.
pub open spec fn extended_by(
    build: AlbumBuildView,
    pages: Seq<Relationship<TrackResource>>,
) -> AlbumBuildView
    decreases pages.len(),
{
    if pages.len() == 0 {
        build
    } else {
        extended(extended_by(build, pages.drop_last()), pages.last())
    }
}

/// The tracks of some pages, one page after the other.
pub open spec fn paged_tracks(pages: Seq<Relationship<TrackResource>>) -> Seq<TrackView>
    decreases pages.len(),
{
    if pages.len() == 0 {
        seq![]
    } else {
        paged_tracks(pages.drop_last()) + tracks_of(pages.last().data@)
    }
}

/// However many pages an album comes in, it has the tracks of all of them, in
/// the order in which they came, and all else is as the first answer said.
pub proof fn pages_keep_every_track(
    build: AlbumBuildView,
    pages: Seq<Relationship<TrackResource>>,
)
    ensures
        built(extended_by(build, pages)).tracks == build.tracks + paged_tracks(pages),
        built(extended_by(build, pages)) == (AlbumView {
            tracks: build.tracks + paged_tracks(pages),
            disc_count: discs(build.tracks + paged_tracks(pages)),
            ..built(build)
        }),
    decreases pages.len(),
{
    if pages.len() == 0 {
        assert(build.tracks + paged_tracks(pages) =~= build.tracks);
    } else {
        pages_keep_every_track(build, pages.drop_last());
        assert(build.tracks + paged_tracks(pages.drop_last()) + tracks_of(pages.last().data@)
            =~= build.tracks + paged_tracks(pages));
    }
}

/// What is known of the catalog of one storefront: the albums that were asked
/// for, and the albums that songs are on, by ISRC in upper case.
pub struct Catalog {
    pub storefront: String,
    pub albums: Table<Album>,
    pub songs: Table<Vec<String>>,
}

/// The next step towards an album.
pub enum AlbumStep {
    /// The album is known.
    Known(Album),
    /// The catalog is to be asked for it.
    Ask(Request),
}

/// The path of a part of the catalog of `storefront`.
pub open spec fn catalog_path(storefront: Seq<char>, part: Seq<char>) -> Seq<char> {
    "/catalog/"@ + storefront + part
}

impl Catalog {
    /// A catalog of which nothing is known yet.
    pub fn with_storefront(storefront: &str) -> (catalog: Catalog)
        ensures
            catalog.storefront@ == storefront@,
            catalog.albums@ == Map::<Seq<char>, Album>::empty(),
            catalog.songs@ == Map::<Seq<char>, Vec<String>>::empty(),
    {
        Catalog { storefront: storefront.to_owned(), albums: Table::new(), songs: Table::new() }
    }

    /// The path of a part of the catalog.
    pub fn path(&self, part: &str) -> (path: String)
        ensures
            path@ == catalog_path(self.storefront@, part@),
    {
        let mut path = "/catalog/".to_owned();
        path.append(self.storefront.as_str());
        path.append(part);
        path
    }

    /// The album with identifier `id`, where it is known, or what to ask for it.
    pub fn album(&self, id: &str) -> (step: AlbumStep)
        ensures
            match step {
                AlbumStep::Known(album) => self.albums@.contains_key(id@) && album@
                    == self.albums@[id@]@,
                AlbumStep::Ask(request) => !self.albums@.contains_key(id@) && request@ == (
                RequestView {
                    path: catalog_path(self.storefront@, "/albums/"@ + id@),
                    query: seq![
                        ("include"@, "tracks,artists"@),
                        ("include[songs]"@, "artists"@),
                    ],
                }),
            },
    {
        if let Some(album) = self.albums.get(id) {
            return AlbumStep::Known(album.clone());
        }
        let mut part = "/albums/".to_owned();
        part.append(id);
        let request = Request::new(self.path(part.as_str())).with("include", "tracks,artists").with(
            "include[songs]",
            "artists",
        );
        proof {
            assert(request@.query =~= seq![
                ("include"@, "tracks,artists"@),
                ("include[songs]"@, "artists"@),
            ]);
        }
        AlbumStep::Ask(request)
    }

    /// Keeps an album, to be known from now on.
    pub fn remember(&mut self, id: &str, album: &Album)
        ensures
            final(self).storefront == old(self).storefront,
            final(self).songs == old(self).songs,
            final(self).albums@.dom() == old(self).albums@.dom().insert(id@),
            final(self).albums@[id@]@ == album@,
            forall|other: Seq<char>|
                other != id@ ==> #[trigger] final(self).albums@[other] == old(self).albums@[other],
    {
        let copy = album.clone();
        self.albums.insert(id.to_owned(), copy);
    }

    /// What to ask for the albums that carry `upc`.
    pub fn album_ids_by_upc(&self, upc: &str) -> (request: Request)
        ensures
            request@ == (RequestView {
                path: catalog_path(self.storefront@, "/albums"@),
                query: seq![("filter[upc]"@, upc@)],
            }),
    {
        let request = Request::new(self.path("/albums")).with("filter[upc]", upc);
        proof {
            assert(request@.query =~= seq![("filter[upc]"@, upc@)]);
        }
        request
    }

    /// What to ask for the albums that a search for `term` finds.
    pub fn search_albums(&self, term: &str, limit: usize) -> (request: Request)
        ensures
            request@ == (RequestView {
                path: catalog_path(self.storefront@, "/search"@),
                query: seq![
                    ("term"@, term@),
                    ("types"@, "albums"@),
                    ("limit"@, decimal(limit as nat)),
                ],
            }),
    {
        let limit = decimal_text(limit as u64);
        let request = Request::new(self.path("/search")).with("term", term).with(
            "types",
            "albums",
        ).with("limit", limit.as_str());
        proof {
            assert(request@.query =~= seq![
                ("term"@, term@),
                ("types"@, "albums"@),
                ("limit"@, limit@),
            ]);
        }
        request
    }
}

/// The identifiers of some albums.
pub open spec fn stub_ids(stubs: Seq<AlbumStub>) -> Seq<Seq<char>> {
    stubs.map_values(|stub: AlbumStub| stub.id@)
}

/// The identifiers of the albums in an answer.
pub fn ids(data: Vec<AlbumStub>) -> (ids: Vec<String>)
    ensures
        texts(ids@) == stub_ids(data@),
{
    let ghost all = data@;
    let mut ids: Vec<String> = Vec::new();
    proof {
        assert(texts(ids@) =~= stub_ids(all.take(0)));
    }
    for stub in it: data
        invariant
            it.seq() == all,
            texts(ids@) == stub_ids(all.take(it.index() as int)),
    {
        let ghost before = texts(ids@);
        let ghost id = stub.id@;
        ids.push(stub.id);
        proof {
            assert(texts(ids@) =~= before.push(id));
            assert(texts(ids@) =~= stub_ids(all.take(it.index() + 1)));
        }
    }
    proof {
        assert(all.take(all.len() as int) =~= all);
    }
    ids
}

/// An album that a search found, as the library keeps it.
pub open spec fn found_in(album: SearchAlbum) -> Found {
    Found {
        id: album.id,
        name: album.attributes.name,
        artist: album.attributes.artist_name,
        track_count: album.attributes.track_count,
        upc: album.attributes.upc,
    }
}

/// The albums that a search found.
pub fn search_found(response: SearchResponse) -> (found: Vec<Found>)
    ensures
        found@ == (match response.results.albums {
            Some(albums) => albums.data@.map_values(|album: SearchAlbum| found_in(album)),
            None => seq![],
        }),
{
    let mut found: Vec<Found> = Vec::new();
    if let Some(albums) = response.results.albums {
        let ghost all = albums.data@;
        let ghost f = |album: SearchAlbum| found_in(album);
        for album in it: albums.data
            invariant
                it.seq() == all,
                f == |album: SearchAlbum| found_in(album),
                found@ == all.take(it.index() as int).map_values(f),
        {
            let ghost before = found@;
            let ghost expected = f(album);
            found.push(
                Found {
                    id: album.id,
                    name: album.attributes.name,
                    artist: album.attributes.artist_name,
                    track_count: album.attributes.track_count,
                    upc: album.attributes.upc,
                },
            );
            proof {
                assert(found@ =~= before.push(expected));
                assert(found@ =~= all.take(it.index() + 1).map_values(f));
            }
        }
        proof {
            assert(all.take(all.len() as int) =~= all);
        }
    }
    found
}

/// Two barcodes agree in either order.
pub proof fn barcodes_agree_symmetric(left: Seq<char>, right: Seq<char>)
    ensures
        barcodes_agree(left, right) == barcodes_agree(right, left),
{
}

/// A zero in front of a barcode does not count, so that a twelve-digit code
/// agrees with its thirteen-digit form.
pub proof fn leading_zero_does_not_count(code: Seq<char>)
    ensures
        barcode_digits(seq!['0'] + trimmed(code)) == barcode_digits(code),
        barcode_digits(code).len() > 0 ==> barcodes_agree(seq!['0'] + trimmed(code), code),
{
    let inner = trimmed(code);
    let longer = seq!['0'] + inner;
    let white = |c: char| white_space(c);
    let zero = |c: char| c == '0';
    lemma_trimmed_ends(code);
    assert(!white('0'));
    lemma_stripped_start(longer, white, 0);
    assert(longer.skip(0) =~= longer);
    lemma_stripped_end(longer, white, longer.len() as int);
    assert(longer.take(longer.len() as int) =~= longer);
    assert(zero(longer[0]));
    assert(longer.drop_first() =~= inner);
}

/// The tracks that the catalog answers for an album: those of the first answer,
/// and those of some further pages, one page after the other.
pub open spec fn answered_tracks(
    resource: AlbumResource,
    pages: Seq<Relationship<TrackResource>>,
) -> Seq<TrackResource>
    decreases pages.len(),
{
    if pages.len() == 0 {
        match resource.relationships.tracks {
            Some(tracks) => tracks.data@,
            None => seq![],
        }
    } else {
        answered_tracks(resource, pages.drop_last()) + pages.last().data@
    }
}

proof fn lemma_answered_tracks(resource: AlbumResource, pages: Seq<Relationship<TrackResource>>)
    ensures
        extended_by(begun(resource), pages).tracks == tracks_of(answered_tracks(resource, pages)),
    decreases pages.len(),
{
    if pages.len() == 0 {
        assert(begun(resource).tracks =~= tracks_of(answered_tracks(resource, pages)));
    } else {
        lemma_answered_tracks(resource, pages.drop_last());
        assert(extended_by(begun(resource), pages).tracks =~= tracks_of(
            answered_tracks(resource, pages),
        ));
    }
}

/// Each track of an album says what the catalog answered for it, on whichever
/// page, and each field what is said under its own name: its artist and that of
/// the album apart, and each that is not given missing. A track without a disc is
/// on the first.
pub proof fn tracks_say_what_the_catalog_answers(
    resource: AlbumResource,
    pages: Seq<Relationship<TrackResource>>,
    i: int,
)
    requires
        0 <= i < answered_tracks(resource, pages).len(),
    ensures
        built(extended_by(begun(resource), pages)).tracks.len() == answered_tracks(
            resource,
            pages,
        ).len(),
        ({
            let track = built(extended_by(begun(resource), pages)).tracks[i];
            let answer = answered_tracks(resource, pages)[i];
            let said = answer.attributes;
            &&& track.name == said.name@
            &&& track.artist == said.artist_name@
            &&& track.artists == artist_names(answer.relationships.artists)
            &&& said.album_artist_name matches Some(artist) ==> track.album_artist == Some(artist@)
            &&& said.album_artist_name is None ==> track.album_artist is None
            &&& said.isrc matches Some(isrc) ==> track.isrc == Some(isrc@)
            &&& said.isrc is None ==> track.isrc is None
            &&& said.content_rating matches Some(rating) ==> track.content_rating == Some(rating@)
            &&& said.content_rating is None ==> track.content_rating is None
            &&& said.work_name matches Some(work) ==> track.work == Some(work@)
            &&& said.work_name is None ==> track.work is None
            &&& said.movement_name matches Some(movement) ==> track.movement == Some(movement@)
            &&& said.movement_name is None ==> track.movement is None
            &&& track.movement_number == said.movement_number
            &&& track.movement_count == said.movement_count
            &&& track.track_number == said.track_number
            &&& track.duration_ms == said.duration_in_millis
            &&& said.disc_number > 0 ==> track.disc_number == said.disc_number
            &&& said.disc_number == 0 ==> track.disc_number == 1
        }),
{
    lemma_answered_tracks(resource, pages);
    assert(tracks_of(answered_tracks(resource, pages))[i] == track_of(
        answered_tracks(resource, pages)[i],
    ));
}

/// An album says what the catalog answered for it, each field what is said under
/// its own name, and each that is not given missing; further pages change nothing
/// of that. It has as many discs as the highest number that a track names, and at
/// least one.
pub proof fn albums_say_what_the_catalog_answers(
    resource: AlbumResource,
    pages: Seq<Relationship<TrackResource>>,
)
    ensures
        ({
            let album = built(extended_by(begun(resource), pages));
            let said = resource.attributes;
            &&& album.id == resource.id@
            &&& album.name == said.name@
            &&& album.artist == said.artist_name@
            &&& album.artists == artist_names(resource.relationships.artists)
            &&& said.upc matches Some(upc) ==> album.upc == Some(upc@)
            &&& said.upc is None ==> album.upc is None
            &&& said.release_date matches Some(date) ==> album.release_date == Some(date@)
            &&& said.release_date is None ==> album.release_date is None
            &&& album.is_compilation == said.is_compilation
            &&& said.artwork matches Some(art) ==> album.artwork == Some(
                ArtworkView { template: art.url@, width: art.width, height: art.height },
            )
            &&& said.artwork is None ==> album.artwork is None
            &&& album.disc_count >= 1
            &&& forall|i: int|
                0 <= i < answered_tracks(resource, pages).len() ==> (#[trigger] answered_tracks(
                    resource,
                    pages,
                )[i]).attributes.disc_number <= album.disc_count
            &&& album.disc_count > 1 ==> exists|i: int|
                0 <= i < answered_tracks(resource, pages).len() && (#[trigger] answered_tracks(
                    resource,
                    pages,
                )[i]).attributes.disc_number == album.disc_count
        }),
{
    let build = extended_by(begun(resource), pages);
    let answers = answered_tracks(resource, pages);
    pages_keep_every_track(begun(resource), pages);
    lemma_answered_tracks(resource, pages);
    discs_reach(build.tracks);
    assert forall|i: int| 0 <= i < answers.len() implies (
    #[trigger] answers[i]).attributes.disc_number <= discs(build.tracks) by {
        assert(build.tracks[i] == track_of(answers[i]));
    }
    if discs(build.tracks) > 1 {
        let i = choose|i: int|
            0 <= i < build.tracks.len() && (#[trigger] build.tracks[i]).disc_number == discs(
                build.tracks,
            );
        assert(build.tracks[i] == track_of(answers[i]));
        assert(answers[i].attributes.disc_number == discs(build.tracks));
    }
}

/// The names of artists are those that are given, all of them and in turn: those of
/// some artists and then others are the names of the first and then of the others,
/// and one artist gives one name or, where nothing is said of them, none.
pub proof fn artists_are_named_in_turn(
    all: Relationship<ArtistResource>,
    first: Relationship<ArtistResource>,
    others: Relationship<ArtistResource>,
)
    requires
        all.data@ == first.data@ + others.data@,
    ensures
        artist_names(Some(all)) == artist_names(Some(first)) + artist_names(Some(others)),
        all.data@.len() == 0 ==> artist_names(Some(all)).len() == 0,
        all.data@.len() == 1 ==> artist_names(Some(all)) == match all.data@[0].attributes {
            Some(attributes) => seq![attributes.name@],
            None => Seq::<Seq<char>>::empty(),
        },
        artist_names(None).len() == 0,
{
    let f = |artist: ArtistResource| artist_name(artist);
    lemma_filter_map_add(first.data@, others.data@, f);
    if all.data@.len() == 1 {
        Seq::lemma_filter_map_singleton(all.data@[0], f);
        assert(all.data@ =~= seq![all.data@[0]]);
    }
}

proof fn lemma_filter_map_add<A, B>(a: Seq<A>, b: Seq<A>, f: spec_fn(A) -> Option<B>)
    ensures
        (a + b).filter_map(f) == a.filter_map(f) + b.filter_map(f),
    decreases b.len(),
{
    reveal(Seq::filter_map);
    if b.len() == 0 {
        assert(a + b =~= a);
        assert(a.filter_map(f) + b.filter_map(f) =~= a.filter_map(f));
    } else {
        let front = b.drop_last();
        lemma_filter_map_add(a, front, f);
        assert((a + b).drop_last() =~= a + front);
        assert((a + b).last() == b.last());
        match f(b.last()) {
            Some(value) => {
                assert((a.filter_map(f) + front.filter_map(f)) + seq![value] =~= a.filter_map(f) + (
                front.filter_map(f) + seq![value]));
            },
            None => {},
        }
    }
}

/// An album that a search found says what the search answered, each field what is
/// said under its own name.
pub proof fn finds_say_what_the_search_answers(album: SearchAlbum)
    ensures
        found_in(album).id@ == album.id@,
        found_in(album).name@ == album.attributes.name@,
        found_in(album).artist@ == album.attributes.artist_name@,
        found_in(album).track_count == album.attributes.track_count,
        found_in(album).upc == album.attributes.upc,
{
}

proof fn lemma_zeros_off(code: Seq<char>)
    requires
        forall|i: int| 0 <= i < code.len() ==> ascii_digit(#[trigger] code[i]),
    ensures
        decimal_value(code) == 0 ==> stripped_start(code, |c: char| c == '0').len() == 0,
        decimal_value(code) > 0 ==> stripped_start(code, |c: char| c == '0') == decimal(
            decimal_value(code),
        ),
    decreases code.len(),
{
    let zero = |c: char| c == '0';
    if code.len() > 0 {
        let front = code.drop_last();
        let c = code.last();
        let d = (c as nat - 48) as nat;
        assert forall|i: int| 0 <= i < front.len() implies ascii_digit(#[trigger] front[i]) by {
            assert(ascii_digit(code[i]));
        }
        lemma_zeros_off(front);
        assert(ascii_digit(code[code.len() - 1]));
        let n = decimal_value(front);
        lemma_stripped_push(front, c, zero);
        assert(code =~= front.push(c));
        decimal_goes_digit_by_digit(n, d);
        assert(('0' as u32 + d) as char == c);
        if n == 0 {
            assert(seq![c] =~= decimal(d));
        }
    }
}

proof fn lemma_stripped_push(s: Seq<char>, c: char, drop: spec_fn(char) -> bool)
    ensures
        stripped_start(s, drop).len() > 0 ==> stripped_start(s.push(c), drop) == stripped_start(
            s,
            drop,
        ).push(c),
        stripped_start(s, drop).len() == 0 ==> stripped_start(s.push(c), drop) == if drop(c) {
            Seq::<char>::empty()
        } else {
            seq![c]
        },
    decreases s.len(),
{
    let t = s.push(c);
    if s.len() == 0 {
        reveal_with_fuel(stripped_start, 2);
        assert(t.drop_first() =~= seq![]);
        assert(t =~= seq![c]);
    } else if drop(s[0]) {
        lemma_stripped_push(s.drop_first(), c, drop);
        assert(t.drop_first() =~= s.drop_first().push(c));
    }
}

proof fn lemma_digits_only(code: Seq<char>)
    requires
        forall|i: int| 0 <= i < code.len() ==> ascii_digit(#[trigger] code[i]),
    ensures
        code.filter(|c: char| ascii_digit(c)) == code,
        trimmed(code) == code,
    decreases code.len(),
{
    let digit = |c: char| ascii_digit(c);
    let white = |c: char| white_space(c);
    if code.len() > 0 {
        let front = code.drop_last();
        assert forall|i: int| 0 <= i < front.len() implies ascii_digit(#[trigger] front[i]) by {
            assert(ascii_digit(code[i]));
        }
        lemma_digits_only(front);
        reveal(Seq::filter);
        assert(digit(code[code.len() - 1]));
        assert(code.filter(digit) =~= code);
        assert(ascii_digit(code[0]));
        assert(!white(code[0]) && !white(code.last()));
    } else {
        reveal(Seq::filter);
        assert(code.filter(digit) =~= code);
    }
}

/// Barcodes agree where they are the same number: two that are made of digits, in
/// whatever white space, agree just where their digits stand for the same number,
/// and that is not zero.
pub proof fn barcodes_agree_as_numbers(left: Seq<char>, right: Seq<char>)
    requires
        forall|i: int| 0 <= i < trimmed(left).len() ==> ascii_digit(#[trigger] trimmed(left)[i]),
        forall|i: int| 0 <= i < trimmed(right).len() ==> ascii_digit(#[trigger] trimmed(right)[i]),
    ensures
        barcodes_agree(left, right) <==> (decimal_value(trimmed(left)) == decimal_value(
            trimmed(right),
        ) && decimal_value(trimmed(left)) > 0),
{
    lemma_number_left(left);
    lemma_number_left(right);
    lemma_decimal(decimal_value(trimmed(left)));
    lemma_decimal(decimal_value(trimmed(right)));
}

proof fn lemma_number_left(code: Seq<char>)
    requires
        forall|i: int| 0 <= i < trimmed(code).len() ==> ascii_digit(#[trigger] trimmed(code)[i]),
    ensures
        decimal_value(trimmed(code)) == 0 ==> barcode_digits(code).len() == 0,
        decimal_value(trimmed(code)) > 0 ==> barcode_digits(code) == decimal(
            decimal_value(trimmed(code)),
        ),
{
    let inner = trimmed(code);
    let zero = |c: char| c == '0';
    let kept = stripped_start(inner, zero);
    lemma_zeros_off(inner);
    if decimal_value(inner) > 0 {
        lemma_decimal(decimal_value(inner));
    }
    lemma_digits_only(kept);
}

/// What is not a digit does not count in a barcode that does not start with a
/// zero: its digits are left, in their order.
pub proof fn digits_alone_count_in_barcodes(code: Seq<char>)
    requires
        trimmed(code).len() > 0 ==> trimmed(code)[0] != '0',
    ensures
        barcode_digits(code) == trimmed(code).filter(|c: char| ascii_digit(c)),
        forall|i: int|
            0 <= i < barcode_digits(code).len() ==> ascii_digit(#[trigger] barcode_digits(code)[i]),
{
    let digit = |c: char| ascii_digit(c);
    let inner = trimmed(code);
    assert forall|i: int| 0 <= i < barcode_digits(code).len() implies ascii_digit(
        #[trigger] barcode_digits(code)[i],
    ) by {
        inner.lemma_filter_pred(digit, i);
    }
}

proof fn lemma_no_brace(s: Seq<char>, pattern: Seq<char>, from: int, to: int)
    requires
        pattern.len() > 0,
        pattern[0] == '{',
        0 <= from <= to <= s.len(),
        forall|i: int| from <= i < to ==> #[trigger] s[i] != '{',
    ensures
        forall|i: int| from <= i < to ==> !occurs_at(s, pattern, i),
{
    assert forall|i: int| from <= i < to implies !occurs_at(s, pattern, i) by {
        if occurs_at(s, pattern, i) {
            assert(s.subrange(i, i + pattern.len())[0] == s[i]);
        }
    }
}

proof fn lemma_one_replaced(
    before: Seq<char>,
    pattern: Seq<char>,
    behind: Seq<char>,
    with: Seq<char>,
)
    requires
        pattern.len() > 0,
        pattern[0] == '{',
        forall|i: int| 0 <= i < before.len() ==> #[trigger] before[i] != '{',
    ensures
        replaced(before + pattern + behind, pattern, with) == before + with + replaced(
            behind,
            pattern,
            with,
        ),
{
    let s = before + pattern + behind;
    let n = before.len() as int;
    assert forall|i: int| 0 <= i < n implies #[trigger] s[i] != '{' by {
        assert(s[i] == before[i]);
    }
    lemma_no_brace(s, pattern, 0, n);
    assert(s.subrange(n, n + pattern.len()) =~= pattern);
    replacing_goes_from_left_to_right(s, pattern, with, n);
    assert(s.take(n) =~= before);
    assert(s.skip(n + pattern.len()) =~= behind);
}

proof fn lemma_none_replaced(s: Seq<char>, pattern: Seq<char>, with: Seq<char>)
    requires
        pattern.len() > 0,
        pattern[0] == '{',
        forall|i: int| 0 <= i < s.len() ==> #[trigger] s[i] != '{',
    ensures
        replaced(s, pattern, with) == s,
{
    lemma_no_brace(s, pattern, 0, s.len() as int);
    replacing_goes_from_left_to_right(s, pattern, with, 0);
    if contains_text(s, pattern) {
        let i = choose|i: int| occurs_at(s, pattern, i);
        assert(i < s.len());
    }
}

/// The address of a cover has its width where the template has `{w}`, its height
/// where that has `{h}`, and all else as it is there.
pub proof fn covers_are_asked_for_in_their_size(
    start: Seq<char>,
    between: Seq<char>,
    end: Seq<char>,
    width: u32,
    height: u32,
)
    requires
        forall|i: int| 0 <= i < start.len() ==> #[trigger] start[i] != '{',
        forall|i: int| 0 <= i < between.len() ==> #[trigger] between[i] != '{',
        forall|i: int| 0 <= i < end.len() ==> #[trigger] end[i] != '{',
    ensures
        artwork_url(
            start + seq!['{', 'w', '}'] + between + seq!['{', 'h', '}'] + end,
            width,
            height,
        ) == start + decimal(width as nat) + between + decimal(height as nat) + end,
{
    reveal_strlit("{w}");
    reveal_strlit("{h}");
    let w = "{w}"@;
    let h = "{h}"@;
    assert(w =~= seq!['{', 'w', '}']);
    assert(h =~= seq!['{', 'h', '}']);
    let x = decimal(width as nat);
    let y = decimal(height as nat);
    lemma_decimal(width as nat);
    let template = start + w + between + h + end;
    let rest = between + h + end;
    assert(template =~= start + w + rest);
    lemma_one_replaced(start, w, rest, x);
    assert(replaced(rest, w, x) == rest) by {
        let n = between.len() as int;
        replacing_goes_from_left_to_right(rest, w, x, 0);
        if contains_text(rest, w) {
            let i = choose|i: int| occurs_at(rest, w, i);
            assert(rest.subrange(i, i + 3)[0] == rest[i]);
            assert(rest.subrange(i, i + 3)[1] == rest[i + 1]);
            if i < n {
                assert(rest[i] == between[i]);
            } else if i >= n + 3 {
                assert(rest[i] == end[i - n - 3]);
            } else {
                assert(rest[n] == h[0] && rest[n + 1] == h[1] && rest[n + 2] == h[2]);
            }
        }
    }
    let head = start + x + between;
    assert(start + x + rest =~= head + h + end);
    assert forall|i: int| 0 <= i < head.len() implies #[trigger] head[i] != '{' by {
        if i < start.len() {
            assert(head[i] == start[i]);
        } else if i < start.len() + x.len() {
            assert(head[i] == x[i - start.len()]);
            assert(ascii_digit(x[i - start.len()]));
        } else {
            assert(head[i] == between[i - start.len() - x.len()]);
        }
    }
    lemma_one_replaced(head, h, end, y);
    lemma_none_replaced(end, h, y);
    assert(artwork_url(template, width, height) =~= start + x + between + y + end);
}

/// A further page is asked for where the catalog says it is, below the root that
/// all requests go to.
pub proof fn pages_are_asked_for_below_the_root(next: Seq<char>)
    requires
        !starts_with(next, seq!['/', 'v', '1']),
    ensures
        page_request(seq!['/', 'v', '1'] + next).path == next,
        page_request(next).path == next,
        page_request(next).query.len() == 0,
{
    reveal_strlit("/v1");
    assert("/v1"@ =~= seq!['/', 'v', '1']);
    prefix_is_taken_off(next, "/v1"@);
}

/// The tracks of an album are asked for page by page, as long as the last answer
/// names a further one, and where it names it.
pub proof fn pages_are_followed_to_the_last(
    resource: AlbumResource,
    pages: Seq<Relationship<TrackResource>>,
)
    ensures
        ({
            let next = extended_by(begun(resource), pages).next;
            &&& pages.len() > 0 ==> (next is Some <==> pages.last().next is Some)
            &&& pages.len() > 0 && next is Some ==> next == Some(pages.last().next->0@)
            &&& pages.len() == 0 ==> (next is Some <==> resource.relationships.tracks is Some
                && resource.relationships.tracks->0.next is Some)
            &&& pages.len() == 0 && next is Some ==> next == Some(
                resource.relationships.tracks->0.next->0@,
            )
        }),
{
}

/// An album without a barcode carries none, whatever is asked for, and one with a
/// barcode carries what agrees with it.
pub proof fn albums_without_a_barcode_carry_none(upc: Seq<char>, barcode: Seq<char>)
    ensures
        !upc_agrees(None, barcode),
        upc_agrees(Some(upc), barcode) <==> barcode_digits(upc) == barcode_digits(barcode)
            && barcode_digits(upc).len() > 0,
{
}

} // verus!
