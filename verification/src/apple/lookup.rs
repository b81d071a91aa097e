//! Looking up which albums the songs with given ISRCs are on.
use vstd::prelude::*;

use crate::apple::catalog::{
    catalog_path, ids, page_request, request_page, stub_ids, AlbumStub, Catalog, Relationship,
    SongResource,
};
use crate::apple::exchange::{Request, RequestView};
use crate::table::{in_order, lemma_order_exists, ordered, Table};
use crate::text::{
    copy_all, join, joined, joining_puts_the_separator_between, maybe_text, texts, to_upper,
    upper_case,
};

verus! {

/// How many ISRCs are asked for at once.
pub const ISRC_BATCH: usize = 25;

/// Lists of strings, by their characters.
pub open spec fn lists(table: Map<Seq<char>, Vec<String>>) -> Map<Seq<char>, Seq<Seq<char>>> {
    table.map_values(|list: Vec<String>| texts(list@))
}

/// A lookup under way: the ISRCs that are still to be asked for, those that are
/// being asked for, the albums gathered for these, the songs of the answer that
/// have not been gone through, the ISRC whose albums are continued on a further
/// page, and what has been found.
pub struct IsrcLookup {
    pending: Vec<String>,
    batch: Vec<String>,
    gathered: Table<Vec<String>>,
    songs: Vec<SongResource>,
    paging: Option<(String, String)>,
    found: Table<Vec<String>>,
}

/// Where a lookup stands, with the albums that are known by ISRC.
pub struct LookupState {
    pub pending: Seq<Seq<char>>,
    pub batch: Seq<Seq<char>>,
    pub gathered: Map<Seq<char>, Seq<Seq<char>>>,
    pub songs: Seq<SongResource>,
    pub paging: Option<(Seq<char>, Seq<char>)>,
    pub found: Map<Seq<char>, Seq<Seq<char>>>,
    pub known: Map<Seq<char>, Seq<Seq<char>>>,
}

impl IsrcLookup {
    /// Where the lookup stands.
    pub closed spec fn state(self, catalog: Catalog) -> LookupState {
        LookupState {
            pending: texts(self.pending@),
            batch: texts(self.batch@),
            gathered: lists(self.gathered@),
            songs: self.songs@,
            paging: match self.paging {
                Some(paging) => Some((paging.0@, paging.1@)),
                None => None,
            },
            found: lists(self.found@),
            known: lists(catalog.songs@),
        }
    }
}

/// What is known to a lookup is what the catalog holds, whichever lookup put it
/// there.
pub proof fn known_is_what_the_catalog_holds(lookup: IsrcLookup, catalog: Catalog)
    ensures
        lookup.state(catalog).known == lists(catalog.songs@),
{
}

/// Some identifiers in order, each once.
pub open spec fn each_once(ids: Seq<Seq<char>>) -> Seq<Seq<char>> {
    in_order(ids.to_set())
}

/// Some identifiers in order, each once.
pub fn sort_ids(ids: &Vec<String>) -> (sorted: Vec<String>)
    ensures
        texts(sorted@) == each_once(texts(ids@)),
        ordered(texts(sorted@)),
        texts(sorted@).to_set() == texts(ids@).to_set(),
{
    let mut table: Table<bool> = Table::new();
    let mut i: usize = 0;
    proof {
        assert(table@.dom() =~= texts(ids@).take(0).to_set());
    }
    while i < ids.len()
        invariant
            i <= ids@.len(),
            table@.dom() == texts(ids@).take(i as int).to_set(),
        decreases ids@.len() - i,
    {
        let ghost before = table@.dom();
        table.insert(ids[i].clone(), true);
        proof {
            let all = texts(ids@);
            assert(table@.dom() =~= before.insert(all[i as int]));
            assert(all.take(i + 1) =~= all.take(i as int).push(all[i as int]));
            all.take(i as int).lemma_push_to_set_commute(all[i as int]);
        }
        i += 1;
    }
    proof {
        assert(texts(ids@).take(i as int) =~= texts(ids@));
    }
    table.keys()
}

/// The start of a lookup: what is known by its ISRC is found at once, and the
/// rest is still to be asked for.
pub open spec fn started(
    known: Map<Seq<char>, Seq<Seq<char>>>,
    isrcs: Seq<Seq<char>>,
) -> LookupState
    decreases isrcs.len(),
{
    if isrcs.len() == 0 {
        LookupState {
            pending: seq![],
            batch: seq![],
            gathered: Map::empty(),
            songs: seq![],
            paging: None,
            found: Map::empty(),
            known,
        }
    } else {
        let before = started(known, isrcs.drop_last());
        let isrc = isrcs.last();
        if known.contains_key(upper_case(isrc)) {
            LookupState {
                found: before.found.insert(isrc, known[upper_case(isrc)]),
                ..before
            }
        } else {
            LookupState { pending: before.pending.push(isrc), ..before }
        }
    }
}

/// No albums yet, for each of some ISRCs in upper case.
pub open spec fn nothing_gathered(batch: Seq<Seq<char>>) -> Map<Seq<char>, Seq<Seq<char>>>
    decreases batch.len(),
{
    if batch.len() == 0 {
        Map::empty()
    } else {
        nothing_gathered(batch.drop_last()).insert(upper_case(batch.last()), seq![])
    }
}

/// How many of `n` ISRCs go into the next batch.
pub open spec fn batch_size(n: int) -> int {
    if n < ISRC_BATCH {
        n
    } else {
        ISRC_BATCH as int
    }
}

/// A lookup that turns to the next ISRCs.
pub open spec fn opened(state: LookupState) -> LookupState {
    let size = batch_size(state.pending.len() as int);
    LookupState {
        pending: state.pending.skip(size),
        batch: state.pending.take(size),
        gathered: nothing_gathered(state.pending.take(size)),
        songs: seq![],
        paging: None,
        ..state
    }
}

/// A lookup whose batch has been answered, with what was gathered put down for
/// the first of `n` ISRCs in the batch. Of an ISRC in several spellings, each gets
/// the same.
pub open spec fn put_down(state: LookupState, n: int) -> LookupState
    decreases n,
{
    if n <= 0 {
        state
    } else {
        let before = put_down(state, n - 1);
        let isrc = state.batch[n - 1];
        let upper = upper_case(isrc);
        let albums = if state.gathered.contains_key(upper) {
            each_once(state.gathered[upper])
        } else {
            each_once(seq![])
        };
        LookupState {
            known: before.known.insert(upper, albums),
            found: before.found.insert(isrc, albums),
            ..before
        }
    }
}

/// The albums that a song was answered to be on, for the ISRC in upper case
/// that they count for: only where that ISRC was asked for.
pub open spec fn albums_for(
    song: SongResource,
    gathered: Map<Seq<char>, Seq<Seq<char>>>,
) -> Option<(Seq<char>, Relationship<AlbumStub>)> {
    match (song.attributes.isrc, song.relationships.albums) {
        (Some(isrc), Some(albums)) => if gathered.contains_key(upper_case(isrc@)) {
            Some((upper_case(isrc@), albums))
        } else {
            None
        },
        _ => None,
    }
}

/// A lookup that has taken in some albums for an ISRC in upper case.
pub open spec fn taken_in(
    state: LookupState,
    upper: Seq<char>,
    albums: Relationship<AlbumStub>,
) -> LookupState {
    let before = if state.gathered.contains_key(upper) {
        state.gathered[upper]
    } else {
        seq![]
    };
    LookupState {
        gathered: state.gathered.insert(upper, before + stub_ids(albums.data@)),
        paging: match maybe_text(albums.next) {
            Some(next) => Some((upper, next)),
            None => None,
        },
        ..state
    }
}

/// A lookup that has gone through the songs of an answer, up to one whose
/// albums are continued on a further page.
pub open spec fn gone_through(state: LookupState) -> LookupState
    decreases state.songs.len(),
{
    if state.paging is Some || state.songs.len() == 0 {
        state
    } else {
        let rest = LookupState { songs: state.songs.drop_first(), ..state };
        match albums_for(state.songs[0], state.gathered) {
            Some((upper, albums)) => gone_through(taken_in(rest, upper, albums)),
            None => gone_through(rest),
        }
    }
}

/// A lookup after an event: it goes through the songs it has, and, where no
/// page is wanting, puts down what it gathered and turns to the next batch.
pub open spec fn settled(state: LookupState) -> LookupState {
    let through = gone_through(state);
    if through.paging is Some {
        through
    } else {
        opened(put_down(through, through.batch.len() as int))
    }
}

/// A lookup that has got the songs of its batch.
pub open spec fn with_songs(state: LookupState, songs: Seq<SongResource>) -> LookupState {
    settled(LookupState { songs, ..state })
}

/// A lookup that has got a further page of the albums of a song.
pub open spec fn with_page(state: LookupState, page: Relationship<AlbumStub>) -> LookupState {
    match state.paging {
        Some((upper, _)) => settled(
            taken_in(LookupState { paging: None, ..state }, upper, page),
        ),
        None => state,
    }
}

/// The request for the songs of a batch.
pub open spec fn songs_request(storefront: Seq<char>, batch: Seq<Seq<char>>) -> RequestView {
    RequestView {
        path: catalog_path(storefront, "/songs"@),
        query: seq![("filter[isrc]"@, joined(batch, ","@)), ("include"@, "albums"@)],
    }
}

/// What a lookup asks next.
pub enum Question {
    /// The songs of a batch.
    Songs(Request),
    /// A further page of the albums of a song.
    Page(Request),
    /// Nothing: the lookup is complete.
    Nothing,
}

impl Catalog {
    /// Starts to look up which albums the songs with some ISRCs are on.
    pub fn album_ids_by_isrcs(&self, isrcs: &Vec<String>) -> (lookup: IsrcLookup)
        ensures
            lookup.state(*self) == opened(started(lists(self.songs@), texts(isrcs@))),
    {
        let ghost known = lists(self.songs@);
        let ghost all = texts(isrcs@);
        let mut found: Table<Vec<String>> = Table::new();
        let mut pending: Vec<String> = Vec::new();
        let mut i: usize = 0;
        proof {
            assert(lists(found@) =~= Map::empty());
            assert(texts(pending@) =~= seq![]);
            assert(all.take(0) =~= seq![]);
        }
        while i < isrcs.len()
            invariant
                i <= isrcs@.len(),
                all == texts(isrcs@),
                known == lists(self.songs@),
                started(known, all.take(i as int)) == (LookupState {
                    pending: texts(pending@),
                    batch: seq![],
                    gathered: Map::empty(),
                    songs: seq![],
                    paging: None,
                    found: lists(found@),
                    known,
                }),
            decreases isrcs@.len() - i,
        {
            let ghost was_pending = texts(pending@);
            let ghost was_found = lists(found@);
            proof {
                assert(all.take(i + 1).drop_last() =~= all.take(i as int));
                assert(all.take(i + 1).last() == isrcs@[i as int]@);
            }
            let upper = to_upper(isrcs[i].as_str());
            match self.songs.get(upper.as_str()) {
                Some(ids) => {
                    let ids = copy_all(ids);
                    let ghost list = texts(ids@);
                    let isrc = isrcs[i].clone();
                    found.insert(isrc, ids);
                    proof {
                        assert(lists(found@) =~= was_found.insert(isrc@, list));
                        assert(known[upper@] == list);
                    }
                },
                None => {
                    let isrc = isrcs[i].clone();
                    pending.push(isrc);
                    proof {
                        assert(texts(pending@) =~= was_pending.push(isrc@));
                    }
                },
            }
            i += 1;
        }
        proof {
            assert(all.take(i as int) =~= all);
        }
        let mut lookup = IsrcLookup {
            pending,
            batch: Vec::new(),
            gathered: Table::new(),
            songs: Vec::new(),
            paging: None,
            found,
        };
        proof {
            assert(texts(lookup.batch@) =~= seq![]);
            assert(lists(lookup.gathered@) =~= Map::empty());
            assert(lookup.state(*self).songs =~= seq![]);
        }
        lookup.open(Ghost(*self));
        lookup
    }
}

impl IsrcLookup {
    /// Turns to the next ISRCs.
    fn open(&mut self, Ghost(catalog): Ghost<Catalog>)
        ensures
            final(self).state(catalog) == opened(old(self).state(catalog)),
    {
        let ghost before = self.state(catalog);
        let mut batch: Vec<String> = Vec::new();
        let mut gathered: Table<Vec<String>> = Table::new();
        let size = if self.pending.len() < ISRC_BATCH {
            self.pending.len()
        } else {
            ISRC_BATCH
        };
        proof {
            assert(texts(batch@) =~= before.pending.take(0));
            assert(lists(gathered@) =~= nothing_gathered(before.pending.take(0)));
        }
        while batch.len() < size
            invariant
                batch@.len() <= size <= self.pending@.len(),
                before.pending == texts(self.pending@),
                texts(batch@) == before.pending.take(batch@.len() as int),
                lists(gathered@) == nothing_gathered(before.pending.take(batch@.len() as int)),
            decreases size - batch@.len(),
        {
            let ghost n = batch@.len() as int;
            let ghost was_batch = texts(batch@);
            let ghost was_gathered = lists(gathered@);
            let isrc = self.pending[batch.len()].clone();
            let nothing: Vec<String> = Vec::new();
            gathered.insert(to_upper(isrc.as_str()), nothing);
            proof {
                assert(texts(nothing@) =~= seq![]);
                assert(lists(gathered@) =~= was_gathered.insert(upper_case(isrc@), seq![]));
                assert(before.pending.take(n + 1).drop_last() =~= before.pending.take(n));
            }
            batch.push(isrc);
            proof {
                assert(texts(batch@) =~= was_batch.push(isrc@));
                assert(texts(batch@) =~= before.pending.take(n + 1));
            }
        }
        let pending = self.pending.split_off(size);
        proof {
            assert(texts(pending@) =~= before.pending.skip(size as int));
        }
        self.pending = pending;
        self.batch = batch;
        self.gathered = gathered;
        self.songs = Vec::new();
        self.paging = None;
        proof {
            assert(self.state(catalog).songs =~= seq![]);
        }
    }

    /// What to ask next.
    pub fn question(&self, catalog: &Catalog) -> (question: Question)
        ensures
            match question {
                Question::Page(request) => match self.state(*catalog).paging {
                    Some((_, next)) => request@ == page_request(next),
                    None => false,
                },
                Question::Songs(request) => self.state(*catalog).paging is None && self.state(
                    *catalog,
                ).batch.len() > 0 && request@ == songs_request(
                    catalog.storefront@,
                    self.state(*catalog).batch,
                ),
                Question::Nothing => self.state(*catalog).paging is None && self.state(
                    *catalog,
                ).batch.len() == 0,
            },
    {
        if let Some((_, next)) = &self.paging {
            return Question::Page(request_page(next.as_str()));
        }
        if self.batch.len() == 0 {
            return Question::Nothing;
        }
        let filter = join(&self.batch, ",");
        let request = Request::new(catalog.path("/songs")).with("filter[isrc]", filter.as_str()).with(
            "include",
            "albums",
        );
        proof {
            assert(request@.query =~= seq![
                ("filter[isrc]"@, filter@),
                ("include"@, "albums"@),
            ]);
        }
        Question::Songs(request)
    }

    /// What is said where the next page of albums does not come.
    pub fn note(&self, catalog: &Catalog) -> (message: Option<String>)
        ensures
            match message {
                Some(message) => match self.state(*catalog).paging {
                    Some((_, next)) => message@ == "apple: paging albums via "@ + next,
                    None => false,
                },
                None => self.state(*catalog).paging is None,
            },
    {
        match &self.paging {
            Some((_, next)) => {
                let mut message = "apple: paging albums via ".to_owned();
                message.append(next.as_str());
                Some(message)
            },
            None => None,
        }
    }

    /// Takes in some albums for an ISRC in upper case.
    fn take_in(
        &mut self,
        upper: String,
        albums: Relationship<AlbumStub>,
        Ghost(catalog): Ghost<Catalog>,
    )
        requires
            old(self).state(catalog).paging is None,
        ensures
            final(self).state(catalog) == taken_in(old(self).state(catalog), upper@, albums),
    {
        let ghost before = self.state(catalog);
        let mut list: Vec<String> = match self.gathered.remove(upper.as_str()) {
            Some(list) => list,
            None => Vec::new(),
        };
        let ghost was = texts(list@);
        proof {
            if !before.gathered.contains_key(upper@) {
                assert(was =~= seq![]);
            }
        }
        let mut more = ids(albums.data);
        let ghost added = texts(more@);
        list.append(&mut more);
        proof {
            assert(texts(list@) =~= was + added);
        }
        let key = upper.clone();
        self.gathered.insert(key, list);
        proof {
            assert(lists(self.gathered@) =~= before.gathered.insert(upper@, was + added));
        }
        self.paging = match albums.next {
            Some(next) => Some((upper, next)),
            None => None,
        };
    }

    /// Goes through the songs that are left, up to one whose albums are
    /// continued on a further page.
    fn go_through(&mut self, Ghost(catalog): Ghost<Catalog>)
        ensures
            final(self).state(catalog) == gone_through(old(self).state(catalog)),
    {
        let ghost before = self.state(catalog);
        while self.paging.is_none() && self.songs.len() > 0
            invariant
                gone_through(self.state(catalog)) == gone_through(before),
            decreases self.songs@.len(),
        {
            let ghost now = self.state(catalog);
            let song = self.songs.remove(0);
            let ghost rest = LookupState { songs: now.songs.drop_first(), ..now };
            proof {
                assert(self.songs@ =~= now.songs.drop_first());
                assert(self.state(catalog) == rest);
            }
            if let Some(isrc) = song.attributes.isrc {
                let upper = to_upper(isrc.as_str());
                if self.gathered.contains(upper.as_str()) {
                    if let Some(albums) = song.relationships.albums {
                        self.take_in(upper, albums, Ghost(catalog));
                    }
                }
            }
        }
    }

    /// Puts down what was gathered for the batch.
    fn put_down(&mut self, catalog: &mut Catalog)
        ensures
            final(self).state(*final(catalog)) == put_down(
                old(self).state(*old(catalog)),
                old(self).state(*old(catalog)).batch.len() as int,
            ),
            final(catalog).storefront == old(catalog).storefront,
            final(catalog).albums == old(catalog).albums,
    {
        let ghost before = self.state(*catalog);
        let mut i: usize = 0;
        while i < self.batch.len()
            invariant
                i <= self.batch@.len(),
                texts(self.batch@) == before.batch,
                self.state(*catalog) == put_down(before, i as int),
                lists(self.gathered@) == before.gathered,
                catalog.storefront == old(catalog).storefront,
                catalog.albums == old(catalog).albums,
            decreases self.batch@.len() - i,
        {
            let ghost now = self.state(*catalog);
            let isrc = self.batch[i].clone();
            let upper = to_upper(isrc.as_str());
            let albums = match self.gathered.get(upper.as_str()) {
                Some(list) => sort_ids(list),
                None => {
                    let none: Vec<String> = Vec::new();
                    proof {
                        assert(texts(none@) =~= seq![]);
                    }
                    sort_ids(&none)
                },
            };
            let copy = copy_all(&albums);
            let ghost sorted = texts(albums@);
            catalog.songs.insert(upper, copy);
            self.found.insert(isrc, albums);
            proof {
                assert(lists(catalog.songs@) =~= now.known.insert(upper_case(isrc@), sorted));
                assert(lists(self.found@) =~= now.found.insert(isrc@, sorted));
                assert(before.batch[i as int] == isrc@);
            }
            i += 1;
        }
    }

    fn settle(&mut self, catalog: &mut Catalog)
        ensures
            final(self).state(*final(catalog)) == settled(old(self).state(*old(catalog))),
            final(catalog).storefront == old(catalog).storefront,
            final(catalog).albums == old(catalog).albums,
    {
        self.go_through(Ghost(*catalog));
        if self.paging.is_none() {
            self.put_down(catalog);
            self.open(Ghost(*catalog));
        }
    }

    /// Takes the songs that were answered for the batch.
    pub fn songs(&mut self, catalog: &mut Catalog, songs: Vec<SongResource>)
        requires
            old(self).state(*old(catalog)).paging is None,
        ensures
            final(self).state(*final(catalog)) == with_songs(
                old(self).state(*old(catalog)),
                songs@,
            ),
            final(catalog).storefront == old(catalog).storefront,
            final(catalog).albums == old(catalog).albums,
    {
        self.songs = songs;
        self.settle(catalog);
    }

    /// Takes a further page of the albums of a song.
    pub fn page(&mut self, catalog: &mut Catalog, page: Relationship<AlbumStub>)
        requires
            old(self).state(*old(catalog)).paging is Some,
        ensures
            final(self).state(*final(catalog)) == with_page(
                old(self).state(*old(catalog)),
                page,
            ),
            final(catalog).storefront == old(catalog).storefront,
            final(catalog).albums == old(catalog).albums,
    {
        if let Some((upper, _)) = self.paging.take() {
            self.take_in(upper, page, Ghost(*catalog));
            self.settle(catalog);
        }
    }

    /// What was found, once the lookup is complete.
    pub fn finish(self, catalog: &Catalog) -> (found: Table<Vec<String>>)
        requires
            self.state(*catalog).paging is None,
            self.state(*catalog).batch.len() == 0,
        ensures
            lists(found@) == self.state(*catalog).found,
    {
        self.found
    }
}

/// Whether all of some lists are in order, which also means that nothing is in
/// one of them twice.
pub open spec fn all_ordered(lists: Map<Seq<char>, Seq<Seq<char>>>) -> bool {
    forall|key: Seq<char>| #[trigger] lists.contains_key(key) ==> ordered(lists[key])
}

/// What holds of a lookup for the ISRCs in `asked` at all times: each of these
/// is found, being asked for or still to be asked for, and no other is; as long
/// as any is to be asked for, some are being asked for; and what is found or
/// known is in order.
pub open spec fn sound(state: LookupState, asked: Set<Seq<char>>) -> bool {
    &&& forall|isrc: Seq<char>|
        #![trigger asked.contains(isrc)]
        asked.contains(isrc) <==> (state.found.contains_key(isrc) || state.batch.contains(isrc)
            || state.pending.contains(isrc))
    &&& state.pending.len() > 0 ==> state.batch.len() > 0
    &&& all_ordered(state.found)
    &&& all_ordered(state.known)
}

proof fn lemma_some_order(ids: Seq<Seq<char>>)
    ensures
        ordered(each_once(ids)),
        each_once(ids).to_set() == ids.to_set(),
{
    broadcast use vstd::seq_lib::seq_to_set_is_finite;

    lemma_order_exists(ids.to_set());
}

proof fn lemma_opened_sound(state: LookupState, asked: Set<Seq<char>>)
    requires
        forall|isrc: Seq<char>|
            #![trigger asked.contains(isrc)]
            asked.contains(isrc) <==> (state.found.contains_key(isrc) || state.pending.contains(
                isrc,
            )),
        all_ordered(state.found),
        all_ordered(state.known),
    ensures
        sound(opened(state), asked),
{
    let next = opened(state);
    let size = batch_size(state.pending.len() as int);
    assert forall|isrc: Seq<char>| state.pending.contains(isrc) <==> (next.batch.contains(isrc)
        || next.pending.contains(isrc)) by {
        if state.pending.contains(isrc) {
            let i = choose|i: int| 0 <= i < state.pending.len() && state.pending[i] == isrc;
            if i < size {
                assert(next.batch[i] == isrc);
            } else {
                assert(next.pending[i - size] == isrc);
            }
        }
        if next.batch.contains(isrc) {
            let i = choose|i: int| 0 <= i < next.batch.len() && next.batch[i] == isrc;
            assert(state.pending[i] == isrc);
        }
        if next.pending.contains(isrc) {
            let i = choose|i: int| 0 <= i < next.pending.len() && next.pending[i] == isrc;
            assert(state.pending[i + size] == isrc);
        }
    }
}

/// A lookup is sound from the start, where what is known is in order.
pub proof fn lookup_starts_sound(known: Map<Seq<char>, Seq<Seq<char>>>, isrcs: Seq<Seq<char>>)
    requires
        all_ordered(known),
    ensures
        sound(opened(started(known, isrcs)), isrcs.to_set()),
{
    lemma_started(known, isrcs);
    lemma_opened_sound(started(known, isrcs), isrcs.to_set());
}

proof fn lemma_started(known: Map<Seq<char>, Seq<Seq<char>>>, isrcs: Seq<Seq<char>>)
    requires
        all_ordered(known),
    ensures
        all_ordered(started(known, isrcs).found),
        started(known, isrcs).known == known,
        forall|isrc: Seq<char>|
            #![trigger isrcs.to_set().contains(isrc)]
            isrcs.to_set().contains(isrc) <==> (started(known, isrcs).found.contains_key(isrc)
                || started(known, isrcs).pending.contains(isrc)),
    decreases isrcs.len(),
{
    if isrcs.len() > 0 {
        let front = isrcs.drop_last();
        let last = isrcs.last();
        lemma_started(known, front);
        let before = started(known, front);
        let after = started(known, isrcs);
        assert(isrcs =~= front.push(last));
        front.lemma_push_to_set_commute(last);
        assert forall|isrc: Seq<char>|
            #![trigger isrcs.to_set().contains(isrc)]
            isrcs.to_set().contains(isrc) <==> (after.found.contains_key(isrc)
                || after.pending.contains(isrc)) by {
            assert(front.to_set().contains(isrc) <==> (before.found.contains_key(isrc)
                || before.pending.contains(isrc)));
            if !known.contains_key(upper_case(last)) {
                assert(after.pending == before.pending.push(last));
                if before.pending.contains(isrc) {
                    let i = choose|i: int|
                        0 <= i < before.pending.len() && before.pending[i] == isrc;
                    assert(after.pending[i] == isrc);
                }
                assert(after.pending[after.pending.len() - 1] == last);
            }
        }
    }
}

proof fn lemma_put_down(state: LookupState, n: int)
    requires
        0 <= n <= state.batch.len(),
        all_ordered(state.found),
        all_ordered(state.known),
    ensures
        ({
            let after = put_down(state, n);
            &&& after.pending == state.pending
            &&& after.batch == state.batch
            &&& after.songs == state.songs
            &&& after.paging == state.paging
            &&& all_ordered(after.found)
            &&& all_ordered(after.known)
            &&& forall|isrc: Seq<char>| #[trigger]
                after.found.contains_key(isrc) <==> (state.found.contains_key(isrc)
                    || state.batch.take(n).contains(isrc))
        }),
    decreases n,
{
    if n > 0 {
        lemma_put_down(state, n - 1);
        let before = put_down(state, n - 1);
        let after = put_down(state, n);
        let last = state.batch[n - 1];
        lemma_some_order(seq![]);
        let upper = upper_case(last);
        if state.gathered.contains_key(upper) {
            lemma_some_order(state.gathered[upper]);
        }
        assert(state.batch.take(n) =~= state.batch.take(n - 1).push(last));
        assert forall|isrc: Seq<char>| #[trigger]
            after.found.contains_key(isrc) <==> (state.found.contains_key(isrc)
                || state.batch.take(n).contains(isrc)) by {
            assert(before.found.contains_key(isrc) <==> (state.found.contains_key(isrc)
                || state.batch.take(n - 1).contains(isrc)));
            let shorter = state.batch.take(n - 1);
            if shorter.contains(isrc) {
                let i = choose|i: int| 0 <= i < shorter.len() && shorter[i] == isrc;
                assert(state.batch.take(n)[i] == isrc);
            }
            assert(state.batch.take(n)[n - 1] == last);
        }
    } else {
        assert(state.batch.take(0) =~= seq![]);
    }
}

proof fn lemma_gone_through(state: LookupState)
    ensures
        gone_through(state).pending == state.pending,
        gone_through(state).batch == state.batch,
        gone_through(state).found == state.found,
        gone_through(state).known == state.known,
        gone_through(state).paging is None ==> gone_through(state).songs.len() == 0,
    decreases state.songs.len(),
{
    if !(state.paging is Some || state.songs.len() == 0) {
        let rest = LookupState { songs: state.songs.drop_first(), ..state };
        match albums_for(state.songs[0], state.gathered) {
            Some((upper, albums)) => lemma_gone_through(taken_in(rest, upper, albums)),
            None => lemma_gone_through(rest),
        }
    }
}

proof fn lemma_settled_sound(state: LookupState, asked: Set<Seq<char>>)
    requires
        sound(state, asked),
    ensures
        sound(settled(state), asked),
{
    lemma_gone_through(state);
    let through = gone_through(state);
    if through.paging is None {
        lemma_put_down(through, through.batch.len() as int);
        let down = put_down(through, through.batch.len() as int);
        assert(through.batch.take(through.batch.len() as int) =~= through.batch);
        lemma_opened_sound(down, asked);
    }
}

/// Whatever songs and pages are answered, a lookup stays sound.
pub proof fn lookup_stays_sound(
    state: LookupState,
    asked: Set<Seq<char>>,
    songs: Seq<SongResource>,
    page: Relationship<AlbumStub>,
)
    requires
        sound(state, asked),
    ensures
        sound(with_songs(state, songs), asked),
        sound(with_page(state, page), asked),
{
    lemma_settled_sound(LookupState { songs, ..state }, asked);
    if let Some((upper, _)) = state.paging {
        lemma_settled_sound(
            taken_in(LookupState { paging: None, ..state }, upper, page),
            asked,
        );
    }
}

/// A lookup that asks for nothing more has found something, be it nothing, for
/// each ISRC and for no other, in order and each album once.
pub proof fn complete_lookup_answers_all(state: LookupState, asked: Set<Seq<char>>)
    requires
        sound(state, asked),
        state.batch.len() == 0,
    ensures
        state.found.dom() == asked,
        all_ordered(state.found),
{
    assert forall|isrc: Seq<char>| state.found.dom().contains(isrc) <==> asked.contains(isrc) by {
        assert(asked.contains(isrc) <==> (state.found.contains_key(isrc) || state.batch.contains(
            isrc,
        ) || state.pending.contains(isrc)));
    }
    assert(state.found.dom() =~= asked);
}

/// Whether the albums of a song end after no more than `depth` further pages,
/// where `pages` holds what is answered for each.
pub open spec fn ends_within(
    albums: Relationship<AlbumStub>,
    pages: Map<Seq<char>, Relationship<AlbumStub>>,
    depth: nat,
) -> bool
    decreases depth,
{
    match albums.next {
        None => true,
        Some(next) => depth > 0 && ends_within(pages[next@], pages, (depth - 1) as nat),
    }
}

/// The albums of a song, over all their pages.
pub open spec fn albums_on(
    albums: Relationship<AlbumStub>,
    pages: Map<Seq<char>, Relationship<AlbumStub>>,
    depth: nat,
) -> Seq<Seq<char>>
    decreases depth,
{
    match albums.next {
        Some(next) if depth > 0 => stub_ids(albums.data@) + albums_on(
            pages[next@],
            pages,
            (depth - 1) as nat,
        ),
        _ => stub_ids(albums.data@),
    }
}

/// The albums that some songs are on, for one ISRC in upper case.
pub open spec fn listed(
    songs: Seq<SongResource>,
    upper: Seq<char>,
    pages: Map<Seq<char>, Relationship<AlbumStub>>,
    depth: nat,
) -> Seq<Seq<char>>
    decreases songs.len(),
{
    if songs.len() == 0 {
        seq![]
    } else {
        let first = match (songs[0].attributes.isrc, songs[0].relationships.albums) {
            (Some(isrc), Some(albums)) => if upper_case(isrc@) == upper {
                albums_on(albums, pages, depth)
            } else {
                seq![]
            },
            _ => seq![],
        };
        first + listed(songs.drop_first(), upper, pages, depth)
    }
}

/// Whether the albums of each of some songs end after no more than `depth`
/// further pages.
pub open spec fn all_end_within(
    songs: Seq<SongResource>,
    pages: Map<Seq<char>, Relationship<AlbumStub>>,
    depth: nat,
) -> bool {
    forall|i: int|
        0 <= i < songs.len() ==> ((#[trigger] songs[i]).relationships.albums matches Some(albums)
            ==> ends_within(albums, pages, depth))
}

/// A lookup that gets the pages it asks for, up to so many.
pub open spec fn paged(
    state: LookupState,
    pages: Map<Seq<char>, Relationship<AlbumStub>>,
    steps: nat,
) -> LookupState
    decreases steps,
{
    match state.paging {
        Some((_, next)) if steps > 0 => paged(
            with_page(state, pages[next]),
            pages,
            (steps - 1) as nat,
        ),
        _ => state,
    }
}

/// Whether `end` is `state` with all its songs gone through.
spec fn gathers_all(
    state: LookupState,
    end: LookupState,
    pages: Map<Seq<char>, Relationship<AlbumStub>>,
    depth: nat,
) -> bool {
    &&& end.paging is None
    &&& end.batch == state.batch
    &&& end.pending == state.pending
    &&& end.gathered.dom() == state.gathered.dom()
    &&& forall|upper: Seq<char>| #[trigger]
        state.gathered.contains_key(upper) ==> end.gathered[upper] == state.gathered[upper]
            + listed(state.songs, upper, pages, depth)
}

proof fn lemma_gathers_more(
    state: LookupState,
    next: LookupState,
    end: LookupState,
    key: Seq<char>,
    more: Seq<Seq<char>>,
    songs: Seq<SongResource>,
    pages: Map<Seq<char>, Relationship<AlbumStub>>,
    depth: nat,
)
    requires
        state.gathered.contains_key(key),
        next.batch == state.batch,
        next.pending == state.pending,
        next.songs == songs,
        next.gathered == state.gathered.insert(key, state.gathered[key] + more),
        gathers_all(next, end, pages, depth),
        forall|upper: Seq<char>|
            #[trigger] listed(state.songs, upper, pages, depth) == (if upper == key {
                more
            } else {
                seq![]
            }) + listed(songs, upper, pages, depth),
    ensures
        gathers_all(state, end, pages, depth),
{
    assert(next.gathered.dom() =~= state.gathered.dom());
    assert forall|upper: Seq<char>| #[trigger] state.gathered.contains_key(upper) implies
        end.gathered[upper] == state.gathered[upper] + listed(
        state.songs,
        upper,
        pages,
        depth,
    ) by {
        assert(next.gathered.contains_key(upper));
        let rest = listed(songs, upper, pages, depth);
        if upper == key {
            assert((state.gathered[key] + more) + rest =~= state.gathered[key] + (more + rest));
        } else {
            assert(Seq::<Seq<char>>::empty() + rest =~= rest);
        }
    }
}

/// Goes on with the songs of an answer, from between two songs, and gives how
/// many pages that takes.
proof fn lemma_sweep(
    state: LookupState,
    pages: Map<Seq<char>, Relationship<AlbumStub>>,
    depth: nat,
) -> (result: (nat, LookupState))
    requires
        state.paging is None,
        all_end_within(state.songs, pages, depth),
    ensures
        gathers_all(state, result.1, pages, depth),
        paged(settled(state), pages, result.0) == opened(
            put_down(result.1, result.1.batch.len() as int),
        ),
    decreases state.songs.len(), depth + 1,
{
    if state.songs.len() == 0 {
        assert forall|upper: Seq<char>| #[trigger] state.gathered.contains_key(upper) implies
            state.gathered[upper] == state.gathered[upper] + listed(
            state.songs,
            upper,
            pages,
            depth,
        ) by {
            assert(state.gathered[upper] + listed(state.songs, upper, pages, depth)
                =~= state.gathered[upper]);
        }
        (0, state)
    } else {
        let song = state.songs[0];
        let songs = state.songs.drop_first();
        let rest = LookupState { songs, ..state };
        assert(all_end_within(songs, pages, depth)) by {
            assert forall|i: int| 0 <= i < songs.len() implies ((
            #[trigger] songs[i]).relationships.albums matches Some(albums) ==> ends_within(
                albums,
                pages,
                depth,
            )) by {
                assert(songs[i] == state.songs[i + 1]);
            }
        }
        match albums_for(song, state.gathered) {
            Some((key, albums)) => {
                assert(ends_within(albums, pages, depth));
                let next = taken_in(rest, key, albums);
                let (steps, end) = lemma_pages(
                    rest,
                    key,
                    albums,
                    pages,
                    depth,
                    depth,
                );
                assert(settled(state) == settled(next)) by {
                    assert(gone_through(state) == gone_through(next));
                }
                lemma_gathers_more(
                    state,
                    LookupState {
                        gathered: state.gathered.insert(
                            key,
                            state.gathered[key] + albums_on(albums, pages, depth),
                        ),
                        ..rest
                    },
                    end,
                    key,
                    albums_on(albums, pages, depth),
                    songs,
                    pages,
                    depth,
                );
                (steps, end)
            },
            None => {
                let (steps, end) = lemma_sweep(rest, pages, depth);
                assert(gone_through(state) == gone_through(rest));
                assert forall|upper: Seq<char>| #[trigger] state.gathered.contains_key(
                    upper,
                ) implies end.gathered[upper] == state.gathered[upper] + listed(
                    state.songs,
                    upper,
                    pages,
                    depth,
                ) by {
                    assert(rest.gathered.contains_key(upper));
                    assert(listed(state.songs, upper, pages, depth) =~= listed(
                        songs,
                        upper,
                        pages,
                        depth,
                    ));
                }
                (steps, end)
            },
        }
    }
}

/// Goes on with the songs of an answer, from a page of the albums of a song on.
proof fn lemma_pages(
    state: LookupState,
    key: Seq<char>,
    albums: Relationship<AlbumStub>,
    pages: Map<Seq<char>, Relationship<AlbumStub>>,
    depth: nat,
    left: nat,
) -> (result: (nat, LookupState))
    requires
        state.paging is None,
        state.gathered.contains_key(key),
        all_end_within(state.songs, pages, depth),
        ends_within(albums, pages, left),
    ensures
        gathers_all(
            LookupState {
                gathered: state.gathered.insert(
                    key,
                    state.gathered[key] + albums_on(albums, pages, left),
                ),
                ..state
            },
            result.1,
            pages,
            depth,
        ),
        paged(settled(taken_in(state, key, albums)), pages, result.0) == opened(
            put_down(result.1, result.1.batch.len() as int),
        ),
    decreases state.songs.len() + 1, left,
{
    let next = taken_in(state, key, albums);
    match albums.next {
        None => {
            let (steps, end) = lemma_sweep(next, pages, depth);
            (steps, end)
        },
        Some(path) => {
            let page = pages[path@];
            let after = LookupState { paging: None, ..next };
            let (steps, end) = lemma_pages(after, key, page, pages, depth, (left - 1) as nat);
            let more = stub_ids(albums.data@);
            let others = albums_on(page, pages, (left - 1) as nat);
            assert(after.gathered[key] + others =~= state.gathered[key] + (more + others));
            assert(after.gathered.insert(key, after.gathered[key] + others)
                =~= state.gathered.insert(key, state.gathered[key] + albums_on(albums, pages, left)));
            assert(gone_through(next) == next);
            assert(with_page(next, page) == settled(taken_in(after, key, page)));
            (steps + 1, end)
        },
    }
}

proof fn lemma_put_down_each(state: LookupState, n: int, i: int)
    requires
        0 <= i < n <= state.batch.len(),
        state.gathered.contains_key(upper_case(state.batch[i])),
    ensures
        put_down(state, n).found.contains_key(state.batch[i]),
        put_down(state, n).found[state.batch[i]] == each_once(
            state.gathered[upper_case(state.batch[i])],
        ),
        put_down(state, n).known.contains_key(upper_case(state.batch[i])),
        put_down(state, n).known[upper_case(state.batch[i])] == each_once(
            state.gathered[upper_case(state.batch[i])],
        ),
    decreases n,
{
    if i < n - 1 {
        lemma_put_down_each(state, n - 1, i);
    }
}

proof fn lemma_nothing_gathered(batch: Seq<Seq<char>>, i: int)
    requires
        0 <= i < batch.len(),
    ensures
        nothing_gathered(batch).contains_key(upper_case(batch[i])),
        nothing_gathered(batch)[upper_case(batch[i])] == Seq::<Seq<char>>::empty(),
    decreases batch.len(),
{
    if i < batch.len() - 1 {
        lemma_nothing_gathered(batch.drop_last(), i);
    }
}

proof fn lemma_batch(
    state: LookupState,
    songs: Seq<SongResource>,
    pages: Map<Seq<char>, Relationship<AlbumStub>>,
    depth: nat,
) -> (result: (nat, LookupState))
    requires
        state.paging is None,
        state.gathered == nothing_gathered(state.batch),
        all_end_within(songs, pages, depth),
    ensures
        ({
            let after = paged(with_songs(state, songs), pages, result.0);
            &&& result.1.pending == state.pending
            &&& after == opened(put_down(result.1, result.1.batch.len() as int))
            &&& forall|i: int|
                0 <= i < state.batch.len() ==> {
                    let isrc = #[trigger] state.batch[i];
                    let albums = each_once(listed(songs, upper_case(isrc), pages, depth));
                    &&& after.found.contains_key(isrc)
                    &&& after.found[isrc] == albums
                    &&& after.known.contains_key(upper_case(isrc))
                    &&& after.known[upper_case(isrc)] == albums
                }
        }),
{
    let asked = LookupState { songs, ..state };
    let (steps, end) = lemma_sweep(asked, pages, depth);
    let after = paged(with_songs(state, songs), pages, steps);
    assert forall|i: int| 0 <= i < state.batch.len() implies {
        let isrc = #[trigger] state.batch[i];
        let albums = each_once(listed(songs, upper_case(isrc), pages, depth));
        &&& after.found.contains_key(isrc)
        &&& after.found[isrc] == albums
        &&& after.known.contains_key(upper_case(isrc))
        &&& after.known[upper_case(isrc)] == albums
    } by {
        let upper = upper_case(state.batch[i]);
        lemma_nothing_gathered(state.batch, i);
        assert(asked.gathered.contains_key(upper));
        assert(end.gathered.contains_key(upper));
        assert(asked.gathered[upper] + listed(songs, upper, pages, depth) =~= listed(
            songs,
            upper,
            pages,
            depth,
        ));
        lemma_put_down_each(end, end.batch.len() as int, i);
    }
    (steps, end)
}

/// Once the songs of a batch are answered, and so many further pages as there
/// are, every ISRC of the batch has just the albums that the songs with that ISRC
/// are on, in order and each once; and that is known for later.
pub proof fn lookup_finds_what_songs_list(
    state: LookupState,
    songs: Seq<SongResource>,
    pages: Map<Seq<char>, Relationship<AlbumStub>>,
    depth: nat,
) -> (steps: nat)
    requires
        state.paging is None,
        state.gathered == nothing_gathered(state.batch),
        all_end_within(songs, pages, depth),
    ensures
        ({
            let after = paged(with_songs(state, songs), pages, steps);
            &&& after.paging is None
            &&& forall|i: int|
                0 <= i < state.batch.len() ==> {
                    let isrc = #[trigger] state.batch[i];
                    let albums = each_once(listed(songs, upper_case(isrc), pages, depth));
                    &&& after.found.contains_key(isrc)
                    &&& after.found[isrc] == albums
                    &&& after.known.contains_key(upper_case(isrc))
                    &&& after.known[upper_case(isrc)] == albums
                }
        }),
{
    let (steps, _) = lemma_batch(state, songs, pages, depth);
    steps
}

/// What is answered to a lookup.
pub enum Answer {
    /// The songs of a batch.
    Songs(Seq<SongResource>),
    /// A further page of the albums of a song.
    Page(Relationship<AlbumStub>),
}

/// A lookup that has got some answers.
pub open spec fn answered(state: LookupState, answers: Seq<Answer>) -> LookupState
    decreases answers.len(),
{
    if answers.len() == 0 {
        state
    } else {
        let before = answered(state, answers.drop_last());
        match answers.last() {
            Answer::Songs(songs) => with_songs(before, songs),
            Answer::Page(page) => with_page(before, page),
        }
    }
}

/// Whether an ISRC is found, and neither being asked for nor still to be.
pub open spec fn done_with(state: LookupState, isrc: Seq<char>) -> bool {
    &&& state.found.contains_key(isrc)
    &&& !state.batch.contains(isrc)
    &&& !state.pending.contains(isrc)
}

proof fn lemma_put_down_others(state: LookupState, n: int, isrc: Seq<char>)
    requires
        0 <= n <= state.batch.len(),
        !state.batch.contains(isrc),
    ensures
        put_down(state, n).found.contains_key(isrc) == state.found.contains_key(isrc),
        put_down(state, n).found[isrc] == state.found[isrc],
        put_down(state, n).batch == state.batch,
        put_down(state, n).pending == state.pending,
    decreases n,
{
    if n > 0 {
        lemma_put_down_others(state, n - 1, isrc);
        assert(state.batch.contains(state.batch[n - 1]));
    }
}

proof fn lemma_opened_others(state: LookupState, isrc: Seq<char>)
    requires
        !state.pending.contains(isrc),
    ensures
        !opened(state).batch.contains(isrc),
        !opened(state).pending.contains(isrc),
{
    let next = opened(state);
    let size = batch_size(state.pending.len() as int);
    if next.batch.contains(isrc) {
        let i = choose|i: int| 0 <= i < next.batch.len() && next.batch[i] == isrc;
        assert(state.pending[i] == isrc);
    }
    if next.pending.contains(isrc) {
        let i = choose|i: int| 0 <= i < next.pending.len() && next.pending[i] == isrc;
        assert(state.pending[i + size] == isrc);
    }
}

proof fn lemma_settled_others(state: LookupState, isrc: Seq<char>)
    requires
        done_with(state, isrc),
    ensures
        done_with(settled(state), isrc),
        settled(state).found[isrc] == state.found[isrc],
{
    let through = gone_through(state);
    lemma_gone_through(state);
    if through.paging is None {
        let n = through.batch.len() as int;
        lemma_put_down_others(through, n, isrc);
        lemma_opened_others(put_down(through, n), isrc);
    }
}

/// What is found stays found: whatever is answered to later batches, an ISRC that
/// a lookup is done with keeps its albums.
pub proof fn found_stays_found(state: LookupState, answers: Seq<Answer>, isrc: Seq<char>)
    requires
        done_with(state, isrc),
    ensures
        done_with(answered(state, answers), isrc),
        answered(state, answers).found[isrc] == state.found[isrc],
    decreases answers.len(),
{
    if answers.len() > 0 {
        let front = answers.drop_last();
        found_stays_found(state, front, isrc);
        let before = answered(state, front);
        match answers.last() {
            Answer::Songs(songs) => {
                lemma_settled_others(LookupState { songs, ..before }, isrc);
            },
            Answer::Page(page) => {
                if let Some((upper, _)) = before.paging {
                    lemma_settled_others(
                        taken_in(LookupState { paging: None, ..before }, upper, page),
                        isrc,
                    );
                }
            },
        }
    }
}

/// What a batch found is what the lookup ends with: every ISRC of the batch that
/// is not still to be asked for has just the albums that the songs with that ISRC
/// are on, whatever is answered to later batches.
pub proof fn batch_result_lasts(
    state: LookupState,
    songs: Seq<SongResource>,
    pages: Map<Seq<char>, Relationship<AlbumStub>>,
    depth: nat,
    later: Seq<Answer>,
    i: int,
) -> (steps: nat)
    requires
        state.paging is None,
        state.gathered == nothing_gathered(state.batch),
        all_end_within(songs, pages, depth),
        0 <= i < state.batch.len(),
        !state.pending.contains(state.batch[i]),
    ensures
        ({
            let isrc = state.batch[i];
            let after = answered(paged(with_songs(state, songs), pages, steps), later);
            &&& done_with(after, isrc)
            &&& after.found[isrc] == each_once(listed(songs, upper_case(isrc), pages, depth))
        }),
{
    let isrc = state.batch[i];
    let (steps, end) = lemma_batch(state, songs, pages, depth);
    let after = paged(with_songs(state, songs), pages, steps);
    let down = put_down(end, end.batch.len() as int);
    lemma_put_down_pending(end, end.batch.len() as int);
    lemma_opened_others(down, isrc);
    assert(after.found.contains_key(isrc));
    found_stays_found(after, later, isrc);
    steps
}

proof fn lemma_put_down_pending(state: LookupState, n: int)
    ensures
        put_down(state, n).pending == state.pending,
        put_down(state, n).batch == state.batch,
    decreases n,
{
    if n > 0 {
        lemma_put_down_pending(state, n - 1);
    }
}

/// What is known needs no asking: a lookup for ISRCs that are all known is
/// complete from the start, with what is known.
pub proof fn known_needs_no_asking(
    known: Map<Seq<char>, Seq<Seq<char>>>,
    isrcs: Seq<Seq<char>>,
)
    requires
        forall|i: int| 0 <= i < isrcs.len() ==> known.contains_key(upper_case(#[trigger] isrcs[i])),
    ensures
        opened(started(known, isrcs)).paging is None,
        opened(started(known, isrcs)).batch.len() == 0,
        forall|i: int|
            0 <= i < isrcs.len() ==> opened(started(known, isrcs)).found.contains_key(
                #[trigger] isrcs[i],
            ) && opened(started(known, isrcs)).found[isrcs[i]] == known[upper_case(isrcs[i])],
    decreases isrcs.len(),
{
    if isrcs.len() > 0 {
        let front = isrcs.drop_last();
        assert forall|i: int| 0 <= i < front.len() implies known.contains_key(
            upper_case(#[trigger] front[i]),
        ) by {
            assert(known.contains_key(upper_case(isrcs[i])));
        }
        known_needs_no_asking(known, front);
        assert(known.contains_key(upper_case(isrcs[isrcs.len() - 1])));
        assert(started(known, front).pending.len() == 0);
        assert forall|i: int| 0 <= i < isrcs.len() implies opened(
            started(known, isrcs),
        ).found.contains_key(#[trigger] isrcs[i]) && opened(started(known, isrcs)).found[isrcs[i]]
            == known[upper_case(isrcs[i])] by {
            if i < front.len() {
                assert(front[i] == isrcs[i]);
            }
        }
    }
}

/// Whether no two of some ISRCs are the same but for their case.
pub open spec fn differ_in_upper_case(isrcs: Set<Seq<char>>) -> bool {
    forall|a: Seq<char>, b: Seq<char>| #[trigger]
        isrcs.contains(a) && #[trigger] isrcs.contains(b) && upper_case(a) == upper_case(b) ==> a
            == b
}

/// Whether what a lookup has found is known by the ISRC in upper case.
pub open spec fn found_is_known(state: LookupState) -> bool {
    forall|isrc: Seq<char>| #[trigger]
        state.found.contains_key(isrc) ==> state.known.contains_key(upper_case(isrc))
            && state.known[upper_case(isrc)] == state.found[isrc]
}

proof fn lemma_started_known(known: Map<Seq<char>, Seq<Seq<char>>>, isrcs: Seq<Seq<char>>)
    ensures
        found_is_known(started(known, isrcs)),
        started(known, isrcs).known == known,
    decreases isrcs.len(),
{
    if isrcs.len() > 0 {
        lemma_started_known(known, isrcs.drop_last());
    }
}

proof fn lemma_put_down_known(state: LookupState, asked: Set<Seq<char>>, n: int)
    requires
        0 <= n <= state.batch.len(),
        differ_in_upper_case(asked),
        found_is_known(state),
        forall|isrc: Seq<char>| #[trigger]
            state.found.contains_key(isrc) ==> asked.contains(isrc),
        forall|i: int| 0 <= i < state.batch.len() ==> asked.contains(#[trigger] state.batch[i]),
    ensures
        found_is_known(put_down(state, n)),
        forall|isrc: Seq<char>| #[trigger]
            put_down(state, n).found.contains_key(isrc) ==> asked.contains(isrc),
    decreases n,
{
    if n > 0 {
        lemma_put_down_known(state, asked, n - 1);
        let before = put_down(state, n - 1);
        let after = put_down(state, n);
        let last = state.batch[n - 1];
        assert forall|isrc: Seq<char>| #[trigger] after.found.contains_key(isrc) implies
            after.known.contains_key(upper_case(isrc)) && after.known[upper_case(isrc)]
            == after.found[isrc] by {
            if isrc != last {
                assert(before.found.contains_key(isrc));
                assert(asked.contains(isrc) && asked.contains(last));
            }
        }
    }
}

proof fn lemma_settled_known(state: LookupState, asked: Set<Seq<char>>)
    requires
        sound(state, asked),
        differ_in_upper_case(asked),
        found_is_known(state),
    ensures
        found_is_known(settled(state)),
{
    let through = gone_through(state);
    lemma_gone_through(state);
    if through.paging is None {
        assert forall|isrc: Seq<char>| #[trigger]
            through.found.contains_key(isrc) implies asked.contains(isrc) by {
            assert(asked.contains(isrc) <==> (state.found.contains_key(isrc)
                || state.batch.contains(isrc) || state.pending.contains(isrc)));
        }
        assert forall|i: int| 0 <= i < through.batch.len() implies asked.contains(
            #[trigger] through.batch[i],
        ) by {
            let isrc = through.batch[i];
            assert(state.batch.contains(isrc));
            assert(asked.contains(isrc) <==> (state.found.contains_key(isrc)
                || state.batch.contains(isrc) || state.pending.contains(isrc)));
        }
        lemma_put_down_known(through, asked, through.batch.len() as int);
    }
}

/// Whatever is answered to a lookup, it stays sound, and what it has found is
/// known by the ISRC in upper case, where no two of the ISRCs asked for are the
/// same but for their case.
pub proof fn what_is_found_becomes_known(
    known: Map<Seq<char>, Seq<Seq<char>>>,
    isrcs: Seq<Seq<char>>,
    answers: Seq<Answer>,
)
    requires
        all_ordered(known),
        differ_in_upper_case(isrcs.to_set()),
    ensures
        sound(answered(opened(started(known, isrcs)), answers), isrcs.to_set()),
        found_is_known(answered(opened(started(known, isrcs)), answers)),
    decreases answers.len(),
{
    let asked = isrcs.to_set();
    let start = opened(started(known, isrcs));
    if answers.len() == 0 {
        lookup_starts_sound(known, isrcs);
        lemma_started_known(known, isrcs);
    } else {
        let front = answers.drop_last();
        what_is_found_becomes_known(known, isrcs, front);
        let before = answered(start, front);
        match answers.last() {
            Answer::Songs(songs) => {
                let next = LookupState { songs, ..before };
                lemma_settled_sound(next, asked);
                lemma_settled_known(next, asked);
            },
            Answer::Page(page) => {
                if let Some((upper, _)) = before.paging {
                    let next = taken_in(LookupState { paging: None, ..before }, upper, page);
                    lemma_settled_sound(next, asked);
                    lemma_settled_known(next, asked);
                }
            },
        }
    }
}

/// What has been looked up is not asked for again: after a complete lookup of
/// ISRCs no two of which are the same but for their case, one for any of these, in
/// whatever case, is complete from the start, and gives each the albums that the
/// first lookup found, be it none. What is known by then is in order, so that any
/// further lookup starts sound.
pub proof fn looked_up_once(
    known: Map<Seq<char>, Seq<Seq<char>>>,
    isrcs: Seq<Seq<char>>,
    answers: Seq<Answer>,
    again: Seq<Seq<char>>,
)
    requires
        all_ordered(known),
        differ_in_upper_case(isrcs.to_set()),
        answered(opened(started(known, isrcs)), answers).batch.len() == 0,
        forall|i: int|
            0 <= i < again.len() ==> exists|j: int|
                0 <= j < isrcs.len() && upper_case(#[trigger] again[i]) == upper_case(
                    #[trigger] isrcs[j],
                ),
    ensures
        ({
            let first = answered(opened(started(known, isrcs)), answers);
            let second = opened(started(first.known, again));
            &&& all_ordered(first.known)
            &&& sound(second, again.to_set())
            &&& second.paging is None
            &&& second.batch.len() == 0
            &&& forall|i: int, j: int|
                0 <= i < again.len() && 0 <= j < isrcs.len() && upper_case(#[trigger] again[i])
                    == upper_case(#[trigger] isrcs[j]) ==> {
                    &&& first.found.contains_key(isrcs[j])
                    &&& second.found.contains_key(again[i])
                    &&& second.found[again[i]] == first.found[isrcs[j]]
                }
        }),
{
    let asked = isrcs.to_set();
    let first = answered(opened(started(known, isrcs)), answers);
    let second = opened(started(first.known, again));
    what_is_found_becomes_known(known, isrcs, answers);
    complete_lookup_answers_all(first, asked);
    assert forall|j: int| 0 <= j < isrcs.len() implies first.found.contains_key(
        #[trigger] isrcs[j],
    ) by {
        assert(asked.contains(isrcs[j]));
        assert(first.found.dom().contains(isrcs[j]));
    }
    assert forall|i: int| 0 <= i < again.len() implies first.known.contains_key(
        upper_case(#[trigger] again[i]),
    ) by {
        let j = choose|j: int|
            0 <= j < isrcs.len() && upper_case(again[i]) == upper_case(#[trigger] isrcs[j]);
        assert(first.found.contains_key(isrcs[j]));
    }
    known_needs_no_asking(first.known, again);
    lookup_starts_sound(first.known, again);
}

/// Whether a lookup holds what was known before it, and neither asks nor will ask
/// for any of that.
spec fn leaves_alone(state: LookupState, known: Map<Seq<char>, Seq<Seq<char>>>) -> bool {
    &&& known.submap_of(state.known)
    &&& forall|i: int|
        0 <= i < state.batch.len() ==> !known.contains_key(upper_case(#[trigger] state.batch[i]))
    &&& forall|i: int|
        0 <= i < state.pending.len() ==> !known.contains_key(
            upper_case(#[trigger] state.pending[i]),
        )
}

proof fn lemma_started_alone(known: Map<Seq<char>, Seq<Seq<char>>>, isrcs: Seq<Seq<char>>)
    ensures
        leaves_alone(started(known, isrcs), known),
    decreases isrcs.len(),
{
    if isrcs.len() > 0 {
        lemma_started_alone(known, isrcs.drop_last());
    }
}

proof fn lemma_put_down_alone(
    state: LookupState,
    known: Map<Seq<char>, Seq<Seq<char>>>,
    n: int,
)
    requires
        0 <= n <= state.batch.len(),
        leaves_alone(state, known),
    ensures
        leaves_alone(put_down(state, n), known),
    decreases n,
{
    if n > 0 {
        lemma_put_down_alone(state, known, n - 1);
        lemma_put_down_pending(state, n - 1);
        assert(!known.contains_key(upper_case(state.batch[n - 1])));
    }
}

proof fn lemma_settled_alone(state: LookupState, known: Map<Seq<char>, Seq<Seq<char>>>)
    requires
        leaves_alone(state, known),
    ensures
        leaves_alone(settled(state), known),
{
    let through = gone_through(state);
    lemma_gone_through(state);
    if through.paging is None {
        let down = put_down(through, through.batch.len() as int);
        lemma_put_down_alone(through, known, through.batch.len() as int);
        let next = opened(down);
        let size = batch_size(down.pending.len() as int);
        assert forall|i: int| 0 <= i < next.pending.len() implies !known.contains_key(
            upper_case(#[trigger] next.pending[i]),
        ) by {
            assert(next.pending[i] == down.pending[i + size]);
        }
    }
}

proof fn lemma_answered_alone(
    state: LookupState,
    known: Map<Seq<char>, Seq<Seq<char>>>,
    answers: Seq<Answer>,
)
    requires
        leaves_alone(state, known),
    ensures
        leaves_alone(answered(state, answers), known),
    decreases answers.len(),
{
    if answers.len() > 0 {
        let front = answers.drop_last();
        lemma_answered_alone(state, known, front);
        let before = answered(state, front);
        match answers.last() {
            Answer::Songs(songs) => {
                lemma_settled_alone(LookupState { songs, ..before }, known);
            },
            Answer::Page(page) => {
                if let Some((upper, _)) = before.paging {
                    lemma_settled_alone(
                        taken_in(LookupState { paging: None, ..before }, upper, page),
                        known,
                    );
                }
            },
        }
    }
}

/// What is known stays known: whatever a lookup asks for, and whatever is answered
/// to it, what was known before it is known after it, unchanged.
pub proof fn known_stays_known(
    known: Map<Seq<char>, Seq<Seq<char>>>,
    isrcs: Seq<Seq<char>>,
    answers: Seq<Answer>,
)
    ensures
        known.submap_of(answered(opened(started(known, isrcs)), answers).known),
{
    lemma_started_alone(known, isrcs);
    let start = started(known, isrcs);
    let next = opened(start);
    let size = batch_size(start.pending.len() as int);
    assert forall|i: int| 0 <= i < next.pending.len() implies !known.contains_key(
        upper_case(#[trigger] next.pending[i]),
    ) by {
        assert(next.pending[i] == start.pending[i + size]);
    }
    lemma_answered_alone(next, known, answers);
}

/// No more than twenty-five ISRCs are asked for at once, as many as there are up to
/// that, and each in its turn: those of the batch are the first of what was still
/// to be asked for, and what comes behind them is left.
pub proof fn isrcs_are_asked_for_in_batches(state: LookupState)
    ensures
        opened(state).batch + opened(state).pending == state.pending,
        opened(state).batch.len() <= 25,
        opened(state).pending.len() > 0 ==> opened(state).batch.len() == 25,
        opened(state).found == state.found,
        opened(state).known == state.known,
        opened(state).paging is None,
        opened(state).songs.len() == 0,
{
    assert(opened(state).batch + opened(state).pending =~= state.pending);
}

/// The songs of a batch are asked for by their ISRCs, all of them in one request,
/// with a comma between two, and together with the albums that they are on.
pub proof fn batches_are_asked_for_by_isrc(
    storefront: Seq<char>,
    batch: Seq<Seq<char>>,
    isrc: Seq<char>,
)
    ensures
        songs_request(storefront, batch).path == "/catalog/"@ + storefront + "/songs"@,
        songs_request(storefront, batch).query.len() == 2,
        songs_request(storefront, batch).query[0].0 == "filter[isrc]"@,
        songs_request(storefront, batch).query[1] == ("include"@, "albums"@),
        songs_request(storefront, seq![isrc]).query[0].1 == isrc,
        batch.len() > 0 ==> songs_request(storefront, batch.push(isrc)).query[0].1
            == songs_request(storefront, batch).query[0].1.push(',') + isrc,
{
    reveal_strlit(",");
    joining_puts_the_separator_between(batch, isrc, ","@);
    if batch.len() > 0 {
        let before = joined(batch, ","@);
        assert(before + ","@ + isrc =~= before.push(',') + isrc);
    }
}

/// What is known is found at once, under the ISRC as it was asked for, and the rest
/// is to be asked for, in the order in which it was given.
pub proof fn what_is_not_known_is_asked_for(
    known: Map<Seq<char>, Seq<Seq<char>>>,
    isrcs: Seq<Seq<char>>,
)
    ensures
        started(known, isrcs).pending == isrcs.filter(
            |isrc: Seq<char>| !known.contains_key(upper_case(isrc)),
        ),
        forall|isrc: Seq<char>| #[trigger]
            started(known, isrcs).found.contains_key(isrc) <==> isrcs.contains(isrc)
                && known.contains_key(upper_case(isrc)),
        forall|isrc: Seq<char>| #[trigger]
            started(known, isrcs).found.contains_key(isrc) ==> started(known, isrcs).found[isrc]
                == known[upper_case(isrc)],
        started(known, isrcs).known == known,
    decreases isrcs.len(),
{
    reveal(Seq::filter);
    let unknown = |isrc: Seq<char>| !known.contains_key(upper_case(isrc));
    let after = started(known, isrcs);
    if isrcs.len() > 0 {
        let front = isrcs.drop_last();
        let last = isrcs.last();
        what_is_not_known_is_asked_for(known, front);
        assert(isrcs[isrcs.len() - 1] == last);
        assert(unknown(last) == !known.contains_key(upper_case(last)));
        assert forall|isrc: Seq<char>| #[trigger] after.found.contains_key(isrc)
            <==> isrcs.contains(isrc) && known.contains_key(upper_case(isrc)) by {
            if front.contains(isrc) {
                let i = choose|i: int| 0 <= i < front.len() && front[i] == isrc;
                assert(isrcs[i] == isrc);
            }
            if isrcs.contains(isrc) && isrc != last {
                let i = choose|i: int| 0 <= i < isrcs.len() && isrcs[i] == isrc;
                assert(front[i] == isrc);
            }
            assert(started(known, front).found.contains_key(isrc) <==> front.contains(isrc)
                && known.contains_key(upper_case(isrc)));
        }
    } else {
        assert(after.pending =~= isrcs.filter(unknown));
    }
}

/// An album counts for an ISRC just where a song in the answer has that ISRC, in
/// whatever case, and the album is among its albums: on the first page of them or
/// on one of those that follow it.
pub proof fn albums_count_for_the_songs_they_hold(
    songs: Seq<SongResource>,
    upper: Seq<char>,
    pages: Map<Seq<char>, Relationship<AlbumStub>>,
    depth: nat,
    id: Seq<char>,
)
    ensures
        listed(songs, upper, pages, depth).contains(id) <==> exists|i: int|
            0 <= i < songs.len() && (#[trigger] songs[i]).attributes.isrc is Some && upper_case(
                songs[i].attributes.isrc->0@,
            ) == upper && songs[i].relationships.albums is Some && albums_on(
                songs[i].relationships.albums->0,
                pages,
                depth,
            ).contains(id),
    decreases songs.len(),
{
    if songs.len() > 0 {
        let rest = songs.drop_first();
        albums_count_for_the_songs_they_hold(rest, upper, pages, depth, id);
        let all = listed(songs, upper, pages, depth);
        let more = listed(rest, upper, pages, depth);
        let first = all.take(all.len() - more.len());
        let song = songs[0];
        let counts = song.attributes.isrc is Some && upper_case(song.attributes.isrc->0@) == upper
            && song.relationships.albums is Some;
        assert(first =~= if counts {
            albums_on(song.relationships.albums->0, pages, depth)
        } else {
            seq![]
        });
        assert(all =~= first + more);
        if all.contains(id) {
            let k = choose|k: int| 0 <= k < all.len() && all[k] == id;
            if k < first.len() {
                assert(first[k] == id);
                assert(first.contains(id));
                assert(songs[0].attributes.isrc is Some);
            } else {
                assert(more[k - first.len()] == id);
                assert(more.contains(id));
                let i = choose|i: int|
                    0 <= i < rest.len() && (#[trigger] rest[i]).attributes.isrc is Some
                        && upper_case(rest[i].attributes.isrc->0@) == upper
                        && rest[i].relationships.albums is Some && albums_on(
                        rest[i].relationships.albums->0,
                        pages,
                        depth,
                    ).contains(id);
                assert(songs[i + 1] == rest[i]);
            }
        }
        if exists|i: int|
            0 <= i < songs.len() && (#[trigger] songs[i]).attributes.isrc is Some && upper_case(
                songs[i].attributes.isrc->0@,
            ) == upper && songs[i].relationships.albums is Some && albums_on(
                songs[i].relationships.albums->0,
                pages,
                depth,
            ).contains(id) {
            let i = choose|i: int|
                0 <= i < songs.len() && (#[trigger] songs[i]).attributes.isrc is Some && upper_case(
                    songs[i].attributes.isrc->0@,
                ) == upper && songs[i].relationships.albums is Some && albums_on(
                    songs[i].relationships.albums->0,
                    pages,
                    depth,
                ).contains(id);
            if i == 0 {
                let k = choose|k: int| 0 <= k < first.len() && first[k] == id;
                assert(all[k] == id);
            } else {
                assert(rest[i - 1] == songs[i]);
                assert(more.contains(id));
                let k = choose|k: int| 0 <= k < more.len() && more[k] == id;
                assert(all[first.len() + k] == id);
            }
        }
    }
}

/// The albums of a song are those of each page, one page after the other: those
/// that a page holds, by their identifiers, and where it names a further page then
/// those of that.
pub proof fn albums_go_from_page_to_page(
    albums: Relationship<AlbumStub>,
    pages: Map<Seq<char>, Relationship<AlbumStub>>,
    depth: nat,
)
    ensures
        albums.next is None ==> albums_on(albums, pages, depth).len() == albums.data@.len(),
        albums.next matches Some(next) ==> (depth > 0 ==> {
            let rest = albums_on(pages[next@], pages, (depth - 1) as nat);
            &&& albums_on(albums, pages, depth).len() == albums.data@.len() + rest.len()
            &&& albums_on(albums, pages, depth).skip(albums.data@.len() as int) == rest
        }),
        forall|i: int|
            0 <= i < albums.data@.len() ==> albums_on(albums, pages, depth)[i] == (
            #[trigger] albums.data@[i]).id@,
{
    let all = albums_on(albums, pages, depth);
    if let Some(next) = albums.next {
        if depth > 0 {
            let rest = albums_on(pages[next@], pages, (depth - 1) as nat);
            assert(all.skip(albums.data@.len() as int) =~= rest);
        }
    }
}

} // verus!
