//! Which albums of the catalog some files may be: where to look for them, which
//! of what is found to go by, and in what order.
use vstd::prelude::*;

use crate::apple::catalog::{upc_agrees, Album, AlbumView, Found};
use crate::apple::lookup::lists;
use crate::ranking::{
    apart, arrange, in_rank_order, lemma_rank_order_map, rank_le, rank_order, rank_order_arranges,
    values_in_rank_order, Rank,
};
use crate::similarity::{alike, similar};
use crate::table::{in_order, lemma_order_exists, ordered, Table};
use crate::text::{maybe_text, text_before, texts};

verus! {

/// How many albums are gone by, of those that one source gives.
pub const CANDIDATE_LIMIT: usize = 8;

/// How many albums a search is asked for.
pub const SEARCH_LIMIT: usize = 15;

/// How many tracks fewer than files an album may have that a search finds.
pub const TRACK_SLACK: usize = 2;

/// What gave an album: the ISRCs of the files, their barcode, or a search for
/// what they are called.
#[derive(Clone, Copy, Debug, PartialEq, Eq, Structural)]
pub enum Source {
    Isrc,
    Barcode,
    Search,
}

impl Source {
    /// What a source is called.
    pub fn label(self) -> (label: &'static str)
        ensures
            label@ == label_of(self),
    {
        match self {
            Source::Isrc => "isrc",
            Source::Barcode => "barcode",
            Source::Search => "search",
        }
    }
}

/// What a source is called.
pub open spec fn label_of(source: Source) -> Seq<char> {
    match source {
        Source::Isrc => "isrc"@,
        Source::Barcode => "barcode"@,
        Source::Search => "search"@,
    }
}

/// What the files say of their album, and how many there are.
#[derive(Clone, Copy)]
pub struct Hint<'a> {
    pub upc: &'a str,
    pub album: Option<&'a str>,
    pub artist: Option<&'a str>,
    pub files: usize,
}

/// What the files say of their album, by its characters.
pub struct HintView {
    pub upc: Seq<char>,
    pub album: Option<Seq<char>>,
    pub artist: Option<Seq<char>>,
    pub files: usize,
}

impl<'a> View for Hint<'a> {
    type V = HintView;

    open spec fn view(&self) -> HintView {
        HintView {
            upc: self.upc@,
            album: match self.album {
                Some(album) => Some(album@),
                None => None,
            },
            artist: match self.artist {
                Some(artist) => Some(artist@),
                None => None,
            },
            files: self.files,
        }
    }
}

/// An album that the files may be: what gave it, and how often the ISRCs of the
/// files led to it.
pub struct Candidate {
    pub album: Album,
    pub source: Source,
    pub isrc_hits: usize,
}

/// An album that the files may be, by its characters.
pub struct CandidateView {
    pub album: AlbumView,
    pub source: Source,
    pub isrc_hits: usize,
}

impl View for Candidate {
    type V = CandidateView;

    open spec fn view(&self) -> CandidateView {
        CandidateView { album: self.album@, source: self.source, isrc_hits: self.isrc_hits }
    }
}

/// Some albums that the files may be, by their characters.
pub open spec fn candidate_views(candidates: Seq<Candidate>) -> Seq<CandidateView> {
    candidates.map_values(|candidate: Candidate| candidate@)
}

/// How far two numbers are apart.
fn distance(a: usize, b: usize) -> (d: usize)
    ensures
        d == apart(a as int, b as int),
{
    if a < b {
        b - a
    } else {
        a - b
    }
}

/// Whether an album can be taken without asking: it carries the barcode of the
/// files, or each of their ISRCs led to it.
pub open spec fn is_confident(candidate: CandidateView, hint: HintView) -> bool {
    upc_agrees(candidate.album.upc, hint.upc) || candidate.isrc_hits == hint.files
}

/// `1` for what does not hold, which is put behind what does.
pub open spec fn behind(holds: bool) -> u64 {
    if holds {
        0
    } else {
        1
    }
}

/// By what albums are put in order: by how often the ISRCs led there, then those
/// first that carry the barcode, then by how close the number of tracks is to
/// that of files.
pub open spec fn rank_of(candidate: CandidateView, hint: HintView) -> Rank {
    (
        (usize::MAX - candidate.isrc_hits) as u64,
        behind(upc_agrees(candidate.album.upc, hint.upc)),
        apart(candidate.album.tracks.len() as int, hint.files as int) as u64,
        0u64,
    )
}

impl Candidate {
    /// By what albums are put in order.
    pub fn rank(&self, hint: &Hint) -> (rank: Rank)
        ensures
            rank == rank_of(self@, hint@),
    {
        (
            (usize::MAX - self.isrc_hits) as u64,
            if self.album.matches_barcode(hint.upc) {
                0
            } else {
                1
            },
            distance(self.album.tracks.len(), hint.files) as u64,
            0,
        )
    }

    /// Whether the album can be taken without asking.
    pub fn confident(&self, hint: &Hint) -> (yes: bool)
        ensures
            yes == is_confident(self@, hint@),
    {
        self.album.matches_barcode(hint.upc) || self.isrc_hits == hint.files
    }
}

/// Which of some albums, the best of them first, is taken without asking: the
/// first, where it can be.
pub fn choose_candidate(candidates: &Vec<Candidate>, hint: &Hint) -> (index: Option<usize>)
    ensures
        index == if candidates@.len() > 0 && is_confident(candidates@[0]@, hint@) {
            Some(0usize)
        } else {
            None
        },
{
    if candidates.len() > 0 && candidates[0].confident(hint) {
        Some(0)
    } else {
        None
    }
}

/// An album to be asked for: how often the ISRCs led to it, and its identifier.
pub struct Lead {
    pub hits: usize,
    pub id: String,
}

/// An album to be asked for, by its characters.
pub struct LeadView {
    pub hits: usize,
    pub id: Seq<char>,
}

impl View for Lead {
    type V = LeadView;

    open spec fn view(&self) -> LeadView {
        LeadView { hits: self.hits, id: self.id@ }
    }
}

/// Some albums to be asked for, by their characters.
pub open spec fn lead_views(leads: Seq<Lead>) -> Seq<LeadView> {
    leads.map_values(|lead: Lead| lead@)
}

/// No more than `n` from the start of `s`.
pub open spec fn at_most<A>(s: Seq<A>, n: int) -> Seq<A> {
    if s.len() <= n {
        s
    } else {
        s.take(n)
    }
}

/// The albums that the ISRCs of the files lead to, as often as they do.
pub open spec fn mentions(
    isrcs: Seq<Seq<char>>,
    carried: Map<Seq<char>, Seq<Seq<char>>>,
) -> Seq<Seq<char>>
    decreases isrcs.len(),
{
    if isrcs.len() == 0 {
        seq![]
    } else {
        let earlier = mentions(isrcs.drop_last(), carried);
        if carried.contains_key(isrcs.last()) {
            earlier + carried[isrcs.last()]
        } else {
            earlier
        }
    }
}

/// How often `id` stands among `ids`.
pub open spec fn occurrences(ids: Seq<Seq<char>>, id: Seq<char>) -> nat
    decreases ids.len(),
{
    if ids.len() == 0 {
        0
    } else {
        occurrences(ids.drop_last(), id) + if ids.last() == id {
            1nat
        } else {
            0nat
        }
    }
}

/// How often `id` stands among `ids`, counted no further than a number goes.
pub open spec fn hits(ids: Seq<Seq<char>>, id: Seq<char>) -> usize {
    if occurrences(ids, id) <= usize::MAX {
        occurrences(ids, id) as usize
    } else {
        usize::MAX
    }
}

/// Whether an album that ISRCs lead to is gone by: at least half of them do, or
/// no other album is led to more often.
pub open spec fn convincing(isrcs: int, ids: Seq<Seq<char>>, id: Seq<char>) -> bool {
    ||| hits(ids, id) * 2 >= isrcs
    ||| forall|other: Seq<char>| #[trigger]
        ids.contains(other) ==> hits(ids, other) <= hits(ids, id)
}

/// The albums that are gone by, each with its rank: those that were led to more
/// often come first.
pub open spec fn ranked_leads(isrcs: int, ids: Seq<Seq<char>>) -> Seq<(Rank, LeadView)> {
    in_order(ids.to_set()).filter(|id: Seq<char>| convincing(isrcs, ids, id)).map_values(
        |id: Seq<char>|
            (
                ((usize::MAX - hits(ids, id)) as u64, 0u64, 0u64, 0u64),
                LeadView { hits: hits(ids, id), id },
            ),
    )
}

/// The albums to be asked for by the ISRCs of the files: those that are gone by,
/// the one first that was led to most often, and where two were as often, in the
/// order of their identifiers.
pub open spec fn isrc_leads(
    isrcs: Seq<Seq<char>>,
    carried: Map<Seq<char>, Seq<Seq<char>>>,
) -> Seq<LeadView> {
    at_most(
        values_in_rank_order(ranked_leads(isrcs.len() as int, mentions(isrcs, carried))),
        CANDIDATE_LIMIT as int,
    )
}

proof fn lemma_occurrences(ids: Seq<Seq<char>>, id: Seq<char>)
    ensures
        occurrences(ids, id) <= ids.len(),
        occurrences(ids, id) > 0 <==> ids.contains(id),
    decreases ids.len(),
{
    if ids.len() > 0 {
        let front = ids.drop_last();
        lemma_occurrences(front, id);
        if front.contains(id) {
            let i = choose|i: int| 0 <= i < front.len() && front[i] == id;
            assert(ids[i] == id);
        }
        if ids.last() == id {
            assert(ids[ids.len() - 1] == id);
        }
        if ids.contains(id) && ids.last() != id {
            let i = choose|i: int| 0 <= i < ids.len() && ids[i] == id;
            assert(front[i] == id);
        }
    }
}

/// Whether `counts` says how often each of `ids` stands there.
spec fn counted(ids: Seq<Seq<char>>, counts: Map<Seq<char>, usize>) -> bool {
    &&& counts.dom() == ids.to_set()
    &&& forall|id: Seq<char>| #[trigger]
        counts.contains_key(id) ==> counts[id] == hits(ids, id)
}

proof fn lemma_counted(
    ids: Seq<Seq<char>>,
    counts: Map<Seq<char>, usize>,
    id: Seq<char>,
    n: usize,
)
    requires
        counted(ids, counts),
        n == (if hits(ids, id) < usize::MAX {
            hits(ids, id) + 1
        } else {
            usize::MAX as int
        }),
    ensures
        counted(ids.push(id), counts.insert(id, n)),
{
    let all = ids.push(id);
    let after = counts.insert(id, n);
    ids.lemma_push_to_set_commute(id);
    assert(after.dom() =~= all.to_set());
    assert(all.drop_last() =~= ids);
}

/// How often each album is led to by the ISRCs of the files.
fn count_mentions(isrcs: &Vec<String>, carried: &Table<Vec<String>>) -> (counts: Table<usize>)
    ensures
        counted(mentions(texts(isrcs@), lists(carried@)), counts@),
{
    let ghost all = texts(isrcs@);
    let ghost map = lists(carried@);
    let mut counts: Table<usize> = Table::new();
    let mut i: usize = 0;
    proof {
        assert(mentions(all.take(0), map) =~= seq![]);
        assert(counts@.dom() =~= mentions(all.take(0), map).to_set());
    }
    while i < isrcs.len()
        invariant
            i <= isrcs@.len(),
            all == texts(isrcs@),
            map == lists(carried@),
            counted(mentions(all.take(i as int), map), counts@),
        decreases isrcs@.len() - i,
    {
        let ghost before = mentions(all.take(i as int), map);
        proof {
            assert(all.take(i + 1).drop_last() =~= all.take(i as int));
        }
        if let Some(ids) = carried.get(isrcs[i].as_str()) {
            let ghost list = texts(ids@);
            proof {
                assert(map[all[i as int]] == list);
                assert(before + list.take(0) =~= before);
            }
            let mut j: usize = 0;
            while j < ids.len()
                invariant
                    j <= ids@.len(),
                    list == texts(ids@),
                    counted(before + list.take(j as int), counts@),
                decreases ids@.len() - j,
            {
                let ghost so_far = before + list.take(j as int);
                let ghost counts_before = counts@;
                proof {
                    assert(so_far.push(list[j as int]) =~= before + list.take(j + 1));
                    lemma_occurrences(so_far, list[j as int]);
                }
                let n = match counts.get(ids[j].as_str()) {
                    Some(n) => *n,
                    None => {
                        proof {
                            assert(!so_far.to_set().contains(list[j as int]));
                        }
                        0
                    },
                };
                let more = if n < usize::MAX {
                    n + 1
                } else {
                    n
                };
                counts.insert(ids[j].clone(), more);
                proof {
                    lemma_counted(so_far, counts_before, list[j as int], more);
                }
                j += 1;
            }
            proof {
                assert(list.take(j as int) =~= list);
            }
        }
        i += 1;
    }
    proof {
        assert(all.take(i as int) =~= all);
    }
    counts
}

/// No more than so many from the start of some albums to be asked for.
fn shorten(leads: Vec<Lead>) -> (kept: Vec<Lead>)
    ensures
        lead_views(kept@) == at_most(lead_views(leads@), CANDIDATE_LIMIT as int),
{
    let mut leads = leads;
    let ghost all = leads@;
    leads.truncate(CANDIDATE_LIMIT);
    proof {
        assert(lead_views(leads@) =~= at_most(lead_views(all), CANDIDATE_LIMIT as int));
    }
    leads
}

/// How often the album is led to that is led to most often.
fn most_often(keys: &Vec<String>, counts: &Table<usize>) -> (most: usize)
    requires
        texts(keys@).to_set() == counts@.dom(),
    ensures
        forall|id: Seq<char>| #[trigger] counts@.contains_key(id) ==> counts@[id] <= most,
        counts@.dom() =~= Set::empty() || exists|id: Seq<char>| #[trigger]
            counts@.contains_key(id) && counts@[id] == most,
{
    let ghost all = texts(keys@);
    let mut most: usize = 0;
    let mut i: usize = 0;
    while i < keys.len()
        invariant
            i <= keys@.len(),
            all == texts(keys@),
            all.to_set() == counts@.dom(),
            forall|j: int| 0 <= j < i ==> counts@[#[trigger] all[j]] <= most,
            i == 0 || exists|id: Seq<char>| #[trigger]
                counts@.contains_key(id) && counts@[id] == most,
        decreases keys@.len() - i,
    {
        proof {
            assert(all.to_set().contains(all[i as int]));
            assert(counts@.contains_key(all[i as int]));
        }
        if let Some(n) = counts.get(keys[i].as_str()) {
            if i == 0 || *n > most {
                most = *n;
            }
        }
        i += 1;
    }
    proof {
        assert forall|id: Seq<char>| #[trigger] counts@.contains_key(id) implies counts@[id]
            <= most by {
            assert(all.to_set().contains(id));
            let j = choose|j: int| 0 <= j < all.len() && all[j] == id;
            assert(counts@[all[j]] <= most);
        }
        if keys@.len() == 0 {
            assert(counts@.dom() =~= Set::empty());
        }
    }
    most
}

/// The albums to be asked for by the ISRCs of the files, where `carried` says
/// which albums songs are on.
pub fn by_isrc(isrcs: &Vec<String>, carried: &Table<Vec<String>>) -> (leads: Vec<Lead>)
    ensures
        lead_views(leads@) == isrc_leads(texts(isrcs@), lists(carried@)),
{
    let ghost ids = mentions(texts(isrcs@), lists(carried@));
    let ghost n = texts(isrcs@).len() as int;
    let counts = count_mentions(isrcs, carried);
    let keys = counts.keys();
    let ghost all = texts(keys@);
    let most = most_often(&keys, &counts);
    let count = isrcs.len();
    let ghost keep = |id: Seq<char>| convincing(n, ids, id);
    let ghost ranked = |id: Seq<char>|
        (
            ((usize::MAX - hits(ids, id)) as u64, 0u64, 0u64, 0u64),
            LeadView { hits: hits(ids, id), id },
        );
    let ghost view = |lead: Lead| lead@;
    let ghost seen = |entry: (Rank, Lead)| (entry.0, view(entry.1));
    let mut entries: Vec<(Rank, Lead)> = Vec::new();
    let mut i: usize = 0;
    proof {
        reveal(Seq::filter);
        assert(all.take(0).filter(keep) =~= seq![]);
        assert(entries@.map_values(seen) =~= all.take(0).filter(keep).map_values(ranked));
    }
    while i < keys.len()
        invariant
            i <= keys@.len(),
            all == texts(keys@),
            all.to_set() == counts@.dom(),
            counted(ids, counts@),
            count == n,
            keep == |id: Seq<char>| convincing(n, ids, id),
            ranked == |id: Seq<char>|
                (
                    ((usize::MAX - hits(ids, id)) as u64, 0u64, 0u64, 0u64),
                    LeadView { hits: hits(ids, id), id },
                ),
            view == |lead: Lead| lead@,
            seen == |entry: (Rank, Lead)| (entry.0, view(entry.1)),
            forall|id: Seq<char>| #[trigger] counts@.contains_key(id) ==> counts@[id] <= most,
            counts@.dom() =~= Set::empty() || exists|id: Seq<char>| #[trigger]
                counts@.contains_key(id) && counts@[id] == most,
            entries@.map_values(seen) == all.take(i as int).filter(keep).map_values(ranked),
        decreases keys@.len() - i,
    {
        let ghost id = all[i as int];
        let ghost before = entries@.map_values(seen);
        let ghost kept = all.take(i as int).filter(keep);
        proof {
            assert(all.to_set().contains(id));
            assert(counts@.contains_key(id));
            reveal(Seq::filter);
            assert(all.take(i + 1).drop_last() =~= all.take(i as int));
            assert(kept.push(id).map_values(ranked) =~= kept.map_values(ranked).push(ranked(id)));
        }
        if let Some(number) = counts.get(keys[i].as_str()) {
            let number: usize = *number;
            proof {
                lemma_most(ids, counts@, id, most);
            }
            if number >= count || number >= count - number || number >= most {
                let lead = Lead { hits: number, id: keys[i].clone() };
                let ghost entry = (
                    ((usize::MAX - number) as u64, 0u64, 0u64, 0u64),
                    lead,
                );
                entries.push((((usize::MAX - number) as u64, 0, 0, 0), lead));
                proof {
                    assert(entries@.map_values(seen) =~= before.push(seen(entry)));
                    assert(keep(id));
                }
            } else {
                proof {
                    assert(!keep(id));
                }
            }
        }
        i += 1;
    }
    let ghost listed = entries@;
    let leads = arrange(entries);
    proof {
        assert(all.take(i as int) =~= all);
        lemma_rank_order_map(listed, view);
        assert(listed.map_values(seen) == ranked_leads(n, ids));
        assert(lead_views(leads@) =~= values_in_rank_order(ranked_leads(n, ids)));
    }
    shorten(leads)
}

proof fn lemma_most(
    ids: Seq<Seq<char>>,
    counts: Map<Seq<char>, usize>,
    id: Seq<char>,
    most: usize,
)
    requires
        counted(ids, counts),
        counts.contains_key(id),
        forall|id: Seq<char>| #[trigger] counts.contains_key(id) ==> counts[id] <= most,
        counts.dom() =~= Set::empty() || exists|id: Seq<char>| #[trigger]
            counts.contains_key(id) && counts[id] == most,
    ensures
        (counts[id] >= most) <==> forall|other: Seq<char>| #[trigger]
            ids.contains(other) ==> hits(ids, other) <= hits(ids, id),
{
    if counts[id] >= most {
        assert forall|other: Seq<char>| #[trigger] ids.contains(other) implies hits(ids, other)
            <= hits(ids, id) by {
            assert(ids.to_set().contains(other));
            assert(counts.contains_key(other));
        }
    } else {
        let top = choose|id: Seq<char>| #[trigger] counts.contains_key(id) && counts[id] == most;
        assert(counts.dom().contains(id));
        assert(ids.to_set().contains(top));
        assert(ids.contains(top));
    }
}

/// The albums to be asked for by the barcode of the files.
pub open spec fn barcode_leads(ids: Seq<Seq<char>>) -> Seq<LeadView> {
    at_most(ids.map_values(|id: Seq<char>| LeadView { hits: 0, id }), CANDIDATE_LIMIT as int)
}

/// The albums to be asked for by the barcode of the files, of those that carry
/// it.
pub fn by_barcode(ids: Vec<String>) -> (leads: Vec<Lead>)
    ensures
        lead_views(leads@) == barcode_leads(texts(ids@)),
{
    let ghost all = ids@;
    let ghost lead_of = |id: Seq<char>| LeadView { hits: 0, id };
    let mut leads: Vec<Lead> = Vec::new();
    for id in it: ids
        invariant
            it.seq() == all,
            lead_of == |id: Seq<char>| (LeadView { hits: 0, id }),
            lead_views(leads@) == texts(all.take(it.index() as int)).map_values(lead_of),
    {
        let ghost before = lead_views(leads@);
        let lead = Lead { hits: 0, id };
        leads.push(lead);
        proof {
            assert(lead_views(leads@) =~= before.push(lead@));
            assert(lead_views(leads@) =~= texts(all.take(it.index() + 1)).map_values(lead_of));
        }
    }
    proof {
        assert(all.take(all.len() as int) =~= all);
    }
    shorten(leads)
}

/// What is searched for: what the files are called, with their artist where they
/// name one. There is nothing to search for where they do not say what they are
/// called.
pub open spec fn term_of(hint: HintView) -> Option<Seq<char>> {
    match (hint.artist, hint.album) {
        (Some(artist), Some(album)) => Some(artist + " "@ + album),
        (None, Some(album)) => Some(album),
        _ => None,
    }
}

/// What is searched for.
pub fn term(hint: &Hint) -> (term: Option<String>)
    ensures
        maybe_text(term) == term_of(hint@),
{
    match (hint.artist, hint.album) {
        (Some(artist), Some(album)) => {
            let mut term = artist.to_owned();
            term.append(" ");
            term.append(album);
            Some(term)
        },
        (None, Some(album)) => Some(album.to_owned()),
        _ => None,
    }
}

/// Whether an album that a search found is gone by: it has nearly as many tracks
/// as there are files or more, and is called much the same as far as the files
/// say.
pub open spec fn worth_asking(found: Found, hint: HintView) -> bool {
    &&& found.track_count + TRACK_SLACK >= hint.files
    &&& hint.artist matches Some(artist) ==> alike(found.artist@, artist)
    &&& hint.album matches Some(album) ==> alike(found.name@, album)
}

/// By what the albums that a search found are put in order: those first that
/// carry the barcode, then by how close the number of tracks is to that of
/// files.
pub open spec fn found_rank(found: Found, hint: HintView) -> Rank {
    (
        behind(upc_agrees(maybe_text(found.upc), hint.upc)),
        apart(found.track_count as int, hint.files as int) as u64,
        0u64,
        0u64,
    )
}

/// The albums to be asked for, of those that a search found.
pub open spec fn search_leads(found: Seq<Found>, hint: HintView) -> Seq<LeadView> {
    at_most(
        values_in_rank_order(
            found.filter(|album: Found| worth_asking(album, hint)).map_values(
                |album: Found| (found_rank(album, hint), album),
            ),
        ).map_values(|album: Found| LeadView { hits: 0, id: album.id@ }),
        CANDIDATE_LIMIT as int,
    )
}

fn is_worth_asking(album: &Found, hint: &Hint) -> (yes: bool)
    ensures
        yes == worth_asking(*album, hint@),
{
    let tracks = album.track_count as usize;
    if tracks < hint.files && hint.files - tracks > TRACK_SLACK {
        return false;
    }
    if let Some(artist) = hint.artist {
        if !similar(album.artist.as_str(), artist) {
            return false;
        }
    }
    if let Some(name) = hint.album {
        if !similar(album.name.as_str(), name) {
            return false;
        }
    }
    true
}

/// The albums to be asked for, of those that a search found.
pub fn by_search(found: Vec<Found>, hint: &Hint) -> (leads: Vec<Lead>)
    ensures
        lead_views(leads@) == search_leads(found@, hint@),
{
    let ghost all = found@;
    let ghost keep = |album: Found| worth_asking(album, hint@);
    let ghost ranked = |album: Found| (found_rank(album, hint@), album);
    let mut entries: Vec<(Rank, Found)> = Vec::new();
    proof {
        reveal(Seq::filter);
        assert(all.take(0).filter(keep) =~= seq![]);
    }
    for album in it: found
        invariant
            it.seq() == all,
            keep == |album: Found| worth_asking(album, hint@),
            ranked == |album: Found| (found_rank(album, hint@), album),
            entries@ == all.take(it.index() as int).filter(keep).map_values(ranked),
    {
        let ghost kept = all.take(it.index() as int).filter(keep);
        proof {
            reveal(Seq::filter);
            assert(all.take(it.index() + 1).drop_last() =~= all.take(it.index() as int));
            assert(kept.push(album).map_values(ranked) =~= kept.map_values(ranked).push(
                ranked(album),
            ));
        }
        if is_worth_asking(&album, hint) {
            let rank: Rank = (
                if album.matches_barcode(hint.upc) {
                    0
                } else {
                    1
                },
                distance(album.track_count as usize, hint.files) as u64,
                0,
                0,
            );
            proof {
                assert(keep(album));
            }
            entries.push((rank, album));
        } else {
            proof {
                assert(!keep(album));
            }
        }
    }
    proof {
        assert(all.take(all.len() as int) =~= all);
    }
    let sorted = arrange(entries);
    let ghost ordered = sorted@;
    let ghost lead_of = |album: Found| LeadView { hits: 0, id: album.id@ };
    let mut leads: Vec<Lead> = Vec::new();
    for album in it: sorted
        invariant
            it.seq() == ordered,
            lead_of == |album: Found| (LeadView { hits: 0, id: album.id@ }),
            lead_views(leads@) == ordered.take(it.index() as int).map_values(lead_of),
    {
        let ghost before = lead_views(leads@);
        let lead = Lead { hits: 0, id: album.id };
        leads.push(lead);
        proof {
            assert(lead_views(leads@) =~= before.push(lead@));
            assert(lead_views(leads@) =~= ordered.take(it.index() + 1).map_values(lead_of));
        }
    }
    proof {
        assert(ordered.take(ordered.len() as int) =~= ordered);
    }
    shorten(leads)
}

proof fn lemma_occurrences_add(a: Seq<Seq<char>>, b: Seq<Seq<char>>, id: Seq<char>)
    ensures
        occurrences(a + b, id) == occurrences(a, id) + occurrences(b, id),
    decreases b.len(),
{
    if b.len() == 0 {
        assert(a + b =~= a);
    } else {
        assert((a + b).drop_last() =~= a + b.drop_last());
        lemma_occurrences_add(a, b.drop_last(), id);
    }
}

proof fn lemma_occurs_once(ids: Seq<Seq<char>>, id: Seq<char>)
    requires
        ids.no_duplicates(),
    ensures
        occurrences(ids, id) == if ids.contains(id) {
            1nat
        } else {
            0nat
        },
    decreases ids.len(),
{
    if ids.len() > 0 {
        let front = ids.drop_last();
        assert(front.no_duplicates());
        lemma_occurs_once(front, id);
        if front.contains(id) {
            let i = choose|i: int| 0 <= i < front.len() && front[i] == id;
            assert(ids[i] == id);
            assert(ids[i] != ids[ids.len() - 1]);
        }
        if ids.last() == id {
            assert(ids[ids.len() - 1] == id);
        }
        if ids.contains(id) && ids.last() != id {
            let i = choose|i: int| 0 <= i < ids.len() && ids[i] == id;
            assert(front[i] == id);
        }
    }
}

/// Whether an ISRC leads to an album.
pub open spec fn leads_to(
    carried: Map<Seq<char>, Seq<Seq<char>>>,
    isrc: Seq<char>,
    id: Seq<char>,
) -> bool {
    carried.contains_key(isrc) && carried[isrc].contains(id)
}

/// Each ISRC counts once, where no album stands twice in the list of one: an
/// album is led to no more often than there are ISRCs, and just as often where
/// every one of them leads to it.
pub proof fn each_isrc_counts_once(
    isrcs: Seq<Seq<char>>,
    carried: Map<Seq<char>, Seq<Seq<char>>>,
    id: Seq<char>,
)
    requires
        forall|isrc: Seq<char>| #[trigger]
            carried.contains_key(isrc) ==> carried[isrc].no_duplicates(),
    ensures
        occurrences(mentions(isrcs, carried), id) <= isrcs.len(),
        occurrences(mentions(isrcs, carried), id) == isrcs.len() <==> forall|i: int|
            0 <= i < isrcs.len() ==> leads_to(carried, #[trigger] isrcs[i], id),
    decreases isrcs.len(),
{
    if isrcs.len() > 0 {
        let front = isrcs.drop_last();
        let last = isrcs.last();
        let n = front.len() as int;
        each_isrc_counts_once(front, carried, id);
        if carried.contains_key(last) {
            lemma_occurrences_add(mentions(front, carried), carried[last], id);
            lemma_occurs_once(carried[last], id);
        }
        if forall|i: int| 0 <= i < isrcs.len() ==> leads_to(carried, #[trigger] isrcs[i], id) {
            assert(leads_to(carried, isrcs[n], id));
            assert forall|i: int| 0 <= i < front.len() implies leads_to(
                carried,
                #[trigger] front[i],
                id,
            ) by {
                assert(leads_to(carried, isrcs[i], id));
            }
        }
        if occurrences(mentions(isrcs, carried), id) == isrcs.len() {
            assert forall|i: int| 0 <= i < isrcs.len() implies leads_to(
                carried,
                #[trigger] isrcs[i],
                id,
            ) by {
                if i < n {
                    assert(leads_to(carried, front[i], id));
                }
            }
        }
    }
}

proof fn lemma_kept_order(ids: Seq<Seq<char>>, keep: spec_fn(Seq<char>) -> bool)
    requires
        ordered(ids),
    ensures
        ordered(ids.filter(keep)),
        forall|id: Seq<char>| #[trigger]
            ids.filter(keep).contains(id) <==> ids.contains(id) && keep(id),
    decreases ids.len(),
{
    reveal(Seq::filter);
    let kept = ids.filter(keep);
    if ids.len() > 0 {
        let front = ids.drop_last();
        let last = ids.last();
        assert forall|i: int, j: int| 0 <= i < j < front.len() implies text_before(
            front[i],
            front[j],
        ) by {
            assert(text_before(ids[i], ids[j]));
        }
        lemma_kept_order(front, keep);
        let before = front.filter(keep);
        assert forall|id: Seq<char>| front.contains(id) implies ids.contains(id) && text_before(
            id,
            last,
        ) by {
            let i = choose|i: int| 0 <= i < front.len() && front[i] == id;
            assert(ids[i] == id);
            assert(text_before(ids[i], ids[ids.len() - 1]));
        }
        assert(ids[ids.len() - 1] == last);
        assert(ids.contains(last));
        assert forall|id: Seq<char>| ids.contains(id) && id != last implies front.contains(id) by {
            let i = choose|i: int| 0 <= i < ids.len() && ids[i] == id;
            assert(front[i] == id);
        }
        if keep(last) {
            assert(kept == before.push(last));
            assert forall|i: int, j: int| 0 <= i < j < kept.len() implies text_before(
                kept[i],
                kept[j],
            ) by {
                if j < before.len() {
                    assert(text_before(before[i], before[j]));
                } else {
                    assert(before.contains(before[i]));
                }
            }
            assert forall|id: Seq<char>| #[trigger] kept.contains(id) <==> ids.contains(id)
                && keep(id) by {
                assert(kept[kept.len() - 1] == last);
                if before.contains(id) {
                    let i = choose|i: int| 0 <= i < before.len() && before[i] == id;
                    assert(kept[i] == id);
                }
                if kept.contains(id) && id != last {
                    let i = choose|i: int| 0 <= i < kept.len() && kept[i] == id;
                    assert(before[i] == id);
                    assert(before.contains(id));
                }
            }
        } else {
            assert forall|id: Seq<char>| #[trigger] kept.contains(id) <==> ids.contains(id)
                && keep(id) by {
                assert(before.contains(id) <==> front.contains(id) && keep(id));
            }
        }
    }
}

/// Whether an album that was led to is asked for before another: it was led to
/// more often, or as often and its identifier comes first.
pub open spec fn asked_before(a: LeadView, b: LeadView) -> bool {
    a.hits > b.hits || (a.hits == b.hits && text_before(a.id, b.id))
}

/// The ISRCs of the files lead to those albums that at least half of them are on,
/// and to those that none other is before in how many of them are on it. Each is
/// asked for once, that first which most are on, and of two with as many that
/// first whose identifier comes first; and no more than the first eight are.
pub proof fn isrcs_lead_where_most_of_them_are(
    isrcs: Seq<Seq<char>>,
    carried: Map<Seq<char>, Seq<Seq<char>>>,
)
    ensures
        ({
            let leads = isrc_leads(isrcs, carried);
            let ids = mentions(isrcs, carried);
            &&& leads.len() <= 8
            &&& forall|i: int|
                0 <= i < leads.len() ==> {
                    let lead = #[trigger] leads[i];
                    &&& ids.contains(lead.id)
                    &&& lead.hits == hits(ids, lead.id)
                    &&& lead.hits > 0
                    &&& lead.hits * 2 >= isrcs.len() || forall|other: Seq<char>| #[trigger]
                        ids.contains(other) ==> hits(ids, other) <= lead.hits
                }
            &&& forall|i: int, j: int|
                0 <= i < j < leads.len() ==> asked_before(#[trigger] leads[i], #[trigger] leads[j])
            &&& forall|id: Seq<char>| #[trigger]
                ids.contains(id) && (hits(ids, id) * 2 >= isrcs.len() || forall|
                    other: Seq<char>,
                | #[trigger]
                    ids.contains(other) ==> hits(ids, other) <= hits(ids, id)) ==> {
                    let lead = LeadView { hits: hits(ids, id), id };
                    leads.contains(lead) || (leads.len() == 8 && forall|i: int|
                        0 <= i < leads.len() ==> asked_before(#[trigger] leads[i], lead))
                }
        }),
{
    broadcast use vstd::seq_lib::seq_to_set_is_finite;

    let ids = mentions(isrcs, carried);
    let n = isrcs.len() as int;
    let all = in_order(ids.to_set());
    lemma_order_exists(ids.to_set());
    let keep = |id: Seq<char>| convincing(n, ids, id);
    let kept = all.filter(keep);
    lemma_kept_order(all, keep);
    let entries = ranked_leads(n, ids);
    let sorted = in_rank_order(entries);
    let order = rank_order(entries);
    rank_order_arranges(entries);
    let whole = values_in_rank_order(entries);
    let leads = isrc_leads(isrcs, carried);
    assert forall|k: int| 0 <= k < whole.len() implies #[trigger] whole[k] == (LeadView {
        hits: hits(ids, kept[order[k]]),
        id: kept[order[k]],
    }) && sorted[k].0 == ((usize::MAX - whole[k].hits) as u64, 0u64, 0u64, 0u64) && ids.contains(
        whole[k].id,
    ) && keep(whole[k].id) && whole[k].hits > 0 by {
        assert(sorted[k] == entries[order[k]]);
        assert(kept.contains(kept[order[k]]));
        assert(all.contains(kept[order[k]]));
        assert(all.to_set().contains(kept[order[k]]));
        assert(ids.to_set().contains(kept[order[k]]));
        lemma_occurrences(ids, kept[order[k]]);
    }
    assert forall|i: int, j: int| 0 <= i < j < whole.len() implies asked_before(
        #[trigger] whole[i],
        #[trigger] whole[j],
    ) by {
        assert(order[i] != order[j]);
        assert(rank_le(sorted[i].0, sorted[j].0));
        if whole[i].hits == whole[j].hits {
            assert(order[i] < order[j]);
            assert(text_before(kept[order[i]], kept[order[j]]));
        }
    }
    assert forall|i: int| 0 <= i < leads.len() implies #[trigger] leads[i] == whole[i] by {}
    assert forall|id: Seq<char>| #[trigger] ids.contains(id) && (hits(ids, id) * 2 >= n || forall|
        other: Seq<char>,
    | #[trigger]
        ids.contains(other) ==> hits(ids, other) <= hits(ids, id)) implies {
        let lead = LeadView { hits: hits(ids, id), id };
        leads.contains(lead) || (leads.len() == 8 && forall|i: int|
            0 <= i < leads.len() ==> asked_before(#[trigger] leads[i], lead))
    } by {
        assert(ids.to_set().contains(id));
        assert(all.to_set().contains(id));
        assert(all.contains(id));
        assert(keep(id));
        assert(kept.contains(id));
        let at = choose|at: int| 0 <= at < kept.len() && kept[at] == id;
        lemma_covered(order, entries.len() as int, at);
        let k = choose|k: int| 0 <= k < order.len() && order[k] == at;
        assert(whole[k] == (LeadView { hits: hits(ids, id), id }));
        if k < leads.len() {
            assert(leads[k] == whole[k]);
        } else {
            assert forall|i: int| 0 <= i < leads.len() implies asked_before(
                #[trigger] leads[i],
                whole[k],
            ) by {
                assert(asked_before(whole[i], whole[k]));
            }
        }
    }
}

/// So many different numbers below `n` as `n` hold each of them.
proof fn lemma_covered(order: Seq<int>, n: int, at: int)
    requires
        order.len() == n,
        order.no_duplicates(),
        forall|i: int| 0 <= i < order.len() ==> 0 <= #[trigger] order[i] < n,
        0 <= at < n,
    ensures
        order.contains(at),
{
    let all = vstd::set_lib::set_int_range(0, n);
    vstd::set_lib::lemma_int_range(0, n);
    order.unique_seq_to_set();
    let there = order.to_set();
    assert(there.subset_of(all));
    vstd::set_lib::lemma_subset_equality(there, all);
    assert(there.contains(at));
}

/// How often an album is led to is how many of the ISRCs are on it, where no list
/// has an album twice: each ISRC more adds one where it leads there, and else
/// nothing.
pub proof fn hits_count_the_isrcs_that_lead_there(
    isrcs: Seq<Seq<char>>,
    isrc: Seq<char>,
    carried: Map<Seq<char>, Seq<Seq<char>>>,
    id: Seq<char>,
)
    requires
        forall|isrc: Seq<char>| #[trigger]
            carried.contains_key(isrc) ==> carried[isrc].no_duplicates(),
        isrcs.len() < usize::MAX,
    ensures
        hits(mentions(seq![], carried), id) == 0,
        leads_to(carried, isrc, id) ==> hits(mentions(isrcs.push(isrc), carried), id) == hits(
            mentions(isrcs, carried),
            id,
        ) + 1,
        !leads_to(carried, isrc, id) ==> hits(mentions(isrcs.push(isrc), carried), id) == hits(
            mentions(isrcs, carried),
            id,
        ),
{
    let more = isrcs.push(isrc);
    assert(more.drop_last() =~= isrcs);
    each_isrc_counts_once(isrcs, carried, id);
    each_isrc_counts_once(more, carried, id);
    if carried.contains_key(isrc) {
        lemma_occurrences_add(mentions(isrcs, carried), carried[isrc], id);
        lemma_occurs_once(carried[isrc], id);
    }
}

/// The albums that carry the barcode are asked for in the order in which they are
/// given, and no more than the first eight are.
pub proof fn barcodes_lead_to_the_first_eight(ids: Seq<Seq<char>>)
    ensures
        barcode_leads(ids).len() == if ids.len() < 8 {
            ids.len()
        } else {
            8
        },
        forall|i: int|
            0 <= i < barcode_leads(ids).len() ==> #[trigger] barcode_leads(ids)[i] == (LeadView {
                hits: 0,
                id: ids[i],
            }),
{
}

/// Whether an album that a search found is asked for no later than another: it
/// carries the barcode and that does not, or both do or neither does and it has as
/// close a number of tracks to that of files.
pub open spec fn found_no_later(a: Found, b: Found, hint: HintView) -> bool {
    let barcode_a = upc_agrees(maybe_text(a.upc), hint.upc);
    let barcode_b = upc_agrees(maybe_text(b.upc), hint.upc);
    let gap_a = apart(a.track_count as int, hint.files as int);
    let gap_b = apart(b.track_count as int, hint.files as int);
    ||| barcode_a && !barcode_b
    ||| barcode_a == barcode_b && gap_a <= gap_b
}

/// A search leads to those of the albums found that are called much as the files
/// say, as far as they do, and have no more than two tracks fewer than there are
/// files: that first which carries the barcode, and then that with the closest
/// number of tracks, and of several alike in this that first which was found first.
/// No more than the first eight are asked for. In place `i` is the album at
/// `order[i]` of those found.
pub proof fn searches_lead_to_what_is_alike(found: Seq<Found>, hint: HintView) -> (order: Seq<int>)
    ensures
        ({
            let leads = search_leads(found, hint);
            &&& leads.len() <= 8
            &&& order.len() >= leads.len()
            &&& leads.len() < 8 ==> order.len() == leads.len()
            &&& order.no_duplicates()
            &&& forall|i: int|
                0 <= i < order.len() ==> {
                    let album = found[#[trigger] order[i]];
                    &&& 0 <= order[i] < found.len()
                    &&& album.track_count + 2 >= hint.files
                    &&& hint.artist matches Some(artist) ==> alike(album.artist@, artist)
                    &&& hint.album matches Some(name) ==> alike(album.name@, name)
                    &&& i < leads.len() ==> leads[i] == (LeadView { hits: 0, id: album.id@ })
                }
            &&& forall|i: int, j: int|
                0 <= i < j < order.len() ==> found_no_later(
                    found[#[trigger] order[i]],
                    found[#[trigger] order[j]],
                    hint,
                ) && (found_no_later(found[order[j]], found[order[i]], hint) ==> order[i]
                    < order[j])
            &&& forall|k: int|
                0 <= k < found.len() && (#[trigger] found[k]).track_count + 2 >= hint.files && (
                hint.artist matches Some(artist) ==> alike(found[k].artist@, artist)) && (
                hint.album matches Some(name) ==> alike(found[k].name@, name)) ==> order.contains(k)
        }),
{
    let keep = |album: Found| worth_asking(album, hint);
    let ranked = |album: Found| (found_rank(album, hint), album);
    let at = lemma_filter_places(found, keep);
    let kept = found.filter(keep);
    let entries = kept.map_values(ranked);
    let sorted = in_rank_order(entries);
    let places = rank_order(entries);
    rank_order_arranges(entries);
    let order = Seq::new(places.len(), |i: int| at[places[i]]);
    let leads = search_leads(found, hint);
    assert forall|i: int| 0 <= i < order.len() implies 0 <= #[trigger] order[i] < found.len()
        && found[order[i]] == kept[places[i]] && sorted[i] == ranked(found[order[i]]) && keep(
        found[order[i]],
    ) by {
        assert(0 <= places[i] < entries.len());
        assert(0 <= at[places[i]] < found.len());
        assert(sorted[i] == entries[places[i]]);
    }
    assert(order.no_duplicates()) by {
        assert forall|i: int, j: int|
            0 <= i < order.len() && 0 <= j < order.len() && i != j implies order[i]
            != order[j] by {
            assert(places[i] != places[j]);
            assert(0 <= places[i] < at.len() && 0 <= places[j] < at.len());
            if places[i] < places[j] {
                assert(at[places[i]] < at[places[j]]);
            } else {
                assert(at[places[j]] < at[places[i]]);
            }
        }
    }
    assert forall|i: int, j: int| 0 <= i < j < order.len() implies found_no_later(
        found[#[trigger] order[i]],
        found[#[trigger] order[j]],
        hint,
    ) && (found_no_later(found[order[j]], found[order[i]], hint) ==> order[i] < order[j]) by {
        assert(places[i] != places[j]);
        assert(rank_le(sorted[i].0, sorted[j].0));
        if found_no_later(found[order[j]], found[order[i]], hint) {
            assert(rank_le(sorted[j].0, sorted[i].0));
            assert(places[i] < places[j]);
            assert(at[places[i]] < at[places[j]]);
        }
    }
    assert forall|k: int|
        0 <= k < found.len() && (#[trigger] found[k]).track_count + 2 >= hint.files && (
        hint.artist matches Some(artist) ==> alike(found[k].artist@, artist)) && (
        hint.album matches Some(name) ==> alike(found[k].name@, name)) implies order.contains(k) by {
        assert(keep(found[k]));
        assert(at.contains(k));
        let p = choose|p: int| 0 <= p < at.len() && at[p] == k;
        lemma_covered(places, entries.len() as int, p);
        let i = choose|i: int| 0 <= i < places.len() && places[i] == p;
        assert(order[i] == k);
    }
    order
}

/// Where what a filter leaves stood before.
proof fn lemma_filter_places<A>(s: Seq<A>, keep: spec_fn(A) -> bool) -> (at: Seq<int>)
    ensures
        at.len() == s.filter(keep).len(),
        forall|i: int|
            0 <= i < at.len() ==> 0 <= #[trigger] at[i] < s.len() && s[at[i]] == s.filter(keep)[i]
                && keep(s[at[i]]),
        forall|i: int, j: int| 0 <= i < j < at.len() ==> #[trigger] at[i] < #[trigger] at[j],
        forall|k: int| 0 <= k < s.len() && keep(#[trigger] s[k]) ==> at.contains(k),
    decreases s.len(),
{
    reveal(Seq::filter);
    if s.len() == 0 {
        seq![]
    } else {
        let front = s.drop_last();
        let before = lemma_filter_places(front, keep);
        let n = s.len() - 1;
        let at = if keep(s.last()) {
            before.push(n)
        } else {
            before
        };
        assert forall|k: int| 0 <= k < s.len() && keep(#[trigger] s[k]) implies at.contains(k) by {
            if k < n {
                assert(front[k] == s[k]);
                assert(before.contains(k));
                let i = choose|i: int| 0 <= i < before.len() && before[i] == k;
                assert(at[i] == k);
            } else {
                assert(at[at.len() - 1] == n);
            }
        }
        assert forall|i: int| 0 <= i < at.len() implies 0 <= #[trigger] at[i] < s.len() && s[at[i]]
            == s.filter(keep)[i] && keep(s[at[i]]) by {
            if i < before.len() {
                assert(at[i] == before[i]);
                assert(front[before[i]] == s[before[i]]);
            }
        }
        at
    }
}

/// What is searched for is the artist and the album, with a space between them,
/// or the album alone where no artist is named; there is no search without an
/// album.
pub proof fn searches_go_by_artist_and_album(hint: HintView)
    ensures
        term_of(hint) is Some <==> hint.album is Some,
        hint.album matches Some(album) ==> {
            &&& hint.artist is None ==> term_of(hint) == Some(album)
            &&& hint.artist matches Some(artist) ==> term_of(hint) == Some(
                artist.push(' ') + album,
            )
        },
{
    reveal_strlit(" ");
    if let (Some(artist), Some(album)) = (hint.artist, hint.album) {
        assert(artist + " "@ + album =~= artist.push(' ') + album);
    }
}

} // verus!
