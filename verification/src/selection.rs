//! The search for the albums that some files may be, step by step: what to ask
//! the catalog next, and what to make of its answers.
use vstd::prelude::*;

use crate::apple::catalog::{upc_agrees, Album, AlbumView, Found};
use crate::apple::lookup::lists;
use crate::ranking::{
    apart, arrange, in_rank_order, lemma_rank_order_map, rank_le, rank_order, rank_order_arranges,
    values_in_rank_order, Rank,
};
use crate::select::{
    barcode_leads, by_barcode, by_isrc, by_search, candidate_views, is_confident,
    isrc_leads, lead_views, rank_of, search_leads, searches_go_by_artist_and_album, term, term_of,
    Candidate, CandidateView, Hint, HintView, Lead, LeadView, Source,
};
use crate::table::Table;
use crate::text::{same_text, texts};

verus! {

/// A search under way: what the files say of their album, which source is being
/// gone through, whether it has given its albums, which of them are still to be
/// asked for, the albums of this source that are there, and those of earlier
/// sources.
pub struct Selection<'a> {
    pub hint: Hint<'a>,
    pub stage: Option<Source>,
    pub listed: bool,
    pub leads: Vec<Lead>,
    pub fetched: Vec<Candidate>,
    pub found: Vec<Candidate>,
}

/// A search under way, by the characters of what is known. No source is being
/// gone through once it has ended.
pub struct SelectionView {
    pub stage: Option<Source>,
    pub listed: bool,
    pub leads: Seq<LeadView>,
    pub fetched: Seq<CandidateView>,
    pub found: Seq<CandidateView>,
}

impl<'a> View for Selection<'a> {
    type V = SelectionView;

    open spec fn view(&self) -> SelectionView {
        SelectionView {
            stage: self.stage,
            listed: self.listed,
            leads: lead_views(self.leads@),
            fetched: candidate_views(self.fetched@),
            found: candidate_views(self.found@),
        }
    }
}

/// What to ask the catalog next.
pub enum Next {
    /// Which albums the ISRCs of the files are on.
    Isrcs,
    /// Which albums carry the barcode of the files.
    Barcode,
    /// Which albums a search for a text finds.
    Search(String),
    /// The album with an identifier.
    Album(String),
    /// Nothing more.
    Nothing,
}

/// What to ask the catalog next, by its characters.
pub enum NextView {
    Isrcs,
    Barcode,
    Search(Seq<char>),
    Album(Seq<char>),
    Nothing,
}

impl View for Next {
    type V = NextView;

    open spec fn view(&self) -> NextView {
        match *self {
            Next::Isrcs => NextView::Isrcs,
            Next::Barcode => NextView::Barcode,
            Next::Search(term) => NextView::Search(term@),
            Next::Album(id) => NextView::Album(id@),
            Next::Nothing => NextView::Nothing,
        }
    }
}

/// The start of a source, with what earlier ones found.
pub open spec fn turned_to(stage: Option<Source>, found: Seq<CandidateView>) -> SelectionView {
    SelectionView { stage, listed: false, leads: seq![], fetched: seq![], found }
}

/// The start of a search: the ISRCs come first.
pub open spec fn at_start() -> SelectionView {
    turned_to(Some(Source::Isrc), seq![])
}

/// Whether one of some albums can be taken without asking.
pub open spec fn any_confident(found: Seq<CandidateView>, hint: HintView) -> bool {
    exists|i: int| 0 <= i < found.len() && is_confident(#[trigger] found[i], hint)
}

/// Which source comes after the ISRCs and the barcode: the text, where none of
/// what was found can be taken without asking and there is something to search
/// for.
pub open spec fn last_resort(found: Seq<CandidateView>, hint: HintView) -> Option<Source> {
    if any_confident(found, hint) || term_of(hint) is None {
        None
    } else {
        Some(Source::Search)
    }
}

/// Whether an album with the identifier of `candidate` is among those found.
pub open spec fn already(found: Seq<CandidateView>, candidate: CandidateView) -> bool {
    exists|i: int| 0 <= i < found.len() && (#[trigger] found[i]).album.id == candidate.album.id
}

/// What was found, with those of `extras` that were not.
pub open spec fn merged(
    found: Seq<CandidateView>,
    extras: Seq<CandidateView>,
) -> Seq<CandidateView>
    decreases extras.len(),
{
    if extras.len() == 0 {
        found
    } else {
        let before = merged(found, extras.drop_last());
        if already(before, extras.last()) {
            before
        } else {
            before.push(extras.last())
        }
    }
}

/// The search, once a source has been gone through: on to the next, or to its
/// end.
pub open spec fn settled(state: SelectionView, hint: HintView) -> SelectionView {
    if !state.listed || state.leads.len() > 0 {
        state
    } else {
        match state.stage {
            None => state,
            Some(Source::Isrc) => if state.fetched.len() == 0 {
                turned_to(Some(Source::Barcode), seq![])
            } else {
                turned_to(last_resort(state.fetched, hint), state.fetched)
            },
            Some(Source::Barcode) => turned_to(last_resort(state.fetched, hint), state.fetched),
            Some(Source::Search) => turned_to(None, merged(state.found, state.fetched)),
        }
    }
}

/// The search, once a source has given its albums.
pub open spec fn with_leads(
    state: SelectionView,
    hint: HintView,
    leads: Seq<LeadView>,
) -> SelectionView {
    settled(SelectionView { listed: true, leads, ..state }, hint)
}

/// An album that was asked for, as one that the files may be.
pub open spec fn candidate_of(lead: LeadView, source: Source, album: AlbumView) -> CandidateView {
    CandidateView { album, source, isrc_hits: lead.hits }
}

/// The search, once the next album is there.
pub open spec fn with_album(
    state: SelectionView,
    hint: HintView,
    album: AlbumView,
) -> SelectionView {
    settled(
        SelectionView {
            leads: state.leads.drop_first(),
            fetched: state.fetched.push(
                candidate_of(state.leads[0], state.stage->0, album),
            ),
            ..state
        },
        hint,
    )
}

/// What to ask the catalog next.
pub open spec fn next_of(state: SelectionView, hint: HintView) -> NextView {
    match state.stage {
        None => NextView::Nothing,
        Some(source) => if !state.listed {
            match source {
                Source::Isrc => NextView::Isrcs,
                Source::Barcode => NextView::Barcode,
                Source::Search => match term_of(hint) {
                    Some(term) => NextView::Search(term),
                    None => NextView::Nothing,
                },
            }
        } else if state.leads.len() > 0 {
            NextView::Album(state.leads[0].id)
        } else {
            NextView::Nothing
        },
    }
}

/// Some albums that the files may be, the best first.
pub open spec fn best_first(found: Seq<CandidateView>, hint: HintView) -> Seq<CandidateView> {
    values_in_rank_order(ranked_candidates(found, hint))
}

/// Some albums that the files may be, each with its rank.
pub open spec fn ranked_candidates(
    found: Seq<CandidateView>,
    hint: HintView,
) -> Seq<(Rank, CandidateView)> {
    found.map_values(|candidate: CandidateView| (rank_of(candidate, hint), candidate))
}

impl<'a> Selection<'a> {
    /// The start of a search.
    pub fn new(hint: Hint<'a>) -> (selection: Selection<'a>)
        ensures
            selection@ == at_start(),
            selection.hint == hint,
    {
        let selection = Selection {
            hint,
            stage: Some(Source::Isrc),
            listed: false,
            leads: Vec::new(),
            fetched: Vec::new(),
            found: Vec::new(),
        };
        proof {
            assert(selection@.leads =~= seq![]);
            assert(selection@.fetched =~= seq![]);
            assert(selection@.found =~= seq![]);
        }
        selection
    }

    /// What to ask the catalog next.
    pub fn next(&self) -> (next: Next)
        ensures
            next@ == next_of(self@, self.hint@),
    {
        match self.stage {
            None => Next::Nothing,
            Some(source) => if !self.listed {
                match source {
                    Source::Isrc => Next::Isrcs,
                    Source::Barcode => Next::Barcode,
                    Source::Search => match term(&self.hint) {
                        Some(term) => Next::Search(term),
                        None => Next::Nothing,
                    },
                }
            } else if self.leads.len() > 0 {
                Next::Album(self.leads[0].id.clone())
            } else {
                Next::Nothing
            },
        }
    }

    /// Whether one of the albums of this source can be taken without asking.
    fn convinced(&self) -> (yes: bool)
        ensures
            yes == any_confident(self@.fetched, self.hint@),
    {
        let ghost all = self@.fetched;
        let mut i: usize = 0;
        while i < self.fetched.len()
            invariant
                i <= self.fetched@.len(),
                all == candidate_views(self.fetched@),
                forall|j: int| 0 <= j < i ==> !is_confident(#[trigger] all[j], self.hint@),
            decreases self.fetched@.len() - i,
        {
            proof {
                assert(all[i as int] == self.fetched@[i as int]@);
            }
            if self.fetched[i].confident(&self.hint) {
                return true;
            }
            i += 1;
        }
        false
    }

    /// Turns to the next source, where this one has been gone through.
    fn settle(&mut self)
        ensures
            final(self)@ == settled(old(self)@, old(self).hint@),
            final(self).hint == old(self).hint,
    {
        let ghost before = self@;
        if !self.listed || self.leads.len() > 0 {
            return;
        }
        let source = match self.stage {
            None => return,
            Some(source) => source,
        };
        let sure = self.convinced();
        let searchable = term(&self.hint).is_some();
        let mut fetched: Vec<Candidate> = Vec::new();
        std::mem::swap(&mut fetched, &mut self.fetched);
        self.listed = false;
        proof {
            assert(self@.leads =~= seq![]);
            assert(self@.fetched =~= seq![]);
        }
        match source {
            Source::Isrc => {
                if fetched.len() == 0 {
                    self.stage = Some(Source::Barcode);
                } else {
                    self.stage = if sure || !searchable {
                        None
                    } else {
                        Some(Source::Search)
                    };
                }
                self.found = fetched;
                proof {
                    if before.fetched.len() == 0 {
                        assert(self@.found =~= seq![]);
                    }
                }
            },
            Source::Barcode => {
                self.stage = if sure || !searchable {
                    None
                } else {
                    Some(Source::Search)
                };
                self.found = fetched;
            },
            Source::Search => {
                self.stage = None;
                self.merge(fetched);
            },
        }
    }

    /// Takes in those of `extras` that were not found before.
    fn merge(&mut self, extras: Vec<Candidate>)
        ensures
            final(self)@ == (SelectionView {
                found: merged(old(self)@.found, candidate_views(extras@)),
                ..old(self)@
            }),
            final(self).hint == old(self).hint,
    {
        let ghost before = self@;
        let ghost all = candidate_views(extras@);
        let ghost hint = self.hint;
        for extra in it: extras
            invariant
                candidate_views(it.seq()) == all,
                self.hint == hint,
                self@ == (SelectionView {
                    found: merged(before.found, all.take(it.index() as int)),
                    ..before
                }),
        {
            let ghost so_far = self@.found;
            proof {
                assert(all.take(it.index() + 1).drop_last() =~= all.take(it.index() as int));
                assert(all[it.index() as int] == extra@);
            }
            let mut known = false;
            let mut i: usize = 0;
            while i < self.found.len() && !known
                invariant
                    i <= self.found@.len(),
                    so_far == candidate_views(self.found@),
                    known ==> already(so_far, extra@),
                    !known ==> forall|j: int|
                        0 <= j < i ==> (#[trigger] so_far[j]).album.id != extra@.album.id,
                decreases self.found@.len() - i,
            {
                proof {
                    assert(so_far[i as int] == self.found@[i as int]@);
                }
                known = same_text(self.found[i].album.id.as_str(), extra.album.id.as_str());
                i += 1;
            }
            if !known {
                self.found.push(extra);
                proof {
                    assert(self@.found =~= so_far.push(extra@));
                }
            }
        }
        proof {
            assert(all.take(all.len() as int) =~= all);
        }
    }

    fn list(&mut self, leads: Vec<Lead>)
        ensures
            final(self)@ == with_leads(old(self)@, old(self).hint@, lead_views(leads@)),
            final(self).hint == old(self).hint,
    {
        self.listed = true;
        self.leads = leads;
        self.settle();
    }

    /// Takes in which albums the ISRCs of the files are on.
    pub fn isrcs(&mut self, isrcs: &Vec<String>, carried: &Table<Vec<String>>)
        requires
            next_of(old(self)@, old(self).hint@) == NextView::Isrcs,
        ensures
            final(self)@ == with_leads(
                old(self)@,
                old(self).hint@,
                isrc_leads(texts(isrcs@), lists(carried@)),
            ),
            final(self).hint == old(self).hint,
    {
        self.list(by_isrc(isrcs, carried));
    }

    /// Takes in which albums carry the barcode of the files.
    pub fn barcode(&mut self, ids: Vec<String>)
        requires
            next_of(old(self)@, old(self).hint@) == NextView::Barcode,
        ensures
            final(self)@ == with_leads(old(self)@, old(self).hint@, barcode_leads(texts(ids@))),
            final(self).hint == old(self).hint,
    {
        self.list(by_barcode(ids));
    }

    /// Takes in which albums a search finds.
    pub fn search(&mut self, found: Vec<Found>)
        requires
            next_of(old(self)@, old(self).hint@) is Search,
        ensures
            final(self)@ == with_leads(
                old(self)@,
                old(self).hint@,
                search_leads(found@, old(self).hint@),
            ),
            final(self).hint == old(self).hint,
    {
        let leads = by_search(found, &self.hint);
        self.list(leads);
    }

    /// Takes in the next album.
    pub fn album(&mut self, album: Album)
        requires
            next_of(old(self)@, old(self).hint@) is Album,
        ensures
            final(self)@ == with_album(old(self)@, old(self).hint@, album@),
            final(self).hint == old(self).hint,
    {
        let ghost before = self@;
        if let Some(source) = self.stage {
            let lead = self.leads.remove(0);
            let candidate = Candidate { album, source, isrc_hits: lead.hits };
            self.fetched.push(candidate);
            proof {
                assert(self@.leads =~= before.leads.drop_first());
                assert(lead@ == before.leads[0]);
                assert(self@.fetched =~= before.fetched.push(candidate@));
            }
            self.settle();
        }
    }

    /// The albums that the files may be, the best first.
    pub fn candidates(self) -> (candidates: Vec<Candidate>)
        ensures
            candidate_views(candidates@) == best_first(self@.found, self.hint@),
    {
        let ghost all = self.found@;
        let hint = self.hint;
        let ghost ranked = |candidate: Candidate| (rank_of(candidate@, hint@), candidate);
        let mut entries: Vec<(Rank, Candidate)> = Vec::new();
        for candidate in it: self.found
            invariant
                it.seq() == all,
                ranked == |candidate: Candidate| (rank_of(candidate@, hint@), candidate),
                entries@ == all.take(it.index() as int).map_values(ranked),
        {
            let rank = candidate.rank(&hint);
            entries.push((rank, candidate));
            proof {
                assert(entries@ =~= all.take(it.index() + 1).map_values(ranked));
            }
        }
        let ghost listed = entries@;
        let sorted = arrange(entries);
        proof {
            assert(all.take(all.len() as int) =~= all);
            let view = |candidate: Candidate| candidate@;
            lemma_rank_order_map(listed, view);
            assert(listed.map_values(|entry: (Rank, Candidate)| (entry.0, view(entry.1)))
                =~= ranked_candidates(candidate_views(all), hint@));
            assert(candidate_views(sorted@) =~= best_first(candidate_views(all), hint@));
        }
        sorted
    }
}

/// What a catalog answers: the albums that songs are on by their ISRCs, those
/// that carry the barcode, those that the search finds, and each album by its
/// identifier.
pub struct Answers {
    pub carried: Map<Seq<char>, Seq<Seq<char>>>,
    pub by_upc: Seq<Seq<char>>,
    pub by_term: Seq<Found>,
    pub albums: Map<Seq<char>, AlbumView>,
}

/// The albums to be asked for, of those that a source gives.
pub open spec fn leads_from(
    source: Source,
    isrcs: Seq<Seq<char>>,
    hint: HintView,
    answers: Answers,
) -> Seq<LeadView> {
    match source {
        Source::Isrc => isrc_leads(isrcs, answers.carried),
        Source::Barcode => barcode_leads(answers.by_upc),
        Source::Search => search_leads(answers.by_term, hint),
    }
}

/// How many sources are left.
pub open spec fn sources_left(stage: Option<Source>) -> nat {
    match stage {
        Some(Source::Isrc) => 3,
        Some(Source::Barcode) => 2,
        Some(Source::Search) => 1,
        None => 0,
    }
}

/// The search, from a state on to its end, where each question is answered by
/// `answers`.
pub open spec fn carried_through(
    state: SelectionView,
    isrcs: Seq<Seq<char>>,
    hint: HintView,
    answers: Answers,
) -> SelectionView
    decreases
            sources_left(state.stage),
            if state.listed {
                0int
            } else {
                1int
            },
            state.leads.len(),
{
    match state.stage {
        None => state,
        Some(source) => if !state.listed {
            carried_through(
                with_leads(state, hint, leads_from(source, isrcs, hint, answers)),
                isrcs,
                hint,
                answers,
            )
        } else if state.leads.len() > 0 {
            carried_through(
                with_album(state, hint, answers.albums[state.leads[0].id]),
                isrcs,
                hint,
                answers,
            )
        } else {
            state
        },
    }
}

/// The albums of a source, as those that the files may be.
pub open spec fn gathered(
    leads: Seq<LeadView>,
    source: Source,
    answers: Answers,
) -> Seq<CandidateView> {
    leads.map_values(|lead: LeadView| candidate_of(lead, source, answers.albums[lead.id]))
}

/// The albums that the files may be: those that their ISRCs lead to, and where
/// there are none those that carry their barcode; and where none of these can be
/// taken without asking, also those that a search for what they are called finds.
pub open spec fn all_found(
    isrcs: Seq<Seq<char>>,
    hint: HintView,
    answers: Answers,
) -> Seq<CandidateView> {
    let by_isrc = gathered(
        leads_from(Source::Isrc, isrcs, hint, answers),
        Source::Isrc,
        answers,
    );
    let found = if by_isrc.len() == 0 {
        gathered(leads_from(Source::Barcode, isrcs, hint, answers), Source::Barcode, answers)
    } else {
        by_isrc
    };
    if any_confident(found, hint) || term_of(hint) is None {
        found
    } else {
        merged(
            found,
            gathered(leads_from(Source::Search, isrcs, hint, answers), Source::Search, answers),
        )
    }
}

proof fn lemma_albums_carried_through(
    state: SelectionView,
    isrcs: Seq<Seq<char>>,
    hint: HintView,
    answers: Answers,
)
    requires
        state.stage is Some,
        state.listed,
        state.leads.len() > 0,
    ensures
        carried_through(state, isrcs, hint, answers) == carried_through(
            settled(
                SelectionView {
                    leads: seq![],
                    fetched: state.fetched + gathered(state.leads, state.stage->0, answers),
                    ..state
                },
                hint,
            ),
            isrcs,
            hint,
            answers,
        ),
    decreases state.leads.len(),
{
    let source = state.stage->0;
    let album = answers.albums[state.leads[0].id];
    let candidate = candidate_of(state.leads[0], source, album);
    let rest = state.leads.drop_first();
    let next = SelectionView {
        leads: rest,
        fetched: state.fetched.push(candidate),
        ..state
    };
    assert(with_album(state, hint, album) == settled(next, hint));
    assert(state.fetched + gathered(state.leads, source, answers) =~= next.fetched + gathered(
        rest,
        source,
        answers,
    ));
    if rest.len() > 0 {
        lemma_albums_carried_through(next, isrcs, hint, answers);
    } else {
        assert(next.fetched + gathered(rest, source, answers) =~= next.fetched);
        assert(rest =~= seq![]);
    }
}

proof fn lemma_source_carried_through(
    source: Source,
    found: Seq<CandidateView>,
    isrcs: Seq<Seq<char>>,
    hint: HintView,
    answers: Answers,
)
    ensures
        carried_through(turned_to(Some(source), found), isrcs, hint, answers) == carried_through(
            settled(
                SelectionView {
                    stage: Some(source),
                    listed: true,
                    leads: seq![],
                    fetched: gathered(leads_from(source, isrcs, hint, answers), source, answers),
                    found,
                },
                hint,
            ),
            isrcs,
            hint,
            answers,
        ),
{
    let leads = leads_from(source, isrcs, hint, answers);
    let listed = SelectionView {
        stage: Some(source),
        listed: true,
        leads,
        fetched: seq![],
        found,
    };
    assert(with_leads(turned_to(Some(source), found), hint, leads) == settled(listed, hint));
    if leads.len() > 0 {
        lemma_albums_carried_through(listed, isrcs, hint, answers);
        assert(Seq::<CandidateView>::empty() + gathered(leads, source, answers) =~= gathered(
            leads,
            source,
            answers,
        ));
    } else {
        assert(leads =~= seq![]);
        assert(gathered(leads, source, answers) =~= seq![]);
    }
}

/// Whatever the catalog answers, the search comes to an end, and has then found
/// the albums that the files may be.
pub proof fn search_finds_all(isrcs: Seq<Seq<char>>, hint: HintView, answers: Answers)
    ensures
        carried_through(at_start(), isrcs, hint, answers) == turned_to(
            None,
            all_found(isrcs, hint, answers),
        ),
{
    let first = gathered(
        leads_from(Source::Isrc, isrcs, hint, answers),
        Source::Isrc,
        answers,
    );
    let second = gathered(
        leads_from(Source::Barcode, isrcs, hint, answers),
        Source::Barcode,
        answers,
    );
    lemma_source_carried_through(Source::Isrc, seq![], isrcs, hint, answers);
    let found = if first.len() == 0 {
        lemma_source_carried_through(Source::Barcode, seq![], isrcs, hint, answers);
        second
    } else {
        first
    };
    if !any_confident(found, hint) && term_of(hint) is Some {
        lemma_source_carried_through(Source::Search, found, isrcs, hint, answers);
    }
}

/// A search for text is no more than a last resort: what was found before stays
/// as it is, at the start, and no album is added that is there already.
pub proof fn search_adds_no_album_twice(found: Seq<CandidateView>, extras: Seq<CandidateView>)
    ensures
        found.len() <= merged(found, extras).len(),
        merged(found, extras).take(found.len() as int) == found,
        forall|i: int, j: int|
            0 <= i < j < merged(found, extras).len() && found.len() <= j ==> (#[trigger] merged(
                found,
                extras,
            )[i]).album.id != (#[trigger] merged(found, extras)[j]).album.id,
        forall|i: int|
            0 <= i < extras.len() ==> already(merged(found, extras), #[trigger] extras[i]),
    decreases extras.len(),
{
    if extras.len() == 0 {
        assert(found.take(found.len() as int) =~= found);
    } else {
        let front = extras.drop_last();
        let before = merged(found, front);
        let after = merged(found, extras);
        search_adds_no_album_twice(found, front);
        assert(after.take(found.len() as int) =~= before.take(found.len() as int));
        assert forall|i: int, j: int|
            0 <= i < j < after.len() && found.len() <= j implies (#[trigger] after[i]).album.id
            != (#[trigger] after[j]).album.id by {
            assert(after[i] == before[i]);
            if j < before.len() {
                assert(after[j] == before[j]);
            }
        }
        assert forall|i: int| 0 <= i < extras.len() implies already(
            after,
            #[trigger] extras[i],
        ) by {
            if i < front.len() {
                assert(already(before, front[i]));
                let k = choose|k: int|
                    0 <= k < before.len() && (#[trigger] before[k]).album.id == front[i].album.id;
                assert(after[k] == before[k]);
            } else if already(before, extras.last()) {
                assert(after == before);
            } else {
                assert(after[before.len() as int] == extras[i]);
            }
        }
    }
}

/// Whether an album stands no later than another by the evidence for it: how
/// often the ISRCs led there, then whether it carries the barcode, then how close
/// the number of tracks is to that of files.
pub open spec fn better_or_same(a: CandidateView, b: CandidateView, hint: HintView) -> bool {
    let barcode_a = upc_agrees(a.album.upc, hint.upc);
    let barcode_b = upc_agrees(b.album.upc, hint.upc);
    let gap_a = apart(a.album.tracks.len() as int, hint.files as int);
    let gap_b = apart(b.album.tracks.len() as int, hint.files as int);
    ||| a.isrc_hits > b.isrc_hits
    ||| a.isrc_hits == b.isrc_hits && barcode_a && !barcode_b
    ||| a.isrc_hits == b.isrc_hits && barcode_a == barcode_b && gap_a <= gap_b
}

/// Albums are put in order by how often the ISRCs led there, then by the barcode,
/// then by how close the number of tracks is.
pub proof fn best_comes_first(found: Seq<CandidateView>, hint: HintView, i: int, j: int)
    requires
        0 <= i < j < best_first(found, hint).len(),
        forall|k: int|
            0 <= k < found.len() ==> (#[trigger] found[k]).album.tracks.len() <= usize::MAX,
    ensures
        best_first(found, hint).len() == found.len(),
        better_or_same(best_first(found, hint)[i], best_first(found, hint)[j], hint),
{
    let entries = ranked_candidates(found, hint);
    rank_order_arranges(entries);
    let sorted = in_rank_order(entries);
    let order = rank_order(entries);
    assert(sorted[i] == entries[order[i]]);
    assert(sorted[j] == entries[order[j]]);
    assert(order[i] != order[j]);
    assert(rank_le(sorted[i].0, sorted[j].0));
    let a = found[order[i]];
    let b = found[order[j]];
    assert(best_first(found, hint)[i] == a);
    assert(best_first(found, hint)[j] == b);
    assert(a.album.tracks.len() <= usize::MAX && b.album.tracks.len() <= usize::MAX);
}

/// The best album is taken without asking where it carries the barcode of the
/// files, and where each of their ISRCs led to it, and not otherwise.
pub proof fn barcode_or_every_isrc_is_enough(candidate: CandidateView, hint: HintView)
    ensures
        is_confident(candidate, hint) <==> (upc_agrees(candidate.album.upc, hint.upc)
            || candidate.isrc_hits == hint.files),
{
}

/// Whether a search is in good order: a source that has given its albums has
/// some that are still to be asked for, and text is searched for only where there
/// is some.
pub open spec fn in_good_order(state: SelectionView, hint: HintView) -> bool {
    &&& state.stage is Some && state.listed ==> state.leads.len() > 0
    &&& state.stage == Some(Source::Search) ==> term_of(hint) is Some
}

/// The search never stalls: it starts in good order and stays so with each
/// answer, and then there is something to ask just until it has come to its end.
pub proof fn search_never_stalls(
    state: SelectionView,
    hint: HintView,
    leads: Seq<LeadView>,
    album: AlbumView,
)
    requires
        in_good_order(state, hint),
    ensures
        in_good_order(at_start(), hint),
        next_of(state, hint) is Nothing <==> state.stage is None,
        state.stage is Some && !state.listed ==> in_good_order(
            with_leads(state, hint, leads),
            hint,
        ),
        state.stage is Some && state.listed ==> in_good_order(
            with_album(state, hint, album),
            hint,
        ),
{
}

/// What a search for text adds is what it found and nothing else: each album that
/// stands behind those found before is one of `extras`, as it is there.
pub proof fn search_adds_what_it_found(found: Seq<CandidateView>, extras: Seq<CandidateView>)
    ensures
        forall|i: int|
            found.len() <= i < merged(found, extras).len() ==> extras.contains(
                #[trigger] merged(found, extras)[i],
            ),
    decreases extras.len(),
{
    if extras.len() > 0 {
        let front = extras.drop_last();
        let before = merged(found, front);
        let after = merged(found, extras);
        search_adds_what_it_found(found, front);
        search_adds_no_album_twice(found, front);
        assert forall|i: int| found.len() <= i < after.len() implies extras.contains(
            #[trigger] after[i],
        ) by {
            if i < before.len() {
                assert(after[i] == before[i]);
                let k = choose|k: int| 0 <= k < front.len() && front[k] == before[i];
                assert(extras[k] == after[i]);
            } else {
                assert(extras[extras.len() - 1] == after[i]);
            }
        }
    }
}

/// Whether `candidates` starts with the albums that `leads` name, in that order, as
/// what `source` gave, each with how often it was led to.
pub open spec fn starts_with_albums(
    candidates: Seq<CandidateView>,
    leads: Seq<LeadView>,
    source: Source,
    answers: Answers,
) -> bool {
    &&& candidates.len() >= leads.len()
    &&& forall|i: int|
        0 <= i < leads.len() ==> {
            let candidate = #[trigger] candidates[i];
            &&& candidate.album == answers.albums[leads[i].id]
            &&& candidate.source == source
            &&& candidate.isrc_hits == leads[i].hits
        }
}

/// The sources are gone through in turn: the albums that the ISRCs lead to come
/// first, and those that carry the barcode only where there are none of these.
/// Where one of them carries the barcode of the files or all the ISRCs led to it,
/// or the files do not say what their album is called, that is all; else what a
/// search for text finds is added behind them, as far as it is not there already.
pub proof fn sources_are_gone_through_in_turn(
    isrcs: Seq<Seq<char>>,
    hint: HintView,
    answers: Answers,
)
    ensures
        ({
            let led = isrc_leads(isrcs, answers.carried);
            let coded = barcode_leads(answers.by_upc);
            let texted = search_leads(answers.by_term, hint);
            let all = all_found(isrcs, hint, answers);
            let n = if led.len() > 0 {
                led.len() as int
            } else {
                coded.len() as int
            };
            let enough = exists|i: int|
                0 <= i < n && (upc_agrees((#[trigger] all[i]).album.upc, hint.upc)
                    || all[i].isrc_hits == hint.files);
            &&& led.len() > 0 ==> starts_with_albums(all, led, Source::Isrc, answers)
            &&& led.len() == 0 ==> starts_with_albums(all, coded, Source::Barcode, answers)
            &&& enough || hint.album is None ==> all.len() == n
            &&& !enough && hint.album is Some ==> {
                &&& forall|k: int|
                    0 <= k < texted.len() ==> exists|i: int|
                        0 <= i < all.len() && (#[trigger] all[i]).album.id == answers.albums[(
                        #[trigger] texted[k]).id].id
                &&& forall|i: int|
                    n <= i < all.len() ==> (#[trigger] all[i]).source == Source::Search && exists|
                        k: int,
                    |
                        0 <= k < texted.len() && all[i].album == answers.albums[(
                        #[trigger] texted[k]).id]
                &&& forall|i: int, j: int|
                    0 <= i < j < all.len() && n <= j ==> (#[trigger] all[i]).album.id != (
                    #[trigger] all[j]).album.id
            }
        }),
{
    let led = isrc_leads(isrcs, answers.carried);
    let coded = barcode_leads(answers.by_upc);
    let texted = search_leads(answers.by_term, hint);
    let first = gathered(led, Source::Isrc, answers);
    let second = gathered(coded, Source::Barcode, answers);
    let found = if led.len() > 0 {
        first
    } else {
        second
    };
    let extras = gathered(texted, Source::Search, answers);
    let all = all_found(isrcs, hint, answers);
    let n = found.len() as int;
    search_adds_no_album_twice(found, extras);
    search_adds_what_it_found(found, extras);
    assert forall|i: int| 0 <= i < n implies #[trigger] all[i] == found[i] by {
        assert(merged(found, extras).take(n)[i] == found[i]);
    }
    let enough = exists|i: int|
        0 <= i < n && (upc_agrees((#[trigger] all[i]).album.upc, hint.upc) || all[i].isrc_hits
            == hint.files);
    if enough {
        let i = choose|i: int|
            0 <= i < n && (upc_agrees((#[trigger] all[i]).album.upc, hint.upc) || all[i].isrc_hits
                == hint.files);
        assert(is_confident(found[i], hint));
    }
    if any_confident(found, hint) {
        let i = choose|i: int| 0 <= i < found.len() && is_confident(#[trigger] found[i], hint);
        assert(is_confident(all[i], hint));
    }
    if !enough && hint.album is Some {
        assert(all == merged(found, extras));
        assert forall|k: int| 0 <= k < texted.len() implies exists|i: int|
            0 <= i < all.len() && (#[trigger] all[i]).album.id == answers.albums[(
            #[trigger] texted[k]).id].id by {
            assert(already(all, extras[k]));
        }
        assert forall|i: int| n <= i < all.len() implies (#[trigger] all[i]).source
            == Source::Search && exists|k: int|
            0 <= k < texted.len() && all[i].album == answers.albums[(#[trigger] texted[k]).id] by {
            assert(extras.contains(all[i]));
            let k = choose|k: int| 0 <= k < extras.len() && extras[k] == all[i];
            assert(all[i].album == answers.albums[texted[k].id]);
        }
    }
}

/// What is asked for is what the source that it is the turn of needs: the ISRCs
/// at the start, then the barcode where nothing came of them, then the text, and
/// of each source the albums that it gave, one by one and in their order.
pub proof fn each_source_is_asked_in_its_turn(
    state: SelectionView,
    hint: HintView,
    leads: Seq<LeadView>,
    album: AlbumView,
)
    ensures
        next_of(at_start(), hint) is Isrcs,
        next_of(with_leads(at_start(), hint, seq![]), hint) is Barcode,
        state.stage == Some(Source::Barcode) && !state.listed ==> next_of(state, hint) is Barcode,
        state.stage == Some(Source::Search) && !state.listed ==> (hint.album matches Some(name)
            ==> next_of(state, hint) == NextView::Search(
            match hint.artist {
                Some(artist) => artist.push(' ') + name,
                None => name,
            },
        )),
        state.stage is Some && leads.len() > 0 ==> next_of(with_leads(state, hint, leads), hint)
            == NextView::Album(leads[0].id),
        state.stage is Some && state.listed && state.leads.len() > 1 ==> {
            let next = with_album(state, hint, album);
            &&& next_of(next, hint) == NextView::Album(state.leads[1].id)
            &&& next.fetched.len() == state.fetched.len() + 1
            &&& next.fetched.last().album == album
            &&& next.fetched.last().isrc_hits == state.leads[0].hits
            &&& Some(next.fetched.last().source) == state.stage
            &&& next.found == state.found
        },
        state.stage is None ==> next_of(state, hint) is Nothing,
{
    searches_go_by_artist_and_album(hint);
}

/// Putting albums in order loses none and makes none up: in place `i` is that at
/// `order[i]` of those found, and of several for which there is the same evidence
/// that first which was found first.
pub proof fn order_keeps_every_album(found: Seq<CandidateView>, hint: HintView) -> (order: Seq<int>)
    requires
        forall|k: int|
            0 <= k < found.len() ==> (#[trigger] found[k]).album.tracks.len() <= usize::MAX,
    ensures
        best_first(found, hint).len() == found.len(),
        order.len() == found.len(),
        order.no_duplicates(),
        forall|i: int|
            0 <= i < order.len() ==> 0 <= #[trigger] order[i] < found.len() && best_first(
                found,
                hint,
            )[i] == found[order[i]],
        forall|i: int, j: int|
            0 <= i < j < order.len() && better_or_same(
                found[#[trigger] order[j]],
                found[#[trigger] order[i]],
                hint,
            ) ==> order[i] < order[j],
{
    let entries = ranked_candidates(found, hint);
    rank_order_arranges(entries);
    let sorted = in_rank_order(entries);
    let order = rank_order(entries);
    assert forall|i: int| 0 <= i < order.len() implies 0 <= #[trigger] order[i] < found.len()
        && best_first(found, hint)[i] == found[order[i]] by {
        assert(sorted[i] == entries[order[i]]);
    }
    assert forall|i: int, j: int|
        0 <= i < j < order.len() && better_or_same(
            found[#[trigger] order[j]],
            found[#[trigger] order[i]],
            hint,
        ) implies order[i] < order[j] by {
        assert(sorted[i] == entries[order[i]] && sorted[j] == entries[order[j]]);
        assert(order[i] != order[j]);
        assert(found[order[i]].album.tracks.len() <= usize::MAX);
        assert(found[order[j]].album.tracks.len() <= usize::MAX);
        assert(rank_le(sorted[j].0, sorted[i].0));
    }
    order
}

/// What a search for text adds stands in the order in which it was found, and of
/// several albums with one identifier the first counts: behind those found before,
/// in place `k`, is that at `at[k]` of `extras`, and each is there that neither one
/// found before nor an earlier one of `extras` is the same album as.
pub proof fn search_adds_in_the_order_found(
    found: Seq<CandidateView>,
    extras: Seq<CandidateView>,
) -> (at: Seq<int>)
    ensures
        at.len() + found.len() == merged(found, extras).len(),
        forall|k: int|
            0 <= k < at.len() ==> 0 <= #[trigger] at[k] < extras.len() && merged(
                found,
                extras,
            )[found.len() + k] == extras[at[k]],
        forall|k: int, m: int| 0 <= k < m < at.len() ==> #[trigger] at[k] < #[trigger] at[m],
        forall|i: int|
            0 <= i < extras.len() && (forall|f: int|
                0 <= f < found.len() ==> (#[trigger] found[f]).album.id != extras[i].album.id) && (
            forall|e: int|
                0 <= e < i ==> (#[trigger] extras[e]).album.id != extras[i].album.id)
                ==> #[trigger] at.contains(i),
    decreases extras.len(),
{
    search_adds_no_album_twice(found, extras);
    if extras.len() == 0 {
        seq![]
    } else {
        let front = extras.drop_last();
        let n = extras.len() - 1;
        let before = merged(found, front);
        search_adds_no_album_twice(found, front);
        let earlier = search_adds_in_the_order_found(found, front);
        let at = if already(before, extras.last()) {
            earlier
        } else {
            earlier.push(n)
        };
        let after = merged(found, extras);
        assert forall|k: int| 0 <= k < at.len() implies 0 <= #[trigger] at[k] < extras.len()
            && after[found.len() + k] == extras[at[k]] by {
            if k < earlier.len() {
                assert(at[k] == earlier[k]);
                assert(after[found.len() + k] == before[found.len() + k]);
            }
        }
        assert forall|i: int|
            0 <= i < extras.len() && (forall|f: int|
                0 <= f < found.len() ==> (#[trigger] found[f]).album.id != extras[i].album.id) && (
            forall|e: int|
                0 <= e < i ==> (#[trigger] extras[e]).album.id
                    != extras[i].album.id) implies #[trigger] at.contains(i) by {
            if i < n {
                assert forall|e: int| 0 <= e < i implies (#[trigger] front[e]).album.id
                    != front[i].album.id by {
                    assert(extras[e].album.id != extras[i].album.id);
                }
                assert(front[i] == extras[i]);
                assert(earlier.contains(i));
                let k = choose|k: int| 0 <= k < earlier.len() && earlier[k] == i;
                assert(at[k] == i);
            } else {
                if already(before, extras.last()) {
                    let k = choose|k: int|
                        0 <= k < before.len() && (#[trigger] before[k]).album.id
                            == extras.last().album.id;
                    if k < found.len() {
                        assert(before.take(found.len() as int)[k] == found[k]);
                        assert(found[k].album.id != extras[n].album.id);
                    } else {
                        let e = earlier[k - found.len()];
                        assert(before[found.len() + (k - found.len())] == front[e]);
                        assert(extras[e].album.id != extras[n].album.id);
                    }
                }
                assert(at[at.len() - 1] == n);
            }
        }
        at
    }
}

} // verus!
