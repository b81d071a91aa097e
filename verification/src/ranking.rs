//! Sorting by rank, where what has the same rank keeps its order.
use vstd::prelude::*;

verus! {

/// What something is sorted by: four numbers, the first of which counts most.
pub type Rank = (u64, u64, u64, u64);

/// How far two numbers are apart.
pub open spec fn apart(a: int, b: int) -> int {
    if a < b {
        b - a
    } else {
        a - b
    }
}

/// Whether `a` ranks no later than `b`.
pub open spec fn rank_le(a: Rank, b: Rank) -> bool {
    if a.0 != b.0 {
        a.0 < b.0
    } else if a.1 != b.1 {
        a.1 < b.1
    } else if a.2 != b.2 {
        a.2 < b.2
    } else {
        a.3 <= b.3
    }
}

/// Whether `a` ranks no later than `b`.
pub fn ranks_no_later(a: Rank, b: Rank) -> (yes: bool)
    ensures
        yes == rank_le(a, b),
{
    if a.0 != b.0 {
        a.0 < b.0
    } else if a.1 != b.1 {
        a.1 < b.1
    } else if a.2 != b.2 {
        a.2 < b.2
    } else {
        a.3 <= b.3
    }
}

/// `entry` put behind the last of `sorted` that ranks no later.
pub open spec fn placed<T>(sorted: Seq<(Rank, T)>, entry: (Rank, T)) -> Seq<(Rank, T)>
    decreases sorted.len(),
{
    if sorted.len() == 0 || rank_le(sorted.last().0, entry.0) {
        sorted.push(entry)
    } else {
        placed(sorted.drop_last(), entry).push(sorted.last())
    }
}

/// `entries` in the order of their ranks.
pub open spec fn in_rank_order<T>(entries: Seq<(Rank, T)>) -> Seq<(Rank, T)>
    decreases entries.len(),
{
    if entries.len() == 0 {
        entries
    } else {
        placed(in_rank_order(entries.drop_last()), entries.last())
    }
}

/// The values of `entries`, in the order of their ranks.
pub open spec fn values_in_rank_order<T>(entries: Seq<(Rank, T)>) -> Seq<T> {
    in_rank_order(entries).map_values(|entry: (Rank, T)| entry.1)
}

/// `result` holds `entries`, that at `order[i]` in place `i`: each of them once,
/// none before one that ranks earlier, and those of one rank as they came.
pub open spec fn arranged<T>(
    entries: Seq<(Rank, T)>,
    result: Seq<(Rank, T)>,
    order: Seq<int>,
) -> bool {
    &&& order.len() == entries.len()
    &&& result.len() == entries.len()
    &&& order.no_duplicates()
    &&& forall|i: int|
        0 <= i < order.len() ==> 0 <= #[trigger] order[i] < entries.len() && result[i]
            == entries[order[i]]
    &&& forall|i: int, j: int|
        0 <= i < j < order.len() ==> rank_le(result[i].0, result[j].0) && (rank_le(
            result[j].0,
            result[i].0,
        ) ==> #[trigger] order[i] < #[trigger] order[j])
}

proof fn lemma_placed<T>(sorted: Seq<(Rank, T)>, entry: (Rank, T), at: int)
    requires
        0 <= at <= sorted.len(),
        at > 0 ==> rank_le(sorted[at - 1].0, entry.0),
        forall|i: int| at <= i < sorted.len() ==> !rank_le(#[trigger] sorted[i].0, entry.0),
    ensures
        placed(sorted, entry) == sorted.insert(at, entry),
    decreases sorted.len(),
{
    if sorted.len() > 0 && at < sorted.len() {
        assert(!rank_le(sorted[sorted.len() - 1].0, entry.0));
        lemma_placed(sorted.drop_last(), entry, at);
        assert(sorted.drop_last().insert(at, entry).push(sorted.last()) =~= sorted.insert(
            at,
            entry,
        ));
    } else {
        assert(sorted.push(entry) =~= sorted.insert(at, entry));
    }
}

/// Where an entry is put: behind those that rank no later, before the others.
proof fn lemma_placed_where<T>(sorted: Seq<(Rank, T)>, entry: (Rank, T)) -> (at: int)
    requires
        forall|i: int, j: int|
            0 <= i < j < sorted.len() ==> rank_le(#[trigger] sorted[i].0, #[trigger] sorted[j].0),
    ensures
        0 <= at <= sorted.len(),
        placed(sorted, entry) == sorted.insert(at, entry),
        forall|i: int| 0 <= i < at ==> rank_le(#[trigger] sorted[i].0, entry.0),
        forall|i: int| at <= i < sorted.len() ==> !rank_le(#[trigger] sorted[i].0, entry.0),
    decreases sorted.len(),
{
    if sorted.len() == 0 {
        lemma_placed(sorted, entry, 0);
        0
    } else if rank_le(sorted.last().0, entry.0) {
        lemma_placed(sorted, entry, sorted.len() as int);
        assert forall|i: int| 0 <= i < sorted.len() implies rank_le(
            #[trigger] sorted[i].0,
            entry.0,
        ) by {
            if i < sorted.len() - 1 {
                assert(rank_le(sorted[i].0, sorted[sorted.len() - 1].0));
            }
        }
        sorted.len() as int
    } else {
        let at = lemma_placed_where(sorted.drop_last(), entry);
        assert forall|i: int| at <= i < sorted.len() implies !rank_le(
            #[trigger] sorted[i].0,
            entry.0,
        ) by {
            if i < sorted.len() - 1 {
                assert(!rank_le(sorted.drop_last()[i].0, entry.0));
            }
        }
        assert forall|i: int| 0 <= i < at implies rank_le(#[trigger] sorted[i].0, entry.0) by {
            assert(rank_le(sorted.drop_last()[i].0, entry.0));
        }
        lemma_placed(sorted, entry, at);
        at
    }
}

/// Ordering by rank looks at nothing but the ranks: it may be done before or
/// after the values are mapped.
pub proof fn lemma_rank_order_map<T, U>(entries: Seq<(Rank, T)>, f: spec_fn(T) -> U)
    ensures
        in_rank_order(entries).map_values(|entry: (Rank, T)| (entry.0, f(entry.1)))
            == in_rank_order(entries.map_values(|entry: (Rank, T)| (entry.0, f(entry.1)))),
    decreases entries.len(),
{
    let g = |entry: (Rank, T)| (entry.0, f(entry.1));
    if entries.len() == 0 {
        assert(entries.map_values(g) =~= seq![]);
        assert(in_rank_order(entries).map_values(g) =~= in_rank_order(entries.map_values(g)));
    } else {
        lemma_rank_order_map(entries.drop_last(), f);
        assert(entries.map_values(g).drop_last() =~= entries.drop_last().map_values(g));
        lemma_placed_map(in_rank_order(entries.drop_last()), entries.last(), f);
    }
}

proof fn lemma_placed_map<T, U>(sorted: Seq<(Rank, T)>, entry: (Rank, T), f: spec_fn(T) -> U)
    ensures
        placed(sorted, entry).map_values(|entry: (Rank, T)| (entry.0, f(entry.1))) == placed(
            sorted.map_values(|entry: (Rank, T)| (entry.0, f(entry.1))),
            (entry.0, f(entry.1)),
        ),
    decreases sorted.len(),
{
    let g = |entry: (Rank, T)| (entry.0, f(entry.1));
    if sorted.len() == 0 || rank_le(sorted.last().0, entry.0) {
        assert(sorted.push(entry).map_values(g) =~= sorted.map_values(g).push(g(entry)));
    } else {
        lemma_placed_map(sorted.drop_last(), entry, f);
        assert(sorted.map_values(g).drop_last() =~= sorted.drop_last().map_values(g));
        assert(placed(sorted.drop_last(), entry).push(sorted.last()).map_values(g) =~= placed(
            sorted.drop_last(),
            entry,
        ).map_values(g).push(g(sorted.last())));
    }
}

/// The ranks of `entries`, each with the place of its entry.
pub open spec fn tagged<T>(entries: Seq<(Rank, T)>) -> Seq<(Rank, int)> {
    Seq::new(entries.len(), |i: int| (entries[i].0, i))
}

/// The places of `entries`, in the order of their ranks.
pub open spec fn rank_order<T>(entries: Seq<(Rank, T)>) -> Seq<int> {
    values_in_rank_order(tagged(entries))
}

proof fn lemma_tagged_order<T>(entries: Seq<(Rank, T)>)
    ensures
        ({
            let sorted = in_rank_order(tagged(entries));
            &&& sorted.len() == entries.len()
            &&& forall|i: int|
                0 <= i < sorted.len() ==> 0 <= (#[trigger] sorted[i]).1 < entries.len()
                    && sorted[i].0 == entries[sorted[i].1].0
            &&& forall|i: int, j: int|
                0 <= i < j < sorted.len() ==> rank_le(
                    (#[trigger] sorted[i]).0,
                    (#[trigger] sorted[j]).0,
                ) && sorted[i].1 != sorted[j].1 && (rank_le(sorted[j].0, sorted[i].0)
                    ==> sorted[i].1 < sorted[j].1)
        }),
    decreases entries.len(),
{
    if entries.len() > 0 {
        let front = entries.drop_last();
        lemma_tagged_order(front);
        assert(tagged(entries).drop_last() =~= tagged(front));
        let before = in_rank_order(tagged(front));
        let entry = tagged(entries).last();
        let at = lemma_placed_where(before, entry);
        let sorted = in_rank_order(tagged(entries));
        assert(sorted == before.insert(at, entry));
        assert forall|i: int| 0 <= i < sorted.len() implies 0 <= (#[trigger] sorted[i]).1
            < entries.len() && sorted[i].0 == entries[sorted[i].1].0 by {
            if i < at {
                assert(sorted[i] == before[i]);
            } else if i > at {
                assert(sorted[i] == before[i - 1]);
            }
        }
        assert forall|i: int, j: int| 0 <= i < j < sorted.len() implies rank_le(
            (#[trigger] sorted[i]).0,
            (#[trigger] sorted[j]).0,
        ) && sorted[i].1 != sorted[j].1 && (rank_le(sorted[j].0, sorted[i].0) ==> sorted[i].1
            < sorted[j].1) by {
            let p = if i < at {
                i
            } else {
                i - 1
            };
            let q = if j < at {
                j
            } else {
                j - 1
            };
            if i != at && j != at {
                assert(sorted[i] == before[p] && sorted[j] == before[q]);
            } else if i == at {
                assert(sorted[j] == before[q]);
            } else {
                assert(sorted[i] == before[p]);
            }
        }
    }
}

/// Ordering by rank arranges the entries: each of them occurs once, none
/// stands before one that ranks earlier, and those of one rank stand as they
/// came.
pub proof fn rank_order_arranges<T>(entries: Seq<(Rank, T)>)
    ensures
        arranged(entries, in_rank_order(entries), rank_order(entries)),
{
    let tags = tagged(entries);
    let sorted = in_rank_order(tags);
    let order = rank_order(entries);
    lemma_tagged_order(entries);
    let f = |i: int| entries[i].1;
    lemma_rank_order_map(tags, f);
    assert(tags.map_values(|entry: (Rank, int)| (entry.0, f(entry.1))) =~= entries);
    let result = in_rank_order(entries);
    assert forall|i: int| 0 <= i < order.len() implies 0 <= #[trigger] order[i] < entries.len()
        && result[i] == entries[order[i]] by {
        assert(order[i] == sorted[i].1);
        assert(result[i] == (sorted[i].0, f(sorted[i].1)));
    }
    assert forall|i: int, j: int| 0 <= i < j < order.len() implies rank_le(result[i].0, result[j].0)
        && (rank_le(result[j].0, result[i].0) ==> #[trigger] order[i] < #[trigger] order[j]) by {
        assert(order[i] == sorted[i].1 && order[j] == sorted[j].1);
    }
    assert(order.no_duplicates()) by {
        assert forall|i: int, j: int|
            0 <= i < order.len() && 0 <= j < order.len() && i != j implies order[i]
            != order[j] by {
            if i < j {
                assert(sorted[i].1 != sorted[j].1);
            } else {
                assert(sorted[j].1 != sorted[i].1);
            }
        }
    }
}

/// The values of `entries`, in the order of their ranks.
pub fn arrange<T>(entries: Vec<(Rank, T)>) -> (values: Vec<T>)
    ensures
        values@ == values_in_rank_order(entries@),
{
    let ghost all = entries@;
    let mut sorted: Vec<(Rank, T)> = Vec::new();
    proof {
        assert(all.take(0) =~= seq![]);
    }
    for entry in it: entries
        invariant
            it.seq() == all,
            sorted@ == in_rank_order(all.take(it.index() as int)),
    {
        proof {
            assert(all.take(it.index() + 1).drop_last() =~= all.take(it.index() as int));
        }
        let mut at: usize = sorted.len();
        while at > 0 && !ranks_no_later(sorted[at - 1].0, entry.0)
            invariant
                at <= sorted@.len(),
                forall|i: int|
                    at <= i < sorted@.len() ==> !rank_le(#[trigger] sorted@[i].0, entry.0),
            decreases at,
        {
            at -= 1;
        }
        proof {
            lemma_placed(sorted@, entry, at as int);
        }
        sorted.insert(at, entry);
    }
    proof {
        assert(all.take(all.len() as int) =~= all);
    }
    let ghost whole = sorted@;
    let mut values: Vec<T> = Vec::new();
    for entry in it: sorted
        invariant
            it.seq() == whole,
            values@ == whole.take(it.index() as int).map_values(|entry: (Rank, T)| entry.1),
    {
        values.push(entry.1);
        proof {
            assert(values@ =~= whole.take(it.index() + 1).map_values(
                |entry: (Rank, T)| entry.1,
            ));
        }
    }
    proof {
        assert(whole.take(whole.len() as int) =~= whole);
    }
    values
}

} // verus!
