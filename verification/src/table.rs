//! A map from strings, kept in the order of its keys.
use vstd::prelude::*;

use crate::text::{place, text_before, texts, Place};

verus! {

broadcast use vstd::seq_lib::seq_to_set_is_finite;

/// Whether some texts stand in order, each before the next.
pub open spec fn ordered(keys: Seq<Seq<char>>) -> bool {
    forall|i: int, j: int| 0 <= i < j < keys.len() ==> text_before(keys[i], keys[j])
}

/// The texts of a set, in order.
pub open spec fn in_order(keys: Set<Seq<char>>) -> Seq<Seq<char>> {
    choose|sequence: Seq<Seq<char>>| ordered(sequence) && sequence.to_set() == keys
}

/// A set of texts has one order only.
pub proof fn in_order_unique(a: Seq<Seq<char>>, b: Seq<Seq<char>>)
    requires
        ordered(a),
        ordered(b),
        a.to_set() == b.to_set(),
    ensures
        a == b,
    decreases a.len(),
{
    if a.len() == 0 {
        if b.len() > 0 {
            assert(b.to_set().contains(b[0]));
            assert(a.contains(b[0]));
        }
        assert(a =~= b);
    } else {
        assert(a.to_set().contains(a.last()));
        assert(b.contains(a.last()));
        assert(b.to_set().contains(b.last()));
        assert(a.contains(b.last()));
        let i = choose|i: int| 0 <= i < b.len() && b[i] == a.last();
        let j = choose|j: int| 0 <= j < a.len() && a[j] == b.last();
        if i < b.len() - 1 && j < a.len() - 1 {
            assert(text_before(b[i], b[b.len() - 1]));
            assert(text_before(a[j], a[a.len() - 1]));
            crate::text::text_before_transitive(a.last(), b.last(), a.last());
            crate::text::text_before_irreflexive(a.last());
        }
        assert(a.last() == b.last());
        let p = a.drop_last();
        let q = b.drop_last();
        assert(p.to_set() =~= a.to_set().remove(a.last())) by {
            lemma_last_alone(a);
        }
        assert(q.to_set() =~= b.to_set().remove(b.last())) by {
            lemma_last_alone(b);
        }
        in_order_unique(p, q);
        assert(a =~= p.push(a.last()));
        assert(b =~= q.push(b.last()));
    }
}

proof fn lemma_last_alone(a: Seq<Seq<char>>)
    requires
        ordered(a),
        a.len() > 0,
    ensures
        forall|k: Seq<char>|
            a.drop_last().contains(k) <==> (#[trigger] a.contains(k) && k != a.last()),
{
    let p = a.drop_last();
    assert forall|k: Seq<char>| p.contains(k) <==> (#[trigger] a.contains(k) && k != a.last()) by {
        if p.contains(k) {
            let i = choose|i: int| 0 <= i < p.len() && p[i] == k;
            assert(a[i] == k);
            assert(text_before(a[i], a[a.len() - 1]));
            crate::text::text_before_irreflexive(k);
        }
        if a.contains(k) && k != a.last() {
            let i = choose|i: int| 0 <= i < a.len() && a[i] == k;
            assert(p[i] == k);
        }
    }
}

/// Texts that stand in order are their set in order.
pub proof fn lemma_in_order(keys: Seq<Seq<char>>)
    requires
        ordered(keys),
    ensures
        in_order(keys.to_set()) == keys,
{
    let found = in_order(keys.to_set());
    assert(ordered(keys) && keys.to_set() == keys.to_set());
    assert(ordered(found) && found.to_set() == keys.to_set());
    in_order_unique(found, keys);
}

/// `key` put among some texts that stand in order.
spec fn put_in(keys: Seq<Seq<char>>, key: Seq<char>) -> Seq<Seq<char>>
    decreases keys.len(),
{
    if keys.len() == 0 || text_before(keys.last(), key) {
        keys.push(key)
    } else {
        put_in(keys.drop_last(), key).push(keys.last())
    }
}

proof fn lemma_put_in(keys: Seq<Seq<char>>, key: Seq<char>)
    requires
        ordered(keys),
        !keys.contains(key),
    ensures
        ordered(put_in(keys, key)),
        put_in(keys, key).to_set() == keys.to_set().insert(key),
    decreases keys.len(),
{
    let all = put_in(keys, key);
    if keys.len() == 0 || text_before(keys.last(), key) {
        assert forall|i: int, j: int| 0 <= i < j < all.len() implies text_before(
            all[i],
            all[j],
        ) by {
            if j == keys.len() && i < keys.len() - 1 {
                assert(text_before(keys[i], keys[keys.len() - 1]));
                crate::text::text_before_transitive(keys[i], keys.last(), key);
            }
        }
    } else {
        let front = keys.drop_last();
        let last = keys.last();
        assert(keys.contains(last));
        assert forall|k: Seq<char>| front.contains(k) implies keys.contains(k) by {
            let i = choose|i: int| 0 <= i < front.len() && front[i] == k;
            assert(keys[i] == k);
        }
        lemma_put_in(front, key);
        crate::text::text_before_total(last, key);
        let rest = put_in(front, key);
        assert forall|i: int, j: int| 0 <= i < j < all.len() implies text_before(
            all[i],
            all[j],
        ) by {
            if j == rest.len() {
                assert(rest.to_set().contains(rest[i]));
                if rest[i] != key {
                    assert(front.to_set().contains(rest[i]));
                    let k = choose|k: int| 0 <= k < front.len() && front[k] == rest[i];
                    assert(text_before(keys[k], keys[keys.len() - 1]));
                }
            } else {
                assert(text_before(rest[i], rest[j]));
            }
        }
        assert(front.push(last) =~= keys);
    }
    lemma_put_in_set(keys, key);
}

proof fn lemma_put_in_set(keys: Seq<Seq<char>>, key: Seq<char>)
    ensures
        put_in(keys, key).to_set() == keys.to_set().insert(key),
    decreases keys.len(),
{
    if keys.len() == 0 || text_before(keys.last(), key) {
        lemma_push_set(keys, key);
    } else {
        let front = keys.drop_last();
        lemma_put_in_set(front, key);
        lemma_push_set(put_in(front, key), keys.last());
        lemma_push_set(front, keys.last());
        assert(front.push(keys.last()) =~= keys);
        assert(front.to_set().insert(key).insert(keys.last()) =~= front.to_set().insert(
            keys.last(),
        ).insert(key));
    }
}

proof fn lemma_push_set(keys: Seq<Seq<char>>, key: Seq<char>)
    ensures
        keys.push(key).to_set() == keys.to_set().insert(key),
{
    let all = keys.push(key);
    assert forall|k: Seq<char>| all.to_set().contains(k) <==> keys.to_set().insert(key).contains(
        k,
    ) by {
        if keys.contains(k) {
            let i = choose|i: int| 0 <= i < keys.len() && keys[i] == k;
            assert(all[i] == k);
        }
        assert(all[keys.len() as int] == key);
    }
    assert(all.to_set() =~= keys.to_set().insert(key));
}

/// The texts of a finite set can be put in order.
pub proof fn lemma_order_exists(keys: Set<Seq<char>>)
    requires
        keys.finite(),
    ensures
        ordered(in_order(keys)),
        in_order(keys).to_set() == keys,
    decreases keys.len(),
{
    if keys.len() == 0 {
        let none = Seq::<Seq<char>>::empty();
        assert(none.to_set() =~= keys);
        lemma_in_order(none);
    } else {
        let key = keys.choose();
        let fewer = keys.remove(key);
        lemma_order_exists(fewer);
        let rest = in_order(fewer);
        if rest.contains(key) {
            assert(rest.to_set().contains(key));
        }
        lemma_put_in(rest, key);
        assert(fewer.insert(key) =~= keys);
        lemma_in_order(put_in(rest, key));
    }
}

/// What stands in order holds nothing twice.
pub proof fn lemma_ordered_distinct(keys: Seq<Seq<char>>)
    requires
        ordered(keys),
    ensures
        keys.no_duplicates(),
{
    assert forall|i: int, j: int|
        0 <= i < keys.len() && 0 <= j < keys.len() && i != j implies keys[i] != keys[j] by {
        crate::text::text_before_irreflexive(keys[i]);
        if i < j {
            assert(text_before(keys[i], keys[j]));
        } else {
            assert(text_before(keys[j], keys[i]));
        }
    }
}

/// A map from strings to `V`.
pub struct Table<V> {
    entries: Vec<(String, V)>,
}

/// The keys of some entries.
spec fn keys_of<V>(entries: Seq<(String, V)>) -> Seq<Seq<char>> {
    entries.map_values(|entry: (String, V)| entry.0@)
}

/// The map that some entries make up.
spec fn map_of<V>(entries: Seq<(String, V)>) -> Map<Seq<char>, V> {
    Map::new(
        |key: Seq<char>| keys_of(entries).contains(key),
        |key: Seq<char>| entries[keys_of(entries).index_of(key)].1,
    )
}

proof fn lemma_map_of<V>(entries: Seq<(String, V)>, i: int)
    requires
        ordered(keys_of(entries)),
        0 <= i < entries.len(),
    ensures
        map_of(entries).contains_key(entries[i].0@),
        map_of(entries)[entries[i].0@] == entries[i].1,
{
    let keys = keys_of(entries);
    let key = entries[i].0@;
    assert(keys[i] == key);
    let j = keys.index_of(key);
    assert(0 <= j < keys.len() && keys[j] == key);
    crate::text::text_before_irreflexive(key);
    if i < j {
        assert(text_before(keys[i], keys[j]));
    } else if j < i {
        assert(text_before(keys[j], keys[i]));
    }
}

impl<V> View for Table<V> {
    type V = Map<Seq<char>, V>;

    closed spec fn view(&self) -> Map<Seq<char>, V> {
        map_of(self.entries@)
    }
}

impl<V> Table<V> {
    #[verifier::type_invariant]
    spec fn in_key_order(self) -> bool {
        ordered(keys_of(self.entries@))
    }

    /// An empty table.
    pub fn new() -> (table: Self)
        ensures
            table@ == Map::<Seq<char>, V>::empty(),
    {
        let table = Table { entries: Vec::new() };
        proof {
            assert(table@ =~= Map::<Seq<char>, V>::empty());
        }
        table
    }

    /// The position of the first entry whose key is not before `key`.
    fn position(&self, key: &str) -> (found: (usize, bool))
        ensures
            found.0 <= self.entries@.len(),
            forall|i: int| 0 <= i < found.0 ==> text_before(#[trigger] keys_of(self.entries@)[i], key@),
            found.1 ==> found.0 < self.entries@.len() && keys_of(self.entries@)[found.0 as int]
                == key@,
            !found.1 ==> forall|i: int|
                found.0 <= i < self.entries@.len() ==> text_before(
                    key@,
                    #[trigger] keys_of(self.entries@)[i],
                ),
    {
        proof {
            use_type_invariant(self);
        }
        let ghost keys = keys_of(self.entries@);
        let mut i: usize = 0;
        while i < self.entries.len()
            invariant
                i <= self.entries@.len(),
                keys == keys_of(self.entries@),
                ordered(keys),
                forall|j: int| 0 <= j < i ==> text_before(#[trigger] keys[j], key@),
            decreases self.entries@.len() - i,
        {
            match place(self.entries[i].0.as_str(), key) {
                Place::Before => {
                    proof {
                        assert(text_before(keys[i as int], key@));
                    }
                },
                Place::Same => {
                    return (i, true);
                },
                Place::After => {
                    proof {
                        assert forall|j: int| i <= j < keys.len() implies text_before(
                            key@,
                            #[trigger] keys[j],
                        ) by {
                            if i < j {
                                assert(text_before(keys[i as int], keys[j]));
                                crate::text::text_before_transitive(key@, keys[i as int], keys[j]);
                            }
                        }
                    }
                    return (i, false);
                },
            }
            i += 1;
        }
        (i, false)
    }

    proof fn lemma_absent(entries: Seq<(String, V)>, key: Seq<char>, at: int)
        requires
            0 <= at <= entries.len(),
            forall|i: int| 0 <= i < at ==> text_before(#[trigger] keys_of(entries)[i], key),
            forall|i: int|
                at <= i < entries.len() ==> text_before(key, #[trigger] keys_of(entries)[i]),
        ensures
            !map_of(entries).contains_key(key),
    {
        let keys = keys_of(entries);
        if keys.contains(key) {
            let i = choose|i: int| 0 <= i < keys.len() && keys[i] == key;
            crate::text::text_before_irreflexive(key);
            assert(text_before(keys[i], key) || text_before(key, keys[i]));
        }
    }

    /// The value under `key`, if there is one.
    pub fn get(&self, key: &str) -> (value: Option<&V>)
        ensures
            value is Some <==> self@.contains_key(key@),
            value matches Some(value) ==> *value == self@[key@],
    {
        proof {
            use_type_invariant(self);
        }
        let (at, present) = self.position(key);
        if present {
            proof {
                lemma_map_of(self.entries@, at as int);
            }
            Some(&self.entries[at].1)
        } else {
            proof {
                Self::lemma_absent(self.entries@, key@, at as int);
            }
            None
        }
    }

    /// Whether there is a value under `key`.
    pub fn contains(&self, key: &str) -> (yes: bool)
        ensures
            yes == self@.contains_key(key@),
    {
        self.get(key).is_some()
    }

    /// Puts `value` under `key`, and gives back the value that it replaces.
    pub fn insert(&mut self, key: String, value: V) -> (replaced: Option<V>)
        ensures
            final(self)@ == old(self)@.insert(key@, value),
            replaced is Some <==> old(self)@.contains_key(key@),
            replaced matches Some(replaced) ==> replaced == old(self)@[key@],
    {
        proof {
            use_type_invariant(&*self);
        }
        let (at, present) = self.position(key.as_str());
        let mut entries: Vec<(String, V)> = Vec::new();
        std::mem::swap(&mut entries, &mut self.entries);
        let ghost before = entries@;
        let replaced = if present {
            let (_, replaced) = entries.remove(at);
            proof {
                lemma_map_of(before, at as int);
            }
            Some(replaced)
        } else {
            proof {
                Self::lemma_absent(before, key@, at as int);
            }
            None
        };
        let ghost middle = entries@;
        let ghost entry = (key, value);
        entries.insert(at, (key, value));
        proof {
            let after = entries@;
            let old_keys = keys_of(before);
            let keys = keys_of(after);
            let shift: int = if present {
                0
            } else {
                1
            };
            assert forall|i: int| 0 <= i < keys.len() implies #[trigger] keys[i] == (if i < at {
                old_keys[i]
            } else if i == at {
                entry.0@
            } else {
                old_keys[i - shift]
            }) by {}
            assert(ordered(keys)) by {
                assert forall|i: int, j: int| 0 <= i < j < keys.len() implies text_before(
                    keys[i],
                    keys[j],
                ) by {
                    if i < at && j > at {
                        assert(text_before(old_keys[i], old_keys[j - shift]));
                    } else if i < at && j == at {
                        assert(text_before(old_keys[i], entry.0@));
                    } else if i == at {
                        if present {
                            assert(text_before(old_keys[at as int], old_keys[j]));
                        } else {
                            assert(text_before(entry.0@, old_keys[j - 1]));
                        }
                    } else if j < at {
                        assert(text_before(old_keys[i], old_keys[j]));
                    } else {
                        assert(text_before(old_keys[i - shift], old_keys[j - shift]));
                    }
                }
            }
            Self::lemma_inserted(before, after, entry.0@, entry.1, at as int, shift);
        }
        self.entries = entries;
        replaced
    }

    proof fn lemma_inserted(
        before: Seq<(String, V)>,
        after: Seq<(String, V)>,
        key: Seq<char>,
        value: V,
        at: int,
        shift: int,
    )
        requires
            ordered(keys_of(before)),
            ordered(keys_of(after)),
            shift == 0 || shift == 1,
            after.len() == before.len() + shift,
            0 <= at < after.len(),
            shift == 0 ==> keys_of(before)[at] == key,
            after[at].0@ == key,
            after[at].1 == value,
            forall|i: int| 0 <= i < at ==> after[i] == before[i],
            forall|i: int| at < i < after.len() ==> after[i] == before[i - shift],
        ensures
            map_of(after) == map_of(before).insert(key, value),
    {
        let old_keys = keys_of(before);
        let keys = keys_of(after);
        let expected = map_of(before).insert(key, value);
        assert forall|k: Seq<char>| map_of(after).contains_key(k) <==> expected.contains_key(k) by {
            if keys.contains(k) {
                let i = choose|i: int| 0 <= i < keys.len() && keys[i] == k;
                if i < at {
                    assert(old_keys[i] == k);
                } else if i > at {
                    assert(old_keys[i - shift] == k);
                }
            }
            if old_keys.contains(k) {
                let i = choose|i: int| 0 <= i < old_keys.len() && old_keys[i] == k;
                if i < at {
                    assert(keys[i] == k);
                } else if i == at && shift == 0 {
                    assert(keys[at] == k);
                } else {
                    assert(keys[i + shift] == k);
                }
            }
            assert(keys[at] == key);
        }
        assert forall|k: Seq<char>| map_of(after).contains_key(k) implies #[trigger] map_of(after)[k]
            == expected[k] by {
            let i = choose|i: int| 0 <= i < keys.len() && keys[i] == k;
            lemma_map_of(after, i);
            crate::text::text_before_irreflexive(k);
            if i < at {
                assert(text_before(keys[i], keys[at]));
                lemma_map_of(before, i);
            } else if i > at {
                assert(text_before(keys[at], keys[i]));
                lemma_map_of(before, i - shift);
            }
        }
        assert(map_of(after) =~= expected);
    }

    /// Takes out the value under `key`, if there is one.
    pub fn remove(&mut self, key: &str) -> (removed: Option<V>)
        ensures
            final(self)@ == old(self)@.remove(key@),
            removed is Some <==> old(self)@.contains_key(key@),
            removed matches Some(removed) ==> removed == old(self)@[key@],
    {
        proof {
            use_type_invariant(&*self);
        }
        let (at, present) = self.position(key);
        if !present {
            proof {
                Self::lemma_absent(self.entries@, key@, at as int);
                assert(self@.remove(key@) =~= self@);
            }
            return None;
        }
        let mut entries: Vec<(String, V)> = Vec::new();
        std::mem::swap(&mut entries, &mut self.entries);
        let ghost before = entries@;
        let (_, removed) = entries.remove(at);
        proof {
            let after = entries@;
            let old_keys = keys_of(before);
            let keys = keys_of(after);
            assert(ordered(keys)) by {
                assert forall|i: int, j: int| 0 <= i < j < keys.len() implies text_before(
                    keys[i],
                    keys[j],
                ) by {
                    let p = if i < at {
                        i
                    } else {
                        i + 1
                    };
                    let q = if j < at {
                        j
                    } else {
                        j + 1
                    };
                    assert(text_before(old_keys[p], old_keys[q]));
                }
            }
            lemma_map_of(before, at as int);
            let expected = map_of(before).remove(key@);
            assert forall|k: Seq<char>|
                map_of(after).contains_key(k) <==> expected.contains_key(k) by {
                crate::text::text_before_irreflexive(k);
                if keys.contains(k) {
                    let i = choose|i: int| 0 <= i < keys.len() && keys[i] == k;
                    if i < at {
                        assert(old_keys[i] == k);
                        assert(text_before(old_keys[i], old_keys[at as int]));
                    } else {
                        assert(old_keys[i + 1] == k);
                        assert(text_before(old_keys[at as int], old_keys[i + 1]));
                    }
                }
                if old_keys.contains(k) && k != key@ {
                    let i = choose|i: int| 0 <= i < old_keys.len() && old_keys[i] == k;
                    if i < at {
                        assert(keys[i] == k);
                    } else {
                        assert(keys[i - 1] == k);
                    }
                }
            }
            assert forall|k: Seq<char>| map_of(after).contains_key(k) implies #[trigger] map_of(
                after,
            )[k] == expected[k] by {
                assert(expected.contains_key(k));
                let i = choose|i: int| 0 <= i < keys.len() && keys[i] == k;
                lemma_map_of(after, i);
                if i < at {
                    lemma_map_of(before, i);
                } else {
                    lemma_map_of(before, i + 1);
                }
            }
            assert(map_of(after) =~= expected);
        }
        self.entries = entries;
        Some(removed)
    }

    /// The keys, in order.
    pub fn keys(&self) -> (keys: Vec<String>)
        ensures
            texts(keys@) == in_order(self@.dom()),
            ordered(texts(keys@)),
            texts(keys@).to_set() == self@.dom(),
            self@.dom().finite(),
    {
        proof {
            use_type_invariant(self);
        }
        let mut keys: Vec<String> = Vec::new();
        let mut i: usize = 0;
        while i < self.entries.len()
            invariant
                i <= self.entries@.len(),
                texts(keys@) == keys_of(self.entries@).take(i as int),
            decreases self.entries@.len() - i,
        {
            let ghost before = texts(keys@);
            let key = self.entries[i].0.clone();
            keys.push(key);
            i += 1;
            proof {
                assert(texts(keys@) =~= before.push(key@));
                assert(texts(keys@) =~= keys_of(self.entries@).take(i as int));
            }
        }
        proof {
            let all = keys_of(self.entries@);
            assert(all.take(i as int) =~= all);
            assert(all.to_set() =~= self@.dom());
            lemma_in_order(all);
        }
        keys
    }

    /// How many entries there are.
    pub fn len(&self) -> (len: usize)
        ensures
            len == self@.dom().len(),
            self@.dom().finite(),
    {
        proof {
            use_type_invariant(self);
            let keys = keys_of(self.entries@);
            assert(keys.to_set() =~= self@.dom());
            lemma_ordered_distinct(keys);
            keys.unique_seq_to_set();
        }
        self.entries.len()
    }

    /// Whether there is no entry.
    pub fn is_empty(&self) -> (empty: bool)
        ensures
            empty == (self@.dom().len() == 0),
            empty == (self@ == Map::<Seq<char>, V>::empty()),
    {
        let n = self.len();
        proof {
            if n == 0 {
                assert(self@.dom() =~= Set::empty());
                assert(self@ =~= Map::<Seq<char>, V>::empty());
            }
        }
        n == 0
    }
}

} // verus!
