//! A map and a set of texts that remember the order in which their members came.

use crate::text::{same_text, texts};
use vstd::hash_map::StringHashMap;
use vstd::hash_set::StringHashSet;
use vstd::prelude::*;

verus! {

/// A map from texts to values. A key keeps the place where it was first inserted.
pub struct StrMap<V> {
    entries: Vec<(String, V)>,
    slots: StringHashMap<usize>,
}

/// The map that inserting the pairs in their order leaves: of two pairs with one key, the later
/// one counts.
pub open spec fn map_of<V>(pairs: Seq<(Seq<char>, V)>) -> Map<Seq<char>, V>
    decreases pairs.len(),
{
    if pairs.len() == 0 {
        Map::empty()
    } else {
        map_of(pairs.drop_last()).insert(pairs.last().0, pairs.last().1)
    }
}

/// Where the first pair with the given key stands.
pub open spec fn place_of<V>(pairs: Seq<(Seq<char>, V)>, key: Seq<char>) -> Option<int>
    decreases pairs.len(),
{
    if pairs.len() == 0 {
        None
    } else if pairs[0].0 == key {
        Some(0)
    } else {
        match place_of(pairs.skip(1), key) {
            Some(i) => Some(i + 1),
            None => None,
        }
    }
}

/// The pairs after one more was put in: a new key comes last, a known one keeps its place.
pub open spec fn with_pair<V>(
    pairs: Seq<(Seq<char>, V)>,
    key: Seq<char>,
    value: V,
) -> Seq<(Seq<char>, V)> {
    match place_of(pairs, key) {
        Some(i) => pairs.update(i, (key, value)),
        None => pairs.push((key, value)),
    }
}

/// The pairs after all of `list` were put in, one after the other.
pub open spec fn put_in_order<V>(list: Seq<(Seq<char>, V)>) -> Seq<(Seq<char>, V)>
    decreases list.len(),
{
    if list.len() == 0 {
        Seq::empty()
    } else {
        with_pair(put_in_order(list.drop_last()), list.last().0, list.last().1)
    }
}

pub proof fn lemma_place_of<V>(pairs: Seq<(Seq<char>, V)>, key: Seq<char>)
    ensures
        match place_of(pairs, key) {
            Some(i) => 0 <= i < pairs.len() && pairs[i].0 == key && forall|j: int|
                0 <= j < i ==> (#[trigger] pairs[j]).0 != key,
            None => forall|j: int| 0 <= j < pairs.len() ==> (#[trigger] pairs[j]).0 != key,
        },
    decreases pairs.len(),
{
    if pairs.len() > 0 && pairs[0].0 != key {
        let rest = pairs.skip(1);
        lemma_place_of(rest, key);
        match place_of(rest, key) {
            Some(i) => {
                assert(rest[i] == pairs[i + 1]);
                assert forall|j: int| 0 <= j < i + 1 implies (#[trigger] pairs[j]).0 != key by {
                    if j > 0 {
                        assert(rest[j - 1] == pairs[j]);
                    }
                }
            },
            None => {
                assert forall|j: int| 0 <= j < pairs.len() implies (#[trigger] pairs[j]).0 != key by {
                    if j > 0 {
                        assert(rest[j - 1] == pairs[j]);
                    }
                }
            },
        }
    }
}

/// No two pairs have the same key.
pub open spec fn distinct_keys<V>(pairs: Seq<(Seq<char>, V)>) -> bool {
    forall|i: int, j: int|
        0 <= i < j < pairs.len() ==> (#[trigger] pairs[i]).0 != (#[trigger] pairs[j]).0
}

/// Of pairs with distinct keys the map holds exactly the pairs.
pub proof fn lemma_map_of<V>(pairs: Seq<(Seq<char>, V)>)
    requires
        distinct_keys(pairs),
    ensures
        forall|i: int|
            0 <= i < pairs.len() ==> map_of(pairs).contains_key((#[trigger] pairs[i]).0) && map_of(
                pairs,
            )[pairs[i].0] == pairs[i].1,
        forall|k: Seq<char>| #[trigger]
            map_of(pairs).contains_key(k) ==> exists|i: int|
                0 <= i < pairs.len() && (#[trigger] pairs[i]).0 == k,
        map_of(pairs).dom().finite(),
        map_of(pairs).len() == pairs.len(),
    decreases pairs.len(),
{
    if pairs.len() > 0 {
        let head = pairs.drop_last();
        lemma_map_of(head);
        assert forall|i: int| 0 <= i < pairs.len() implies map_of(pairs).contains_key(
            (#[trigger] pairs[i]).0,
        ) && map_of(pairs)[pairs[i].0] == pairs[i].1 by {
            if i < pairs.len() - 1 {
                assert(head[i] == pairs[i]);
            }
        }
        assert forall|k: Seq<char>| #[trigger] map_of(pairs).contains_key(k) implies exists|i: int|
            0 <= i < pairs.len() && (#[trigger] pairs[i]).0 == k by {
            if k == pairs.last().0 {
                assert(pairs[pairs.len() - 1].0 == k);
            } else {
                let i = choose|i: int| 0 <= i < head.len() && (#[trigger] head[i]).0 == k;
                assert(pairs[i].0 == k);
            }
        }
        if map_of(head).contains_key(pairs.last().0) {
            let i = choose|i: int| 0 <= i < head.len() && (#[trigger] head[i]).0 == pairs.last().0;
            assert(pairs[i].0 == pairs[pairs.len() - 1].0);
        }
        assert(map_of(pairs).dom() =~= map_of(head).dom().insert(pairs.last().0));
    }
}

/// Pairs with distinct keys are put in as they stand.
pub proof fn lemma_in_order<V>(list: Seq<(Seq<char>, V)>)
    requires
        distinct_keys(list),
    ensures
        put_in_order(list) == list,
    decreases list.len(),
{
    if list.len() > 0 {
        let head = list.drop_last();
        assert forall|i: int, j: int| 0 <= i < j < head.len() implies (#[trigger] head[i]).0 != (
        #[trigger] head[j]).0 by {
            assert(list[i].0 != list[j].0);
        }
        lemma_in_order(head);
        lemma_place_of(head, list.last().0);
        if let Some(i) = place_of(head, list.last().0) {
            assert(list[i].0 != list[list.len() - 1].0);
        }
        assert(put_in_order(list) =~= list);
    } else {
        assert(put_in_order(list) =~= list);
    }
}

pub proof fn lemma_put_at_most<V>(list: Seq<(Seq<char>, V)>)
    ensures
        put_in_order(list).len() <= list.len(),
    decreases list.len(),
{
    if list.len() > 0 {
        lemma_put_at_most(list.drop_last());
        lemma_place_of(put_in_order(list.drop_last()), list.last().0);
    }
}

/// Putting pairs in one after the other leaves each key once, with the value that came last.
pub proof fn lemma_put_in_order<V>(list: Seq<(Seq<char>, V)>)
    ensures
        distinct_keys(put_in_order(list)),
        map_of(put_in_order(list)) == map_of(list),
        forall|i: int|
            0 <= i < put_in_order(list).len() ==> list.contains(#[trigger] put_in_order(list)[i]),
    decreases list.len(),
{
    if list.len() > 0 {
        let head = list.drop_last();
        let (key, value) = list.last();
        let before = put_in_order(head);
        let after = put_in_order(list);
        lemma_put_in_order(head);
        lemma_place_of(before, key);
        assert forall|i: int, j: int| 0 <= i < j < after.len() implies (#[trigger] after[i]).0 != (
        #[trigger] after[j]).0 by {
            if i < before.len() && j < before.len() {
                assert(before[i].0 != before[j].0);
            } else {
                assert(before[i].0 != key);
            }
        }
        assert forall|i: int| 0 <= i < after.len() implies list.contains(#[trigger] after[i]) by {
            if after[i] == (key, value) {
                assert(list[list.len() - 1] == after[i]);
            } else {
                assert(after[i] == before[i]);
                let k = choose|k: int| 0 <= k < head.len() && head[k] == before[i];
                assert(list[k] == after[i]);
            }
        }
        lemma_map_of(before);
        lemma_map_of(after);
        let m = map_of(before).insert(key, value);
        assert forall|k: Seq<char>| map_of(after).contains_key(k) <==> m.contains_key(k) by {
            if map_of(after).contains_key(k) {
                let i = choose|i: int| 0 <= i < after.len() && (#[trigger] after[i]).0 == k;
                if k != key {
                    assert(before[i].0 == k);
                }
            }
            if m.contains_key(k) {
                if k == key {
                    match place_of(before, key) {
                        Some(i) => {
                            assert(after[i].0 == key);
                        },
                        None => {
                            assert(after[before.len() as int].0 == key);
                        },
                    }
                } else {
                    let i = choose|i: int| 0 <= i < before.len() && (#[trigger] before[i]).0 == k;
                    assert(after[i].0 == k);
                }
            }
        }
        assert forall|k: Seq<char>| map_of(after).contains_key(k) implies map_of(after)[k]
            == m[k] by {
            let i = choose|i: int| 0 <= i < after.len() && (#[trigger] after[i]).0 == k;
            assert(after[i].0 == k);
            if k != key {
                assert(before[i].0 == k);
                assert(before[i] == after[i]);
            }
        }
        assert(map_of(after) =~= m);
    }
}

impl<V> StrMap<V> {
    /// The pairs, in the order of their keys' first insertion.
    pub closed spec fn pairs(&self) -> Seq<(Seq<char>, V)> {
        self.entries@.map_values(|e: (String, V)| (e.0@, e.1))
    }

    /// Each key stands once, and the lookup table knows where.
    pub closed spec fn wf(&self) -> bool {
        &&& forall|i: int|
            0 <= i < self.entries@.len() ==> self.slots@.contains_key(
                (#[trigger] self.entries@[i]).0@,
            ) && self.slots@[self.entries@[i].0@] == i
        &&& forall|k: Seq<char>| #[trigger]
            self.slots@.contains_key(k) ==> self.slots@[k] < self.entries@.len()
                && self.entries@[self.slots@[k] as int].0@ == k
    }

    /// What the order has to do with the map.
    pub proof fn lemma_pairs(&self)
        requires
            self.wf(),
        ensures
            distinct_keys(self.pairs()),
            forall|i: int|
                0 <= i < self.pairs().len() ==> self@.contains_key((#[trigger] self.pairs()[i]).0)
                    && self@[self.pairs()[i].0] == self.pairs()[i].1,
            forall|k: Seq<char>| #[trigger]
                self@.contains_key(k) ==> exists|i: int|
                    0 <= i < self.pairs().len() && (#[trigger] self.pairs()[i]).0 == k,
            self@.dom().finite(),
            self@.len() == self.pairs().len(),
    {
        let p = self.pairs();
        assert forall|i: int, j: int| 0 <= i < j < p.len() implies (#[trigger] p[i]).0 != (
        #[trigger] p[j]).0 by {
            assert(self.entries@[i].0@ == p[i].0);
            assert(self.entries@[j].0@ == p[j].0);
        }
        lemma_map_of(p);
    }

    pub fn new() -> (map: Self)
        ensures
            map.wf(),
            map@ == Map::<Seq<char>, V>::empty(),
            map.pairs() == Seq::<(Seq<char>, V)>::empty(),
    {
        let map = StrMap { entries: Vec::new(), slots: StringHashMap::new() };
        assert(map.pairs() =~= Seq::<(Seq<char>, V)>::empty());
        map
    }

    pub fn len(&self) -> (n: usize)
        requires
            self.wf(),
        ensures
            n == self.pairs().len(),
            n == self@.len(),
    {
        proof {
            self.lemma_pairs();
        }
        self.entries.len()
    }

    /// Where `key` stands, if it is there.
    fn slot_of(&self, key: &str) -> (slot: Option<usize>)
        requires
            self.wf(),
        ensures
            match slot {
                Some(i) => i < self.pairs().len() && self.pairs()[i as int].0 == key@
                    && self@.contains_key(key@) && self@[key@] == self.pairs()[i as int].1,
                None => !self@.contains_key(key@) && forall|i: int|
                    0 <= i < self.pairs().len() ==> (#[trigger] self.pairs()[i]).0 != key@,
            },
    {
        proof {
            self.lemma_pairs();
        }
        match self.slots.get(key) {
            Some(i) => {
                assert(self.pairs()[*i as int].0 == key@);
                Some(*i)
            },
            None => {
                proof {
                    assert forall|i: int| 0 <= i < self.pairs().len() implies (
                    #[trigger] self.pairs()[i]).0 != key@ by {
                        assert(self.entries@[i].0@ == self.pairs()[i].0);
                    }
                }
                None
            },
        }
    }

    pub fn get(&self, key: &str) -> (value: Option<&V>)
        requires
            self.wf(),
        ensures
            match value {
                Some(v) => self@.contains_key(key@) && *v == self@[key@],
                None => !self@.contains_key(key@),
            },
    {
        match self.slot_of(key) {
            Some(i) => Some(&self.entries[i].1),
            None => None,
        }
    }

    pub fn contains_key(&self, key: &str) -> (found: bool)
        requires
            self.wf(),
        ensures
            found == self@.contains_key(key@),
    {
        self.slot_of(key).is_some()
    }

    /// The key that came as number `i`.
    pub fn key_at(&self, i: usize) -> (key: &String)
        requires
            i < self.pairs().len(),
        ensures
            key@ == self.pairs()[i as int].0,
    {
        &self.entries[i].0
    }

    /// The value of the key that came as number `i`.
    pub fn value_at(&self, i: usize) -> (value: &V)
        requires
            i < self.pairs().len(),
        ensures
            *value == self.pairs()[i as int].1,
    {
        &self.entries[i].1
    }

    /// Sets the value of `key`: a new key comes last, a known one keeps its place.
    pub fn insert(&mut self, key: String, value: V)
        requires
            old(self).wf(),
        ensures
            final(self).wf(),
            final(self)@ == old(self)@.insert(key@, value),
            final(self).pairs() == with_pair(old(self).pairs(), key@, value),
    {
        proof {
            self.lemma_pairs();
        }
        let ghost before = self.pairs();
        let ghost k = key@;
        proof {
            lemma_place_of(before, k);
        }
        match self.slot_of(key.as_str()) {
            Some(i) => {
                proof {
                    let p = place_of(before, k)->0;
                    assert(before[i as int].0 == k);
                    assert(p == i) by {
                        if i < p {
                            assert(before[i as int].0 != k);
                        } else if p < i {
                            assert(before[p].0 != before[i as int].0);
                        }
                    }
                }
                self.entries.set(i, (key, value));
                assert(self.pairs() =~= before.update(i as int, (k, value)));
                assert(before[i as int].0 == k);
                proof {
                    assert forall|j: int| 0 <= j < self.entries@.len() implies self.slots@.contains_key(
                        (#[trigger] self.entries@[j]).0@,
                    ) && self.slots@[self.entries@[j].0@] == j by {
                        assert(old(self).entries@[j].0@ == self.entries@[j].0@);
                    }
                    assert(self.wf());
                    self.lemma_pairs();
                    let m = old(self)@.insert(k, value);
                    assert forall|x: Seq<char>| self@.contains_key(x) implies m.contains_key(x)
                        && m[x] == self@[x] by {
                        let j = choose|j: int|
                            0 <= j < self.pairs().len() && (#[trigger] self.pairs()[j]).0 == x;
                        assert(before[j].0 == x);
                    }
                    assert forall|x: Seq<char>| m.contains_key(x) implies self@.contains_key(x) by {
                        if x == k {
                            assert(self.pairs()[i as int].0 == k);
                        } else {
                            let j = choose|j: int|
                                0 <= j < before.len() && (#[trigger] before[j]).0 == x;
                            assert(self.pairs()[j].0 == x);
                        }
                    }
                    assert(self@ =~= m);
                }
            },
            None => {
                let slot: usize = self.entries.len();
                self.slots.insert(key.clone(), slot);
                self.entries.push((key, value));
                assert(self.pairs() =~= before.push((k, value)));
                proof {
                    assert forall|j: int| 0 <= j < self.entries@.len() implies self.slots@.contains_key(
                        (#[trigger] self.entries@[j]).0@,
                    ) && self.slots@[self.entries@[j].0@] == j by {
                        if j < slot {
                            assert(old(self).entries@[j].0@ == self.entries@[j].0@);
                            assert(before[j].0 == old(self).entries@[j].0@);
                        }
                    }
                    assert(self.pairs().drop_last() =~= before);
                }
            },
        }
    }
}

impl<V> StrMap<V> {
    /// The keys with their values, in their order.
    pub fn into_entries(self) -> (entries: Vec<(String, V)>)
        ensures
            entries@.map_values(|e: (String, V)| (e.0@, e.1)) == self.pairs(),
    {
        self.entries
    }
}

impl<V> View for StrMap<V> {
    type V = Map<Seq<char>, V>;

    closed spec fn view(&self) -> Map<Seq<char>, V> {
        map_of(self.pairs())
    }
}

/// A set of texts.
pub struct StrSet {
    items: Vec<String>,
    members: StringHashSet,
}

impl StrSet {
    /// The members, in the order in which they came.
    pub closed spec fn order(&self) -> Seq<Seq<char>> {
        texts(self.items@)
    }

    /// Each member stands once in the order.
    pub closed spec fn wf(&self) -> bool {
        &&& self.order().no_duplicates()
        &&& self.members@ == self.order().to_set()
    }

    /// What the order has to do with the set.
    pub proof fn lemma_order(&self)
        requires
            self.wf(),
        ensures
            self.order().no_duplicates(),
            self@ == self.order().to_set(),
            self@.finite(),
            self@.len() == self.order().len(),
    {
        self.order().unique_seq_to_set();
    }

    pub fn new() -> (set: Self)
        ensures
            set.wf(),
            set@ == Set::<Seq<char>>::empty(),
            set.order() == Seq::<Seq<char>>::empty(),
    {
        let set = StrSet { items: Vec::new(), members: StringHashSet::new() };
        assert(set.order() =~= Seq::<Seq<char>>::empty());
        assert(set.order().to_set() =~= Set::<Seq<char>>::empty());
        set
    }

    pub fn len(&self) -> (n: usize)
        requires
            self.wf(),
        ensures
            n == self.order().len(),
            n == self@.len(),
    {
        proof {
            self.lemma_order();
        }
        self.items.len()
    }

    pub fn is_empty(&self) -> (empty: bool)
        requires
            self.wf(),
        ensures
            empty == (self@ == Set::<Seq<char>>::empty()),
            empty == (self.order().len() == 0),
    {
        proof {
            self.lemma_order();
            if self.order().len() == 0 {
                assert(self@ =~= Set::<Seq<char>>::empty());
            }
        }
        self.items.len() == 0
    }

    pub fn contains(&self, text: &str) -> (found: bool)
        requires
            self.wf(),
        ensures
            found == self@.contains(text@),
    {
        self.members.contains(text)
    }

    /// The member that came as number `i`.
    pub fn at(&self, i: usize) -> (text: &String)
        requires
            i < self.order().len(),
        ensures
            text@ == self.order()[i as int],
    {
        &self.items[i]
    }

    /// Adds `text`, last, unless it is there already. True where it was not.
    pub fn insert(&mut self, text: String) -> (added: bool)
        requires
            old(self).wf(),
        ensures
            final(self).wf(),
            final(self)@ == old(self)@.insert(text@),
            added == !old(self)@.contains(text@),
            final(self).order() == if added {
                old(self).order().push(text@)
            } else {
                old(self).order()
            },
    {
        proof {
            self.lemma_order();
        }
        if self.members.contains(text.as_str()) {
            assert(old(self)@.insert(text@) =~= old(self)@);
            return false;
        }
        let ghost before = self.order();
        let ghost t = text@;
        self.members.insert(text.clone());
        self.items.push(text);
        proof {
            assert(self.order() =~= before.push(t));
            before.lemma_push_to_set_commute(t);
            assert forall|i: int, j: int|
                0 <= i < self.order().len() && 0 <= j < self.order().len() && i
                    != j implies self.order()[i] != self.order()[j] by {
                if i == before.len() {
                    assert(before.contains(before[j]));
                }
                if j == before.len() {
                    assert(before.contains(before[i]));
                }
            }
        }
        true
    }

    /// Takes `text` out. True where it was there.
    pub fn remove(&mut self, text: &str) -> (removed: bool)
        requires
            old(self).wf(),
        ensures
            final(self).wf(),
            final(self)@ == old(self)@.remove(text@),
            removed == old(self)@.contains(text@),
    {
        proof {
            self.lemma_order();
        }
        if !self.members.contains(text) {
            assert(old(self)@.remove(text@) =~= old(self)@);
            return false;
        }
        let ghost before = self.order();
        let n: usize = self.items.len();
        let mut i: usize = 0;
        while !same_text(self.items[i].as_str(), text)
            invariant
                self.order() == before,
                self == old(self),
                self.members@.contains(text@),
                self.wf(),
                i < n == self.items@.len(),
                forall|j: int| 0 <= j < i ==> before[j] != text@,
            decreases self.items@.len() - i,
        {
            assert(before[i as int] == self.items@[i as int]@);
            proof {
                let k = choose|k: int| 0 <= k < before.len() && before[k] == text@;
                assert(before.contains(text@));
                assert(i < k);
            }
            i = i + 1;
        }
        self.members.remove(text);
        let _ = self.items.remove(i);
        proof {
            let after = self.order();
            assert(after =~= before.remove(i as int));
            assert(before[i as int] == text@);
            assert(after.no_duplicates());
            assert forall|x: Seq<char>| after.to_set().contains(x) == before.to_set().remove(
                text@,
            ).contains(x) by {
                if after.contains(x) {
                    let j = choose|j: int| 0 <= j < after.len() && after[j] == x;
                    let k = if j < i {
                        j
                    } else {
                        j + 1
                    };
                    assert(before[k] == x);
                    assert(before.contains(x));
                }
                if before.contains(x) && x != text@ {
                    let j = choose|j: int| 0 <= j < before.len() && before[j] == x;
                    let k = if j < i {
                        j
                    } else {
                        j - 1
                    };
                    assert(after[k] == x);
                    assert(after.contains(x));
                }
            }
            assert(after.to_set() =~= before.to_set().remove(text@));
        }
        true
    }

    pub fn clear(&mut self)
        ensures
            final(self).wf(),
            final(self)@ == Set::<Seq<char>>::empty(),
            final(self).order() == Seq::<Seq<char>>::empty(),
    {
        self.items.clear();
        self.members.clear();
        assert(self.order() =~= Seq::<Seq<char>>::empty());
        assert(self.order().to_set() =~= Set::<Seq<char>>::empty());
    }

    /// The set of the given texts.
    pub fn of(items: &Vec<String>) -> (set: Self)
        ensures
            set.wf(),
            set@ == texts(items@).to_set(),
    {
        let mut set = StrSet::new();
        let mut i: usize = 0;
        assert(texts(items@).take(0).to_set() =~= Set::<Seq<char>>::empty());
        while i < items.len()
            invariant
                i <= items@.len(),
                set.wf(),
                set@ == texts(items@).take(i as int).to_set(),
            decreases items@.len() - i,
        {
            proof {
                texts(items@).take(i as int).lemma_push_to_set_commute(items@[i as int]@);
                assert(texts(items@).take(i + 1) =~= texts(items@).take(i as int).push(
                    items@[i as int]@,
                ));
            }
            set.insert(items[i].clone());
            i = i + 1;
        }
        assert(texts(items@).take(i as int) =~= texts(items@));
        set
    }

    /// Adds all of the given texts.
    pub fn insert_all(&mut self, items: &Vec<String>)
        requires
            old(self).wf(),
        ensures
            final(self).wf(),
            final(self)@ == old(self)@.union(texts(items@).to_set()),
    {
        let ghost view = texts(items@);
        let ghost start = self@;
        let mut i: usize = 0;
        assert(self@ =~= start.union(view.take(0).to_set()));
        while i < items.len()
            invariant
                view == texts(items@),
                i <= items@.len(),
                self.wf(),
                self@ == start.union(view.take(i as int).to_set()),
            decreases items@.len() - i,
        {
            proof {
                view.take(i as int).lemma_push_to_set_commute(view[i as int]);
                assert(view.take(i + 1) =~= view.take(i as int).push(view[i as int]));
                assert(view[i as int] == items@[i as int]@);
            }
            self.insert(items[i].clone());
            assert(self@ =~= start.union(view.take(i + 1).to_set()));
            i = i + 1;
        }
        assert(view.take(items@.len() as int) =~= view);
    }

    /// Takes out what is not in `allowed`.
    pub fn keep_in(&mut self, allowed: &StrSet)
        requires
            old(self).wf(),
            allowed.wf(),
        ensures
            final(self).wf(),
            final(self)@ == old(self)@.intersect(allowed@),
    {
        let ghost before = self.order();
        let ghost all = self@;
        proof {
            self.lemma_order();
        }
        let mut kept = StrSet::new();
        let mut i: usize = 0;
        assert(kept@ =~= before.take(0).to_set().intersect(allowed@));
        while i < self.items.len()
            invariant
                before == texts(self.items@),
                i <= self.items@.len(),
                kept.wf(),
                allowed.wf(),
                kept@ == before.take(i as int).to_set().intersect(allowed@),
            decreases self.items@.len() - i,
        {
            proof {
                before.take(i as int).lemma_push_to_set_commute(before[i as int]);
                assert(before.take(i + 1) =~= before.take(i as int).push(before[i as int]));
                assert(before[i as int] == self.items@[i as int]@);
            }
            if allowed.contains(self.items[i].as_str()) {
                kept.insert(self.items[i].clone());
            }
            assert(kept@ =~= before.take(i + 1).to_set().intersect(allowed@));
            i = i + 1;
        }
        assert(before.take(before.len() as int) =~= before);
        *self = kept;
    }

    /// The same set once more.
    pub fn copy(&self) -> (set: Self)
        requires
            self.wf(),
        ensures
            set.wf(),
            set@ == self@,
    {
        StrSet::of(&self.items)
    }
}

impl View for StrSet {
    type V = Set<Seq<char>>;

    closed spec fn view(&self) -> Set<Seq<char>> {
        self.members@
    }
}

/// A new key comes last, and a known one keeps its place and gets the new value; all other pairs
/// stay where they are.
pub proof fn law_with_pair<V>(pairs: Seq<(Seq<char>, V)>, key: Seq<char>, value: V, i: int)
    requires
        distinct_keys(pairs),
    ensures
        (forall|k: int| 0 <= k < pairs.len() ==> (#[trigger] pairs[k]).0 != key) ==> with_pair(
            pairs,
            key,
            value,
        ) == pairs.push((key, value)),
        0 <= i < pairs.len() && pairs[i].0 == key ==> with_pair(pairs, key, value) == pairs.update(
            i,
            (key, value),
        ),
{
    lemma_place_of(pairs, key);
    if 0 <= i < pairs.len() && pairs[i].0 == key {
        let p = place_of(pairs, key)->0;
        if p != i {
            assert(pairs[p].0 == pairs[i].0);
        }
    }
}

/// Of pairs with one key the last one counts.
pub proof fn law_last_pair_counts<V>(pairs: Seq<(Seq<char>, V)>, key: Seq<char>, value: V)
    ensures
        map_of(Seq::<(Seq<char>, V)>::empty()) == Map::<Seq<char>, V>::empty(),
        map_of(pairs.push((key, value))) == map_of(pairs).insert(key, value),
        put_in_order(Seq::<(Seq<char>, V)>::empty()) == Seq::<(Seq<char>, V)>::empty(),
        put_in_order(pairs.push((key, value))) == with_pair(put_in_order(pairs), key, value),
{
    assert(pairs.push((key, value)).drop_last() =~= pairs);
}

} // verus!
