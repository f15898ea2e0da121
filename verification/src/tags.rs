//! Free-form key-value tags.

use vstd::prelude::*;

verus! {

/// The tags of a frame: a map from keys to values that keeps the order in which
/// its keys were first set.
#[derive(Debug)]
pub struct TagMap {
    pub entries: Vec<(String, String)>,
}

/// Entries as characters.
pub open spec fn pairs_of(entries: Seq<(String, String)>) -> Seq<(Seq<char>, Seq<char>)> {
    entries.map_values(|e: (String, String)| (e.0@, e.1@))
}

/// The map that `pairs` stand for: of two entries with one key the first counts.
pub open spec fn map_of(pairs: Seq<(Seq<char>, Seq<char>)>) -> Map<Seq<char>, Seq<char>>
    decreases pairs.len(),
{
    if pairs.len() == 0 {
        Map::empty()
    } else {
        let earlier = map_of(pairs.drop_last());
        if earlier.contains_key(pairs.last().0) {
            earlier
        } else {
            earlier.insert(pairs.last().0, pairs.last().1)
        }
    }
}

/// No key occurs twice.
pub open spec fn unique_keys(pairs: Seq<(Seq<char>, Seq<char>)>) -> bool {
    forall|i: int, j: int|
        0 <= i < j < pairs.len() ==> (#[trigger] pairs[i]).0 != (#[trigger] pairs[j]).0
}

/// Whether `entries` are `before` with `key` set to `value`: in the first entry of
/// that key, or else in a new entry behind the others.
pub open spec fn is_set(
    entries: Seq<(String, String)>,
    before: Seq<(String, String)>,
    key: Seq<char>,
    value: Seq<char>,
) -> bool {
    if exists|i: int| 0 <= i < before.len() && (#[trigger] before[i]).0@ == key {
        entries.len() == before.len() && forall|i: int|
            0 <= i < before.len() ==> (#[trigger] entries[i]).0@ == before[i].0@ && entries[i].1@
                == if before[i].0@ == key && forall|j: int|
                0 <= j < i ==> (#[trigger] before[j]).0@ != key {
                value
            } else {
                before[i].1@
            }
    } else {
        entries.len() == before.len() + 1 && entries.last().0@ == key && entries.last().1@ == value
            && forall|i: int|
            0 <= i < before.len() ==> (#[trigger] entries[i]).0@ == before[i].0@ && entries[i].1@
                == before[i].1@
    }
}

/// The map holds the keys of the entries, each with the value of its first entry.
pub proof fn map_is_the_first_entries(pairs: Seq<(Seq<char>, Seq<char>)>, key: Seq<char>)
    ensures
        map_of(pairs).contains_key(key) <==> exists|i: int|
            0 <= i < pairs.len() && (#[trigger] pairs[i]).0 == key,
        forall|i: int|
            0 <= i < pairs.len() && (#[trigger] pairs[i]).0 == key && (forall|j: int|
                0 <= j < i ==> (#[trigger] pairs[j]).0 != key) ==> map_of(pairs)[key]
                == pairs[i].1,
{
    lemma_map_of_keys(pairs, key);
    assert forall|i: int|
        0 <= i < pairs.len() && (#[trigger] pairs[i]).0 == key && (forall|j: int|
            0 <= j < i ==> (#[trigger] pairs[j]).0 != key) implies map_of(pairs)[key]
        == pairs[i].1 by {
        let upto = pairs.take(i + 1);
        let before = pairs.take(i);
        assert(upto.drop_last() =~= before);
        lemma_map_of_keys(before, key);
        assert(forall|j: int| 0 <= j < i ==> before[j] == #[trigger] pairs[j]);
        lemma_map_of_grows(pairs, i + 1, key);
    }
}

proof fn lemma_map_of_keys(pairs: Seq<(Seq<char>, Seq<char>)>, key: Seq<char>)
    ensures
        map_of(pairs).contains_key(key) <==> exists|i: int|
            0 <= i < pairs.len() && (#[trigger] pairs[i]).0 == key,
    decreases pairs.len(),
{
    if pairs.len() > 0 {
        let n = pairs.len() - 1;
        lemma_map_of_keys(pairs.drop_last(), key);
        assert(forall|i: int| 0 <= i < n ==> pairs.drop_last()[i] == #[trigger] pairs[i]);
        if map_of(pairs).contains_key(key) {
            if map_of(pairs.drop_last()).contains_key(key) {
                let i = choose|i: int|
                    0 <= i < pairs.drop_last().len() && (#[trigger] pairs.drop_last()[i]).0 == key;
                assert(pairs[i].0 == key);
            } else {
                assert(pairs[n].0 == key);
            }
        }
        if exists|i: int| 0 <= i < pairs.len() && (#[trigger] pairs[i]).0 == key {
            let i = choose|i: int| 0 <= i < pairs.len() && (#[trigger] pairs[i]).0 == key;
            if i < n {
                assert(pairs.drop_last()[i].0 == key);
            }
        }
    }
}

/// Later entries do not change what an earlier entry has set.
proof fn lemma_map_of_grows(pairs: Seq<(Seq<char>, Seq<char>)>, n: int, key: Seq<char>)
    requires
        0 <= n <= pairs.len(),
        map_of(pairs.take(n)).contains_key(key),
    ensures
        map_of(pairs).contains_key(key),
        map_of(pairs)[key] == map_of(pairs.take(n))[key],
    decreases pairs.len() - n,
{
    if n == pairs.len() {
        assert(pairs.take(n) =~= pairs);
    } else {
        assert(pairs.take(n + 1).drop_last() =~= pairs.take(n));
        lemma_map_of_grows(pairs, n + 1, key);
    }
}

/// Setting the value of the first entry with its key sets that key in the map.
proof fn lemma_map_of_update(
    pairs: Seq<(Seq<char>, Seq<char>)>,
    i: int,
    key: Seq<char>,
    value: Seq<char>,
)
    requires
        0 <= i < pairs.len(),
        pairs[i].0 == key,
        forall|j: int| 0 <= j < i ==> (#[trigger] pairs[j]).0 != key,
    ensures
        map_of(pairs.update(i, (key, value))) =~= map_of(pairs).insert(key, value),
    decreases pairs.len(),
{
    let n = pairs.len() - 1;
    let new = pairs.update(i, (key, value));
    if i == n {
        assert(new.drop_last() =~= pairs.drop_last());
        lemma_map_of_keys(pairs.drop_last(), key);
    } else {
        assert(new.drop_last() =~= pairs.drop_last().update(i, (key, value)));
        lemma_map_of_update(pairs.drop_last(), i, key, value);
        lemma_map_of_keys(pairs.drop_last(), key);
        assert(pairs.drop_last()[i].0 == key);
    }
}

impl View for TagMap {
    type V = Map<Seq<char>, Seq<char>>;

    open spec fn view(&self) -> Self::V {
        map_of(self.pairs())
    }
}

impl TagMap {
    /// The entries in order, as characters.
    pub open spec fn pairs(&self) -> Seq<(Seq<char>, Seq<char>)> {
        pairs_of(self.entries@)
    }

    /// A map without tags.
    pub fn new() -> (r: Self)
        ensures
            r@ == Map::<Seq<char>, Seq<char>>::empty(),
            r.pairs() == Seq::<(Seq<char>, Seq<char>)>::empty(),
            unique_keys(r.pairs()),
            r.entries@.len() == 0,
    {
        let r = TagMap { entries: Vec::new() };
        assert(r.pairs() =~= Seq::empty());
        r
    }

    /// Whether there is no tag.
    pub fn is_empty(&self) -> (r: bool)
        ensures
            r == (self.pairs().len() == 0),
            r == (self.entries@.len() == 0),
            r == (self@ == Map::<Seq<char>, Seq<char>>::empty()),
    {
        proof {
            if self.pairs().len() > 0 {
                assert(self.pairs()[0].0 == self.pairs()[0].0);
                lemma_map_of_keys(self.pairs(), self.pairs()[0].0);
                assert(self@.contains_key(self.pairs()[0].0));
            }
        }
        self.entries.is_empty()
    }

    /// The place of the first entry with `key`.
    fn position(&self, key: &str) -> (r: Option<usize>)
        ensures
            match r {
                Some(i) => {
                    &&& i < self.entries@.len()
                    &&& self.pairs()[i as int].0 == key@
                    &&& self.entries@[i as int].0@ == key@
                    &&& forall|j: int| 0 <= j < i ==> (#[trigger] self.pairs()[j]).0 != key@
                    &&& forall|j: int| 0 <= j < i ==> (#[trigger] self.entries@[j]).0@ != key@
                },
                None => {
                    &&& forall|j: int|
                        0 <= j < self.pairs().len() ==> (#[trigger] self.pairs()[j]).0 != key@
                    &&& forall|j: int|
                        0 <= j < self.entries@.len() ==> (#[trigger] self.entries@[j]).0@ != key@
                },
            },
    {
        let wanted = key.to_owned();
        let mut i: usize = 0;
        while i < self.entries.len()
            invariant
                i <= self.entries@.len(),
                wanted@ == key@,
                forall|j: int| 0 <= j < i ==> (#[trigger] self.pairs()[j]).0 != key@,
                forall|j: int| 0 <= j < i ==> (#[trigger] self.entries@[j]).0@ != key@,
            decreases self.entries@.len() - i,
        {
            if self.entries[i].0 == wanted {
                return Some(i);
            }
            i = i + 1;
        }
        None
    }

    /// The value of `key`.
    pub fn get(&self, key: &str) -> (r: Option<&String>)
        ensures
            match r {
                Some(v) => self@.contains_key(key@) && self@[key@] == v@,
                None => !self@.contains_key(key@),
            },
            match r {
                Some(v) => exists|i: int|
                    0 <= i < self.entries@.len() && (#[trigger] self.entries@[i]).0@ == key@
                        && self.entries@[i].1@ == v@ && forall|j: int|
                        0 <= j < i ==> (#[trigger] self.entries@[j]).0@ != key@,
                None => forall|i: int|
                    0 <= i < self.entries@.len() ==> (#[trigger] self.entries@[i]).0@ != key@,
            },
    {
        proof {
            lemma_map_of_keys(self.pairs(), key@);
        }
        match self.position(key) {
            Some(i) => {
                proof {
                    let upto = self.pairs().take(i + 1);
                    assert(upto.drop_last() =~= self.pairs().take(i as int));
                    lemma_map_of_keys(self.pairs().take(i as int), key@);
                    assert(forall|j: int|
                        0 <= j < i ==> self.pairs().take(i as int)[j]
                            == #[trigger] self.pairs()[j]);
                    lemma_map_of_grows(self.pairs(), i + 1, key@);
                }
                Some(&self.entries[i].1)
            },
            None => None,
        }
    }

    /// Sets `key` to `value`, in the place of an earlier value.
    pub fn insert(&mut self, key: &str, value: &str)
        ensures
            final(self)@ == old(self)@.insert(key@, value@),
            is_set(final(self).entries@, old(self).entries@, key@, value@),
            unique_keys(old(self).pairs()) ==> unique_keys(final(self).pairs()),
    {
        let ghost before = self.pairs();
        let ghost earlier = self.entries@;
        match self.position(key) {
            Some(i) => {
                self.entries.set(i, (key.to_owned(), value.to_owned()));
                proof {
                    assert(self.pairs() =~= before.update(i as int, (key@, value@)));
                    assert(earlier[i as int].0@ == key@);
                    lemma_map_of_update(before, i as int, key@, value@);
                    if unique_keys(before) {
                        assert forall|a: int, b: int| 0 <= a < b < self.pairs().len() implies (
                        #[trigger] self.pairs()[a]).0 != (#[trigger] self.pairs()[b]).0 by {
                            assert(before[a].0 != before[b].0);
                        }
                    }
                }
            },
            None => {
                self.entries.push((key.to_owned(), value.to_owned()));
                proof {
                    assert(self.pairs() =~= before.push((key@, value@)));
                    assert(!exists|j: int| 0 <= j < earlier.len() && (#[trigger] earlier[j]).0@
                        == key@);
                    assert(self.pairs().drop_last() =~= before);
                    lemma_map_of_keys(before, key@);
                }
            },
        }
    }
}

impl Clone for TagMap {
    fn clone(&self) -> (r: Self)
        ensures
            r.entries@ == self.entries@,
            r@ == self@,
    {
        let mut entries: Vec<(String, String)> = Vec::new();
        let mut i: usize = 0;
        while i < self.entries.len()
            invariant
                i <= self.entries@.len(),
                entries@ == self.entries@.take(i as int),
            decreases self.entries@.len() - i,
        {
            let e = &self.entries[i];
            entries.push((e.0.clone(), e.1.clone()));
            assert(self.entries@.take(i + 1) =~= self.entries@.take(i as int).push(
                self.entries@[i as int],
            ));
            i = i + 1;
        }
        assert(entries@ =~= self.entries@);
        TagMap { entries }
    }
}

} // verus!
