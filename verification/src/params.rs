use crate::text::str_eq;
use vstd::prelude::*;

verus! {

/// A key or a value, as the sequence of its characters.
pub type Text = Seq<char>;

/// The mapping that a list of pairs stands for: each key maps to the
/// value that the last pair with that key gives it.
pub open spec fn map_of(pairs: Seq<(Text, Text)>) -> Map<Text, Text>
    decreases pairs.len(),
{
    if pairs.len() == 0 {
        Map::empty()
    } else {
        map_of(pairs.drop_last()).insert(pairs.last().0, pairs.last().1)
    }
}

/// No key occurs in two pairs.
pub open spec fn distinct_keys(pairs: Seq<(Text, Text)>) -> bool {
    forall|i: int, j: int| 0 <= i < j < pairs.len() ==> pairs[i].0 != pairs[j].0
}

/// Some pair of the list has the key `k`.
pub open spec fn has_key(pairs: Seq<(Text, Text)>, k: Text) -> bool {
    exists|i: int| 0 <= i < pairs.len() && #[trigger] pairs[i].0 == k
}

/// The keys of `map_of(pairs)` are the keys of the pairs.
pub proof fn lemma_map_of_dom(pairs: Seq<(Text, Text)>, k: Text)
    ensures
        map_of(pairs).contains_key(k) <==> has_key(pairs, k),
        map_of(pairs).dom().finite(),
    decreases pairs.len(),
{
    if pairs.len() > 0 {
        let init = pairs.drop_last();
        lemma_map_of_dom(init, k);
        if has_key(init, k) {
            let i = choose|i: int| 0 <= i < init.len() && #[trigger] init[i].0 == k;
            assert(pairs[i].0 == k);
        }
        if has_key(pairs, k) {
            let i = choose|i: int| 0 <= i < pairs.len() && #[trigger] pairs[i].0 == k;
            if i < init.len() {
                assert(init[i].0 == k);
            }
        }
        if pairs.last().0 == k {
            assert(pairs[pairs.len() - 1].0 == k);
        }
    }
}

/// Where no key occurs twice, each pair's key maps to that pair's value.
pub proof fn lemma_map_of_index(pairs: Seq<(Text, Text)>, i: int)
    requires
        distinct_keys(pairs),
        0 <= i < pairs.len(),
    ensures
        map_of(pairs).contains_key(pairs[i].0),
        map_of(pairs)[pairs[i].0] == pairs[i].1,
    decreases pairs.len(),
{
    if i < pairs.len() - 1 {
        let init = pairs.drop_last();
        assert(init[i] == pairs[i]);
        lemma_map_of_index(init, i);
    }
}

/// Where no key occurs twice, the mapping has as many entries as the list
/// has pairs.
pub proof fn lemma_map_of_len(pairs: Seq<(Text, Text)>)
    requires
        distinct_keys(pairs),
    ensures
        map_of(pairs).dom().finite(),
        map_of(pairs).len() == pairs.len(),
    decreases pairs.len(),
{
    if pairs.len() > 0 {
        let init = pairs.drop_last();
        lemma_map_of_len(init);
        lemma_map_of_dom(init, pairs.last().0);
        if has_key(init, pairs.last().0) {
            let i = choose|i: int| 0 <= i < init.len() && #[trigger] init[i].0 == pairs.last().0;
            assert(pairs[i].0 == pairs[pairs.len() - 1].0);
        }
    }
}

/// Giving the key of pair `i` a new value in place is an `insert` on the
/// mapping.
pub proof fn lemma_map_of_update(pairs: Seq<(Text, Text)>, i: int, v: Text)
    requires
        distinct_keys(pairs),
        0 <= i < pairs.len(),
    ensures
        map_of(pairs.update(i, (pairs[i].0, v))) == map_of(pairs).insert(pairs[i].0, v),
        distinct_keys(pairs.update(i, (pairs[i].0, v))),
    decreases pairs.len(),
{
    let changed = pairs.update(i, (pairs[i].0, v));
    let init = pairs.drop_last();
    if i == pairs.len() - 1 {
        assert(changed.drop_last() =~= init);
        assert(map_of(changed) =~= map_of(pairs).insert(pairs[i].0, v));
    } else {
        assert(init[i] == pairs[i]);
        lemma_map_of_update(init, i, v);
        assert(changed.drop_last() =~= init.update(i, (pairs[i].0, v)));
        assert(pairs[i].0 != pairs[pairs.len() - 1].0);
        assert(map_of(changed) =~= map_of(pairs).insert(pairs[i].0, v));
    }
}

/// The pairs as sequences of characters.
pub open spec fn pairs_of(entries: Seq<(String, String)>) -> Seq<(Text, Text)> {
    Seq::new(entries.len(), |i: int| (entries[i].0@, entries[i].1@))
}

/// Parameter keys are strings.
pub type Key = String;

/// Parameter values are strings.
pub type Value = String;

/// The parameters of a configuration string: a mapping from keys to
/// values in which no key occurs twice.
///
/// The pairs are kept in the order in which their keys first came in, so
/// that they can be walked by index.
#[derive(Debug)]
pub struct Params {
    entries: Vec<(Key, Value)>,
}

impl View for Params {
    type V = Map<Text, Text>;

    closed spec fn view(&self) -> Map<Text, Text> {
        map_of(self.pairs())
    }
}

impl Params {
    /// The pairs in the order in which their keys first came in.
    pub closed spec fn pairs(&self) -> Seq<(Text, Text)> {
        pairs_of(self.entries@)
    }

    /// No key is held twice.
    #[verifier::type_invariant]
    pub closed spec fn wf(&self) -> bool {
        distinct_keys(self.pairs())
    }

    /// What the invariant gives: no key is held twice, the mapping is
    /// the one that the pairs stand for, and it has as many keys as there
    /// are pairs.
    pub proof fn lemma_pairs(&self)
        requires
            self.wf(),
        ensures
            distinct_keys(self.pairs()),
            self@ == map_of(self.pairs()),
            self@.dom().finite(),
            self@.len() == self.pairs().len(),
    {
        lemma_map_of_len(self.pairs());
    }

    /// An empty mapping.
    pub fn new() -> (p: Params)
        ensures
            p@ == Map::<Text, Text>::empty(),
            p.pairs() == Seq::<(Text, Text)>::empty(),
    {
        let p = Params { entries: Vec::new() };
        proof {
            assert(p.pairs() =~= Seq::<(Text, Text)>::empty());
        }
        p
    }

    /// The number of keys.
    pub fn len(&self) -> (n: usize)
        ensures
            n == self@.len(),
            n == self.pairs().len(),
            distinct_keys(self.pairs()),
            self@ == map_of(self.pairs()),
    {
        proof {
            use_type_invariant(self);
            lemma_map_of_len(self.pairs());
        }
        self.entries.len()
    }

    /// Whether the mapping has no key.
    pub fn is_empty(&self) -> (b: bool)
        ensures
            b == (self@.len() == 0),
            b == (self@ == Map::<Text, Text>::empty()),
    {
        proof {
            use_type_invariant(self);
            lemma_map_of_len(self.pairs());
            if self@.len() == 0 {
                assert(self.pairs() =~= Seq::<(Text, Text)>::empty());
            }
        }
        self.entries.len() == 0
    }

    /// The index of the pair with the given key, if there is one.
    fn find(&self, key: &str) -> (r: Option<usize>)
        ensures
            match r {
                Some(i) => i < self.pairs().len() && self.pairs()[i as int].0 == key@,
                None => !has_key(self.pairs(), key@),
            },
    {
        let mut i: usize = 0;
        while i < self.entries.len()
            invariant
                i <= self.entries@.len(),
                forall|k: int| 0 <= k < i ==> self.pairs()[k].0 != key@,
            decreases self.entries@.len() - i,
        {
            if str_eq(self.entries[i].0.as_str(), key) {
                return Some(i);
            }
            i = i + 1;
        }
        None
    }

    /// Whether the mapping has the given key, compared character by
    /// character.
    pub fn contains_key(&self, key: &str) -> (b: bool)
        ensures
            b == self@.contains_key(key@),
            b == has_key(self.pairs(), key@),
    {
        proof {
            lemma_map_of_dom(self.pairs(), key@);
        }
        self.find(key).is_some()
    }

    /// The value of the given key, if the mapping has that key.
    pub fn get(&self, key: &str) -> (r: Option<&str>)
        ensures
            match r {
                Some(v) => self@.contains_key(key@) && v@ == self@[key@],
                None => !self@.contains_key(key@),
            },
    {
        proof {
            use_type_invariant(self);
            lemma_map_of_dom(self.pairs(), key@);
        }
        match self.find(key) {
            Some(i) => {
                proof {
                    lemma_map_of_index(self.pairs(), i as int);
                }
                Some(self.entries[i].1.as_str())
            },
            None => None,
        }
    }

    /// The pair with index `i`, counted in the order in which the keys
    /// first came in.
    pub fn entry(&self, i: usize) -> (r: (&str, &str))
        requires
            i < self.pairs().len(),
        ensures
            (r.0@, r.1@) == self.pairs()[i as int],
    {
        (self.entries[i].0.as_str(), self.entries[i].1.as_str())
    }

    /// Gives `key` the value `value`, whether or not the mapping had the
    /// key before. A new key goes behind the pairs that are there; a key
    /// that is there keeps its place.
    pub fn insert(&mut self, key: Key, value: Value)
        ensures
            final(self)@ == old(self)@.insert(key@, value@),
            !old(self)@.contains_key(key@) ==> final(self).pairs() == old(self).pairs().push(
                (key@, value@),
            ),
            old(self)@.contains_key(key@) ==> exists|i: int|
                0 <= i < old(self).pairs().len() && #[trigger] old(self).pairs()[i].0 == key@
                    && final(self).pairs() == old(self).pairs().update(i, (key@, value@)),
    {
        proof {
            use_type_invariant(&*self);
            lemma_map_of_dom(self.pairs(), key@);
        }
        let ghost before = self.pairs();
        let found = self.find(key.as_str());
        let mut entries = Vec::new();
        std::mem::swap(&mut entries, &mut self.entries);
        assert(pairs_of(entries@) == before);
        match found {
            Some(i) => {
                entries.set(i, (key, value));
                proof {
                    lemma_map_of_update(before, i as int, value@);
                    assert(pairs_of(entries@) =~= before.update(i as int, (key@, value@)));
                }
            },
            None => {
                entries.push((key, value));
                proof {
                    let grown = pairs_of(entries@);
                    assert(grown =~= before.push((key@, value@)));
                    assert(grown.drop_last() =~= before);
                    assert forall|a: int, b: int| 0 <= a < b < grown.len() implies grown[a].0
                        != grown[b].0 by {
                        if b == before.len() {
                            assert(before[a].0 != key@);
                        } else {
                            assert(before[a].0 != before[b].0);
                        }
                    }
                }
            },
        }
        *self = Params { entries };
    }
}

} // verus!
