//! File descriptors kept under textual keys, in the order of the keys.

use crate::text::{place_of, text_before, text_before_is_an_order, texts, Place};
use vstd::prelude::*;

verus! {

/// Whether every key stands before all that follow it.
pub open spec fn ascending(keys: Seq<Seq<char>>) -> bool {
    forall|i: int, j: int| 0 <= i < j < keys.len() ==> text_before(#[trigger] keys[i], #[trigger] keys[j])
}

/// Whether `keys` lists exactly the keys of `m`, in ascending order.
pub open spec fn is_key_list(keys: Seq<Seq<char>>, m: Map<Seq<char>, i32>) -> bool {
    &&& ascending(keys)
    &&& forall|k: Seq<char>| #[trigger] keys.contains(k) <==> m.contains_key(k)
}

/// A map has one key list only.
pub proof fn key_list_is_unique(a: Seq<Seq<char>>, b: Seq<Seq<char>>, m: Map<Seq<char>, i32>)
    requires
        is_key_list(a, m),
        is_key_list(b, m),
    ensures
        a == b,
{
    lemma_ascending_unique(a, b);
}

/// A key list is as long as its map.
pub proof fn key_list_counts_the_map(keys: Seq<Seq<char>>, m: Map<Seq<char>, i32>)
    requires
        is_key_list(keys, m),
    ensures
        keys.no_duplicates(),
        m.dom().finite(),
        m.len() == keys.len(),
{
    assert forall|i: int, j: int| 0 <= i < j < keys.len() implies keys[i] != keys[j] by {
        text_before_is_an_order(keys[i], keys[j], keys[i]);
        assert(text_before(keys[i], keys[j]));
    }
    keys.unique_seq_to_set();
    assert forall|k: Seq<char>| keys.to_set().contains(k) <==> m.dom().contains(k) by {
        assert(keys.contains(k) <==> m.contains_key(k));
    }
    assert(keys.to_set() =~= m.dom());
}

proof fn lemma_ascending_unique(a: Seq<Seq<char>>, b: Seq<Seq<char>>)
    requires
        ascending(a),
        ascending(b),
        forall|k: Seq<char>| #[trigger] a.contains(k) <==> b.contains(k),
    ensures
        a == b,
    decreases a.len(),
{
    if a.len() == 0 {
        if b.len() > 0 {
            assert(b.contains(b[0]));
            assert(a.contains(b[0]));
        }
        assert(a =~= b);
    } else {
        assert(a.contains(a[0]));
        let j = choose|j: int| 0 <= j < b.len() && b[j] == a[0];
        assert(b.contains(b[0]));
        assert(a.contains(b[0]));
        let i = choose|i: int| 0 <= i < a.len() && a[i] == b[0];
        text_before_is_an_order(a[0], b[0], a[0]);
        assert(a[0] == b[0]) by {
            if i > 0 && j > 0 {
                assert(text_before(a[0], a[i]));
                assert(text_before(b[0], b[j]));
            }
        }
        let a1 = a.skip(1);
        let b1 = b.skip(1);
        assert forall|k: Seq<char>| #[trigger] a1.contains(k) implies b1.contains(k) by {
            let n = choose|n: int| 0 <= n < a1.len() && a1[n] == k;
            assert(a[n + 1] == k);
            assert(a.contains(k));
            let p = choose|p: int| 0 <= p < b.len() && b[p] == k;
            assert(text_before(a[0], a[n + 1]));
            text_before_is_an_order(a[0], a[0], a[0]);
            assert(b1[p - 1] == k);
        }
        assert forall|k: Seq<char>| #[trigger] b1.contains(k) implies a1.contains(k) by {
            let n = choose|n: int| 0 <= n < b1.len() && b1[n] == k;
            assert(b[n + 1] == k);
            assert(b.contains(k));
            assert(a.contains(k));
            let p = choose|p: int| 0 <= p < a.len() && a[p] == k;
            assert(text_before(b[0], b[n + 1]));
            text_before_is_an_order(a[0], a[0], a[0]);
            assert(a1[p - 1] == k);
        }
        lemma_ascending_unique(a1, b1);
        assert(a =~= seq![a[0]] + a1);
        assert(b =~= seq![b[0]] + b1);
    }
}

/// A map from textual keys to file descriptors.
pub struct FdTable {
    entries: Vec<(String, i32)>,
}

impl View for FdTable {
    type V = Map<Seq<char>, i32>;

    closed spec fn view(&self) -> Map<Seq<char>, i32> {
        Map::new(
            |k: Seq<char>| self.keys().contains(k),
            |k: Seq<char>| self.entries@[self.keys().index_of(k)].1,
        )
    }
}

impl FdTable {
    /// The keys, in ascending order.
    pub closed spec fn keys(self) -> Seq<Seq<char>> {
        self.entries@.map_values(|e: (String, i32)| e.0@)
    }

    /// The keys ascend, so none occurs twice.
    pub closed spec fn wf(self) -> bool {
        ascending(self.keys())
    }

    proof fn lemma_entry(self, i: int)
        requires
            self.wf(),
            0 <= i < self.entries@.len(),
        ensures
            self@.contains_key(self.entries@[i].0@),
            self@[self.entries@[i].0@] == self.entries@[i].1,
    {
        let k = self.entries@[i].0@;
        assert(self.keys()[i] == k);
        assert(self.keys().contains(k));
        let j = self.keys().index_of(k);
        assert(self.keys()[j] == k);
        text_before_is_an_order(k, k, k);
        if i < j {
            assert(text_before(self.keys()[i], self.keys()[j]));
        }
        if j < i {
            assert(text_before(self.keys()[j], self.keys()[i]));
        }
    }

    /// The key sequence of a table is the key list of its map.
    pub proof fn keys_list_the_map(self)
        requires
            self.wf(),
        ensures
            is_key_list(self.keys(), self@),
    {
    }

    /// A table without entries.
    pub fn new() -> (t: FdTable)
        ensures
            t.wf(),
            t@ == Map::<Seq<char>, i32>::empty(),
    {
        let t = FdTable { entries: Vec::new() };
        assert(t@ =~= Map::<Seq<char>, i32>::empty());
        t
    }

    /// The first entry that does not stand before `key`, and whether it is under `key`.
    fn locate(&self, key: &str) -> (r: (usize, bool))
        requires
            self.wf(),
        ensures
            r.0 <= self.entries@.len(),
            forall|i: int| 0 <= i < r.0 ==> text_before(#[trigger] self.keys()[i], key@),
            r.1 ==> r.0 < self.entries@.len() && self.keys()[r.0 as int] == key@,
            !r.1 ==> forall|i: int|
                r.0 <= i < self.entries@.len() ==> text_before(key@, #[trigger] self.keys()[i]),
            r.1 <==> self@.contains_key(key@),
    {
        let mut i: usize = 0;
        while i < self.entries.len()
            invariant
                self.wf(),
                i <= self.entries@.len(),
                forall|j: int| 0 <= j < i ==> text_before(#[trigger] self.keys()[j], key@),
            decreases self.entries@.len() - i,
        {
            let place = place_of(self.entries[i].0.as_str(), key);
            assert(self.keys()[i as int] == self.entries@[i as int].0@);
            match place {
                Place::Before => {
                    i += 1;
                },
                Place::Same => {
                    proof {
                        self.lemma_entry(i as int);
                    }
                    return (i, true);
                },
                Place::After => {
                    proof {
                        assert forall|j: int| i <= j < self.entries@.len() implies text_before(
                            key@,
                            #[trigger] self.keys()[j],
                        ) by {
                            text_before_is_an_order(key@, self.keys()[i as int], self.keys()[j]);
                        }
                        self.lemma_absent(key@, i as int);
                    }
                    return (i, false);
                },
            }
        }
        proof {
            self.lemma_absent(key@, i as int);
        }
        (i, false)
    }

    proof fn lemma_absent(self, key: Seq<char>, at: int)
        requires
            self.wf(),
            0 <= at <= self.entries@.len(),
            forall|j: int| 0 <= j < at ==> text_before(#[trigger] self.keys()[j], key),
            forall|j: int|
                at <= j < self.entries@.len() ==> text_before(key, #[trigger] self.keys()[j]),
        ensures
            !self@.contains_key(key),
    {
        if self.keys().contains(key) {
            let j = choose|j: int| 0 <= j < self.keys().len() && self.keys()[j] == key;
            text_before_is_an_order(key, key, key);
        }
    }

    /// The descriptor under `key`.
    pub fn get(&self, key: &str) -> (fd: Option<i32>)
        requires
            self.wf(),
        ensures
            fd == (if self@.contains_key(key@) {
                Some(self@[key@])
            } else {
                None
            }),
    {
        let (at, found) = self.locate(key);
        if found {
            proof {
                self.lemma_entry(at as int);
            }
            Some(self.entries[at].1)
        } else {
            None
        }
    }

    /// Puts `fd` under `key` and gives back the descriptor that was there before.
    pub fn insert(&mut self, key: String, fd: i32) -> (displaced: Option<i32>)
        requires
            old(self).wf(),
        ensures
            final(self).wf(),
            final(self)@ == old(self)@.insert(key@, fd),
            displaced == (if old(self)@.contains_key(key@) {
                Some(old(self)@[key@])
            } else {
                None
            }),
    {
        let ghost before = *self;
        let (at, found) = self.locate(key.as_str());
        let mut displaced: Option<i32> = None;
        if found {
            proof {
                before.lemma_entry(at as int);
            }
            displaced = Some(self.entries[at].1);
            self.entries.set(at, (key, fd));
            assert(self.keys() =~= before.keys());
        } else {
            self.entries.insert(at, (key, fd));
            assert(self.keys() =~= before.keys().insert(at as int, key@));
            assert(ascending(self.keys()));
        }
        proof {
            let m = before@.insert(key@, fd);
            assert forall|k: Seq<char>| self@.contains_key(k) <==> m.contains_key(k) by {
                if self@.contains_key(k) {
                    let i = choose|i: int| 0 <= i < self.keys().len() && self.keys()[i] == k;
                    if k != key@ {
                        let j = if found || i < at { i } else { i - 1 };
                        assert(before.keys()[j] == k);
                    }
                }
                if m.contains_key(k) {
                    if k == key@ {
                        assert(self.keys()[at as int] == k);
                    } else {
                        let i = choose|i: int|
                            0 <= i < before.keys().len() && before.keys()[i] == k;
                        let j = if found || i < at { i } else { i + 1 };
                        assert(self.keys()[j] == k);
                    }
                }
            }
            assert forall|k: Seq<char>| self@.contains_key(k) implies #[trigger] self@[k] == m[k] by {
                let i = choose|i: int| 0 <= i < self.keys().len() && self.keys()[i] == k;
                self.lemma_entry(i);
                if k == key@ {
                    self.lemma_entry(at as int);
                } else {
                    let j = if found || i < at { i } else { i - 1 };
                    assert(before.keys()[j] == k);
                    before.lemma_entry(j);
                }
            }
            assert(self@ =~= m);
        }
        displaced
    }

    /// Takes the entry under `key` out and gives back its descriptor.
    pub fn remove(&mut self, key: &str) -> (fd: Option<i32>)
        requires
            old(self).wf(),
        ensures
            final(self).wf(),
            final(self)@ == old(self)@.remove(key@),
            fd == (if old(self)@.contains_key(key@) {
                Some(old(self)@[key@])
            } else {
                None
            }),
    {
        let ghost before = *self;
        let (at, found) = self.locate(key);
        if !found {
            assert(self@ =~= before@.remove(key@));
            return None;
        }
        proof {
            before.lemma_entry(at as int);
        }
        let entry = self.entries.remove(at);
        proof {
            let m = before@.remove(key@);
            assert(self.keys() =~= before.keys().remove(at as int));
            assert(ascending(self.keys()));
            text_before_is_an_order(key@, key@, key@);
            assert forall|k: Seq<char>| self@.contains_key(k) <==> m.contains_key(k) by {
                if self@.contains_key(k) {
                    let i = choose|i: int| 0 <= i < self.keys().len() && self.keys()[i] == k;
                    let j = if i < at { i } else { i + 1 };
                    assert(before.keys()[j] == k);
                    if j < at {
                        assert(text_before(before.keys()[j], before.keys()[at as int]));
                    } else {
                        assert(text_before(before.keys()[at as int], before.keys()[j]));
                    }
                }
                if m.contains_key(k) {
                    let i = choose|i: int| 0 <= i < before.keys().len() && before.keys()[i] == k;
                    let j = if i < at { i } else { i - 1 };
                    assert(self.keys()[j] == k);
                }
            }
            assert forall|k: Seq<char>| self@.contains_key(k) implies #[trigger] self@[k] == m[k] by {
                let i = choose|i: int| 0 <= i < self.keys().len() && self.keys()[i] == k;
                self.lemma_entry(i);
                let j = if i < at { i } else { i + 1 };
                before.lemma_entry(j);
            }
            assert(self@ =~= m);
        }
        Some(entry.1)
    }

    /// How many descriptors the table holds.
    pub fn len(&self) -> (n: usize)
        ensures
            n == self.keys().len(),
    {
        self.entries.len()
    }

    /// Whether the table holds nothing.
    pub fn is_empty(&self) -> (empty: bool)
        requires
            self.wf(),
        ensures
            empty == (self@ == Map::<Seq<char>, i32>::empty()),
    {
        proof {
            if self.entries@.len() > 0 {
                self.lemma_entry(0);
                assert(self@.contains_key(self.entries@[0].0@));
            } else {
                assert(self@ =~= Map::<Seq<char>, i32>::empty());
            }
        }
        self.entries.len() == 0
    }

    /// The keys, in ascending order.
    pub fn list(&self) -> (keys: Vec<String>)
        requires
            self.wf(),
        ensures
            texts(keys@) == self.keys(),
            is_key_list(texts(keys@), self@),
    {
        let mut keys: Vec<String> = Vec::new();
        let mut i: usize = 0;
        while i < self.entries.len()
            invariant
                i <= self.entries@.len(),
                texts(keys@) == self.keys().take(i as int),
            decreases self.entries@.len() - i,
        {
            let ghost before = keys@;
            let key = self.entries[i].0.clone();
            keys.push(key);
            assert(texts(keys@) =~= texts(before).push(key@));
            assert(self.keys().take(i + 1) =~= self.keys().take(i as int).push(key@));
            i += 1;
        }
        assert(texts(keys@) =~= self.keys());
        keys
    }

    /// Empties the table and gives back every entry, in ascending order of the keys.
    pub fn drain(&mut self) -> (entries: Vec<(String, i32)>)
        requires
            old(self).wf(),
        ensures
            final(self).wf(),
            final(self)@ == Map::<Seq<char>, i32>::empty(),
            entries@.map_values(|e: (String, i32)| e.0@) == old(self).keys(),
            is_key_list(entries@.map_values(|e: (String, i32)| e.0@), old(self)@),
            forall|i: int|
                0 <= i < entries@.len() ==> old(self)@.contains_key(#[trigger] entries@[i].0@)
                    && old(self)@[entries@[i].0@] == entries@[i].1,
    {
        let ghost before = *self;
        let mut entries: Vec<(String, i32)> = Vec::new();
        entries.append(&mut self.entries);
        assert(entries@ =~= before.entries@);
        assert(self@ =~= Map::<Seq<char>, i32>::empty());
        assert forall|i: int| 0 <= i < entries@.len() implies before@.contains_key(
            #[trigger] entries@[i].0@,
        ) && before@[entries@[i].0@] == entries@[i].1 by {
            before.lemma_entry(i);
        }
        entries
    }
}

} // verus!
