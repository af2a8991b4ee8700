//! Small collections keyed by strings: a set of strings and a map from
//! strings to values. Both compare keys by their characters.

use vstd::prelude::*;

verus! {

/// Some string among the first `n` of `items` has the characters `s`.
pub open spec fn has_prefix(items: Seq<String>, n: int, s: Seq<char>) -> bool {
    exists|k: int| 0 <= k < n && items[k]@ == s
}

/// A finite set of strings.
pub struct StrSet {
    items: Vec<String>,
}

impl View for StrSet {
    type V = Set<Seq<char>>;

    closed spec fn view(&self) -> Set<Seq<char>> {
        Set::new(|s: Seq<char>| exists|i: int| 0 <= i < self.items@.len() && self.items@[i]@ == s)
    }
}

impl StrSet {
    pub fn new() -> (s: Self)
        ensures
            s@ == Set::<Seq<char>>::empty(),
    {
        let s = StrSet { items: Vec::new() };
        assert(s@ =~= Set::<Seq<char>>::empty());
        s
    }

    pub fn contains(&self, x: &String) -> (res: bool)
        ensures
            res == self@.contains(x@),
    {
        let n = self.items.len();
        for i in 0..n
            invariant
                n == self.items@.len(),
                forall|j: int| 0 <= j < i ==> self.items@[j]@ != x@,
        {
            if self.items[i] == *x {
                return true;
            }
        }
        false
    }

    pub fn insert(&mut self, x: String)
        ensures
            final(self)@ == old(self)@.insert(x@),
    {
        if !self.contains(&x) {
            let ghost old_items = self.items@;
            self.items.push(x);
            assert forall|s: Seq<char>| #[trigger] self@.contains(s) == old(self)@.insert(x@).contains(s) by {
                if old(self)@.contains(s) {
                    let j = choose|j: int| 0 <= j < old_items.len() && old_items[j]@ == s;
                    assert(self.items@[j] == old_items[j]);
                }
                if s == x@ {
                    assert(self.items@[old_items.len() as int]@ == s);
                }
            }
        }
        assert(self@ =~= old(self)@.insert(x@));
    }

    pub fn remove(&mut self, x: &String)
        ensures
            final(self)@ == old(self)@.remove(x@),
    {
        let ghost old_items = self.items@;
        let mut kept: Vec<String> = Vec::new();
        let n = self.items.len();
        for i in 0..n
            invariant
                n == old_items.len(),
                self.items@ == old_items,
                forall|s: Seq<char>|
                    #[trigger] has_prefix(kept@, kept@.len() as int, s) == (has_prefix(old_items, i as int, s)
                        && s != x@),
        {
            let ghost prev = kept@;
            if self.items[i] != *x {
                kept.push(self.items[i].clone());
            }
            assert forall|s: Seq<char>|
                #[trigger] has_prefix(kept@, kept@.len() as int, s) == (has_prefix(old_items, i + 1, s) && s != x@) by {
                if has_prefix(kept@, kept@.len() as int, s) {
                    let j = choose|j: int| 0 <= j < kept@.len() && kept@[j]@ == s;
                    if j < prev.len() {
                        assert(prev[j] == kept@[j]);
                        assert(has_prefix(prev, prev.len() as int, s));
                        let k = choose|k: int| 0 <= k < i && old_items[k]@ == s;
                        assert(has_prefix(old_items, i + 1, s));
                    } else {
                        assert(old_items[i as int]@ == s);
                    }
                }
                if has_prefix(old_items, i + 1, s) && s != x@ {
                    let k = choose|k: int| 0 <= k < i + 1 && old_items[k]@ == s;
                    if k < i {
                        assert(has_prefix(old_items, i as int, s));
                        assert(has_prefix(prev, prev.len() as int, s));
                        let j = choose|j: int| 0 <= j < prev.len() && prev[j]@ == s;
                        assert(kept@[j] == prev[j]);
                    } else {
                        assert(kept@[prev.len() as int]@ == s);
                    }
                }
            }
        }
        self.items = kept;
        assert forall|s: Seq<char>| #[trigger] self@.contains(s) == old(self)@.remove(x@).contains(s) by {
            assert(self@.contains(s) == has_prefix(self.items@, self.items@.len() as int, s));
            assert(old(self)@.contains(s) == has_prefix(old_items, n as int, s));
        }
        assert(self@ =~= old(self)@.remove(x@));
    }

    /// The members of the set, in no particular order.
    pub fn into_vec(self) -> (v: Vec<String>)
        ensures
            forall|i: int| 0 <= i < v@.len() ==> self@.contains(#[trigger] v@[i]@),
            forall|s: Seq<char>| self@.contains(s) ==> exists|i: int| 0 <= i < v@.len() && #[trigger] v@[i]@ == s,
    {
        self.items
    }
}

/// A map from strings to values; each key occurs once.
pub struct StrMap<V> {
    entries: Vec<(String, V)>,
}

impl<V> StrMap<V> {
    /// No key occurs twice.
    pub closed spec fn wf(&self) -> bool {
        forall|i: int, j: int|
            0 <= i < j < self.entries@.len() ==> #[trigger] self.entries@[i].0@ != #[trigger] self.entries@[j].0@
    }

    closed spec fn has_key(&self, k: Seq<char>) -> bool {
        exists|i: int| 0 <= i < self.entries@.len() && self.entries@[i].0@ == k
    }

    closed spec fn index_of(&self, k: Seq<char>) -> int {
        choose|i: int| 0 <= i < self.entries@.len() && self.entries@[i].0@ == k
    }

    proof fn lemma_index_of(&self, i: int)
        requires
            self.wf(),
            0 <= i < self.entries@.len(),
        ensures
            self.has_key(self.entries@[i].0@),
            self.index_of(self.entries@[i].0@) == i,
            self@.contains_key(self.entries@[i].0@),
            self@[self.entries@[i].0@] == self.entries@[i].1,
    {
        let k = self.entries@[i].0@;
        assert(self.has_key(k));
        let j = self.index_of(k);
        if j != i {
            if j < i {
                assert(self.entries@[j].0@ != self.entries@[i].0@);
            } else {
                assert(self.entries@[i].0@ != self.entries@[j].0@);
            }
        }
    }

    fn find(&self, k: &String) -> (res: Option<usize>)
        ensures
            match res {
                Some(i) => i < self.entries@.len() && self.entries@[i as int].0@ == k@,
                None => forall|j: int| 0 <= j < self.entries@.len() ==> self.entries@[j].0@ != k@,
            },
    {
        let n = self.entries.len();
        for i in 0..n
            invariant
                n == self.entries@.len(),
                forall|j: int| 0 <= j < i ==> self.entries@[j].0@ != k@,
        {
            if self.entries[i].0 == *k {
                return Some(i);
            }
        }
        None
    }

    pub fn new() -> (m: Self)
        ensures
            m.wf(),
            m@ == Map::<Seq<char>, V>::empty(),
    {
        let m = StrMap { entries: Vec::new() };
        assert(m@ =~= Map::<Seq<char>, V>::empty());
        m
    }

    pub fn contains_key(&self, k: &String) -> (res: bool)
        requires
            self.wf(),
        ensures
            res == self@.contains_key(k@),
    {
        self.find(k).is_some()
    }

    pub fn get(&self, k: &String) -> (res: Option<&V>)
        requires
            self.wf(),
        ensures
            match res {
                Some(v) => self@.contains_key(k@) && *v == self@[k@],
                None => !self@.contains_key(k@),
            },
    {
        match self.find(k) {
            Some(i) => {
                proof {
                    self.lemma_index_of(i as int);
                }
                Some(&self.entries[i].1)
            },
            None => None,
        }
    }

    pub fn insert(&mut self, k: String, v: V)
        requires
            old(self).wf(),
        ensures
            final(self).wf(),
            final(self)@ == old(self)@.insert(k@, v),
    {
        let ghost kv = k@;
        match self.find(&k) {
            Some(i) => {
                let ghost old_m = *self;
                self.entries.set(i, (k, v));
                assert forall|j: int| 0 <= j < self.entries@.len() && j != i implies
                    self.entries@[j] == old_m.entries@[j] by {}
                assert forall|key: Seq<char>| #[trigger] self@.contains_key(key) == old_m@.insert(kv, v).contains_key(key)
                    && (self@.contains_key(key) ==> self@[key] == old_m@.insert(kv, v)[key]) by {
                    if old_m.has_key(key) {
                        let j = old_m.index_of(key);
                        old_m.lemma_index_of(j);
                        self.lemma_index_of(j);
                    }
                    if key == kv {
                        self.lemma_index_of(i as int);
                    } else if self.has_key(key) {
                        let j = self.index_of(key);
                        self.lemma_index_of(j);
                        old_m.lemma_index_of(j);
                    }
                }
                assert(self@ =~= old_m@.insert(kv, v));
            },
            None => {
                let ghost old_m = *self;
                let ghost n = self.entries@.len() as int;
                self.entries.push((k, v));
                assert forall|key: Seq<char>| #[trigger] self@.contains_key(key) == old_m@.insert(kv, v).contains_key(key)
                    && (self@.contains_key(key) ==> self@[key] == old_m@.insert(kv, v)[key]) by {
                    if old_m.has_key(key) {
                        let j = old_m.index_of(key);
                        old_m.lemma_index_of(j);
                        self.lemma_index_of(j);
                    }
                    if key == kv {
                        self.lemma_index_of(n);
                    } else if self.has_key(key) {
                        let j = self.index_of(key);
                        self.lemma_index_of(j);
                        old_m.lemma_index_of(j);
                    }
                }
                assert(self@ =~= old_m@.insert(kv, v));
            },
        }
    }

    pub fn remove(&mut self, k: &String) -> (res: Option<V>)
        requires
            old(self).wf(),
        ensures
            final(self).wf(),
            final(self)@ == old(self)@.remove(k@),
            match res {
                Some(v) => old(self)@.contains_key(k@) && v == old(self)@[k@],
                None => !old(self)@.contains_key(k@),
            },
    {
        match self.find(k) {
            Some(i) => {
                let ghost old_m = *self;
                proof {
                    old_m.lemma_index_of(i as int);
                }
                let (_, v) = self.entries.remove(i);
                assert forall|j: int| 0 <= j < self.entries@.len() implies
                    self.entries@[j] == old_m.entries@[if j < i { j } else { j + 1 }] by {}
                assert(self.wf()) by {
                    assert forall|a: int, b: int| 0 <= a < b < self.entries@.len() implies
                        #[trigger] self.entries@[a].0@ != #[trigger] self.entries@[b].0@ by {
                        let a2 = if a < i { a } else { a + 1 };
                        let b2 = if b < i { b } else { b + 1 };
                        assert(self.entries@[a] == old_m.entries@[a2]);
                        assert(self.entries@[b] == old_m.entries@[b2]);
                        assert(old_m.entries@[a2].0@ != old_m.entries@[b2].0@);
                    }
                }
                assert forall|key: Seq<char>| #[trigger] self@.contains_key(key) == old_m@.remove(k@).contains_key(key)
                    && (self@.contains_key(key) ==> self@[key] == old_m@.remove(k@)[key]) by {
                    if old_m.has_key(key) && key != k@ {
                        let j = old_m.index_of(key);
                        old_m.lemma_index_of(j);
                        let j2 = if j < i { j } else { j - 1 };
                        assert(self.entries@[j2] == old_m.entries@[j]);
                        self.lemma_index_of(j2);
                    }
                    if self.has_key(key) {
                        let j = self.index_of(key);
                        self.lemma_index_of(j);
                        let j2 = if j < i { j } else { j + 1 };
                        assert(self.entries@[j] == old_m.entries@[j2]);
                        old_m.lemma_index_of(j2);
                    }
                }
                assert(self@ =~= old_m@.remove(k@));
                Some(v)
            },
            None => {
                assert(self@ =~= old(self)@.remove(k@));
                None
            },
        }
    }
}

impl<V> View for StrMap<V> {
    type V = Map<Seq<char>, V>;

    closed spec fn view(&self) -> Map<Seq<char>, V> {
        Map::new(|k: Seq<char>| self.has_key(k), |k: Seq<char>| self.entries@[self.index_of(k)].1)
    }
}

} // verus!
