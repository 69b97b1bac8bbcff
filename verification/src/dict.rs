//! A small dictionary keyed by text that remembers the order of insertion.

use vstd::prelude::*;
use vstd::string::*;
use crate::text::texts_of;

verus! {

/// `list` without any occurrence of `name`.
pub open spec fn without(list: Seq<Seq<char>>, name: Seq<char>) -> Seq<Seq<char>>
    decreases list.len(),
{
    if list.len() == 0 {
        list
    } else if list.last() == name {
        without(list.drop_last(), name)
    } else {
        without(list.drop_last(), name).push(list.last())
    }
}

/// The lists `lists`, each without `name`.
pub open spec fn unlist(lists: Map<Seq<char>, Seq<Seq<char>>>, name: Seq<char>) -> Map<
    Seq<char>,
    Seq<Seq<char>>,
> {
    Map::new(|k: Seq<char>| lists.contains_key(k), |k: Seq<char>| without(lists[k], name))
}

/// `without` keeps exactly the other items, and keeps them distinct.
pub proof fn lemma_without(list: Seq<Seq<char>>, name: Seq<char>)
    ensures
        forall|x: Seq<char>| #[trigger]
            without(list, name).contains(x) <==> (list.contains(x) && x != name),
        list.no_duplicates() ==> without(list, name).no_duplicates(),
    decreases list.len(),
{
    if list.len() > 0 {
        let front = list.drop_last();
        let last = list.last();
        lemma_without(front, name);
        let r = without(front, name);
        let w = without(list, name);
        assert forall|x: Seq<char>| w.contains(x) <==> (list.contains(x) && x != name) by {
            if list.contains(x) {
                let i = choose|i: int| 0 <= i < list.len() && list[i] == x;
                if i < front.len() {
                    assert(front[i] == x);
                }
            }
            if front.contains(x) {
                let i = choose|i: int| 0 <= i < front.len() && front[i] == x;
                assert(list[i] == x);
            }
            assert(list[list.len() - 1] == last);
            if last != name {
                if w.contains(x) {
                    let i = choose|i: int| 0 <= i < w.len() && w[i] == x;
                    if i < r.len() {
                        assert(r[i] == x);
                    }
                }
                if r.contains(x) {
                    let i = choose|i: int| 0 <= i < r.len() && r[i] == x;
                    assert(w[i] == x);
                }
                assert(w[r.len() as int] == last);
            }
        }
        if list.no_duplicates() {
            assert forall|i: int, j: int| 0 <= i < front.len() && 0 <= j < front.len() && i != j implies front[i]
                != front[j] by {
                assert(list[i] != list[j]);
            }
            if last != name {
                assert forall|i: int, j: int| 0 <= i < w.len() && 0 <= j < w.len() && i != j implies w[i]
                    != w[j] by {
                    if i < r.len() && j < r.len() {
                        assert(r[i] != r[j]);
                    } else {
                        let k = if i < r.len() {
                            i
                        } else {
                            j
                        };
                        assert(0 <= k < r.len());
                        assert(r.contains(r[k]));
                        assert(without(front, name).contains(r[k]));
                        assert(front.contains(r[k]));
                        let m = choose|m: int| 0 <= m < front.len() && front[m] == r[k];
                        assert(list[m] != list[list.len() - 1]);
                    }
                }
            }
        }
    }
}

/// A list with `name` pushed holds what it held and `name`; it stays free of
/// duplicates where it was and did not hold `name`.
pub proof fn lemma_push_members(list: Seq<Seq<char>>, name: Seq<char>)
    ensures
        forall|x: Seq<char>| #[trigger]
            list.push(name).contains(x) <==> (list.contains(x) || x == name),
        list.no_duplicates() && !list.contains(name) ==> list.push(name).no_duplicates(),
{
    let w = list.push(name);
    assert forall|x: Seq<char>| w.contains(x) <==> (list.contains(x) || x == name) by {
        if w.contains(x) {
            let i = choose|i: int| 0 <= i < w.len() && w[i] == x;
            if i < list.len() {
                assert(list[i] == x);
            }
        }
        if list.contains(x) {
            let i = choose|i: int| 0 <= i < list.len() && list[i] == x;
            assert(w[i] == x);
        }
        assert(w[list.len() as int] == name);
    }
    if list.no_duplicates() && !list.contains(name) {
        assert forall|i: int, j: int| 0 <= i < w.len() && 0 <= j < w.len() && i != j implies w[i] != w[j] by {
            if i < list.len() && j < list.len() {
                assert(list[i] != list[j]);
            } else {
                let k = if i < list.len() {
                    i
                } else {
                    j
                };
                assert(list.contains(list[k]));
            }
        }
    }
}

/// Copies `list` without the items equal to `item`.
pub fn without_item(list: &Vec<String>, item: &str) -> (r: Vec<String>)
    ensures
        texts_of(r@) == without(texts_of(list@), item@),
{
    let wanted = String::from_str(item);
    let ghost all = texts_of(list@);
    let mut r: Vec<String> = Vec::new();
    let mut i: usize = 0;
    assert(texts_of(r@) =~= without(all.take(0), item@));
    while i < list.len()
        invariant
            wanted@ == item@,
            all == texts_of(list@),
            i <= list.len(),
            texts_of(r@) == without(all.take(i as int), item@),
        decreases list.len() - i,
    {
        let ghost before = texts_of(r@);
        proof {
            assert(all.take(i + 1).drop_last() == all.take(i as int));
            assert(all.take(i + 1).last() == list@[i as int]@);
        }
        if list[i] != wanted {
            r.push(list[i].clone());
            assert(texts_of(r@) == before.push(list@[i as int]@));
        }
        i += 1;
    }
    assert(all.take(i as int) == all);
    r
}

/// Copies a list of strings.
pub fn clone_strings(v: &Vec<String>) -> (r: Vec<String>)
    ensures
        texts_of(r@) == texts_of(v@),
{
    let mut r: Vec<String> = Vec::new();
    let mut i: usize = 0;
    while i < v.len()
        invariant
            i <= v.len(),
            r.len() == i,
            forall|j: int| 0 <= j < i ==> r@[j]@ == v@[j]@,
        decreases v.len() - i,
    {
        r.push(v[i].clone());
        i += 1;
    }
    assert(texts_of(r@) =~= texts_of(v@));
    r
}

/// Keys and their values, side by side, in the order in which the keys came.
#[derive(Debug)]
pub struct Dict<V> {
    pub keys: Vec<String>,
    pub values: Vec<V>,
}

impl<V> Dict<V> {
    /// Each key has its value, and no key stands twice.
    pub open spec fn wf(&self) -> bool {
        &&& self.keys.len() == self.values.len()
        &&& forall|i: int, j: int|
            0 <= i < j < self.keys.len() ==> (#[trigger] self.keys[i])@ != (#[trigger] self.keys[j])@
    }

    /// The keys, in the order in which they came.
    pub open spec fn names(&self) -> Seq<Seq<char>> {
        texts_of(self.keys@)
    }

    /// Whether `key` is present.
    pub open spec fn has(&self, key: Seq<char>) -> bool {
        exists|i: int| 0 <= i < self.keys.len() && (#[trigger] self.keys[i])@ == key
    }

    /// The position of `key`, where it is present.
    pub open spec fn slot(&self, key: Seq<char>) -> int {
        choose|i: int| 0 <= i < self.keys.len() && (#[trigger] self.keys[i])@ == key
    }

    /// The value of `key`, where it is present.
    pub open spec fn at(&self, key: Seq<char>) -> V {
        self.values[self.slot(key)]
    }

    /// The key at position `i` is present, and `i` is its slot.
    pub proof fn lemma_slot(&self, i: int)
        requires
            self.wf(),
            0 <= i < self.keys.len(),
        ensures
            self.has(self.keys[i]@),
            self.slot(self.keys[i]@) == i,
    {
        let k = self.keys[i]@;
        let s = self.slot(k);
        assert(0 <= s < self.keys.len() && self.keys[s]@ == k);
        if s < i {
            assert(self.keys[s]@ != self.keys[i]@);
        } else if i < s {
            assert(self.keys[i]@ != self.keys[s]@);
        }
    }

    /// The names are the keys that are present, each once.
    pub proof fn lemma_names(&self)
        requires
            self.wf(),
        ensures
            self.names().no_duplicates(),
            forall|k: Seq<char>| self.has(k) <==> self.names().contains(k),
    {
        let names = self.names();
        assert forall|i: int, j: int| 0 <= i < names.len() && 0 <= j < names.len() && i != j implies names[i]
            != names[j] by {
            if i < j {
                assert(self.keys[i]@ != self.keys[j]@);
            } else {
                assert(self.keys[j]@ != self.keys[i]@);
            }
        }
        assert forall|k: Seq<char>| self.has(k) <==> names.contains(k) by {
            if self.has(k) {
                let i = self.slot(k);
                assert(names[i] == k);
            }
            if names.contains(k) {
                let i = choose|i: int| 0 <= i < names.len() && names[i] == k;
                assert(self.keys[i]@ == k);
            }
        }
    }

    /// An empty dictionary.
    pub fn new() -> (d: Self)
        ensures
            d.wf(),
            d.keys@.len() == 0,
            forall|k: Seq<char>| !d.has(k),
    {
        Dict { keys: Vec::new(), values: Vec::new() }
    }

    /// The number of keys.
    pub fn len(&self) -> (n: usize)
        requires
            self.wf(),
        ensures
            n == self.keys.len(),
            (n == 0) == (forall|k: Seq<char>| !self.has(k)),
    {
        proof {
            if self.keys.len() > 0 {
                self.lemma_slot(0);
            }
        }
        self.keys.len()
    }

    /// The position of `key`, if it is present.
    pub fn find(&self, key: &str) -> (r: Option<usize>)
        requires
            self.wf(),
        ensures
            match r {
                Some(i) => i < self.keys.len() && self.keys[i as int]@ == key@ && self.has(key@)
                    && self.slot(key@) == i,
                None => !self.has(key@),
            },
    {
        let wanted = String::from_str(key);
        let mut i: usize = 0;
        while i < self.keys.len()
            invariant
                self.wf(),
                wanted@ == key@,
                i <= self.keys.len(),
                forall|j: int| 0 <= j < i ==> (#[trigger] self.keys[j])@ != key@,
            decreases self.keys.len() - i,
        {
            if self.keys[i] == wanted {
                proof {
                    self.lemma_slot(i as int);
                }
                return Some(i);
            }
            i += 1;
        }
        None
    }

    /// The value of `key`, if it is present.
    pub fn get(&self, key: &str) -> (r: Option<&V>)
        requires
            self.wf(),
        ensures
            match r {
                Some(v) => self.has(key@) && *v == self.at(key@),
                None => !self.has(key@),
            },
    {
        match self.find(key) {
            Some(i) => Some(&self.values[i]),
            None => None,
        }
    }

    /// Gives `key` the value `value`: in place where the key is present, at
    /// the end where it is new.
    pub fn insert(&mut self, key: String, value: V)
        requires
            old(self).wf(),
        ensures
            final(self).wf(),
            forall|k: Seq<char>| final(self).has(k) == (old(self).has(k) || k == key@),
            final(self).at(key@) == value,
            forall|k: Seq<char>| k != key@ && old(self).has(k) ==> final(self).at(k) == old(self).at(k),
            final(self).names() == if old(self).has(key@) {
                old(self).names()
            } else {
                old(self).names().push(key@)
            },
    {
        let ghost before = *self;
        match self.find(key.as_str()) {
            Some(i) => {
                self.values.set(i, value);
                proof {
                    assert(self.keys == before.keys);
                    self.lemma_slot(i as int);
                    assert forall|k: Seq<char>| k != key@ && before.has(k) implies self.at(k)
                        == before.at(k) by {
                        assert(self.slot(k) == before.slot(k));
                    }
                }
            },
            None => {
                self.keys.push(key);
                self.values.push(value);
                proof {
                    let n = before.keys.len() as int;
                    assert(self.keys[n]@ == key@);
                    assert forall|i: int, j: int| 0 <= i < j < self.keys.len() implies (
                    #[trigger] self.keys[i])@ != (#[trigger] self.keys[j])@ by {
                        if j < n {
                            assert(before.keys[i]@ != before.keys[j]@);
                        } else {
                            assert(self.keys[i] == before.keys[i]);
                        }
                    }
                    self.lemma_slot(n);
                    assert forall|k: Seq<char>| self.has(k) == (before.has(k) || k == key@) by {
                        if before.has(k) {
                            let s = before.slot(k);
                            assert(self.keys[s] == before.keys[s]);
                        }
                        if self.has(k) && k != key@ {
                            let s = self.slot(k);
                            assert(before.keys[s] == self.keys[s]);
                        }
                    }
                    assert forall|k: Seq<char>| k != key@ && before.has(k) implies self.at(k)
                        == before.at(k) by {
                        let s = before.slot(k);
                        assert(self.keys[s] == before.keys[s]);
                        self.lemma_slot(s);
                    }
                    assert(self.names() =~= before.names().push(key@));
                }
            },
        }
    }
}

impl Dict<String> {
    /// The dictionary as a map from key to text.
    pub open spec fn texts(&self) -> Map<Seq<char>, Seq<char>> {
        Map::new(|k: Seq<char>| self.has(k), |k: Seq<char>| self.at(k)@)
    }

    /// Gives `key` the text `value`.
    pub fn set(&mut self, key: String, value: String)
        requires
            old(self).wf(),
        ensures
            final(self).wf(),
            final(self).texts() == old(self).texts().insert(key@, value@),
            final(self).names() == if old(self).has(key@) {
                old(self).names()
            } else {
                old(self).names().push(key@)
            },
    {
        let ghost k = key@;
        let ghost v = value@;
        self.insert(key, value);
        assert(self.texts() =~= old(self).texts().insert(k, v));
    }

    /// Gives `key` the text `value` unless the key is present already.
    pub fn set_default(&mut self, key: &str, value: &str)
        requires
            old(self).wf(),
        ensures
            final(self).wf(),
            final(self).texts() == if old(self).has(key@) {
                old(self).texts()
            } else {
                old(self).texts().insert(key@, value@)
            },
            final(self).names() == if old(self).has(key@) {
                old(self).names()
            } else {
                old(self).names().push(key@)
            },
    {
        if self.find(key).is_none() {
            self.set(String::from_str(key), String::from_str(value));
        }
    }
}

impl Dict<Vec<String>> {
    /// The dictionary as a map from key to list of texts.
    pub open spec fn lists(&self) -> Map<Seq<char>, Seq<Seq<char>>> {
        Map::new(|k: Seq<char>| self.has(k), |k: Seq<char>| texts_of(self.at(k)@))
    }

    /// Gives `key` the list `value`.
    pub fn put(&mut self, key: String, value: Vec<String>)
        requires
            old(self).wf(),
        ensures
            final(self).wf(),
            final(self).lists() == old(self).lists().insert(key@, texts_of(value@)),
            final(self).names() == if old(self).has(key@) {
                old(self).names()
            } else {
                old(self).names().push(key@)
            },
    {
        let ghost k = key@;
        let ghost v = texts_of(value@);
        self.insert(key, value);
        assert(self.lists() =~= old(self).lists().insert(k, v));
    }

    /// Takes `item` out of every list.
    pub fn remove_item(&mut self, item: &str)
        requires
            old(self).wf(),
        ensures
            final(self).wf(),
            final(self).names() == old(self).names(),
            final(self).lists() == unlist(old(self).lists(), item@),
    {
        let ghost before = *self;
        let mut t: usize = 0;
        while t < self.values.len()
            invariant
                before.wf(),
                self.keys == before.keys,
                self.values.len() == before.values.len(),
                t <= self.values.len(),
                forall|a: int|
                    0 <= a < t ==> texts_of((#[trigger] self.values[a])@) == without(
                        texts_of(before.values[a]@),
                        item@,
                    ),
                forall|a: int|
                    t <= a < self.values.len() ==> #[trigger] self.values[a] == before.values[a],
            decreases self.values.len() - t,
        {
            let fresh = without_item(&self.values[t], item);
            self.values.set(t, fresh);
            t += 1;
        }
        proof {
            assert forall|k: Seq<char>| self.has(k) == before.has(k) by {}
            assert forall|k: Seq<char>| before.has(k) implies self.lists()[k] == unlist(
                before.lists(),
                item@,
            )[k] by {
                assert(self.slot(k) == before.slot(k));
            }
            assert(self.lists() =~= unlist(before.lists(), item@));
        }
    }

    /// Makes sure that `key` is present, with an empty list where it is new.
    pub fn ensure(&mut self, key: &str)
        requires
            old(self).wf(),
        ensures
            final(self).wf(),
            final(self).lists() == if old(self).has(key@) {
                old(self).lists()
            } else {
                old(self).lists().insert(key@, Seq::empty())
            },
            final(self).names() == if old(self).has(key@) {
                old(self).names()
            } else {
                old(self).names().push(key@)
            },
    {
        if self.find(key).is_none() {
            let empty: Vec<String> = Vec::new();
            assert(texts_of(empty@) =~= Seq::<Seq<char>>::empty());
            self.put(String::from_str(key), empty);
        }
    }

    /// Adds `item` at the end of the list of `key`, which starts empty where
    /// the key is new.
    pub fn append_to(&mut self, key: &str, item: String)
        requires
            old(self).wf(),
        ensures
            final(self).wf(),
            final(self).lists() == old(self).lists().insert(
                key@,
                (if old(self).has(key@) {
                    old(self).lists()[key@]
                } else {
                    Seq::empty()
                }).push(item@),
            ),
            final(self).names() == if old(self).has(key@) {
                old(self).names()
            } else {
                old(self).names().push(key@)
            },
    {
        let ghost it = item@;
        let mut list: Vec<String> = match self.get(key) {
            Some(v) => clone_strings(v),
            None => Vec::new(),
        };
        let ghost before = texts_of(list@);
        assert(!self.has(key@) ==> before =~= Seq::<Seq<char>>::empty());
        list.push(item);
        assert(texts_of(list@) =~= before.push(it));
        self.put(String::from_str(key), list);
    }
}

} // verus!
