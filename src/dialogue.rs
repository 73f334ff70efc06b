//! The dialogue store: state that handlers carry from one event of a chat to
//! the next, keyed by the same key that orders the chat's events.
use vstd::prelude::*;
use crate::distribution::DefaultKey;

verus! {

struct Entry<S> {
    key: DefaultKey,
    state: S,
}

spec fn has_entry<S>(s: Seq<Entry<S>>, k: DefaultKey) -> bool {
    exists|i: int| 0 <= i < s.len() && #[trigger] s[i].key == k
}

/// An in-memory dialogue store. An entry is made on the first write for a
/// key and lives until it is removed.
pub struct InMemStorage<S> {
    entries: Vec<Entry<S>>,
    map: Ghost<Map<DefaultKey, S>>,
}

impl<S> View for InMemStorage<S> {
    type V = Map<DefaultKey, S>;

    closed spec fn view(&self) -> Map<DefaultKey, S> {
        self.map@
    }
}

impl<S> InMemStorage<S> {
    /// Each entry agrees with the map, every key of the map has an entry,
    /// and no key has two.
    pub closed spec fn wf(self) -> bool {
        &&& forall|i: int|
            0 <= i < self.entries@.len() ==> #[trigger] self.map@.contains_key(self.entries@[i].key)
                && self.map@[self.entries@[i].key] == self.entries@[i].state
        &&& forall|k: DefaultKey| #[trigger] self.map@.contains_key(k) ==> has_entry(self.entries@, k)
        &&& forall|i: int, j: int|
            0 <= i < self.entries@.len() && 0 <= j < self.entries@.len() && i != j
                ==> self.entries@[i].key != self.entries@[j].key
    }

    /// An empty store.
    pub fn new() -> (r: InMemStorage<S>)
        ensures
            r.wf(),
            r@ == Map::<DefaultKey, S>::empty(),
    {
        InMemStorage { entries: Vec::new(), map: Ghost(Map::empty()) }
    }

    fn find(&self, key: DefaultKey) -> (r: Option<usize>)
        ensures
            match r {
                Some(i) => i < self.entries@.len() && self.entries@[i as int].key == key,
                None => !has_entry(self.entries@, key),
            },
    {
        let mut i: usize = 0;
        while i < self.entries.len()
            invariant
                i <= self.entries@.len(),
                forall|j: int| 0 <= j < i ==> self.entries@[j].key != key,
            decreases self.entries@.len() - i,
        {
            if self.entries[i].key == key {
                return Some(i);
            }
            i = i + 1;
        }
        None
    }

    /// The state stored for `key`, if any.
    pub fn get(&self, key: DefaultKey) -> (r: Option<&S>)
        requires
            self.wf(),
        ensures
            match r {
                Some(s) => self@.contains_key(key) && *s == self@[key],
                None => !self@.contains_key(key),
            },
    {
        match self.find(key) {
            Some(i) => {
                assert(self.map@.contains_key(self.entries@[i as int].key));
                Some(&self.entries[i].state)
            },
            None => None,
        }
    }

    /// Stores `state` for `key`, in place of what was there.
    pub fn update(&mut self, key: DefaultKey, state: S)
        requires
            old(self).wf(),
        ensures
            final(self).wf(),
            final(self)@ == old(self)@.insert(key, state),
    {
        let ghost prev = *self;
        match self.find(key) {
            Some(i) => {
                let ghost st = state;
                self.entries.set(i, Entry { key, state });
                proof {
                    self.map = Ghost(prev.map@.insert(key, st));
                    assert forall|j: int| 0 <= j < self.entries@.len() implies #[trigger] self.map@.contains_key(self.entries@[j].key)
                        && self.map@[self.entries@[j].key] == self.entries@[j].state by {
                        if j != i {
                            assert(prev.map@.contains_key(prev.entries@[j].key));
                        }
                    }
                    assert forall|k: DefaultKey| #[trigger] self.map@.contains_key(k) implies has_entry(self.entries@, k) by {
                        let j = choose|j: int| 0 <= j < prev.entries@.len() && #[trigger] prev.entries@[j].key == k;
                        assert(self.entries@[j].key == k);
                    }
                }
            },
            None => {
                let ghost st = state;
                self.entries.push(Entry { key, state });
                proof {
                    self.map = Ghost(prev.map@.insert(key, st));
                    let n = prev.entries@.len() as int;
                    assert(self.entries@[n].key == key);
                    assert forall|j: int| 0 <= j < self.entries@.len() implies #[trigger] self.map@.contains_key(self.entries@[j].key)
                        && self.map@[self.entries@[j].key] == self.entries@[j].state by {
                        if j != n {
                            assert(prev.map@.contains_key(prev.entries@[j].key));
                        }
                    }
                    assert forall|k: DefaultKey| #[trigger] self.map@.contains_key(k) implies has_entry(self.entries@, k) by {
                        if k != key {
                            let j = choose|j: int| 0 <= j < prev.entries@.len() && #[trigger] prev.entries@[j].key == k;
                            assert(self.entries@[j].key == k);
                        }
                    }
                }
            },
        }
    }

    /// Removes the state of `key` and hands it back, if there was one.
    pub fn remove(&mut self, key: DefaultKey) -> (r: Option<S>)
        requires
            old(self).wf(),
        ensures
            final(self).wf(),
            final(self)@ == old(self)@.remove(key),
            match r {
                Some(s) => old(self)@.contains_key(key) && s == old(self)@[key],
                None => !old(self)@.contains_key(key),
            },
    {
        let ghost prev = *self;
        match self.find(key) {
            Some(i) => {
                assert(prev.map@.contains_key(prev.entries@[i as int].key));
                let e = self.entries.remove(i);
                proof {
                    self.map = Ghost(prev.map@.remove(key));
                    assert forall|j: int| 0 <= j < self.entries@.len() implies #[trigger] self.map@.contains_key(self.entries@[j].key)
                        && self.map@[self.entries@[j].key] == self.entries@[j].state by {
                        let oj = if j < i { j } else { j + 1 };
                        assert(self.entries@[j] == prev.entries@[oj]);
                        assert(prev.map@.contains_key(prev.entries@[oj].key));
                    }
                    assert forall|k: DefaultKey| #[trigger] self.map@.contains_key(k) implies has_entry(self.entries@, k) by {
                        let j = choose|j: int| 0 <= j < prev.entries@.len() && #[trigger] prev.entries@[j].key == k;
                        if j < i {
                            assert(self.entries@[j].key == k);
                        } else {
                            assert(self.entries@[j - 1].key == k);
                        }
                    }
                    assert forall|a: int, b: int|
                        0 <= a < self.entries@.len() && 0 <= b < self.entries@.len() && a != b
                        implies self.entries@[a].key != self.entries@[b].key by {
                        let oa = if a < i { a } else { a + 1 };
                        let ob = if b < i { b } else { b + 1 };
                        assert(self.entries@[a] == prev.entries@[oa]);
                        assert(self.entries@[b] == prev.entries@[ob]);
                    }
                }
                Some(e.state)
            },
            None => {
                proof {
                    assert(self.map@.remove(key) =~= self.map@);
                }
                None
            },
        }
    }
}


/// A dialogue backend: a store of one state per key, reached by three
/// operations. Backends other than the in-memory one (a durable store, for
/// instance) implement this same contract.
pub trait Storage<S>: Sized {
    /// What the backend holds for each key.
    spec fn dialogues(&self) -> Map<DefaultKey, S>;

    /// The backend's own well-formedness.
    spec fn ready(&self) -> bool;

    /// The state stored for `key`, if any.
    fn get_dialogue(&self, key: DefaultKey) -> (r: Option<&S>)
        requires
            self.ready(),
        ensures
            match r {
                Some(s) => self.dialogues().contains_key(key) && *s == self.dialogues()[key],
                None => !self.dialogues().contains_key(key),
            },
    ;

    /// Stores `state` for `key`, in place of what was there.
    fn update_dialogue(&mut self, key: DefaultKey, state: S)
        requires
            old(self).ready(),
        ensures
            final(self).ready(),
            final(self).dialogues() == old(self).dialogues().insert(key, state),
    ;

    /// Removes the state of `key` and hands it back, if there was one.
    fn remove_dialogue(&mut self, key: DefaultKey) -> (r: Option<S>)
        requires
            old(self).ready(),
        ensures
            final(self).ready(),
            final(self).dialogues() == old(self).dialogues().remove(key),
            match r {
                Some(s) => old(self).dialogues().contains_key(key) && s == old(self).dialogues()[key],
                None => !old(self).dialogues().contains_key(key),
            },
    ;
}

impl<S> Storage<S> for InMemStorage<S> {
    open spec fn dialogues(&self) -> Map<DefaultKey, S> {
        self@
    }

    open spec fn ready(&self) -> bool {
        self.wf()
    }

    fn get_dialogue(&self, key: DefaultKey) -> (r: Option<&S>) {
        self.get(key)
    }

    fn update_dialogue(&mut self, key: DefaultKey, state: S) {
        self.update(key, state)
    }

    fn remove_dialogue(&mut self, key: DefaultKey) -> (r: Option<S>) {
        self.remove(key)
    }
}

} // verus!
