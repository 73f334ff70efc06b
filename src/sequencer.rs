//! The per-key sequencer: one ordered, bounded queue per active key, at most
//! one handler in flight per key, and at most a configured number of keys with
//! a worker at once.
use std::collections::VecDeque;
use vstd::prelude::*;
use crate::distribution::{DefaultKey, Update};

verus! {

/// What happens to an event that arrives for a key whose backlog is full.
#[derive(Clone, Copy, Debug, PartialEq, Eq, Structural)]
pub enum OverflowPolicy {
    /// The event is refused and reported; intake goes on.
    Reject,
    /// The event is not taken; the producer holds it and offers it again later.
    Block,
}

/// The sequencer's tunables.
#[derive(Clone, Copy, Debug, PartialEq, Eq, Structural)]
pub struct Config {
    /// How many keys may have a worker at the same time.
    pub max_concurrent_keys: usize,
    /// How many events may wait behind a key, besides the one in flight.
    pub per_key_backlog: usize,
    /// What a full backlog does to a new event.
    pub backlog_overflow_policy: OverflowPolicy,
    /// How long a shutdown waits for the drain, in milliseconds; none waits
    /// for ever.
    pub shutdown_timeout_ms: Option<u64>,
}

/// What became of an event handed to the sequencer.
#[derive(Clone, Copy, Debug, PartialEq, Eq, Structural)]
pub enum Admission {
    /// The key was idle and a slot was free: a worker starts on the event now.
    Started,
    /// The key has work: the event waits at the back of its queue.
    Queued,
    /// The key was idle but every slot is taken: the key waits for a slot.
    Deferred,
    /// The key's backlog is full and the policy refuses the event.
    Rejected,
    /// The key's backlog is full and the producer must offer the event again.
    Blocked,
}

/// What a worker does after finishing the event in flight for its key.
#[derive(Clone, Copy, Debug, PartialEq, Eq, Structural)]
pub enum Completion {
    /// The key has more: the same worker goes on with this event.
    Continue(Update),
    /// The key is done and its slot went to this waiting key and event.
    Activated(DefaultKey, Update),
    /// The key is done and no key waits for its slot.
    Idle,
    /// No event was in flight for the key: nothing changed.
    NotRunning,
}

/// The state of one key with work: whether a worker runs for it, and its
/// events in arrival order (the first one is in flight when a worker runs).
pub struct KeyState {
    pub running: bool,
    pub events: Seq<Update>,
}

/// How many events of a key wait, not counting the one in flight.
pub open spec fn queued_len(ks: KeyState) -> int {
    if ks.running {
        ks.events.len() - 1
    } else {
        ks.events.len() as int
    }
}

/// The result of a full backlog under a policy.
pub open spec fn overflow_result(p: OverflowPolicy) -> Admission {
    match p {
        OverflowPolicy::Reject => Admission::Rejected,
        OverflowPolicy::Block => Admission::Blocked,
    }
}

/// The events recorded for `k` in a history map, none where it has no entry.
pub open spec fn hist(m: Map<DefaultKey, Seq<Update>>, k: DefaultKey) -> Seq<Update> {
    if m.contains_key(k) {
        m[k]
    } else {
        Seq::empty()
    }
}

/// A key with work, and its events in order: the first one is the one in
/// flight (or next to start, while the key waits for a slot).
struct Lane {
    key: DefaultKey,
    head: Update,
    rest: VecDeque<Update>,
}

spec fn lane_state(l: Lane, running: bool) -> KeyState {
    KeyState { running, events: seq![l.head] + l.rest@ }
}

spec fn has_key(s: Seq<Lane>, k: DefaultKey) -> bool {
    exists|i: int| 0 <= i < s.len() && #[trigger] s[i].key == k
}

spec fn keys_distinct(s: Seq<Lane>) -> bool {
    forall|i: int, j: int| 0 <= i < s.len() && 0 <= j < s.len() && i != j ==> s[i].key != s[j].key
}

proof fn lemma_has_key_push(s: Seq<Lane>, l: Lane, k: DefaultKey)
    requires
        has_key(s, k) || l.key == k,
    ensures
        has_key(s.push(l), k),
{
    if l.key == k {
        assert(s.push(l)[s.len() as int].key == k);
    } else {
        let i = choose|i: int| 0 <= i < s.len() && #[trigger] s[i].key == k;
        assert(s.push(l)[i].key == k);
    }
}

proof fn lemma_has_key_remove(s: Seq<Lane>, at: int, k: DefaultKey)
    requires
        0 <= at < s.len(),
        has_key(s, k),
        s[at].key != k,
    ensures
        has_key(s.remove(at), k),
{
    let i = choose|i: int| 0 <= i < s.len() && #[trigger] s[i].key == k;
    if i < at {
        assert(s.remove(at)[i].key == k);
    } else {
        assert(s.remove(at)[i - 1].key == k);
    }
}

/// The sequencer's state: the keys with a worker, the keys waiting for a slot
/// in the order they came to wait, and the count of unkeyed events in flight.
pub struct Sequencer {
    config: Config,
    active: Vec<Lane>,
    waiting: Vec<Lane>,
    unkeyed: usize,
    state: Ghost<Map<DefaultKey, KeyState>>,
    accepted: Ghost<Map<DefaultKey, Seq<Update>>>,
    completed: Ghost<Map<DefaultKey, Seq<Update>>>,
}

impl Sequencer {
    /// The configuration the sequencer was made with.
    pub closed spec fn cfg(self) -> Config {
        self.config
    }

    /// Each key with work, and its state.
    pub closed spec fn keys(self) -> Map<DefaultKey, KeyState> {
        self.state@
    }

    /// The events of `k` that were taken, in arrival order.
    pub closed spec fn accepted(self, k: DefaultKey) -> Seq<Update> {
        hist(self.accepted@, k)
    }

    /// The events of `k` whose handler has finished, in the order they finished.
    pub closed spec fn completed(self, k: DefaultKey) -> Seq<Update> {
        hist(self.completed@, k)
    }

    /// The event of `k` whose handler runs now, if any.
    pub open spec fn in_flight(self, k: DefaultKey) -> Option<Update> {
        if self.keys().contains_key(k) && self.keys()[k].running {
            Some(self.keys()[k].events[0])
        } else {
            None
        }
    }

    /// The events of `k` whose handler has started, in the order they started.
    pub open spec fn started(self, k: DefaultKey) -> Seq<Update> {
        match self.in_flight(k) {
            Some(e) => self.completed(k).push(e),
            None => self.completed(k),
        }
    }

    /// How many keys have a worker now.
    pub closed spec fn active_count(self) -> nat {
        self.active@.len()
    }

    /// The keys waiting for a slot, first to be activated first.
    pub closed spec fn pending_keys(self) -> Seq<DefaultKey> {
        self.waiting@.map_values(|l: Lane| l.key)
    }

    /// How many unkeyed events are in flight.
    pub closed spec fn unkeyed_count(self) -> nat {
        self.unkeyed as nat
    }

    /// Nothing is in flight or waiting.
    pub open spec fn drained(self) -> bool {
        &&& self.keys().dom() == Set::<DefaultKey>::empty()
        &&& self.unkeyed_count() == 0
    }

    /// The sequencer's invariant: the lanes and the key map agree, keys are
    /// unique, backlogs and the ceiling hold, a key waits only while every
    /// slot is taken, and each key's accepted events are its completed ones
    /// followed by those still in its lane.
    pub closed spec fn wf(self) -> bool {
        &&& forall|i: int|
            0 <= i < self.active@.len() ==> #[trigger] self.state@.contains_key(self.active@[i].key)
                && self.state@[self.active@[i].key] == lane_state(self.active@[i], true)
        &&& forall|i: int|
            0 <= i < self.waiting@.len() ==> #[trigger] self.state@.contains_key(
                self.waiting@[i].key,
            ) && self.state@[self.waiting@[i].key] == lane_state(self.waiting@[i], false)
        &&& forall|k: DefaultKey| #[trigger]
            self.state@.contains_key(k) ==> has_key(self.active@, k) || has_key(self.waiting@, k)
        &&& keys_distinct(self.active@)
        &&& keys_distinct(self.waiting@)
        &&& forall|k: DefaultKey| #[trigger]
            self.state@.contains_key(k) ==> 0 <= queued_len(self.state@[k])
                <= self.config.per_key_backlog
        &&& self.active@.len() <= self.config.max_concurrent_keys
        &&& self.waiting@.len() > 0 ==> self.active@.len() == self.config.max_concurrent_keys
        &&& forall|k: DefaultKey| #[trigger]
            hist(self.accepted@, k) == hist(self.completed@, k) + (if self.state@.contains_key(k) {
                self.state@[k].events
            } else {
                Seq::empty()
            })
    }
}

impl Sequencer {

    /// An empty sequencer with the given configuration.
    pub fn new(config: Config) -> (r: Sequencer)
        ensures
            r.wf(),
            r.cfg() == config,
            r.keys() == Map::<DefaultKey, KeyState>::empty(),
            r.active_count() == 0,
            r.pending_keys() == Seq::<DefaultKey>::empty(),
            r.unkeyed_count() == 0,
            forall|k: DefaultKey| r.accepted(k) == Seq::<Update>::empty() && r.completed(k) == Seq::<Update>::empty(),
    {
        let r = Sequencer {
            config,
            active: Vec::new(),
            waiting: Vec::new(),
            unkeyed: 0,
            state: Ghost(Map::empty()),
            accepted: Ghost(Map::empty()),
            completed: Ghost(Map::empty()),
        };
        assert(r.pending_keys() =~= Seq::<DefaultKey>::empty());
        assert forall|k: DefaultKey| #[trigger] hist(r.accepted@, k) == hist(r.completed@, k) + Seq::<Update>::empty() by {
            assert(hist(r.completed@, k) + Seq::<Update>::empty() =~= hist(r.completed@, k));
        }
        r
    }

    /// The configuration the sequencer was made with.
    pub fn config(&self) -> (r: Config)
        ensures
            r == self.cfg(),
    {
        self.config
    }

    fn find(lanes: &Vec<Lane>, key: DefaultKey) -> (r: Option<usize>)
        ensures
            match r {
                Some(i) => i < lanes@.len() && lanes@[i as int].key == key,
                None => !has_key(lanes@, key),
            },
    {
        let mut i: usize = 0;
        while i < lanes.len()
            invariant
                i <= lanes@.len(),
                forall|j: int| 0 <= j < i ==> lanes@[j].key != key,
            decreases lanes@.len() - i,
        {
            if lanes[i].key == key {
                return Some(i);
            }
            i = i + 1;
        }
        None
    }

    /// What `enqueue` decides for an event of `key` in this state.
    pub open spec fn admission(self, key: DefaultKey) -> Admission {
        if !self.keys().contains_key(key) {
            if self.active_count() < self.cfg().max_concurrent_keys {
                Admission::Started
            } else if self.cfg().per_key_backlog == 0 {
                overflow_result(self.cfg().backlog_overflow_policy)
            } else {
                Admission::Deferred
            }
        } else if queued_len(self.keys()[key]) < self.cfg().per_key_backlog {
            Admission::Queued
        } else {
            overflow_result(self.cfg().backlog_overflow_policy)
        }
    }

    /// How the state moves when `enqueue` takes an event `ev` of `key`: as
    /// `admission` decides, with only `key`'s entry changed.
    pub open spec fn enqueues_to(self, next: Sequencer, key: DefaultKey, ev: Update) -> bool {
        let r = self.admission(key);
        &&& next.cfg() == self.cfg()
        &&& next.unkeyed_count() == self.unkeyed_count()
        &&& forall|k: DefaultKey| #[trigger] next.completed(k) == self.completed(k)
        &&& forall|k: DefaultKey|
            #[trigger] next.accepted(k) == if k == key && (r is Started || r is Queued || r is Deferred) {
                self.accepted(k).push(ev)
            } else {
                self.accepted(k)
            }
        &&& (r is Rejected || r is Blocked) ==> {
            &&& next.keys() == self.keys()
            &&& next.active_count() == self.active_count()
            &&& next.pending_keys() == self.pending_keys()
        }
        &&& r is Started ==> {
            &&& next.keys() == self.keys().insert(key, KeyState { running: true, events: seq![ev] })
            &&& next.active_count() == self.active_count() + 1
            &&& next.pending_keys() == self.pending_keys()
        }
        &&& r is Deferred ==> {
            &&& next.keys() == self.keys().insert(key, KeyState { running: false, events: seq![ev] })
            &&& next.active_count() == self.active_count()
            &&& next.pending_keys() == self.pending_keys().push(key)
        }
        &&& r is Queued ==> {
            &&& next.keys() == self.keys().insert(
                key,
                KeyState { running: self.keys()[key].running, events: self.keys()[key].events.push(ev) },
            )
            &&& next.active_count() == self.active_count()
            &&& next.pending_keys() == self.pending_keys()
        }
    }

    /// What `complete` reports for `key` in this state.
    pub open spec fn completion(self, key: DefaultKey) -> Completion {
        if self.in_flight(key) is None {
            Completion::NotRunning
        } else if self.keys()[key].events.len() > 1 {
            Completion::Continue(self.keys()[key].events[1])
        } else if self.pending_keys().len() > 0 {
            Completion::Activated(self.pending_keys()[0], self.keys()[self.pending_keys()[0]].events[0])
        } else {
            Completion::Idle
        }
    }

    /// How the state moves when the handler in flight for `key` finishes: its
    /// event joins the completed ones, and the key goes on with its next
    /// event, or gives its slot to the first waiting key, or leaves.
    pub open spec fn completes_to(self, next: Sequencer, key: DefaultKey) -> bool {
        let evs = self.keys()[key].events;
        &&& next.cfg() == self.cfg()
        &&& next.unkeyed_count() == self.unkeyed_count()
        &&& forall|k: DefaultKey| #[trigger] next.accepted(k) == self.accepted(k)
        &&& self.in_flight(key) is None ==> {
            &&& next.keys() == self.keys()
            &&& next.active_count() == self.active_count()
            &&& next.pending_keys() == self.pending_keys()
            &&& forall|k: DefaultKey| #[trigger] next.completed(k) == self.completed(k)
        }
        &&& self.in_flight(key) is Some ==> {
            &&& forall|k: DefaultKey|
                #[trigger] next.completed(k) == if k == key {
                    self.completed(k).push(evs[0])
                } else {
                    self.completed(k)
                }
            &&& evs.len() > 1 ==> {
                &&& next.keys() == self.keys().insert(key, KeyState { running: true, events: evs.drop_first() })
                &&& next.active_count() == self.active_count()
                &&& next.pending_keys() == self.pending_keys()
            }
            &&& evs.len() <= 1 && self.pending_keys().len() > 0 ==> {
                let w = self.pending_keys()[0];
                &&& next.keys() == self.keys().remove(key).insert(
                    w,
                    KeyState { running: true, events: self.keys()[w].events },
                )
                &&& next.active_count() == self.active_count()
                &&& next.pending_keys() == self.pending_keys().drop_first()
            }
            &&& evs.len() <= 1 && self.pending_keys().len() == 0 ==> {
                &&& next.keys() == self.keys().remove(key)
                &&& next.active_count() + 1 == self.active_count()
                &&& next.pending_keys() == self.pending_keys()
            }
        }
    }

    fn push_event(lanes: &mut Vec<Lane>, i: usize, ev: Update)
        requires
            i < old(lanes)@.len(),
        ensures
            final(lanes)@.len() == old(lanes)@.len(),
            forall|j: int| 0 <= j < old(lanes)@.len() && j != i ==> final(lanes)@[j] == old(lanes)@[j],
            final(lanes)@[i as int].key == old(lanes)@[i as int].key,
            final(lanes)@[i as int].head == old(lanes)@[i as int].head,
            final(lanes)@[i as int].rest@ == old(lanes)@[i as int].rest@.push(ev),
    {
        lanes[i].rest.push_back(ev);
    }

    /// Hands an event of `key` to the sequencer. An idle key starts at once
    /// where a slot is free, and waits for one otherwise; a busy key queues
    /// the event behind its others. Where the key's backlog is full, the
    /// configured policy decides: the event is rejected or the producer is
    /// blocked, and nothing changes.
    pub fn enqueue(&mut self, key: DefaultKey, ev: Update) -> (r: Admission)
        requires
            old(self).wf(),
        ensures
            final(self).wf(),
            r == old(self).admission(key),
            old(self).enqueues_to(*final(self), key, ev),
    {
        let overflow = match self.config.backlog_overflow_policy {
            OverflowPolicy::Reject => Admission::Rejected,
            OverflowPolicy::Block => Admission::Blocked,
        };
        let ghost prev = *self;
        let ghost acc0 = self.accepted@;
        let ghost st0 = self.state@;
        match Self::find(&self.active, key) {
            Some(i) => {
                assert(st0[key] == lane_state(self.active@[i as int], true));
                if self.active[i].rest.len() < self.config.per_key_backlog {
                    Self::push_event(&mut self.active, i, ev);
                    proof {
                        let ks = KeyState { running: true, events: st0[key].events.push(ev) };
                        assert(lane_state(self.active@[i as int], true).events =~= ks.events);
                        self.state = Ghost(st0.insert(key, ks));
                        self.accepted = Ghost(acc0.insert(key, hist(acc0, key).push(ev)));
                        Self::lemma_queued_wf(*self, prev, key, ev);
                    }
                    Admission::Queued
                } else {
                    overflow
                }
            },
            None => {
                match Self::find(&self.waiting, key) {
                    Some(i) => {
                        assert(st0[key] == lane_state(self.waiting@[i as int], false));
                        if self.waiting[i].rest.len() + 1 < self.config.per_key_backlog {
                            Self::push_event(&mut self.waiting, i, ev);
                            proof {
                                let ks = KeyState { running: false, events: st0[key].events.push(ev) };
                                assert(lane_state(self.waiting@[i as int], false).events =~= ks.events);
                                self.state = Ghost(st0.insert(key, ks));
                                self.accepted = Ghost(acc0.insert(key, hist(acc0, key).push(ev)));
                                Self::lemma_queued_wf(*self, prev, key, ev);
                                assert(self.pending_keys() =~= prev.pending_keys());
                            }
                            Admission::Queued
                        } else {
                            overflow
                        }
                    },
                    None => {
                        assert(!st0.contains_key(key));
                        if self.active.len() < self.config.max_concurrent_keys {
                            let lane = Lane { key, head: ev, rest: VecDeque::new() };
                            self.active.push(lane);
                            proof {
                                let ks = KeyState { running: true, events: seq![ev] };
                                assert(lane_state(lane, true).events =~= ks.events);
                                self.state = Ghost(st0.insert(key, ks));
                                self.accepted = Ghost(acc0.insert(key, hist(acc0, key).push(ev)));
                                assert(self.active@.drop_last() =~= prev.active@);
                                assert(self.active@.last() == lane);
                                assert(self.state@[key] == ks);
                                Self::lemma_new_key_wf(*self, prev, key, ev);
                            }
                            Admission::Started
                        } else if self.config.per_key_backlog == 0 {
                            overflow
                        } else {
                            let lane = Lane { key, head: ev, rest: VecDeque::new() };
                            self.waiting.push(lane);
                            proof {
                                let ks = KeyState { running: false, events: seq![ev] };
                                assert(lane_state(lane, false).events =~= ks.events);
                                self.state = Ghost(st0.insert(key, ks));
                                self.accepted = Ghost(acc0.insert(key, hist(acc0, key).push(ev)));
                                assert(self.pending_keys() =~= old(self).pending_keys().push(key));
                                assert(self.waiting@.drop_last() =~= prev.waiting@);
                                assert(self.waiting@.last() == lane);
                                assert(self.state@[key] == ks);
                                Self::lemma_new_key_wf(*self, prev, key, ev);
                            }
                            Admission::Deferred
                        }
                    },
                }
            },
        }
    }

    proof fn lemma_queued_wf(self, prev: Sequencer, key: DefaultKey, ev: Update)
        requires
            prev.wf(),
            prev.state@.contains_key(key),
            queued_len(prev.state@[key]) < prev.config.per_key_backlog,
            self.config == prev.config,
            self.state@ == prev.state@.insert(
                key,
                KeyState { running: prev.state@[key].running, events: prev.state@[key].events.push(ev) },
            ),
            self.accepted@ == prev.accepted@.insert(key, hist(prev.accepted@, key).push(ev)),
            self.completed@ == prev.completed@,
            self.active@.len() == prev.active@.len(),
            self.waiting@.len() == prev.waiting@.len(),
            forall|j: int| 0 <= j < self.active@.len() ==> (#[trigger] self.active@[j]).key == prev.active@[j].key,
            forall|j: int| 0 <= j < self.waiting@.len() ==> (#[trigger] self.waiting@[j]).key == prev.waiting@[j].key,
            forall|j: int| 0 <= j < self.active@.len() && self.active@[j].key != key ==> self.active@[j] == prev.active@[j],
            forall|j: int| 0 <= j < self.waiting@.len() && self.waiting@[j].key != key ==> self.waiting@[j] == prev.waiting@[j],
            forall|j: int| 0 <= j < self.active@.len() && self.active@[j].key == key ==> lane_state(self.active@[j], true) == self.state@[key],
            forall|j: int| 0 <= j < self.waiting@.len() && self.waiting@[j].key == key ==> lane_state(self.waiting@[j], false) == self.state@[key],
        ensures
            self.wf(),
    {
        assert forall|k: DefaultKey| #[trigger] self.state@.contains_key(k) implies has_key(self.active@, k) || has_key(self.waiting@, k) by {
            if has_key(prev.active@, k) {
                let i = choose|i: int| 0 <= i < prev.active@.len() && #[trigger] prev.active@[i].key == k;
                assert(self.active@[i].key == k);
            } else {
                let i = choose|i: int| 0 <= i < prev.waiting@.len() && #[trigger] prev.waiting@[i].key == k;
                assert(self.waiting@[i].key == k);
            }
        }
        assert forall|k: DefaultKey| #[trigger] hist(self.accepted@, k) == hist(self.completed@, k) + (if self.state@.contains_key(k) {
                self.state@[k].events
            } else {
                Seq::empty()
            }) by {
            if k == key {
                assert(hist(prev.accepted@, k) == hist(prev.completed@, k) + prev.state@[k].events);
                assert(hist(self.accepted@, k) =~= hist(self.completed@, k) + self.state@[k].events);
            } else {
                assert(hist(prev.accepted@, k) == hist(prev.completed@, k) + (if prev.state@.contains_key(k) {
                    prev.state@[k].events
                } else {
                    Seq::empty()
                }));
            }
        }
    }

    proof fn lemma_new_key_wf(self, prev: Sequencer, key: DefaultKey, ev: Update)
        requires
            prev.wf(),
            !prev.state@.contains_key(key),
            !has_key(prev.active@, key),
            !has_key(prev.waiting@, key),
            self.config == prev.config,
            self.completed@ == prev.completed@,
            self.accepted@ == prev.accepted@.insert(key, hist(prev.accepted@, key).push(ev)),
            ({
                let ks = self.state@[key];
                &&& ks.events == seq![ev]
                &&& self.state@ == prev.state@.insert(key, ks)
                &&& if ks.running {
                    &&& prev.active@.len() < prev.config.max_concurrent_keys
                    &&& self.waiting@ == prev.waiting@
                    &&& self.active@.len() == prev.active@.len() + 1
                    &&& self.active@.drop_last() == prev.active@
                    &&& self.active@.last().key == key
                    &&& lane_state(self.active@.last(), true) == ks
                } else {
                    &&& prev.config.per_key_backlog >= 1
                    &&& prev.active@.len() == prev.config.max_concurrent_keys
                    &&& self.active@ == prev.active@
                    &&& self.waiting@.len() == prev.waiting@.len() + 1
                    &&& self.waiting@.drop_last() == prev.waiting@
                    &&& self.waiting@.last().key == key
                    &&& lane_state(self.waiting@.last(), false) == ks
                }
            }),
        ensures
            self.wf(),
    {
        let ks = self.state@[key];
        if ks.running {
            assert(self.active@ =~= prev.active@.push(self.active@.last()));
        } else {
            assert(self.waiting@ =~= prev.waiting@.push(self.waiting@.last()));
        }
        assert forall|k: DefaultKey| #[trigger] self.state@.contains_key(k) implies has_key(self.active@, k) || has_key(self.waiting@, k) by {
            if ks.running {
                if k != key && has_key(prev.active@, k) {
                    lemma_has_key_push(prev.active@, self.active@.last(), k);
                } else if k == key {
                    lemma_has_key_push(prev.active@, self.active@.last(), k);
                }
            } else {
                if k != key && has_key(prev.waiting@, k) {
                    lemma_has_key_push(prev.waiting@, self.waiting@.last(), k);
                } else if k == key {
                    lemma_has_key_push(prev.waiting@, self.waiting@.last(), k);
                }
            }
        }
        assert forall|k: DefaultKey| #[trigger] hist(self.accepted@, k) == hist(self.completed@, k) + (if self.state@.contains_key(k) {
                self.state@[k].events
            } else {
                Seq::empty()
            }) by {
            assert(hist(prev.accepted@, k) == hist(prev.completed@, k) + (if prev.state@.contains_key(k) {
                prev.state@[k].events
            } else {
                Seq::empty()
            }));
            if k == key {
                assert(hist(self.accepted@, k) =~= hist(self.completed@, k) + self.state@[k].events);
            }
        }
    }

    fn advance(lanes: &mut Vec<Lane>, i: usize) -> (r: Option<Update>)
        requires
            i < old(lanes)@.len(),
        ensures
            old(lanes)@[i as int].rest@.len() == 0 ==> r is None && final(lanes)@ == old(lanes)@,
            old(lanes)@[i as int].rest@.len() > 0 ==> {
                &&& r == Some(old(lanes)@[i as int].rest@[0])
                &&& final(lanes)@.len() == old(lanes)@.len()
                &&& forall|j: int| 0 <= j < old(lanes)@.len() && j != i ==> final(lanes)@[j] == old(lanes)@[j]
                &&& final(lanes)@[i as int].key == old(lanes)@[i as int].key
                &&& final(lanes)@[i as int].head == old(lanes)@[i as int].rest@[0]
                &&& final(lanes)@[i as int].rest@ == old(lanes)@[i as int].rest@.drop_first()
            },
    {
        if lanes[i].rest.len() == 0 {
            return None;
        }
        match lanes[i].rest.pop_front() {
            Some(n) => {
                lanes[i].head = n;
                Some(n)
            },
            None => None,
        }
    }

    /// Records that the handler in flight for `key` has finished, and says
    /// what runs next: the key's next event on the same worker, or, where the
    /// key has nothing more, the first key waiting for the freed slot.
    pub fn complete(&mut self, key: DefaultKey) -> (r: Completion)
        requires
            old(self).wf(),
        ensures
            final(self).wf(),
            r == old(self).completion(key),
            old(self).completes_to(*final(self), key),
    {
        let ghost prev = *self;
        match Self::find(&self.active, key) {
            None => {
                proof {
                    if prev.state@.contains_key(key) {
                        let j = choose|j: int| 0 <= j < prev.waiting@.len() && #[trigger] prev.waiting@[j].key == key;
                    }
                }
                Completion::NotRunning
            },
            Some(i) => {
                let ghost evs = prev.state@[key].events;
                assert(prev.state@.contains_key(prev.active@[i as int].key));
                assert(prev.state@[key] == lane_state(prev.active@[i as int], true));
                assert(evs =~= seq![prev.active@[i as int].head] + prev.active@[i as int].rest@);
                match Self::advance(&mut self.active, i) {
                    Some(n) => {
                        proof {
                            let ks = KeyState { running: true, events: evs.drop_first() };
                            assert(lane_state(self.active@[i as int], true).events =~= ks.events);
                            self.state = Ghost(prev.state@.insert(key, ks));
                            self.completed = Ghost(prev.completed@.insert(key, hist(prev.completed@, key).push(evs[0])));
                            Self::lemma_advance_wf(*self, prev, key, i as int);
                        }
                        Completion::Continue(n)
                    },
                    None => {
                        let _done = self.active.remove(i);
                        proof {
                            self.state = Ghost(prev.state@.remove(key));
                            self.completed = Ghost(prev.completed@.insert(key, hist(prev.completed@, key).push(evs[0])));
                            Self::lemma_retire_wf(*self, prev, key, i as int);
                        }
                        if self.waiting.len() > 0 {
                            let ghost mid = *self;
                            let w = self.waiting.remove(0);
                            let wk = w.key;
                            let wh = w.head;
                            self.active.push(w);
                            proof {
                                assert(mid.state@.contains_key(mid.waiting@[0].key));
                                assert(mid.state@[wk] == lane_state(mid.waiting@[0], false));
                                self.state = Ghost(mid.state@.insert(wk, KeyState { running: true, events: mid.state@[wk].events }));
                                Self::lemma_activate_wf(*self, mid);
                                assert(self.pending_keys() =~= prev.pending_keys().drop_first());
                            }
                            Completion::Activated(wk, wh)
                        } else {
                            Completion::Idle
                        }
                    },
                }
            },
        }
    }

    proof fn lemma_advance_wf(self, prev: Sequencer, key: DefaultKey, i: int)
        requires
            prev.wf(),
            0 <= i < prev.active@.len(),
            prev.active@[i].key == key,
            prev.state@[key].events.len() > 1,
            self.config == prev.config,
            self.state@ == prev.state@.insert(
                key,
                KeyState { running: true, events: prev.state@[key].events.drop_first() },
            ),
            self.completed@ == prev.completed@.insert(key, hist(prev.completed@, key).push(prev.state@[key].events[0])),
            self.accepted@ == prev.accepted@,
            self.waiting@ == prev.waiting@,
            self.active@.len() == prev.active@.len(),
            forall|j: int| 0 <= j < prev.active@.len() && j != i ==> self.active@[j] == prev.active@[j],
            self.active@[i].key == key,
            lane_state(self.active@[i], true) == self.state@[key],
        ensures
            self.wf(),
    {
        assert(prev.state@.contains_key(prev.active@[i].key));
        assert forall|k: DefaultKey| #[trigger] self.state@.contains_key(k) implies has_key(self.active@, k) || has_key(self.waiting@, k) by {
            if has_key(prev.active@, k) {
                let j = choose|j: int| 0 <= j < prev.active@.len() && #[trigger] prev.active@[j].key == k;
                assert(self.active@[j].key == k);
            }
        }
        assert forall|j: int| 0 <= j < self.active@.len() implies #[trigger] self.state@.contains_key(self.active@[j].key)
            && self.state@[self.active@[j].key] == lane_state(self.active@[j], true) by {
            if j != i {
                assert(prev.state@.contains_key(prev.active@[j].key));
            }
        }
        assert forall|j: int| 0 <= j < self.waiting@.len() implies #[trigger] self.state@.contains_key(self.waiting@[j].key)
            && self.state@[self.waiting@[j].key] == lane_state(self.waiting@[j], false) by {
            assert(prev.state@.contains_key(prev.waiting@[j].key));
        }
        assert(keys_distinct(self.active@)) by {
            assert forall|a: int, b: int| 0 <= a < self.active@.len() && 0 <= b < self.active@.len() && a != b
                implies self.active@[a].key != self.active@[b].key by {
                assert(prev.active@[a].key != prev.active@[b].key);
            }
        }
        assert forall|k: DefaultKey| #[trigger] hist(self.accepted@, k) == hist(self.completed@, k) + (if self.state@.contains_key(k) {
                self.state@[k].events
            } else {
                Seq::empty()
            }) by {
            assert(hist(prev.accepted@, k) == hist(prev.completed@, k) + (if prev.state@.contains_key(k) {
                prev.state@[k].events
            } else {
                Seq::empty()
            }));
            if k == key {
                let evs = prev.state@[key].events;
                assert(evs =~= seq![evs[0]] + evs.drop_first());
                assert(hist(self.accepted@, k) =~= hist(self.completed@, k) + self.state@[k].events);
            }
        }
    }

    proof fn lemma_retire_wf(self, prev: Sequencer, key: DefaultKey, i: int)
        requires
            prev.wf(),
            0 <= i < prev.active@.len(),
            prev.active@[i].key == key,
            prev.state@[key].events.len() == 1,
            self.config == prev.config,
            self.state@ == prev.state@.remove(key),
            self.completed@ == prev.completed@.insert(key, hist(prev.completed@, key).push(prev.state@[key].events[0])),
            self.accepted@ == prev.accepted@,
            self.waiting@ == prev.waiting@,
            self.active@ == prev.active@.remove(i),
        ensures
            self.wf() || self.waiting@.len() > 0,
            forall|j: int| 0 <= j < self.active@.len() ==> #[trigger] self.state@.contains_key(self.active@[j].key)
                && self.state@[self.active@[j].key] == lane_state(self.active@[j], true),
            forall|j: int| 0 <= j < self.waiting@.len() ==> #[trigger] self.state@.contains_key(self.waiting@[j].key)
                && self.state@[self.waiting@[j].key] == lane_state(self.waiting@[j], false),
            forall|k: DefaultKey| #[trigger] self.state@.contains_key(k) ==> has_key(self.active@, k) || has_key(self.waiting@, k),
            keys_distinct(self.active@),
            keys_distinct(self.waiting@),
            forall|k: DefaultKey| #[trigger] self.state@.contains_key(k) ==> 0 <= queued_len(self.state@[k]) <= self.config.per_key_backlog,
            self.active@.len() + 1 == self.config.max_concurrent_keys || self.waiting@.len() == 0,
            forall|k: DefaultKey| #[trigger] hist(self.accepted@, k) == hist(self.completed@, k) + (if self.state@.contains_key(k) {
                self.state@[k].events
            } else {
                Seq::empty()
            }),
    {
        assert forall|j: int| 0 <= j < self.active@.len() implies #[trigger] self.state@.contains_key(self.active@[j].key)
            && self.state@[self.active@[j].key] == lane_state(self.active@[j], true) by {
            let oj = if j < i { j } else { j + 1 };
            assert(self.active@[j] == prev.active@[oj]);
            assert(prev.state@.contains_key(prev.active@[oj].key));
            assert(prev.active@[oj].key != key);
        }
        assert forall|j: int| 0 <= j < self.waiting@.len() implies #[trigger] self.state@.contains_key(self.waiting@[j].key)
            && self.state@[self.waiting@[j].key] == lane_state(self.waiting@[j], false) by {
            assert(prev.state@.contains_key(prev.waiting@[j].key));
            assert(prev.state@.contains_key(prev.active@[i].key));
            assert(prev.state@[key].running);
        }
        assert forall|k: DefaultKey| #[trigger] self.state@.contains_key(k) implies has_key(self.active@, k) || has_key(self.waiting@, k) by {
            assert(prev.state@.contains_key(k));
            if has_key(prev.active@, k) {
                lemma_has_key_remove(prev.active@, i, k);
            }
        }
        assert forall|a: int, b: int| 0 <= a < self.active@.len() && 0 <= b < self.active@.len() && a != b
            implies self.active@[a].key != self.active@[b].key by {
            let oa = if a < i { a } else { a + 1 };
            let ob = if b < i { b } else { b + 1 };
            assert(self.active@[a] == prev.active@[oa]);
            assert(self.active@[b] == prev.active@[ob]);
        }
        assert forall|k: DefaultKey| #[trigger] hist(self.accepted@, k) == hist(self.completed@, k) + (if self.state@.contains_key(k) {
                self.state@[k].events
            } else {
                Seq::empty()
            }) by {
            assert(hist(prev.accepted@, k) == hist(prev.completed@, k) + (if prev.state@.contains_key(k) {
                prev.state@[k].events
            } else {
                Seq::empty()
            }));
            if k == key {
                let evs = prev.state@[key].events;
                assert(evs =~= seq![evs[0]]);
                assert(hist(self.accepted@, k) =~= hist(self.completed@, k) + Seq::empty());
            }
        }
    }

    proof fn lemma_activate_wf(self, mid: Sequencer)
        requires
            mid.waiting@.len() > 0,
            mid.active@.len() + 1 == mid.config.max_concurrent_keys,
            forall|j: int| 0 <= j < mid.active@.len() ==> #[trigger] mid.state@.contains_key(mid.active@[j].key)
                && mid.state@[mid.active@[j].key] == lane_state(mid.active@[j], true),
            forall|j: int| 0 <= j < mid.waiting@.len() ==> #[trigger] mid.state@.contains_key(mid.waiting@[j].key)
                && mid.state@[mid.waiting@[j].key] == lane_state(mid.waiting@[j], false),
            forall|k: DefaultKey| #[trigger] mid.state@.contains_key(k) ==> has_key(mid.active@, k) || has_key(mid.waiting@, k),
            keys_distinct(mid.active@),
            keys_distinct(mid.waiting@),
            forall|k: DefaultKey| #[trigger] mid.state@.contains_key(k) ==> 0 <= queued_len(mid.state@[k]) <= mid.config.per_key_backlog,
            forall|k: DefaultKey| #[trigger] hist(mid.accepted@, k) == hist(mid.completed@, k) + (if mid.state@.contains_key(k) {
                mid.state@[k].events
            } else {
                Seq::empty()
            }),
            self.config == mid.config,
            self.accepted@ == mid.accepted@,
            self.completed@ == mid.completed@,
            self.waiting@ == mid.waiting@.remove(0),
            self.active@ == mid.active@.push(mid.waiting@[0]),
            self.state@ == mid.state@.insert(
                mid.waiting@[0].key,
                KeyState { running: true, events: mid.state@[mid.waiting@[0].key].events },
            ),
        ensures
            self.wf(),
    {
        let w = mid.waiting@[0];
        assert(mid.state@.contains_key(mid.waiting@[0].key));
        assert(mid.state@[w.key] == lane_state(w, false));
        assert forall|j: int| 0 <= j < self.active@.len() implies #[trigger] self.state@.contains_key(self.active@[j].key)
            && self.state@[self.active@[j].key] == lane_state(self.active@[j], true) by {
            if j < mid.active@.len() {
                assert(self.active@[j] == mid.active@[j]);
                assert(mid.state@.contains_key(mid.active@[j].key));
                assert(mid.state@[mid.active@[j].key].running);
            }
        }
        assert forall|j: int| 0 <= j < self.waiting@.len() implies #[trigger] self.state@.contains_key(self.waiting@[j].key)
            && self.state@[self.waiting@[j].key] == lane_state(self.waiting@[j], false) by {
            assert(self.waiting@[j] == mid.waiting@[j + 1]);
            assert(mid.waiting@[j + 1].key != w.key);
        }
        assert forall|k: DefaultKey| #[trigger] self.state@.contains_key(k) implies has_key(self.active@, k) || has_key(self.waiting@, k) by {
            if k == w.key {
                lemma_has_key_push(mid.active@, w, k);
            } else if has_key(mid.active@, k) {
                lemma_has_key_push(mid.active@, w, k);
            } else {
                lemma_has_key_remove(mid.waiting@, 0, k);
            }
        }
        assert forall|a: int, b: int| 0 <= a < self.active@.len() && 0 <= b < self.active@.len() && a != b
            implies self.active@[a].key != self.active@[b].key by {
            if a < mid.active@.len() && b < mid.active@.len() {
            } else if a < mid.active@.len() {
                assert(mid.state@.contains_key(mid.active@[a].key));
                assert(mid.state@[mid.active@[a].key].running);
            } else {
                assert(mid.state@.contains_key(mid.active@[b].key));
                assert(mid.state@[mid.active@[b].key].running);
            }
        }
        assert forall|a: int, b: int| 0 <= a < self.waiting@.len() && 0 <= b < self.waiting@.len() && a != b
            implies self.waiting@[a].key != self.waiting@[b].key by {
            assert(self.waiting@[a] == mid.waiting@[a + 1]);
            assert(self.waiting@[b] == mid.waiting@[b + 1]);
        }
        assert forall|k: DefaultKey| #[trigger] hist(self.accepted@, k) == hist(self.completed@, k) + (if self.state@.contains_key(k) {
                self.state@[k].events
            } else {
                Seq::empty()
            }) by {
            assert(hist(mid.accepted@, k) == hist(mid.completed@, k) + (if mid.state@.contains_key(k) {
                mid.state@[k].events
            } else {
                Seq::empty()
            }));
        }
    }

    /// The keyed part of two states is the same.
    pub open spec fn same_keyed(self, other: Sequencer) -> bool {
        &&& self.cfg() == other.cfg()
        &&& self.keys() == other.keys()
        &&& self.active_count() == other.active_count()
        &&& self.pending_keys() == other.pending_keys()
        &&& forall|k: DefaultKey| #[trigger] self.accepted(k) == other.accepted(k)
        &&& forall|k: DefaultKey| #[trigger] self.completed(k) == other.completed(k)
    }

    /// Records an unkeyed event starting on the unordered path. It is refused
    /// only where the count of such events in flight cannot grow.
    pub fn start_unkeyed(&mut self) -> (r: bool)
        requires
            old(self).wf(),
        ensures
            final(self).wf(),
            final(self).same_keyed(*old(self)),
            r == (old(self).unkeyed_count() < usize::MAX),
            final(self).unkeyed_count() == old(self).unkeyed_count() + if r { 1int } else { 0int },
    {
        if self.unkeyed < usize::MAX {
            self.unkeyed = self.unkeyed + 1;
            true
        } else {
            false
        }
    }

    /// Records that an unkeyed event has finished; false where none was in flight.
    pub fn finish_unkeyed(&mut self) -> (r: bool)
        requires
            old(self).wf(),
        ensures
            final(self).wf(),
            final(self).same_keyed(*old(self)),
            r == (old(self).unkeyed_count() > 0),
            final(self).unkeyed_count() + if r { 1int } else { 0int } == old(self).unkeyed_count(),
    {
        if self.unkeyed > 0 {
            self.unkeyed = self.unkeyed - 1;
            true
        } else {
            false
        }
    }

    /// How many keys have a worker now.
    pub fn active_keys(&self) -> (r: usize)
        ensures
            r == self.active_count(),
    {
        self.active.len()
    }

    /// How many keys have work, running or waiting for a slot (saturated at
    /// the largest `usize`).
    pub fn keys_with_work(&self) -> (r: usize)
        requires
            self.wf(),
        ensures
            r == if self.keys().dom().len() <= usize::MAX {
                self.keys().dom().len() as int
            } else {
                usize::MAX as int
            },
    {
        proof {
            self.lemma_key_count();
        }
        self.active.len().saturating_add(self.waiting.len())
    }

    /// How many unkeyed events are in flight.
    pub fn unkeyed_in_flight(&self) -> (r: usize)
        ensures
            r == self.unkeyed_count(),
    {
        self.unkeyed
    }

    /// Whether nothing is in flight or waiting.
    pub fn is_drained(&self) -> (r: bool)
        requires
            self.wf(),
        ensures
            r == self.drained(),
    {
        proof {
            self.lemma_key_count();
            if self.active@.len() + self.waiting@.len() == 0 {
                assert(self.state@.dom() =~= Set::<DefaultKey>::empty());
            }
        }
        self.active.len() == 0 && self.waiting.len() == 0 && self.unkeyed == 0
    }

    proof fn lemma_key_count(self)
        requires
            self.wf(),
        ensures
            self.state@.dom().len() == self.active@.len() + self.waiting@.len(),
            self.state@.dom().finite(),
    {
        let lanes = self.active@ + self.waiting@;
        let ks = lanes.map_values(|l: Lane| l.key);
        assert forall|a: int, b: int| 0 <= a < ks.len() && 0 <= b < ks.len() && a != b implies ks[a] != ks[b] by {
            if a < self.active@.len() && b >= self.active@.len() {
                assert(self.state@.contains_key(self.active@[a].key));
                assert(self.state@.contains_key(self.waiting@[b - self.active@.len()].key));
            } else if b < self.active@.len() && a >= self.active@.len() {
                assert(self.state@.contains_key(self.active@[b].key));
                assert(self.state@.contains_key(self.waiting@[a - self.active@.len()].key));
            }
        }
        assert(ks.no_duplicates());
        assert forall|k: DefaultKey| #[trigger] self.state@.dom().contains(k) <==> ks.contains(k) by {
            if self.state@.contains_key(k) {
                if has_key(self.active@, k) {
                    let j = choose|j: int| 0 <= j < self.active@.len() && #[trigger] self.active@[j].key == k;
                    assert(ks[j] == k);
                } else {
                    let j = choose|j: int| 0 <= j < self.waiting@.len() && #[trigger] self.waiting@[j].key == k;
                    assert(ks[self.active@.len() + j] == k);
                }
            }
            if ks.contains(k) {
                let j = choose|j: int| 0 <= j < ks.len() && ks[j] == k;
                if j < self.active@.len() {
                    assert(self.state@.contains_key(self.active@[j].key));
                } else {
                    assert(self.state@.contains_key(self.waiting@[j - self.active@.len()].key));
                }
            }
        }
        assert(self.state@.dom() =~= ks.to_set());
        ks.unique_seq_to_set();
    }

    /// Per-key order: the handlers of a key start in arrival order, and at
    /// most one of them has started without finishing. The finished and the
    /// started events of a key are each a prefix of its accepted events.
    pub proof fn lemma_per_key_order(self, k: DefaultKey)
        requires
            self.wf(),
        ensures
            self.started(k).len() <= self.completed(k).len() + 1,
            self.completed(k).len() <= self.started(k).len(),
            self.started(k).len() <= self.accepted(k).len(),
            self.accepted(k).subrange(0, self.completed(k).len() as int) == self.completed(k),
            self.accepted(k).subrange(0, self.started(k).len() as int) == self.started(k),
    {
        let evs = if self.state@.contains_key(k) {
            self.state@[k].events
        } else {
            Seq::empty()
        };
        assert(hist(self.accepted@, k) == hist(self.completed@, k) + evs);
        if self.state@.contains_key(k) {
            if has_key(self.active@, k) {
                let j = choose|j: int| 0 <= j < self.active@.len() && #[trigger] self.active@[j].key == k;
                assert(self.state@.contains_key(self.active@[j].key));
            } else {
                let j = choose|j: int| 0 <= j < self.waiting@.len() && #[trigger] self.waiting@[j].key == k;
                assert(self.state@.contains_key(self.waiting@[j].key));
            }
        }
        assert(self.accepted(k).subrange(0, self.completed(k).len() as int) =~= self.completed(k));
        assert(self.accepted(k).subrange(0, self.started(k).len() as int) =~= self.started(k));
    }

    /// Keys do not wait on each other: an event of a key with no work starts
    /// at once wherever a slot is free, whatever any other key is doing.
    pub proof fn lemma_isolation(self, busy: DefaultKey, idle: DefaultKey)
        requires
            self.wf(),
            busy != idle,
            !self.keys().contains_key(idle),
            self.active_count() < self.cfg().max_concurrent_keys,
        ensures
            self.admission(idle) == Admission::Started,
            self.in_flight(busy) is Some ==> self.in_flight(idle) is None,
    {
    }

    /// The concurrency ceiling: never more keys with a worker than configured.
    pub proof fn lemma_concurrency_ceiling(self)
        requires
            self.wf(),
        ensures
            self.active_count() <= self.cfg().max_concurrent_keys,
    {
    }

    /// A drained sequencer has no worker left and has finished every event it
    /// accepted.
    pub proof fn lemma_drained_all_processed(self)
        requires
            self.wf(),
            self.drained(),
        ensures
            self.active_count() == 0,
            self.pending_keys().len() == 0,
            forall|k: DefaultKey| #[trigger] self.accepted(k) == self.completed(k),
            forall|k: DefaultKey| #[trigger] self.in_flight(k) is None,
    {
        self.lemma_key_count();
        assert forall|k: DefaultKey| #[trigger] self.accepted(k) == self.completed(k) by {
            assert(!self.state@.dom().contains(k));
            assert(hist(self.accepted@, k) == hist(self.completed@, k) + Seq::<Update>::empty());
            assert(hist(self.completed@, k) + Seq::<Update>::empty() =~= hist(self.completed@, k));
        }
        assert forall|k: DefaultKey| #[trigger] self.in_flight(k) is None by {
            assert(!self.state@.dom().contains(k));
        }
    }
}

} // verus!
