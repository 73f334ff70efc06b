//! The dispatch loop's decisions. The loop itself pulls events, runs handlers
//! and waits; each time something happens it hands the event to the
//! dispatcher, which says what to do next.
use vstd::prelude::*;
use crate::distribution::{default_distribution_function, key_of, DefaultKey, Update};
use crate::pipeline::{Outcome, OutcomeView};
use crate::sequencer::{Admission, Completion, Config, KeyState, Sequencer};
use crate::shutdown::{ShutdownReport, ShutdownState, ShutdownToken};

verus! {

/// The errors the dispatcher reports.
#[derive(Clone, Copy, Debug, PartialEq, Eq, Structural)]
pub enum DispatchError {
    /// An endpoint's action failed; the key's later events go on.
    HandlerFailure { endpoint: u32, code: u32 },
    /// A key's backlog was full and the event was refused.
    BacklogOverflow(DefaultKey),
    /// The event source failed to yield an event.
    SourceError(u32),
    /// The drain did not finish in time; this many keys still held work.
    ShutdownTimeout(usize),
}

/// What the loop does with an event it pulled.
#[derive(Clone, Copy, Debug, PartialEq, Eq, Structural)]
pub enum Intake {
    /// Run the pipeline on the event now, on the worker of this key.
    Run(DefaultKey, Update),
    /// Run the pipeline on the event now, on the unordered path.
    RunUnkeyed(Update),
    /// The event waits its turn; a later completion hands it out.
    Accepted,
    /// The event was refused: report the error to the hook and go on.
    Refused(DispatchError),
    /// Offer the same event again after some work has finished.
    Retry(Update),
    /// Intake has stopped: the event is not taken.
    Closed,
}

/// An event to run on the worker of its key.
#[derive(Clone, Copy, Debug, PartialEq, Eq, Structural)]
pub struct Job {
    pub key: DefaultKey,
    pub event: Update,
}

/// What the loop does after a handler has finished.
#[derive(Clone, Copy, Debug, PartialEq, Eq, Structural)]
pub struct Finished {
    /// The failure to report to the error hook, if the handler failed.
    pub error: Option<DispatchError>,
    /// The next event to run, and the key whose worker runs it.
    pub next: Option<Job>,
}

/// The error a handler's outcome reports, if any.
pub open spec fn outcome_error(o: OutcomeView) -> Option<DispatchError> {
    match o {
        OutcomeView::Failed(endpoint, _, code) => Some(DispatchError::HandlerFailure { endpoint, code }),
        _ => None,
    }
}

/// The job that a completion of `key` hands out, if any.
pub open spec fn job_of(key: DefaultKey, c: Completion) -> Option<Job> {
    match c {
        Completion::Continue(e) => Some(Job { key, event: e }),
        Completion::Activated(w, e) => Some(Job { key: w, event: e }),
        _ => None,
    }
}

/// The dispatcher: the sequencer and the shutdown token, in one value that
/// the loop owns.
pub struct Dispatcher {
    seq: Sequencer,
    token: ShutdownToken,
}

impl Dispatcher {
    /// The per-key sequencer the dispatcher drives.
    pub closed spec fn sequencer(self) -> Sequencer {
        self.seq
    }

    /// The state of the dispatcher's shutdown token.
    pub closed spec fn token(self) -> ShutdownState {
        self.token@
    }

    /// The dispatcher's invariant: its sequencer's.
    pub open spec fn wf(self) -> bool {
        self.sequencer().wf()
    }

    /// A running dispatcher with nothing in flight.
    pub fn new(config: Config) -> (r: Dispatcher)
        ensures
            r.wf(),
            r.token() == ShutdownState::Running,
            r.sequencer().cfg() == config,
            r.sequencer().drained(),
            r.sequencer().keys() == Map::<DefaultKey, KeyState>::empty(),
            r.sequencer().active_count() == 0,
            r.sequencer().pending_keys() == Seq::<DefaultKey>::empty(),
            forall|k: DefaultKey| #[trigger] r.sequencer().accepted(k) == Seq::<Update>::empty(),
            forall|k: DefaultKey| #[trigger] r.sequencer().completed(k) == Seq::<Update>::empty(),
    {
        let seq = Sequencer::new(config);
        proof {
            assert(seq.keys().dom() =~= Set::<DefaultKey>::empty());
        }
        Dispatcher { seq, token: ShutdownToken::new() }
    }

    /// The state of the shutdown token.
    pub fn shutdown_state(&self) -> (r: ShutdownState)
        ensures
            r == self.token(),
    {
        self.token.state()
    }

    /// How many keys have a worker now.
    pub fn active_workers(&self) -> (r: usize)
        ensures
            r == self.sequencer().active_count(),
    {
        self.seq.active_keys()
    }

    /// Routes a pulled event: keyed events go through the sequencer, events
    /// of no key start at once on the unordered path, and nothing is taken
    /// once shutdown has been asked for.
    pub fn dispatch(&mut self, ev: Update) -> (r: Intake)
        requires
            old(self).wf(),
        ensures
            final(self).wf(),
            final(self).token() == old(self).token(),
            old(self).token() != ShutdownState::Running ==> r == Intake::Closed
                && final(self).sequencer() == old(self).sequencer(),
            old(self).token() == ShutdownState::Running ==> match key_of(ev) {
                None => {
                    &&& final(self).sequencer().same_keyed(old(self).sequencer())
                    &&& old(self).sequencer().unkeyed_count() < usize::MAX ==> r == Intake::RunUnkeyed(ev)
                        && final(self).sequencer().unkeyed_count() == old(self).sequencer().unkeyed_count() + 1
                    &&& old(self).sequencer().unkeyed_count() == usize::MAX ==> r == Intake::Retry(ev)
                        && final(self).sequencer().unkeyed_count() == old(self).sequencer().unkeyed_count()
                },
                Some(k) => {
                    &&& old(self).sequencer().enqueues_to(final(self).sequencer(), k, ev)
                    &&& r == match old(self).sequencer().admission(k) {
                        Admission::Started => Intake::Run(k, ev),
                        Admission::Queued => Intake::Accepted,
                        Admission::Deferred => Intake::Accepted,
                        Admission::Rejected => Intake::Refused(DispatchError::BacklogOverflow(k)),
                        Admission::Blocked => Intake::Retry(ev),
                    }
                },
            },
    {
        if !self.token.is_running() {
            return Intake::Closed;
        }
        match default_distribution_function(&ev) {
            None => {
                if self.seq.start_unkeyed() {
                    Intake::RunUnkeyed(ev)
                } else {
                    Intake::Retry(ev)
                }
            },
            Some(k) => {
                match self.seq.enqueue(k, ev) {
                    Admission::Started => Intake::Run(k, ev),
                    Admission::Queued => Intake::Accepted,
                    Admission::Deferred => Intake::Accepted,
                    Admission::Rejected => Intake::Refused(DispatchError::BacklogOverflow(k)),
                    Admission::Blocked => Intake::Retry(ev),
                }
            },
        }
    }

    /// Takes the outcome of a handler run for `key` (none for the unordered
    /// path): a failure goes to the error hook, and the key's next event, or
    /// the first waiting key's, is handed out.
    pub fn handler_done(&mut self, key: Option<DefaultKey>, outcome: &Outcome) -> (r: Finished)
        requires
            old(self).wf(),
        ensures
            final(self).wf(),
            final(self).token() == old(self).token(),
            r.error == outcome_error(outcome@),
            match key {
                None => {
                    &&& r.next is None
                    &&& final(self).sequencer().same_keyed(old(self).sequencer())
                    &&& final(self).sequencer().unkeyed_count() == if old(self).sequencer().unkeyed_count() > 0 {
                        old(self).sequencer().unkeyed_count() - 1
                    } else {
                        0
                    }
                },
                Some(k) => {
                    &&& old(self).sequencer().completes_to(final(self).sequencer(), k)
                    &&& r.next == job_of(k, old(self).sequencer().completion(k))
                },
            },
    {
        let error = match outcome {
            Outcome::Failed(inv, code) => Some(DispatchError::HandlerFailure { endpoint: inv.endpoint, code: *code }),
            _ => None,
        };
        let next = match key {
            None => {
                let _ = self.seq.finish_unkeyed();
                None
            },
            Some(k) => match self.seq.complete(k) {
                Completion::Continue(e) => Some(Job { key: k, event: e }),
                Completion::Activated(w, e) => Some(Job { key: w, event: e }),
                Completion::Idle => None,
                Completion::NotRunning => None,
            },
        };
        Finished { error, next }
    }

    /// Asks for shutdown: intake stops; work already taken goes on.
    pub fn shutdown(&mut self)
        requires
            old(self).wf(),
        ensures
            final(self).wf(),
            final(self).sequencer() == old(self).sequencer(),
            final(self).token() == if old(self).token() == ShutdownState::Running {
                ShutdownState::ShuttingDown
            } else {
                old(self).token()
            },
    {
        self.token.request();
    }

    /// The event source failed: intake stops, and the error goes to the caller.
    pub fn source_failed(&mut self, code: u32) -> (r: DispatchError)
        requires
            old(self).wf(),
        ensures
            final(self).wf(),
            r == DispatchError::SourceError(code),
            final(self).sequencer() == old(self).sequencer(),
            final(self).token() != ShutdownState::Running,
    {
        self.token.request();
        DispatchError::SourceError(code)
    }

    /// One look at the drain during shutdown. Where nothing is in flight or
    /// waiting, the shutdown ends clean; where the deadline has passed, it
    /// ends forced, with the number of keys still holding work; otherwise
    /// the drain goes on and nothing is reported.
    pub fn poll_shutdown(&mut self, timed_out: bool) -> (r: Option<ShutdownReport>)
        requires
            old(self).wf(),
        ensures
            final(self).wf(),
            final(self).sequencer() == old(self).sequencer(),
            old(self).sequencer().drained() ==> r == Some(ShutdownReport::CleanShutdown),
            !old(self).sequencer().drained() && timed_out ==> r == Some(
                ShutdownReport::ForcedShutdown(
                    if old(self).sequencer().keys().dom().len() <= usize::MAX {
                        old(self).sequencer().keys().dom().len() as usize
                    } else {
                        usize::MAX
                    },
                ),
            ),
            !old(self).sequencer().drained() && !timed_out ==> r is None,
            r is Some ==> final(self).token() == ShutdownState::Stopped,
            r is None ==> final(self).token() == if old(self).token() == ShutdownState::Running {
                ShutdownState::ShuttingDown
            } else {
                old(self).token()
            },
            r == Some(ShutdownReport::CleanShutdown) ==> final(self).sequencer().drained(),
    {
        self.token.request();
        if self.seq.is_drained() {
            self.token.stop();
            Some(ShutdownReport::CleanShutdown)
        } else if timed_out {
            self.token.stop();
            Some(ShutdownReport::ForcedShutdown(self.seq.keys_with_work()))
        } else {
            None
        }
    }
}

/// A shutdown reported clean leaves no worker active and every accepted
/// event of every key handled.
pub proof fn lemma_clean_shutdown(d: Dispatcher)
    requires
        d.wf(),
        d.sequencer().drained(),
    ensures
        d.sequencer().active_count() == 0,
        forall|k: DefaultKey| #[trigger] d.sequencer().accepted(k) == d.sequencer().completed(k),
{
    d.sequencer().lemma_drained_all_processed();
}

} // verus!
