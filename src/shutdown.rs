//! The shutdown token: a one-way lifecycle shared by the dispatch loop, which
//! stops intake when it leaves `Running`, and by handlers, which may poll it to
//! give up long work early.
use vstd::prelude::*;

verus! {

/// The lifecycle of a dispatcher.
#[derive(Clone, Copy, Debug, PartialEq, Eq, Structural)]
pub enum ShutdownState {
    Running,
    ShuttingDown,
    Stopped,
}

/// How far along its lifecycle a state is.
pub open spec fn stage(s: ShutdownState) -> nat {
    match s {
        ShutdownState::Running => 0,
        ShutdownState::ShuttingDown => 1,
        ShutdownState::Stopped => 2,
    }
}

/// How a shutdown ended.
#[derive(Clone, Copy, Debug, PartialEq, Eq, Structural)]
pub enum ShutdownReport {
    /// Every event in flight or waiting was handled before the deadline.
    CleanShutdown,
    /// The deadline passed with this many keys still holding work.
    ForcedShutdown(usize),
}

/// A shutdown token. Its state only moves forward.
#[derive(Clone, Copy, Debug, PartialEq, Eq, Structural)]
pub struct ShutdownToken {
    state: ShutdownState,
}

impl View for ShutdownToken {
    type V = ShutdownState;

    closed spec fn view(&self) -> ShutdownState {
        self.state
    }
}

impl ShutdownToken {
    /// A token in the `Running` state.
    pub fn new() -> (r: ShutdownToken)
        ensures
            r@ == ShutdownState::Running,
    {
        ShutdownToken { state: ShutdownState::Running }
    }

    /// The current state.
    pub fn state(&self) -> (r: ShutdownState)
        ensures
            r == self@,
    {
        self.state
    }

    /// Whether intake may go on.
    pub fn is_running(&self) -> (r: bool)
        ensures
            r == (self@ == ShutdownState::Running),
    {
        match self.state {
            ShutdownState::Running => true,
            _ => false,
        }
    }

    /// Asks for shutdown: a running token starts shutting down; any other
    /// is left as it is, so asking twice is asking once.
    pub fn request(&mut self)
        ensures
            final(self)@ == if old(self)@ == ShutdownState::Running {
                ShutdownState::ShuttingDown
            } else {
                old(self)@
            },
            stage(old(self)@) <= stage(final(self)@),
    {
        if self.is_running() {
            self.state = ShutdownState::ShuttingDown;
        }
    }

    /// Marks the shutdown as finished.
    pub fn stop(&mut self)
        requires
            old(self)@ != ShutdownState::Running,
        ensures
            final(self)@ == ShutdownState::Stopped,
            stage(old(self)@) <= stage(final(self)@),
    {
        self.state = ShutdownState::Stopped;
    }
}

} // verus!
