//! The observer contract: the unit of dispatch, and the directive it hands
//! back to the loop after each reaction.

use vstd::prelude::*;
use crate::poller::ReadyEntry;

verus! {

/// Errors surfaced by the event loop.
pub enum LoopError {
    /// An OS-level failure from the poller, or an observer's own failure.
    IOError(std::io::Error),
    /// A ready event referenced a token with no registered observer: the
    /// registry and the poller have fallen out of step. This is a fatal
    /// invariant violation, not a recoverable condition.
    UnknownToken(usize),
}

/// Directive returned by one observer reaction.
pub enum ObserverResult<O> {
    /// No registry change.
    Nothing,
    /// Deregister the observer that produced this directive.
    Unsubscribe,
    /// Stop the loop once the current batch is finished; the status is
    /// carried for the loop's caller to interpret.
    Terminate { status: i32 },
    /// Register each given observer, in order, before the next ready entry
    /// is served; the newcomers only become eligible for dispatch from the
    /// next wait cycle on.
    SubscribeNew(Vec<O>),
}

/// The unit of dispatch: owns one descriptor and reacts to its readiness.
pub trait EventObserver: Sized {
    /// Reacts to one ready entry; the returned directive tells the loop
    /// what to do with the registry. A failure is fatal to the whole run.
    fn on_event(&mut self, event: &ReadyEntry) -> Result<ObserverResult<Self>, LoopError>;

    /// The descriptor readable interest is installed for; used only for
    /// registration and deregistration.
    fn get_source_fd(&self) -> i32;
}

} // verus!
