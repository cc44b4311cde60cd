//! Thin ownership wrapper over the OS readiness-multiplexing resource.
//!
//! The poller owns the OS polling handle and a reusable event buffer. Its
//! effect on the OS is modelled by a ghost set: the descriptors whose
//! readable interest this poller has installed and not yet successfully
//! removed. The trusted methods keep that set in step with the calls they
//! make. (The kernel may drop a registration on its own when a registered
//! descriptor is closed elsewhere; the set tracks this poller's calls, not
//! that.)

use vstd::prelude::*;

verus! {

/// How many ready events one wait call can hand back at once.
const EVENTS_CAPACITY: usize = 1024;

#[verifier::external_type_specification]
#[verifier::external_body]
pub struct ExPoll(mio::Poll);

#[verifier::external_type_specification]
#[verifier::external_body]
pub struct ExEvents(mio::Events);

#[verifier::external_type_specification]
#[verifier::external_body]
pub struct ExIoError(std::io::Error);

/// One readiness notification: the token under which the source was
/// registered, and whether the source reported itself readable.
#[derive(Clone, Copy)]
pub struct ReadyEntry {
    pub token: usize,
    pub readable: bool,
}

/// Outcome of one blocking wait: a batch of ready entries, a recoverable
/// signal interruption, or a fatal OS error.
pub enum WaitOutcome {
    Ready(Vec<ReadyEntry>),
    Interrupted,
    Fatal(std::io::Error),
}

/// Owner of the OS-level readiness-polling resource.
pub(crate) struct Poller {
    poll: mio::Poll,
    events: mio::Events,
    /// Ghost model of the descriptors whose readable interest this
    /// poller has installed and not yet successfully removed.
    pub(crate) interests: Ghost<Set<int>>,
}

/// Relies on mio::Poll::new: allocates the OS polling resource.
#[verifier::external_body]
fn mio_poll_new() -> (r: Result<mio::Poll, std::io::Error>) {
    mio::Poll::new()
}

/// Relies on mio::Events::with_capacity: a fresh, empty event buffer.
#[verifier::external_body]
fn mio_events_with_capacity(capacity: usize) -> (r: mio::Events) {
    mio::Events::with_capacity(capacity)
}

impl Poller {
    /// The descriptors whose readable interest this poller has installed
    /// and not yet successfully removed.
    pub(crate) closed spec fn interest_set(self) -> Set<int> {
        self.interests@
    }

    /// Creates a poller with no interests installed.
    pub(crate) fn new() -> (r: Result<Poller, std::io::Error>)
        ensures
            r matches Ok(p) ==> p.interest_set() == Set::<int>::empty(),
    {
        match mio_poll_new() {
            Ok(poll) => Ok(Poller {
                poll,
                events: mio_events_with_capacity(EVENTS_CAPACITY),
                interests: Ghost(Set::empty()),
            }),
            Err(e) => Err(e),
        }
    }

    /// Relies on mio::Registry::register over a SourceFd: installs readable
    /// interest for the descriptor under the given token; on an OS
    /// rejection nothing is installed.
    #[verifier::external_body]
    pub(crate) fn register(&mut self, fd: i32, token: usize) -> (r: Result<(), std::io::Error>)
        ensures
            r is Ok ==> final(self).interest_set() == old(self).interest_set().insert(fd as int),
            r is Err ==> final(self).interest_set() == old(self).interest_set(),
    {
        self.poll.registry().register(
            &mut mio::unix::SourceFd(&fd),
            mio::Token(token),
            mio::Interest::READABLE,
        )
    }

    /// Relies on mio::Registry::deregister over a SourceFd: removes the
    /// descriptor's interest; on an OS rejection nothing is removed.
    #[verifier::external_body]
    pub(crate) fn deregister(&mut self, fd: i32) -> (r: Result<(), std::io::Error>)
        ensures
            r is Ok ==> final(self).interest_set() == old(self).interest_set().remove(fd as int),
            r is Err ==> final(self).interest_set() == old(self).interest_set(),
    {
        self.poll.registry().deregister(&mut mio::unix::SourceFd(&fd))
    }

    /// Relies on mio::Poll::poll with an unbounded timeout: blocks until at
    /// least one registered descriptor is ready, then hands back one entry
    /// per ready event. A signal interruption comes back as `Interrupted`,
    /// any other failure as `Fatal`. Which entries come back, and in what
    /// order, the OS decides: nothing is promised of them.
    #[verifier::external_body]
    pub(crate) fn wait(&mut self) -> (r: WaitOutcome)
        ensures
            final(self).interest_set() == old(self).interest_set(),
    {
        match self.poll.poll(&mut self.events, None) {
            Ok(()) => {
                let mut batch = Vec::new();
                for ev in self.events.iter() {
                    batch.push(ReadyEntry { token: ev.token().0, readable: ev.is_readable() });
                }
                WaitOutcome::Ready(batch)
            }
            Err(e) if e.kind() == std::io::ErrorKind::Interrupted => WaitOutcome::Interrupted,
            Err(e) => WaitOutcome::Fatal(e),
        }
    }
}

} // verus!
