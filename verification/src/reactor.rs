//! The registrar and the event loop: token allocation, the token table,
//! and the wait / dispatch / react cycle.

use vstd::prelude::*;
use crate::observer::{EventObserver, LoopError, ObserverResult};
use crate::poller::{Poller, ReadyEntry, WaitOutcome};

verus! {

/// One registry slot: the observer together with the descriptor that was
/// installed with the poller when the observer was registered.
struct Registration<O> {
    fd: i32,
    observer: O,
}

/// Owner of the token counter, the token table and the running flag.
///
/// Tokens are allocated strictly in increasing order starting at 0 and are
/// never reused: the table keeps one slot per token ever allocated, and a
/// deregistered token's slot stays behind, empty.
pub struct EventLoopRegistrar<O: EventObserver> {
    poller: Poller,
    running: bool,
    handlers: Vec<Option<Registration<O>>>,
    last_token: usize,
}

impl<O: EventObserver> EventLoopRegistrar<O> {
    /// Every token ever allocated has a slot: the token counter equals the
    /// table's length.
    pub closed spec fn wf(self) -> bool {
        self.handlers@.len() == self.last_token
    }

    /// The token the next registration will receive.
    pub closed spec fn next_token(self) -> int {
        self.last_token as int
    }

    /// Whether the loop is still willing to start another wait cycle.
    pub closed spec fn is_running(self) -> bool {
        self.running
    }

    /// The descriptors that currently have readable interest installed.
    pub closed spec fn interests(self) -> Set<int> {
        self.poller.interest_set()
    }

    /// Whether an observer is currently registered under token `t`.
    pub closed spec fn token_in_use(self, t: int) -> bool {
        0 <= t < self.handlers@.len() && self.handlers@[t] is Some
    }

    /// The observer registered under token `t`.
    pub closed spec fn observer_at(self, t: int) -> O
        recommends
            self.token_in_use(t),
    {
        self.handlers@[t]->Some_0.observer
    }

    /// The descriptor recorded for token `t` at registration.
    pub closed spec fn fd_at(self, t: int) -> int
        recommends
            self.token_in_use(t),
    {
        self.handlers@[t]->Some_0.fd as int
    }

    /// Clears the running flag. Nothing is deregistered: the loop simply
    /// stops dispatching once the current batch is finished.
    pub fn stop(&mut self)
        ensures
            !final(self).is_running(),
            final(self).wf() == old(self).wf(),
            final(self).interests() == old(self).interests(),
            same_table(*old(self), *final(self)),
    {
        self.running = false;
    }

    /// Removes the observer registered under `token`: uninstalls interest
    /// for the descriptor recorded at registration, then drops the table
    /// entry, releasing the observer's resources. On an OS failure the
    /// entry stays and nothing changes.
    pub fn deregister(&mut self, token: usize) -> (r: Result<(), LoopError>)
        requires
            old(self).wf(),
            old(self).token_in_use(token as int),
        ensures
            final(self).wf(),
            final(self).next_token() == old(self).next_token(),
            final(self).is_running() == old(self).is_running(),
            r is Ok ==> {
                &&& !final(self).token_in_use(token as int)
                &&& final(self).interests() == old(self).interests().remove(
                    old(self).fd_at(token as int),
                )
                &&& forall|t: int|
                    t != token as int ==> #[trigger] final(self).token_in_use(t)
                        == old(self).token_in_use(t)
                &&& forall|t: int|
                    t != token as int && old(self).token_in_use(t) ==> (
                    #[trigger] final(self).observer_at(t)) == old(self).observer_at(t)
                        && final(self).fd_at(t) == old(self).fd_at(t)
            },
            r matches Err(e) ==> {
                &&& e matches LoopError::IOError(_)
                &&& same_table(*old(self), *final(self))
                &&& final(self).interests() == old(self).interests()
            },
    {
        let slot: &Option<Registration<O>> = &self.handlers[token];
        let fd: i32 = slot.as_ref().unwrap().fd;
        match self.poller.deregister(fd) {
            Ok(()) => {
                self.handlers[token] = None;
                Ok(())
            },
            Err(e) => Err(LoopError::IOError(e)),
        }
    }

    /// Applies one directive, produced by the observer registered under
    /// `token`, to the registry: `Nothing` changes nothing, `Unsubscribe`
    /// deregisters that observer, `Terminate` clears the running flag and
    /// nothing else, and `SubscribeNew` registers the given observers in
    /// list order under consecutive fresh tokens. Whatever the directive,
    /// no other observer is touched, and no installed interest is removed
    /// but the deregistered observer's own.
    #[verifier::loop_isolation(false)]
    pub fn apply_directive(&mut self, token: usize, directive: ObserverResult<O>) -> (r: Result<
        (),
        LoopError,
    >)
        requires
            old(self).wf(),
            old(self).token_in_use(token as int),
        ensures
            final(self).wf(),
            final(self).next_token() >= old(self).next_token(),
            final(self).is_running() ==> old(self).is_running(),
            forall|t: int|
                t != token as int && t < old(self).next_token() ==> #[trigger] final(self).token_in_use(t) == old(self).token_in_use(t),
            forall|t: int|
                t != token as int && old(self).token_in_use(t) ==> (#[trigger] final(self).observer_at(t)) == old(self).observer_at(t) && final(self).fd_at(t) == old(self).fd_at(t),
            final(self).token_in_use(token as int) ==> final(self).observer_at(token as int)
                == old(self).observer_at(token as int) && final(self).fd_at(token as int) == old(self).fd_at(token as int),
            forall|d: int|
                old(self).interests().contains(d) && !final(self).interests().contains(d) ==> d
                    == old(self).fd_at(token as int),
            directive is Nothing ==> r is Ok && same_registry_view(*old(self), *final(self)),
            directive is Unsubscribe && r is Ok ==> {
                &&& !final(self).token_in_use(token as int)
                &&& final(self).interests() == old(self).interests().remove(
                    old(self).fd_at(token as int),
                )
                &&& final(self).next_token() == old(self).next_token()
                &&& final(self).is_running() == old(self).is_running()
            },
            directive is Unsubscribe && r is Err ==> same_registry_view(*old(self), *final(self)),
            directive matches ObserverResult::Terminate { status: _ } ==> r is Ok && !final(self).is_running() && same_table(*old(self), *final(self)) && final(self).interests()
                == old(self).interests(),
            directive matches ObserverResult::SubscribeNew(list) ==> {
                &&& final(self).token_in_use(token as int)
                &&& final(self).is_running() == old(self).is_running()
                &&& forall|d: int|
                    old(self).interests().contains(d) ==> #[trigger] final(self).interests().contains(d)
                &&& r is Ok ==> final(self).next_token() == old(self).next_token() + list@.len()
                    && forall|i: int|
                    0 <= i < list@.len() ==> final(self).token_in_use(
                        old(self).next_token() + i,
                    ) && final(self).observer_at(old(self).next_token() + i) == list@[i]
            },
            r matches Err(e) ==> e matches LoopError::IOError(_),
    {
        match directive {
            ObserverResult::Nothing => Ok(()),
            ObserverResult::Unsubscribe => self.deregister(token),
            ObserverResult::Terminate { status: _ } => {
                self.stop();
                Ok(())
            },
            ObserverResult::SubscribeNew(mut newcomers) => {
                let ghost list0 = newcomers@;
                while newcomers.len() > 0
                    invariant
                        self.wf(),
                        newcomers@.len() <= list0.len(),
                        newcomers@ == list0.subrange(
                            list0.len() - newcomers@.len(),
                            list0.len() as int,
                        ),
                        self.next_token() == old(self).next_token() + list0.len()
                            - newcomers@.len(),
                        forall|i: int|
                            0 <= i < list0.len() - newcomers@.len() ==> #[trigger] self
                                .token_in_use(old(self).next_token() + i) && self.observer_at(
                                old(self).next_token() + i,
                            ) == list0[i],
                        self.is_running() == old(self).is_running(),
                        forall|t: int|
                            t < old(self).next_token() ==> #[trigger] self.token_in_use(t) == old(self).token_in_use(t),
                        forall|t: int|
                            old(self).token_in_use(t) ==> (#[trigger] self.observer_at(t)) == old(self).observer_at(t) && self.fd_at(t) == old(self).fd_at(t),
                        forall|d: int|
                            old(self).interests().contains(d) ==> #[trigger] self
                                .interests().contains(d),
                    decreases newcomers@.len(),
                {
                    let obs = newcomers.remove(0);
                    let ghost before_reg = *self;
                    match EventLoop::do_register_observer(self, obs) {
                        Ok(_) => {
                            proof {
                                assert forall|t: int| old(self).token_in_use(t) implies (self
                                    .observer_at(t)) == old(self).observer_at(t) && self.fd_at(t)
                                    == old(self).fd_at(t) && self.token_in_use(t) by {
                                    assert(before_reg.token_in_use(t));
                                    assert(before_reg.observer_at(t) == old(self).observer_at(t));
                                    assert(t < old(self).next_token());
                                    assert(t != before_reg.next_token());
                                }
                            }
                        },
                        Err(e) => {
                            proof {
                                assert forall|t: int| old(self).token_in_use(t) implies (self
                                    .observer_at(t)) == old(self).observer_at(t) && self.fd_at(t)
                                    == old(self).fd_at(t) && self.token_in_use(t) by {
                                    assert(before_reg.token_in_use(t));
                                    assert(before_reg.observer_at(t) == old(self).observer_at(t));
                                    assert(t < old(self).next_token());
                                    assert(t != before_reg.next_token());
                                }
                            }
                            return Err(e);
                        },
                    }
                }
                Ok(())
            },
        }
    }

    /// Serves one batch of ready entries in order: looks each entry's
    /// observer up by token, invokes its reaction, and applies the returned
    /// directive before moving to the next entry. An entry whose token has
    /// no observer is a fatal invariant violation: the batch is abandoned
    /// with `UnknownToken`, never silently skipped. An error from an
    /// observer or from the poller is fatal too. The ghost half of the
    /// result is the trace of tokens that received a react call.
    #[verifier::loop_isolation(false)]
    pub fn dispatch_batch(&mut self, entries: &Vec<ReadyEntry>) -> (r: (
        Result<(), LoopError>,
        Ghost<Seq<int>>,
    ))
        requires
            old(self).wf(),
        ensures
            dispatch_post(*old(self), *final(self), entries@, r.0 is Ok, r.1@),
            entries@.len() == 0 ==> r.0 is Ok && same_registry_view(*old(self), *final(self)),
            entries@.len() > 0 && !old(self).token_in_use(entries@[0].token as int) ==> r.0
                == Err::<(), LoopError>(LoopError::UnknownToken(entries@[0].token)) && r.1@.len()
                == 0 && same_registry_view(*old(self), *final(self)),
            entries@.len() > 0 && old(self).token_in_use(entries@[0].token as int) ==> r.1@.len()
                >= 1,
    {
        let ghost mut trace: Seq<int> = Seq::empty();
        let mut i: usize = 0;
        while i < entries.len()
            invariant
                self.wf(),
                i <= entries@.len(),
                i == 0 ==> *self == *old(self),
                i >= 1 ==> old(self).token_in_use(entries@[0].token as int),
                trace.len() == i,
                forall|k: int| 0 <= k < i ==> #[trigger] trace[k] == entries@[k].token as int,
                forall|k: int|
                    0 <= k < i ==> old(self).token_in_use(#[trigger] trace[k]) || trace[k]
                        >= old(self).next_token(),
                self.next_token() >= old(self).next_token(),
                self.is_running() ==> old(self).is_running(),
                forall|t: int|
                    t < old(self).next_token() && !old(self).token_in_use(t) ==> !(
                    #[trigger] self.token_in_use(t)),
                forall|t: int|
                    #[trigger] old(self).token_in_use(t) && !served(trace, t) ==> self
                        .token_in_use(t) && self.observer_at(t) == old(self).observer_at(t)
                        && self.fd_at(t) == old(self).fd_at(t),
                forall|t: int|
                    old(self).token_in_use(t) && self.token_in_use(t) ==> #[trigger] self.fd_at(t)
                        == old(self).fd_at(t),
                (forall|k: int|
                    0 <= k < trace.len() ==> old(self).token_in_use(#[trigger] trace[k])) ==> (
                forall|d: int|
                    old(self).interests().contains(d) && !self.interests().contains(d)
                        ==> exists|u: int|
                        #[trigger] served(trace, u) && old(self).token_in_use(u) && d == old(
                            self,
                        ).fd_at(u)),
            decreases entries@.len() - i,
        {
            let ev: ReadyEntry = entries[i];
            let token = ev.token;
            if token >= self.handlers.len() {
                return (Err(LoopError::UnknownToken(token)), Ghost(trace));
            }
            let ghost before = *self;
            let mut slot: Option<Registration<O>> = None;
            core::mem::swap(&mut slot, &mut self.handlers[token]);
            match slot {
                None => {
                    proof {
                        assert(self.handlers@ =~= before.handlers@);
                        assert forall|t: int|
                            (#[trigger] self.token_in_use(t)) == before.token_in_use(t) && (
                            before.token_in_use(t) ==> self.observer_at(t) == before.observer_at(
                                t,
                            ) && self.fd_at(t) == before.fd_at(t)) by {}
                        assert forall|t: int|
                            t < old(self).next_token() && !old(self).token_in_use(t) implies !self
                            .token_in_use(t) by {
                            assert(!before.token_in_use(t));
                        }
                        if i == 0 {
                            assert(same_registry_view(*old(self), *self));
                        }
                    }
                    return (Err(LoopError::UnknownToken(token)), Ghost(trace));
                },
                Some(mut entry) => {
                    let res = entry.observer.on_event(&ev);
                    self.handlers[token] = Some(entry);
                    let ghost trace0 = trace;
                    proof {
                        assert(before.token_in_use(token as int));
                        if i == 0 {
                            assert(old(self).token_in_use(entries@[0].token as int));
                        }
                        trace = trace.push(token as int);
                        assert forall|y: int|
                            (#[trigger] served(trace, y)) == (served(trace0, y) || y
                                == token as int) by {
                            lemma_served_push(trace0, token as int, y);
                        }
                        assert forall|t: int|
                            t != token as int && 0 <= t < before.handlers@.len() implies self
                            .handlers@[t] == before.handlers@[t] by {}
                        assert(self.handlers@.len() == before.handlers@.len());
                        assert forall|t: int|
                            t < old(self).next_token() && !old(self).token_in_use(t) implies !self
                            .token_in_use(t) by {
                            assert(!before.token_in_use(t));
                        }
                        assert forall|t: int|
                            #[trigger] old(self).token_in_use(t) && !served(trace, t) implies self
                            .token_in_use(t) && self.observer_at(t) == old(self).observer_at(t)
                            && self.fd_at(t) == old(self).fd_at(t) by {
                            assert(!served(trace0, t) && t != token as int);
                            assert(before.token_in_use(t));
                        }
                        assert forall|t: int|
                            old(self).token_in_use(t) && self.token_in_use(t) implies
                            #[trigger] self.fd_at(t) == old(self).fd_at(t) by {
                            if t == token as int {
                                assert(self.handlers@[t]->Some_0.fd == before.handlers@[t]
                                    ->Some_0.fd);
                                assert(before.fd_at(t) == old(self).fd_at(t));
                            } else {
                                assert(self.handlers@[t] == before.handlers@[t]);
                                assert(before.token_in_use(t) == self.token_in_use(t));
                                assert(before.fd_at(t) == old(self).fd_at(t));
                            }
                        }
                        assert(self.interests() == before.interests());
                        assert forall|d: int|
                            (forall|k: int|
                                0 <= k < trace.len() ==> old(self).token_in_use(
                                    #[trigger] trace[k],
                                )) && old(self).interests().contains(d) && !self
                            .interests().contains(d) implies exists|u: int|
                            #[trigger] served(trace, u) && old(self).token_in_use(u) && d == old(
                                self,
                            ).fd_at(u) by {
                            assert(forall|k: int|
                                0 <= k < trace0.len() ==> trace[k] == #[trigger] trace0[k]);
                        }
                    }
                    let ghost s1 = *self;
                    match res {
                        Err(e) => {
                            return (Err(e), Ghost(trace));
                        },
                        Ok(directive) => {
                            let ar = self.apply_directive(token, directive);
                            proof {
                                assert(s1.token_in_use(token as int));
                                assert forall|t: int|
                                    t < old(self).next_token() && !old(self).token_in_use(t)
                                    implies !self.token_in_use(t) by {
                                    assert(!s1.token_in_use(t));
                                }
                                assert forall|t: int|
                                    #[trigger] old(self).token_in_use(t) && !served(trace, t)
                                    implies self.token_in_use(t) && self.observer_at(t) == old(
                                    self,
                                ).observer_at(t) && self.fd_at(t) == old(self).fd_at(t) by {
                                    assert(t != token as int);
                                    assert(s1.token_in_use(t) && s1.observer_at(t) == old(
                                        self,
                                    ).observer_at(t) && s1.fd_at(t) == old(self).fd_at(t));
                                    assert(t < old(self).next_token());
                                }
                                assert forall|t: int|
                                    old(self).token_in_use(t) && self.token_in_use(t) implies
                                    #[trigger] self.fd_at(t) == old(self).fd_at(t) by {
                                    if t == token as int {
                                        assert(s1.fd_at(t) == old(self).fd_at(t));
                                    } else {
                                        assert(t < old(self).next_token());
                                        assert(s1.token_in_use(t) == self.token_in_use(t));
                                        assert(s1.token_in_use(t));
                                        assert(self.observer_at(t) == s1.observer_at(t));
                                        assert(s1.fd_at(t) == old(self).fd_at(t));
                                    }
                                }
                                assert forall|d: int|
                                    (forall|k: int|
                                        0 <= k < trace.len() ==> old(self).token_in_use(
                                            #[trigger] trace[k],
                                        )) && old(self).interests().contains(d) && !self
                                    .interests().contains(d) implies exists|u: int|
                                    #[trigger] served(trace, u) && old(self).token_in_use(u) && d
                                    == old(self).fd_at(u) by {
                                    assert(trace[trace0.len() as int] == token as int);
                                    assert(old(self).token_in_use(trace[trace0.len() as int]));
                                    if s1.interests().contains(d) {
                                        assert(d == s1.fd_at(token as int));
                                        assert(s1.fd_at(token as int) == old(self).fd_at(
                                            token as int,
                                        ));
                                        assert(served(trace, token as int));
                                    }
                                }
                            }
                            match ar {
                                Ok(()) => {},
                                Err(e) => {
                                    return (Err(e), Ghost(trace));
                                },
                            }
                        },
                    }
                },
            }
            i = i + 1;
        }
        (Ok(()), Ghost(trace))
    }
}

/// Whether token `t` appears in a dispatch trace: whether its observer
/// received a react call during the batch.
pub open spec fn served(trace: Seq<int>, t: int) -> bool {
    exists|k: int| 0 <= k < trace.len() && trace[k] == t
}

proof fn lemma_served_push(trace: Seq<int>, x: int, y: int)
    ensures
        served(trace.push(x), y) <==> (served(trace, y) || y == x),
{
    if served(trace, y) {
        let k = choose|k: int| 0 <= k < trace.len() && trace[k] == y;
        assert(trace.push(x)[k] == y);
    }
    if y == x {
        assert(trace.push(x)[trace.len() as int] == y);
    }
    if served(trace.push(x), y) {
        let k = choose|k: int| 0 <= k < trace.push(x).len() && trace.push(x)[k] == y;
        if k < trace.len() {
            assert(trace[k] == y);
        }
    }
}

/// What one batch dispatch guarantees, whatever the observers decided.
///
/// `trace` lists the tokens that received a react call, in order: it
/// follows the batch entries one for one, and on success it covers every
/// entry — a `Terminate` directive clears the running flag but never cuts
/// the batch short. The token counter never moves backwards, the running
/// flag is only ever cleared, a served token was either registered before
/// the batch or allocated during it, and a token without an observer never
/// comes back to life. Bystanders are framed: an observer that received no
/// react call keeps its slot, its identity and its recorded descriptor; a
/// live observer's recorded descriptor never changes; and — as long as
/// every served token predates the batch — the only interests that can
/// disappear are the recorded descriptors of served observers.
pub open spec fn dispatch_post<O: EventObserver>(
    pre: EventLoopRegistrar<O>,
    post: EventLoopRegistrar<O>,
    entries: Seq<ReadyEntry>,
    ok: bool,
    trace: Seq<int>,
) -> bool {
    &&& post.wf()
    &&& post.next_token() >= pre.next_token()
    &&& post.is_running() ==> pre.is_running()
    &&& trace.len() <= entries.len()
    &&& forall|k: int| 0 <= k < trace.len() ==> #[trigger] trace[k] == entries[k].token as int
    &&& ok ==> trace.len() == entries.len()
    &&& forall|k: int|
        0 <= k < trace.len() ==> pre.token_in_use(#[trigger] trace[k]) || trace[k]
            >= pre.next_token()
    &&& forall|t: int|
        t < pre.next_token() && !pre.token_in_use(t) ==> !(#[trigger] post.token_in_use(t))
    &&& forall|t: int|
        #[trigger] pre.token_in_use(t) && !served(trace, t) ==> post.token_in_use(t)
            && post.observer_at(t) == pre.observer_at(t) && post.fd_at(t) == pre.fd_at(t)
    &&& forall|t: int|
        pre.token_in_use(t) && post.token_in_use(t) ==> #[trigger] post.fd_at(t) == pre.fd_at(t)
    &&& (forall|k: int| 0 <= k < trace.len() ==> pre.token_in_use(#[trigger] trace[k])) ==> (
    forall|d: int|
        pre.interests().contains(d) && !post.interests().contains(d) ==> exists|u: int|
            #[trigger] served(trace, u) && pre.token_in_use(u) && d == pre.fd_at(u))
}

/// The counter-facing effect of one `register_observer` call that
/// allocated `token`, as its contract states it: the call hands out the
/// counter's value and advances the counter by one, whether or not the
/// registration itself succeeded.
pub open spec fn register_transition<O: EventObserver>(
    pre: EventLoopRegistrar<O>,
    post: EventLoopRegistrar<O>,
    token: int,
) -> bool {
    &&& token == pre.next_token()
    &&& post.next_token() == pre.next_token() + 1
}

/// The counter-facing effect of every other registrar operation —
/// `deregister`, `stop` — as their contracts state it: the counter does
/// not move.
pub open spec fn counter_still<O: EventObserver>(
    pre: EventLoopRegistrar<O>,
    post: EventLoopRegistrar<O>,
) -> bool {
    post.next_token() == pre.next_token()
}

/// How many of the first `i` operations were registrations.
pub open spec fn registrations_among(allocs: Seq<Option<int>>, i: int) -> int
    decreases i,
{
    if i <= 0 {
        0
    } else {
        registrations_among(allocs, i - 1) + if allocs[i - 1] is Some {
            1int
        } else {
            0int
        }
    }
}

/// Whether `states` and `allocs` describe a run of registrar operations:
/// step `i` turns `states[i]` into `states[i + 1]`, and is a registration
/// that allocated `allocs[i]` when that is `Some`, any other operation
/// when it is `None`.
pub open spec fn registrar_history<O: EventObserver>(
    states: Seq<EventLoopRegistrar<O>>,
    allocs: Seq<Option<int>>,
) -> bool {
    &&& states.len() == allocs.len() + 1
    &&& forall|j: int|
        0 <= j < allocs.len() ==> match #[trigger] allocs[j] {
            Some(token) => register_transition(states[j], states[j + 1], token),
            None => counter_still(states[j], states[j + 1]),
        }
}

proof fn lemma_counter_tracks_registrations<O: EventObserver>(
    states: Seq<EventLoopRegistrar<O>>,
    allocs: Seq<Option<int>>,
    i: int,
)
    requires
        registrar_history(states, allocs),
        0 <= i <= allocs.len(),
    ensures
        states[i].next_token() == states[0].next_token() + registrations_among(allocs, i),
    decreases i,
{
    if i > 0 {
        lemma_counter_tracks_registrations(states, allocs, i - 1);
    }
}

proof fn lemma_registrations_among_nondecreasing(allocs: Seq<Option<int>>, a: int, b: int)
    requires
        0 <= a <= b,
    ensures
        registrations_among(allocs, a) <= registrations_among(allocs, b),
    decreases b - a,
{
    if a < b {
        lemma_registrations_among_nondecreasing(allocs, a, b - 1);
    }
}

/// Token allocation law: over any interleaving of registrations with
/// other registrar operations, the K-th registration is allocated token
/// `start + K`, where `start` is the counter at the outset — for a fresh
/// event loop, tokens 0, 1, 2, … in call order — and no token is ever
/// allocated twice, deregistrations notwithstanding.
pub proof fn lemma_tokens_allocated_in_order<O: EventObserver>(
    states: Seq<EventLoopRegistrar<O>>,
    allocs: Seq<Option<int>>,
)
    requires
        registrar_history(states, allocs),
    ensures
        forall|i: int|
            0 <= i < allocs.len() && allocs[i] is Some ==> (#[trigger] allocs[i])->0
                == states[0].next_token() + registrations_among(allocs, i),
        forall|i: int, j: int|
            0 <= i < j < allocs.len() && allocs[i] is Some && allocs[j] is Some ==> (
            #[trigger] allocs[i])->0 != (#[trigger] allocs[j])->0,
{
    assert forall|i: int| 0 <= i < allocs.len() && allocs[i] is Some implies (
    #[trigger] allocs[i])->0 == states[0].next_token() + registrations_among(allocs, i) by {
        lemma_counter_tracks_registrations(states, allocs, i);
    }
    assert forall|i: int, j: int|
        0 <= i < j < allocs.len() && allocs[i] is Some && allocs[j] is Some implies (
    #[trigger] allocs[i])->0 != (#[trigger] allocs[j])->0 by {
        lemma_counter_tracks_registrations(states, allocs, i);
        lemma_counter_tracks_registrations(states, allocs, j);
        assert(registrations_among(allocs, i + 1) == registrations_among(allocs, i) + 1);
        lemma_registrations_among_nondecreasing(allocs, i + 1, j);
    }
}

/// Unsubscribe law: a token that had no observer when a batch began — in
/// particular one whose observer unsubscribed in an earlier batch —
/// receives no react call during the batch, and still has no observer
/// after it. Together with the deregistration contract, which removes the
/// observer's descriptor from the installed interests, an unsubscribed
/// observer is never dispatched again.
pub proof fn lemma_unsubscribed_never_dispatched<O: EventObserver>(
    pre: EventLoopRegistrar<O>,
    post: EventLoopRegistrar<O>,
    entries: Seq<ReadyEntry>,
    ok: bool,
    trace: Seq<int>,
    t: int,
)
    requires
        dispatch_post(pre, post, entries, ok, trace),
        t < pre.next_token(),
        !pre.token_in_use(t),
    ensures
        forall|k: int| 0 <= k < trace.len() ==> #[trigger] trace[k] != t,
        !post.token_in_use(t),
{
}

/// SubscribeNew visibility law: when every entry of a batch predates the
/// batch — its token lies below the counter at the outset — then no
/// observer registered during the batch (its token is allocated at or
/// above that counter) receives a react call within the batch. By the
/// registration contract the newcomer stands in the registry when the
/// batch ends, so it is served from the next wait cycle on.
pub proof fn lemma_newcomers_not_dispatched<O: EventObserver>(
    pre: EventLoopRegistrar<O>,
    post: EventLoopRegistrar<O>,
    entries: Seq<ReadyEntry>,
    ok: bool,
    trace: Seq<int>,
)
    requires
        dispatch_post(pre, post, entries, ok, trace),
        forall|j: int| 0 <= j < entries.len() ==> (#[trigger] entries[j]).token < pre.next_token(),
    ensures
        forall|k: int| 0 <= k < trace.len() ==> #[trigger] trace[k] < pre.next_token(),
{
}

/// Terminate batch-completion law: when a batch dispatch completes
/// without an error, every entry of the batch received its react call, in
/// batch order — including every entry after one whose directive was
/// `Terminate`: a directive never cuts the batch short, the cleared flag
/// only stops the cycle that follows.
pub proof fn lemma_terminate_still_finishes_batch<O: EventObserver>(
    pre: EventLoopRegistrar<O>,
    post: EventLoopRegistrar<O>,
    entries: Seq<ReadyEntry>,
    trace: Seq<int>,
)
    requires
        dispatch_post(pre, post, entries, true, trace),
    ensures
        trace.len() == entries.len(),
        forall|k: int| 0 <= k < entries.len() ==> #[trigger] trace[k] == entries[k].token as int,
{
}

/// Both registrars hold the same table: same token counter, the same
/// observers under the same tokens, with the same recorded descriptors.
pub open spec fn same_table<O: EventObserver>(
    a: EventLoopRegistrar<O>,
    b: EventLoopRegistrar<O>,
) -> bool {
    &&& b.next_token() == a.next_token()
    &&& forall|t: int| #[trigger] b.token_in_use(t) == a.token_in_use(t)
    &&& forall|t: int|
        a.token_in_use(t) ==> (#[trigger] b.observer_at(t)) == a.observer_at(t) && b.fd_at(t)
            == a.fd_at(t)
}

/// Both registrars describe the same state entirely: same table, same
/// running flag, same installed interests.
pub open spec fn same_registry_view<O: EventObserver>(
    a: EventLoopRegistrar<O>,
    b: EventLoopRegistrar<O>,
) -> bool {
    &&& same_table(a, b)
    &&& b.is_running() == a.is_running()
    &&& b.interests() == a.interests()
}

/// Drives the wait / dispatch / react cycle over a registrar.
pub struct EventLoop<O: EventObserver> {
    registrar: EventLoopRegistrar<O>,
}

impl<O: EventObserver> EventLoop<O> {
    /// See `EventLoopRegistrar::wf`.
    pub closed spec fn wf(self) -> bool {
        self.registrar.wf()
    }

    /// The token the next registration will receive.
    pub closed spec fn next_token(self) -> int {
        self.registrar.next_token()
    }

    /// Whether the loop is still willing to start another wait cycle.
    pub closed spec fn is_running(self) -> bool {
        self.registrar.is_running()
    }

    /// Whether an observer is currently registered under token `t`.
    pub closed spec fn token_in_use(self, t: int) -> bool {
        self.registrar.token_in_use(t)
    }

    /// The observer registered under token `t`.
    pub closed spec fn observer_at(self, t: int) -> O {
        self.registrar.observer_at(t)
    }

    /// The descriptor recorded for token `t` at registration.
    pub closed spec fn fd_at(self, t: int) -> int {
        self.registrar.fd_at(t)
    }

    /// The descriptors that currently have readable interest installed.
    pub closed spec fn interests(self) -> Set<int> {
        self.registrar.interests()
    }

    /// The registrar driving this loop, for specification purposes.
    pub closed spec fn reg(self) -> EventLoopRegistrar<O> {
        self.registrar
    }

    /// Serves one batch of ready entries against this loop's registrar:
    /// see `EventLoopRegistrar::dispatch_batch`.
    pub fn dispatch_batch(&mut self, entries: &Vec<ReadyEntry>) -> (r: (
        Result<(), LoopError>,
        Ghost<Seq<int>>,
    ))
        requires
            old(self).wf(),
        ensures
            dispatch_post(old(self).reg(), final(self).reg(), entries@, r.0 is Ok, r.1@),
            entries@.len() == 0 ==> r.0 is Ok && same_registry_view(
                old(self).reg(),
                final(self).reg(),
            ),
            entries@.len() > 0 && !old(self).token_in_use(entries@[0].token as int) ==> r.0
                == Err::<(), LoopError>(LoopError::UnknownToken(entries@[0].token)) && r.1@.len()
                == 0 && same_registry_view(old(self).reg(), final(self).reg()),
            entries@.len() > 0 && old(self).token_in_use(entries@[0].token as int) ==> r.1@.len()
                >= 1,
    {
        self.registrar.dispatch_batch(entries)
    }

    /// Creates an event loop with a fresh poller: no observers, the token
    /// counter at zero, the running flag set.
    pub fn new() -> (r: Result<EventLoop<O>, LoopError>)
        ensures
            r matches Ok(el) ==> {
                &&& el.wf()
                &&& el.next_token() == 0
                &&& el.is_running()
                &&& forall|t: int| !(#[trigger] el.token_in_use(t))
                &&& el.interests() == Set::<int>::empty()
            },
            r matches Err(e) ==> e matches LoopError::IOError(_),
    {
        match Poller::new() {
            Ok(poller) => Ok(
                EventLoop {
                    registrar: EventLoopRegistrar {
                        poller,
                        running: true,
                        handlers: Vec::new(),
                        last_token: 0,
                    },
                },
            ),
            Err(e) => Err(LoopError::IOError(e)),
        }
    }

    /// Registers an observer: allocates the next token, installs readable
    /// interest for the observer's descriptor, stores the observer under
    /// the token, and returns the token. Even a failed registration burns
    /// its token: tokens are never reused.
    pub fn register_observer(&mut self, obs: O) -> (r: Result<usize, LoopError>)
        requires
            old(self).wf(),
        ensures
            final(self).wf(),
            final(self).next_token() == old(self).next_token() + 1,
            final(self).is_running() == old(self).is_running(),
            forall|t: int|
                t != old(self).next_token() ==> #[trigger] final(self).token_in_use(t) == old(self).token_in_use(t),
            forall|t: int|
                t != old(self).next_token() && old(self).token_in_use(t) ==> (
                #[trigger] final(self).observer_at(t)) == old(self).observer_at(t) && final(self).fd_at(t) == old(self).fd_at(t),
            r matches Ok(token) ==> {
                &&& token as int == old(self).next_token()
                &&& final(self).token_in_use(token as int)
                &&& final(self).observer_at(token as int) == obs
                &&& final(self).interests() == old(self).interests().insert(
                    final(self).fd_at(token as int),
                )
            },
            r matches Err(e) ==> {
                &&& e matches LoopError::IOError(_)
                &&& !final(self).token_in_use(old(self).next_token())
                &&& final(self).interests() == old(self).interests()
            },
    {
        EventLoop::do_register_observer(&mut self.registrar, obs)
    }

    /// Runs the wait / dispatch / react cycle until an observer's
    /// `Terminate` directive clears the running flag, on which the run
    /// completes successfully, or until a fatal error aborts it. A signal
    /// interruption of the wait is recovered locally: the wait is retried
    /// and no error is surfaced for it. A `Terminate` produced in the
    /// middle of a batch takes effect only at the top of the next cycle:
    /// the rest of the batch is still served first.
    ///
    /// A run serves at most `u64::MAX` wait cycles — each one a blocking
    /// OS wait, so the bound is beyond reach in practice; were it ever
    /// exhausted, the loop would stop as if terminated.
    pub fn run(&mut self) -> (r: Result<(), LoopError>)
        requires
            old(self).wf(),
        ensures
            final(self).wf(),
            r is Ok ==> !final(self).is_running(),
            !old(self).is_running() ==> r is Ok && same_registry_view(
                old(self).reg(),
                final(self).reg(),
            ),
            final(self).next_token() >= old(self).next_token(),
            final(self).is_running() ==> old(self).is_running(),
            forall|t: int|
                t < old(self).next_token() && !old(self).token_in_use(t) ==> !(
                #[trigger] final(self).token_in_use(t)),
    {
        let mut cycles_left: u64 = u64::MAX;
        while self.registrar.running && cycles_left > 0
            invariant
                self.registrar.wf(),
                !old(self).registrar.is_running() ==> self.registrar == old(self).registrar,
                self.registrar.next_token() >= old(self).registrar.next_token(),
                self.registrar.is_running() ==> old(self).registrar.is_running(),
                forall|t: int|
                    t < old(self).registrar.next_token() && !old(self).registrar.token_in_use(t)
                        ==> !(#[trigger] self.registrar.token_in_use(t)),
            decreases cycles_left,
        {
            cycles_left = cycles_left - 1;
            let ghost at_head = self.registrar;
            let outcome = self.registrar.poller.wait();
            let ghost at_wait = self.registrar;
            let result = self.handle_wait_outcome(outcome);
            proof {
                assert forall|t: int|
                    t < old(self).registrar.next_token() && !old(self).registrar.token_in_use(t)
                        implies !self.registrar.token_in_use(t) by {
                    assert(!at_head.token_in_use(t));
                    assert(at_wait.handlers@ == at_head.handlers@);
                    assert(!at_wait.token_in_use(t));
                    assert(at_wait.next_token() == at_head.next_token());
                }
            }
            match result.0 {
                Ok(()) => {},
                Err(e) => {
                    return Err(e);
                },
            }
        }
        if self.registrar.running {
            self.registrar.stop();
        }
        Ok(())
    }

    /// Applies one wait outcome to the registry. An interruption is not an
    /// error and changes nothing: the loop simply waits again. A fatal wait
    /// error aborts the run as `IOError`, touching nothing. A batch of
    /// ready entries is dispatched. The ghost half of the result is the
    /// trace of tokens that received a react call.
    pub fn handle_wait_outcome(&mut self, outcome: WaitOutcome) -> (r: (
        Result<(), LoopError>,
        Ghost<Seq<int>>,
    ))
        requires
            old(self).wf(),
        ensures
            final(self).wf(),
            final(self).next_token() >= old(self).next_token(),
            final(self).is_running() ==> old(self).is_running(),
            forall|t: int|
                t < old(self).next_token() && !old(self).token_in_use(t) ==> !(
                #[trigger] final(self).token_in_use(t)),
            outcome is Interrupted ==> r.0 is Ok && same_registry_view(
                old(self).reg(),
                final(self).reg(),
            ),
            outcome matches WaitOutcome::Fatal(e) ==> r.0 matches Err(le) && le
                matches LoopError::IOError(f) && f == e && same_registry_view(
                old(self).reg(),
                final(self).reg(),
            ),
            outcome matches WaitOutcome::Ready(batch) ==> dispatch_post(
                old(self).reg(),
                final(self).reg(),
                batch@,
                r.0 is Ok,
                r.1@,
            ),
    {
        match outcome {
            WaitOutcome::Ready(batch) => self.registrar.dispatch_batch(&batch),
            WaitOutcome::Interrupted => (Ok(()), Ghost(Seq::empty())),
            WaitOutcome::Fatal(e) => (Err(LoopError::IOError(e)), Ghost(Seq::empty())),
        }
    }

    /// The registration path shared by `register_observer` and the
    /// `SubscribeNew` directive. The allocated token equals the table's
    /// length, so it can never collide with an existing entry: the
    /// uniqueness invariant the design demands holds by construction.
    fn do_register_observer(reg: &mut EventLoopRegistrar<O>, obs: O) -> (r: Result<
        usize,
        LoopError,
    >)
        requires
            old(reg).wf(),
        ensures
            final(reg).wf(),
            final(reg).next_token() == old(reg).next_token() + 1,
            final(reg).is_running() == old(reg).is_running(),
            forall|t: int|
                t != old(reg).next_token() ==> #[trigger] final(reg).token_in_use(t) == old(reg).token_in_use(t),
            forall|t: int|
                t != old(reg).next_token() && old(reg).token_in_use(t) ==> (
                #[trigger] final(reg).observer_at(t)) == old(reg).observer_at(t) && final(reg).fd_at(t) == old(reg).fd_at(t),
            r matches Ok(token) ==> {
                &&& token as int == old(reg).next_token()
                &&& final(reg).token_in_use(token as int)
                &&& final(reg).observer_at(token as int) == obs
                &&& final(reg).interests() == old(reg).interests().insert(
                    final(reg).fd_at(token as int),
                )
            },
            r matches Err(e) ==> {
                &&& e matches LoopError::IOError(_)
                &&& !final(reg).token_in_use(old(reg).next_token())
                &&& final(reg).interests() == old(reg).interests()
            },
    {
        let fd = obs.get_source_fd();
        let token = reg.last_token;
        match reg.poller.register(fd, token) {
            Ok(()) => {
                reg.handlers.push(Some(Registration { fd, observer: obs }));
                reg.last_token = reg.handlers.len();
                Ok(token)
            },
            Err(e) => {
                // The token is burned: allocation never hands it out again.
                reg.handlers.push(None);
                reg.last_token = reg.handlers.len();
                Err(LoopError::IOError(e))
            },
        }
    }
}

/// The event loop's view accessors read its registrar: each agrees with
/// the same accessor on `reg()`, so contracts phrased over either can be
/// combined.
pub proof fn lemma_event_loop_views<O: EventObserver>(el: EventLoop<O>)
    ensures
        el.wf() == el.reg().wf(),
        el.next_token() == el.reg().next_token(),
        el.is_running() == el.reg().is_running(),
        el.interests() == el.reg().interests(),
        forall|t: int| #[trigger] el.token_in_use(t) == el.reg().token_in_use(t),
        forall|t: int| (#[trigger] el.observer_at(t)) == el.reg().observer_at(t),
        forall|t: int| (#[trigger] el.fd_at(t)) == el.reg().fd_at(t),
{
}

} // verus!
