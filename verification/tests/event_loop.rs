//! Behavioural tests that drive the event loop over real pipes.

use nio::{EventLoop, EventObserver, LoopError, ObserverResult, ReadyEntry, WaitOutcome};
use std::cell::RefCell;
use std::rc::Rc;

type Log = Rc<RefCell<Vec<(usize, usize)>>>;

fn new_log() -> Log {
    Rc::new(RefCell::new(Vec::new()))
}

/// What a scripted observer answers on one react call.
enum Action {
    DoNothing,
    Quit,
    End(i32),
    Spawn(Vec<TestObserver>),
    Fail,
}

/// A scripted observer over one pipe read end. Each react call is logged
/// as (observer id, entry token); one byte is written to every descriptor
/// in `write_on_event`; then the next scripted action is answered.
struct TestObserver {
    fd: i32,
    id: usize,
    log: Log,
    script: Vec<Action>,
    write_on_event: Vec<i32>,
}

impl TestObserver {
    fn new(fd: i32, id: usize, log: &Log) -> TestObserver {
        TestObserver { fd, id, log: Rc::clone(log), script: Vec::new(), write_on_event: Vec::new() }
    }

    fn scripted(fd: i32, id: usize, log: &Log, script: Vec<Action>) -> TestObserver {
        TestObserver { fd, id, log: Rc::clone(log), script, write_on_event: Vec::new() }
    }
}

impl EventObserver for TestObserver {
    fn on_event(&mut self, event: &ReadyEntry) -> Result<ObserverResult<Self>, LoopError> {
        self.log.borrow_mut().push((self.id, event.token));
        for fd in &self.write_on_event {
            nix::unistd::write(*fd, &[1u8]).expect("write to pipe failed");
        }
        let action = if self.script.is_empty() { Action::DoNothing } else { self.script.remove(0) };
        Ok(match action {
            Action::DoNothing => ObserverResult::Nothing,
            Action::Quit => ObserverResult::Unsubscribe,
            Action::End(status) => ObserverResult::Terminate { status },
            Action::Spawn(observers) => ObserverResult::SubscribeNew(observers),
            Action::Fail => {
                let cause = std::io::Error::new(std::io::ErrorKind::Other, "observer failed");
                return Err(LoopError::IOError(cause));
            }
        })
    }

    fn get_source_fd(&self) -> i32 {
        self.fd
    }
}

fn new_loop() -> EventLoop<TestObserver> {
    match EventLoop::new() {
        Ok(el) => el,
        Err(_) => panic!("could not create the event loop"),
    }
}

fn pipe() -> (i32, i32) {
    nix::unistd::pipe().expect("could not create a pipe")
}

fn entry(token: usize) -> ReadyEntry {
    ReadyEntry { token, readable: true }
}

#[test]
fn tokens_are_allocated_in_call_order() {
    let log = new_log();
    let mut el = new_loop();
    let (r0, _w0) = pipe();
    let (r1, _w1) = pipe();
    let (r2, _w2) = pipe();
    let t0 = el.register_observer(TestObserver::new(r0, 0, &log)).ok().expect("register failed");
    let t1 = el.register_observer(TestObserver::new(r1, 1, &log)).ok().expect("register failed");
    let t2 = el.register_observer(TestObserver::new(r2, 2, &log)).ok().expect("register failed");
    assert_eq!(t0, 0);
    assert_eq!(t1, 1);
    assert_eq!(t2, 2);
}

#[test]
fn failed_registration_burns_its_token() {
    let log = new_log();
    let mut el = new_loop();
    // An invalid descriptor: the poller rejects it, but the token is gone.
    let bad = el.register_observer(TestObserver::new(-1, 0, &log));
    assert!(matches!(bad, Err(LoopError::IOError(_))));
    let (r1, _w1) = pipe();
    let t = el.register_observer(TestObserver::new(r1, 1, &log)).ok().expect("register failed");
    assert_eq!(t, 1);
}

#[test]
fn no_token_reuse_after_unsubscribe() {
    let log = new_log();
    let mut el = new_loop();
    let (r0, _w0) = pipe();
    let t0 = el
        .register_observer(TestObserver::scripted(r0, 0, &log, vec![Action::Quit]))
        .ok()
        .expect("register failed");
    assert_eq!(t0, 0);
    let (res, _) = el.dispatch_batch(&vec![entry(0)]);
    assert!(res.is_ok());
    // Token 0 is retired for good: the next registration gets a fresh one.
    let (r1, _w1) = pipe();
    let t1 = el.register_observer(TestObserver::new(r1, 1, &log)).ok().expect("register failed");
    assert_eq!(t1, 1);
}

#[test]
fn unsubscribed_token_is_never_dispatched_again() {
    let log = new_log();
    let mut el = new_loop();
    let (r0, _w0) = pipe();
    el.register_observer(TestObserver::scripted(r0, 0, &log, vec![Action::Quit]))
        .ok()
        .expect("register failed");
    let (first, _) = el.dispatch_batch(&vec![entry(0)]);
    assert!(first.is_ok());
    assert_eq!(log.borrow().len(), 1);
    // A later batch naming the retired token is a fatal invariant
    // violation, not a react call.
    let (second, _) = el.dispatch_batch(&vec![entry(0)]);
    assert!(matches!(second, Err(LoopError::UnknownToken(0))));
    assert_eq!(log.borrow().len(), 1);
}

#[test]
fn terminate_still_serves_the_rest_of_the_batch() {
    let log = new_log();
    let mut el = new_loop();
    let (r0, _w0) = pipe();
    let (r1, _w1) = pipe();
    el.register_observer(TestObserver::scripted(r0, 0, &log, vec![Action::End(3)]))
        .ok()
        .expect("register failed");
    el.register_observer(TestObserver::new(r1, 1, &log)).ok().expect("register failed");
    let (res, _) = el.dispatch_batch(&vec![entry(0), entry(1)]);
    assert!(res.is_ok());
    // The first observer asked to terminate; the second was served anyway.
    assert_eq!(*log.borrow(), vec![(0, 0), (1, 1)]);
    // The flag only stops the next cycle: a run now returns at once,
    // dispatching nothing further.
    let run = el.run();
    assert!(run.is_ok());
    assert_eq!(log.borrow().len(), 2);
}

#[test]
fn subscribe_new_is_visible_only_from_the_next_cycle() {
    let log = new_log();
    let mut el = new_loop();
    let (ra, _wa) = pipe();
    let (rb, _wb) = pipe();
    let newcomer = TestObserver::new(rb, 1, &log);
    el.register_observer(
        TestObserver::scripted(ra, 0, &log, vec![Action::Spawn(vec![newcomer])]),
    )
        .ok()
        .expect("register failed");
    let (first, _) = el.dispatch_batch(&vec![entry(0)]);
    assert!(first.is_ok());
    // The newcomer was not served within the batch that registered it.
    assert_eq!(*log.borrow(), vec![(0, 0)]);
    // From the next cycle on it is present, under the next token.
    let (second, _) = el.dispatch_batch(&vec![entry(1)]);
    assert!(second.is_ok());
    assert_eq!(*log.borrow(), vec![(0, 0), (1, 1)]);
}

#[test]
fn one_byte_one_react_call_then_terminate() {
    let log = new_log();
    let mut el = new_loop();
    let (r0, w0) = pipe();
    let t0 = el
        .register_observer(TestObserver::scripted(r0, 0, &log, vec![Action::End(7)]))
        .ok()
        .expect("register failed");
    assert_eq!(t0, 0);
    nix::unistd::write(w0, &[1u8]).expect("write to pipe failed");
    let res = el.run();
    assert!(res.is_ok());
    // Exactly one react call, carrying the observer's own token.
    assert_eq!(*log.borrow(), vec![(0, t0)]);
}

#[test]
fn unsubscribe_removes_the_descriptor_interest() {
    let log = new_log();
    let mut el = new_loop();
    let (ra, wa) = pipe();
    let (rb, wb) = pipe();
    // The first observer unsubscribes on its only call, after poking both
    // its own pipe and its partner's: its own descriptor stays readable,
    // yet must never fire again once deregistered.
    let mut quitter = TestObserver::scripted(ra, 0, &log, vec![Action::Quit]);
    quitter.write_on_event = vec![wa, wb];
    el.register_observer(quitter).ok().expect("register failed");
    let mut partner =
        TestObserver::scripted(rb, 1, &log, vec![Action::DoNothing, Action::End(0)]);
    partner.write_on_event = vec![wa, wb];
    el.register_observer(partner).ok().expect("register failed");
    nix::unistd::write(wa, &[1u8]).expect("write to pipe failed");
    let res = el.run();
    assert!(res.is_ok());
    // The quitter reacted exactly once, though bytes kept arriving on its
    // still-open pipe; the partner was served until it terminated.
    assert_eq!(*log.borrow(), vec![(0, 0), (1, 1), (1, 1)]);
}

#[test]
fn an_empty_batch_changes_nothing() {
    let log = new_log();
    let mut el = new_loop();
    let (r0, _w0) = pipe();
    el.register_observer(TestObserver::new(r0, 0, &log)).ok().expect("register failed");
    let (res, _) = el.dispatch_batch(&Vec::new());
    assert!(res.is_ok());
    assert_eq!(log.borrow().len(), 0);
}

#[test]
fn subscribe_new_registers_in_list_order() {
    let log = new_log();
    let mut el = new_loop();
    let (ra, _wa) = pipe();
    let (rb, _wb) = pipe();
    let (rc, _wc) = pipe();
    let b = TestObserver::new(rb, 1, &log);
    let c = TestObserver::new(rc, 2, &log);
    el.register_observer(TestObserver::scripted(ra, 0, &log, vec![Action::Spawn(vec![b, c])]))
        .ok()
        .expect("register failed");
    let (first, _) = el.dispatch_batch(&vec![entry(0)]);
    assert!(first.is_ok());
    assert_eq!(*log.borrow(), vec![(0, 0)]);
    // The newcomers hold the next two tokens, in list order.
    let (second, _) = el.dispatch_batch(&vec![entry(1), entry(2)]);
    assert!(second.is_ok());
    assert_eq!(*log.borrow(), vec![(0, 0), (1, 1), (2, 2)]);
}

#[test]
fn an_observer_failure_abandons_the_batch() {
    let log = new_log();
    let mut el = new_loop();
    let (r0, _w0) = pipe();
    let (r1, _w1) = pipe();
    el.register_observer(TestObserver::scripted(r0, 0, &log, vec![Action::Fail]))
        .ok()
        .expect("register failed");
    el.register_observer(TestObserver::new(r1, 1, &log)).ok().expect("register failed");
    let (res, _) = el.dispatch_batch(&vec![entry(0), entry(1)]);
    // No isolation: the failure is fatal and the second entry is not served.
    assert!(matches!(res, Err(LoopError::IOError(_))));
    assert_eq!(*log.borrow(), vec![(0, 0)]);
}

#[test]
fn a_failed_deregistration_keeps_the_entry() {
    let log = new_log();
    let mut el = new_loop();
    let (r0, _w0) = pipe();
    el.register_observer(TestObserver::scripted(
        r0,
        0,
        &log,
        vec![Action::Quit, Action::DoNothing],
    ))
        .ok()
        .expect("register failed");
    // Closing the descriptor makes the poller reject the deregistration.
    nix::unistd::close(r0).expect("close failed");
    let (first, _) = el.dispatch_batch(&vec![entry(0)]);
    assert!(matches!(first, Err(LoopError::IOError(_))));
    // The table entry stayed: the observer is still dispatchable.
    let (second, _) = el.dispatch_batch(&vec![entry(0)]);
    assert!(second.is_ok());
    assert_eq!(*log.borrow(), vec![(0, 0), (0, 0)]);
}

#[test]
fn an_interrupted_wait_is_retried_not_surfaced() {
    let log = new_log();
    let mut el = new_loop();
    let (r0, _w0) = pipe();
    el.register_observer(TestObserver::new(r0, 0, &log)).ok().expect("register failed");
    let (res, _) = el.handle_wait_outcome(WaitOutcome::Interrupted);
    // The interruption is not an error, and nothing was dispatched or
    // changed: the observer is still there for the next cycle.
    assert!(res.is_ok());
    assert_eq!(log.borrow().len(), 0);
    let (next, _) = el.dispatch_batch(&vec![entry(0)]);
    assert!(next.is_ok());
    assert_eq!(*log.borrow(), vec![(0, 0)]);
}

#[test]
fn a_fatal_wait_error_surfaces_as_io_error() {
    let log = new_log();
    let mut el = new_loop();
    let (r0, _w0) = pipe();
    el.register_observer(TestObserver::new(r0, 0, &log)).ok().expect("register failed");
    let cause = std::io::Error::new(std::io::ErrorKind::Other, "wait failed");
    let (res, _) = el.handle_wait_outcome(WaitOutcome::Fatal(cause));
    assert!(matches!(res, Err(LoopError::IOError(_))));
    assert_eq!(log.borrow().len(), 0);
}
