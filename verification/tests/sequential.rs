use event_publisher::Event;
use event_publisher::EventPublisher;
use event_publisher::Handler;
use std::cell::Cell;
use std::cell::RefCell;
use std::rc::Rc;

struct Recorder {
    id: usize,
    log: Rc<RefCell<Vec<usize>>>,
    hits: Rc<Cell<usize>>,
    succeed: bool,
}

impl Handler<String> for Recorder {
    fn invoke(&mut self, _event: &Event<String>) -> bool {
        self.log.borrow_mut().push(self.id);
        self.hits.set(self.hits.get() + 1);
        self.succeed
    }
}

fn recorder(
    id: usize,
    log: &Rc<RefCell<Vec<usize>>>,
    succeed: bool,
) -> (Recorder, Rc<Cell<usize>>) {
    let hits = Rc::new(Cell::new(0usize));
    (Recorder { id, log: log.clone(), hits: hits.clone(), succeed }, hits)
}

#[test]
fn every_live_handler_runs_exactly_once_in_order() {
    let log = Rc::new(RefCell::new(Vec::new()));
    let mut p: EventPublisher<Recorder> = EventPublisher::new();
    let (h0, c0) = recorder(0, &log, true);
    let (h1, c1) = recorder(1, &log, true);
    let (h2, c2) = recorder(2, &log, true);
    p.subscribe_handler(h0);
    p.subscribe_handler(h1);
    p.subscribe_handler(h2);
    let r = p.publish_event(&Event::Args(String::from("news")));
    assert!(r.is_ok());
    assert_eq!(*log.borrow(), vec![0, 1, 2]);
    assert_eq!(c0.get(), 1);
    assert_eq!(c1.get(), 1);
    assert_eq!(c2.get(), 1);
}

#[test]
fn empty_registry_publish_is_ok() {
    let mut p: EventPublisher<Recorder> = EventPublisher::new();
    let r = p.publish_event(&Event::Args(String::from("quiet")));
    assert!(r.is_ok());
}

#[test]
fn failing_handler_halts_pass_and_is_identified() {
    let log = Rc::new(RefCell::new(Vec::new()));
    let mut p: EventPublisher<Recorder> = EventPublisher::new();
    let (h0, c0) = recorder(0, &log, true);
    let (h1, c1) = recorder(1, &log, false);
    let (h2, c2) = recorder(2, &log, true);
    p.subscribe_handler(h0);
    let t1 = p.subscribe_handler(h1);
    p.subscribe_handler(h2);
    let r = p.publish_event(&Event::Args(String::from("boom")));
    let failure = r.expect_err("the failing handler must be reported");
    assert_eq!(failure.token, t1);
    assert_eq!(failure.completed, 1);
    assert_eq!(*log.borrow(), vec![0, 1]);
    assert_eq!(c0.get(), 1);
    assert_eq!(c1.get(), 1);
    assert_eq!(c2.get(), 0);
}

#[test]
fn failure_of_first_handler_reports_zero_completed() {
    let log = Rc::new(RefCell::new(Vec::new()));
    let mut p: EventPublisher<Recorder> = EventPublisher::new();
    let (h0, _c0) = recorder(0, &log, false);
    let (h1, c1) = recorder(1, &log, true);
    let t0 = p.subscribe_handler(h0);
    p.subscribe_handler(h1);
    let r = p.publish_event(&Event::Args(String::from("early")));
    let failure = r.expect_err("the failing handler must be reported");
    assert_eq!(failure.token, t0);
    assert_eq!(failure.completed, 0);
    assert_eq!(c1.get(), 0);
}

#[test]
fn failed_pass_leaves_registry_intact_and_is_not_retried() {
    let log = Rc::new(RefCell::new(Vec::new()));
    let mut p: EventPublisher<Recorder> = EventPublisher::new();
    let (h0, c0) = recorder(0, &log, false);
    let (h1, c1) = recorder(1, &log, true);
    let t0 = p.subscribe_handler(h0);
    p.subscribe_handler(h1);
    let r = p.publish_event(&Event::Args(String::from("first")));
    assert!(r.is_err());
    // one delivery attempt per call: nothing ran twice, nothing was retried
    assert_eq!(c0.get(), 1);
    assert_eq!(c1.get(), 0);
    // the registry is intact, so a later pass starts over from handler 0
    assert_eq!(p.handler_count(), 2);
    let r2 = p.publish_event(&Event::Args(String::from("second")));
    let failure = r2.expect_err("the failing handler fails again");
    assert_eq!(failure.token, t0);
    assert_eq!(c0.get(), 2);
    assert_eq!(c1.get(), 0);
}

#[test]
fn unsubscribed_handler_is_not_invoked() {
    let log = Rc::new(RefCell::new(Vec::new()));
    let mut p: EventPublisher<Recorder> = EventPublisher::new();
    let (h0, c0) = recorder(0, &log, true);
    let (h1, c1) = recorder(1, &log, true);
    let t0 = p.subscribe_handler(h0);
    p.subscribe_handler(h1);
    assert!(p.unsubscribe_handler(t0));
    let r = p.publish_event(&Event::Args(String::from("later")));
    assert!(r.is_ok());
    assert_eq!(c0.get(), 0);
    assert_eq!(c1.get(), 1);
    assert_eq!(*log.borrow(), vec![1]);
}
