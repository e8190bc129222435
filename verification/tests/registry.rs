use event_publisher::Event;
use event_publisher::EventPublisher;
use event_publisher::Handler;
use std::cell::Cell;
use std::rc::Rc;

struct Counting {
    hits: Rc<Cell<usize>>,
}

impl Handler<u32> for Counting {
    fn invoke(&mut self, _event: &Event<u32>) -> bool {
        self.hits.set(self.hits.get() + 1);
        true
    }
}

struct MissingAware {
    saw_missing: Rc<Cell<bool>>,
}

impl Handler<u32> for MissingAware {
    fn invoke(&mut self, event: &Event<u32>) -> bool {
        if let Event::Missing = event {
            self.saw_missing.set(true);
        }
        true
    }
}

#[test]
fn publish_invokes_single_handler_once() {
    let hits = Rc::new(Cell::new(0usize));
    let mut p: EventPublisher<Counting> = EventPublisher::new();
    p.subscribe_handler(Counting { hits: hits.clone() });
    let r = p.publish_event(&Event::Args(5u32));
    assert!(r.is_ok());
    assert_eq!(hits.get(), 1);
}

#[test]
fn unsubscribe_true_then_false() {
    let hits = Rc::new(Cell::new(0usize));
    let mut p: EventPublisher<Counting> = EventPublisher::new();
    let t = p.subscribe_handler(Counting { hits: hits.clone() });
    assert_eq!(p.handler_count(), 1);
    assert!(p.unsubscribe_handler(t));
    assert_eq!(p.handler_count(), 0);
    assert!(!p.unsubscribe_handler(t));
    assert_eq!(p.handler_count(), 0);
}

#[test]
fn foreign_token_rejected_without_mutation() {
    let hits_a = Rc::new(Cell::new(0usize));
    let hits_b = Rc::new(Cell::new(0usize));
    let mut a: EventPublisher<Counting> = EventPublisher::new();
    let mut b: EventPublisher<Counting> = EventPublisher::new();
    let own = a.subscribe_handler(Counting { hits: hits_a.clone() });
    // both are first tokens, so their counter values coincide; only the
    // publisher identity tells them apart
    let foreign = b.subscribe_handler(Counting { hits: hits_b.clone() });
    assert_ne!(own, foreign);
    assert!(!a.unsubscribe_handler(foreign));
    assert_eq!(a.handler_count(), 1);
    let r = a.publish_event(&Event::Args(7u32));
    assert!(r.is_ok());
    assert_eq!(hits_a.get(), 1);
    assert_eq!(hits_b.get(), 0);
    // the foreign token is still valid where it was issued
    assert!(b.unsubscribe_handler(foreign));
}

#[test]
fn removed_token_rejected_and_registry_untouched() {
    let hits1 = Rc::new(Cell::new(0usize));
    let hits2 = Rc::new(Cell::new(0usize));
    let mut p: EventPublisher<Counting> = EventPublisher::new();
    let t1 = p.subscribe_handler(Counting { hits: hits1.clone() });
    p.subscribe_handler(Counting { hits: hits2.clone() });
    assert!(p.unsubscribe_handler(t1));
    assert!(!p.unsubscribe_handler(t1));
    assert_eq!(p.handler_count(), 1);
    let r = p.publish_event(&Event::Args(1u32));
    assert!(r.is_ok());
    assert_eq!(hits1.get(), 0);
    assert_eq!(hits2.get(), 1);
}

#[test]
fn tokens_never_reused_across_unsubscribe() {
    let hits = Rc::new(Cell::new(0usize));
    let mut p: EventPublisher<Counting> = EventPublisher::new();
    let t1 = p.subscribe_handler(Counting { hits: hits.clone() });
    assert!(p.unsubscribe_handler(t1));
    let t2 = p.subscribe_handler(Counting { hits: hits.clone() });
    assert_ne!(t1, t2);
    assert!(!p.unsubscribe_handler(t1));
    assert!(p.unsubscribe_handler(t2));
}

#[test]
fn handler_count_tracks_subscriptions() {
    let hits = Rc::new(Cell::new(0usize));
    let mut p: EventPublisher<Counting> = EventPublisher::new();
    assert_eq!(p.handler_count(), 0);
    let t1 = p.subscribe_handler(Counting { hits: hits.clone() });
    let t2 = p.subscribe_handler(Counting { hits: hits.clone() });
    assert_eq!(p.handler_count(), 2);
    assert!(p.unsubscribe_handler(t1));
    assert_eq!(p.handler_count(), 1);
    assert!(p.unsubscribe_handler(t2));
    assert_eq!(p.handler_count(), 0);
}

#[test]
fn token_at_follows_issuance_order() {
    let hits = Rc::new(Cell::new(0usize));
    let mut p: EventPublisher<Counting> = EventPublisher::new();
    let t0 = p.subscribe_handler(Counting { hits: hits.clone() });
    let t1 = p.subscribe_handler(Counting { hits: hits.clone() });
    let t2 = p.subscribe_handler(Counting { hits: hits.clone() });
    assert!(p.unsubscribe_handler(t1));
    assert_eq!(p.handler_count(), 2);
    assert_eq!(p.token_at(0), t0);
    assert_eq!(p.token_at(1), t2);
    let _h: &Counting = p.handler_at(0);
}

#[test]
fn missing_event_is_delivered_as_missing() {
    let saw = Rc::new(Cell::new(false));
    let mut p: EventPublisher<MissingAware> = EventPublisher::new();
    p.subscribe_handler(MissingAware { saw_missing: saw.clone() });
    let r = p.publish_event(&Event::Missing);
    assert!(r.is_ok());
    assert!(saw.get());
}

#[test]
fn duplicate_subscriptions_get_independent_tokens() {
    let hits = Rc::new(Cell::new(0usize));
    let mut p: EventPublisher<Counting> = EventPublisher::new();
    let t1 = p.subscribe_handler(Counting { hits: hits.clone() });
    let t2 = p.subscribe_handler(Counting { hits: hits.clone() });
    assert_ne!(t1, t2);
    let r = p.publish_event(&Event::Args(0u32));
    assert!(r.is_ok());
    // no deduplication: the same handler logic subscribed twice runs twice
    assert_eq!(hits.get(), 2);
}
