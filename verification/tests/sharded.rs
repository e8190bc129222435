use event_publisher::shard_count;
use event_publisher::shard_size;
use event_publisher::Event;
use event_publisher::EventPublisher;
use event_publisher::Handler;
use std::cell::Cell;
use std::cell::RefCell;
use std::rc::Rc;

struct Worker {
    id: usize,
    log: Rc<RefCell<Vec<usize>>>,
    hits: Rc<Cell<usize>>,
    total: Rc<Cell<usize>>,
    succeed: bool,
}

impl Handler<u64> for Worker {
    fn invoke(&mut self, _event: &Event<u64>) -> bool {
        self.log.borrow_mut().push(self.id);
        self.hits.set(self.hits.get() + 1);
        self.total.set(self.total.get() + 1);
        self.succeed
    }
}

struct Fixture {
    log: Rc<RefCell<Vec<usize>>>,
    total: Rc<Cell<usize>>,
    hits: Vec<Rc<Cell<usize>>>,
}

impl Fixture {
    fn new() -> Fixture {
        Fixture {
            log: Rc::new(RefCell::new(Vec::new())),
            total: Rc::new(Cell::new(0usize)),
            hits: Vec::new(),
        }
    }

    fn worker(&mut self, id: usize, succeed: bool) -> Worker {
        let hits = Rc::new(Cell::new(0usize));
        self.hits.push(hits.clone());
        Worker {
            id,
            log: self.log.clone(),
            hits,
            total: self.total.clone(),
            succeed,
        }
    }
}

#[test]
fn concurrent_publish_on_empty_registry_is_ok() {
    let mut p: EventPublisher<Worker> = EventPublisher::new();
    let r = p.publish_event_multithreaded(&Event::Args(3u64));
    assert!(r.is_ok());
}

#[test]
fn concurrent_publish_single_handler_matches_sequential() {
    let mut fx = Fixture::new();
    let mut p: EventPublisher<Worker> = EventPublisher::new();
    p.subscribe_handler(fx.worker(0, true));
    let r = p.publish_event_multithreaded(&Event::Args(4u64));
    assert!(r.is_ok());
    assert_eq!(fx.hits[0].get(), 1);
    let r2 = p.publish_event(&Event::Args(4u64));
    assert!(r2.is_ok());
    assert_eq!(fx.hits[0].get(), 2);
    assert_eq!(*fx.log.borrow(), vec![0, 0]);
}

#[test]
fn shard_count_is_bounded_by_handlers_and_workers() {
    assert_eq!(shard_count(0, 3), 1);
    assert_eq!(shard_count(1, 3), 1);
    assert_eq!(shard_count(2, 8), 2);
    assert_eq!(shard_count(10, 3), 3);
    assert_eq!(shard_count(64, 64), 64);
}

#[test]
fn five_handlers_across_four_shards_partition_two_one_one_one() {
    assert_eq!(shard_count(5, 4), 4);
    let sizes: Vec<usize> = (0..4).map(|j| shard_size(5, 4, j)).collect();
    assert_eq!(sizes, vec![2, 1, 1, 1]);
    assert_eq!(sizes.iter().sum::<usize>(), 5);
}

#[test]
fn sharded_pass_invokes_all_five_exactly_once() {
    let mut fx = Fixture::new();
    let mut p: EventPublisher<Worker> = EventPublisher::new();
    for id in 0..5 {
        p.subscribe_handler(fx.worker(id, true));
    }
    let r = p.publish_event_sharded(&Event::Args(9u64), 4);
    assert!(r.is_ok());
    assert_eq!(fx.total.get(), 5);
    for hits in &fx.hits {
        assert_eq!(hits.get(), 1);
    }
    // shard order: shard 0 holds indices 0 and 4, then shards 1, 2, 3
    assert_eq!(*fx.log.borrow(), vec![0, 4, 1, 2, 3]);
}

#[test]
fn failure_aborts_only_its_own_shard_and_all_failures_are_reported() {
    let mut fx = Fixture::new();
    let mut p: EventPublisher<Worker> = EventPublisher::new();
    let mut tokens = Vec::new();
    // index 0 and index 1 fail; shard 0 is {0, 4}, so index 4 must be skipped
    tokens.push(p.subscribe_handler(fx.worker(0, false)));
    tokens.push(p.subscribe_handler(fx.worker(1, false)));
    tokens.push(p.subscribe_handler(fx.worker(2, true)));
    tokens.push(p.subscribe_handler(fx.worker(3, true)));
    tokens.push(p.subscribe_handler(fx.worker(4, true)));
    let r = p.publish_event_sharded(&Event::Args(1u64), 4);
    let failures = r.expect_err("both failing handlers must be reported");
    assert_eq!(failures.len(), 2);
    assert_eq!(failures[0].shard, 0);
    assert_eq!(failures[0].token, tokens[0]);
    assert_eq!(failures[0].completed, 0);
    assert_eq!(failures[1].shard, 1);
    assert_eq!(failures[1].token, tokens[1]);
    assert_eq!(failures[1].completed, 0);
    assert_eq!(fx.hits[0].get(), 1);
    assert_eq!(fx.hits[1].get(), 1);
    assert_eq!(fx.hits[2].get(), 1);
    assert_eq!(fx.hits[3].get(), 1);
    assert_eq!(fx.hits[4].get(), 0, "shard 0 must stop after its failure");
}

#[test]
fn second_slot_failure_reports_one_completed() {
    let mut fx = Fixture::new();
    let mut p: EventPublisher<Worker> = EventPublisher::new();
    let mut tokens = Vec::new();
    // two shards over four handlers: shard 0 is {0, 2}, shard 1 is {1, 3};
    // index 2 (slot 1 of shard 0) fails after slot 0 completed
    tokens.push(p.subscribe_handler(fx.worker(0, true)));
    tokens.push(p.subscribe_handler(fx.worker(1, true)));
    tokens.push(p.subscribe_handler(fx.worker(2, false)));
    tokens.push(p.subscribe_handler(fx.worker(3, true)));
    let r = p.publish_event_sharded(&Event::Args(2u64), 2);
    let failures = r.expect_err("the failing handler must be reported");
    assert_eq!(failures.len(), 1);
    assert_eq!(failures[0].shard, 0);
    assert_eq!(failures[0].token, tokens[2]);
    assert_eq!(failures[0].completed, 1);
    assert_eq!(fx.total.get(), 4);
}

#[test]
fn one_worker_degrades_to_sequential_pass() {
    let mut fx = Fixture::new();
    let mut p: EventPublisher<Worker> = EventPublisher::new();
    let mut tokens = Vec::new();
    tokens.push(p.subscribe_handler(fx.worker(0, true)));
    tokens.push(p.subscribe_handler(fx.worker(1, false)));
    tokens.push(p.subscribe_handler(fx.worker(2, true)));
    let r = p.publish_event_sharded(&Event::Args(8u64), 1);
    let failures = r.expect_err("the failing handler must be reported");
    assert_eq!(failures.len(), 1);
    assert_eq!(failures[0].shard, 0);
    assert_eq!(failures[0].token, tokens[1]);
    assert_eq!(failures[0].completed, 1);
    assert_eq!(*fx.log.borrow(), vec![0, 1]);
    assert_eq!(fx.hits[2].get(), 0);
}

#[test]
fn concurrent_publish_invokes_every_handler_exactly_once() {
    let mut fx = Fixture::new();
    let mut p: EventPublisher<Worker> = EventPublisher::new();
    for id in 0..7 {
        p.subscribe_handler(fx.worker(id, true));
    }
    let r = p.publish_event_multithreaded(&Event::Args(6u64));
    assert!(r.is_ok());
    assert_eq!(fx.total.get(), 7);
    for hits in &fx.hits {
        assert_eq!(hits.get(), 1);
    }
}
