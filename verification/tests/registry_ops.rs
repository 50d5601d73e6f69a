use aggregator::handles::{FeedHandle, NodeDetails, ProducerCallback, UnitHandle};
use aggregator::registry::{AddNode, Aggregator, DropChain, Subscribe};

fn add(chain: &str, node: u64, rec: u64) -> AddNode {
    AddNode {
        node: NodeDetails { id: node },
        chain: chain.to_string(),
        rec: ProducerCallback { id: rec },
    }
}

#[test]
fn end_to_end_scenario() {
    let mut a = Aggregator::new();

    // AddNode{chain:"polkadot", node:n1} with no prior entries creates one unit.
    let f1 = a.route_add_node(add("polkadot", 1, 10));
    assert!(f1.created);
    assert_eq!(f1.chain, "polkadot");
    assert_eq!(f1.node, NodeDetails { id: 1 });
    assert_eq!(f1.rec, ProducerCallback { id: 10 });

    // AddNode{chain:"polkadot", node:n2} reuses it: no second creation.
    let f2 = a.route_add_node(add("polkadot", 2, 20));
    assert!(!f2.created);
    assert_eq!(f2.unit, f1.unit);
    assert_eq!(f2.node, NodeDetails { id: 2 });
    assert_eq!(f2.rec, ProducerCallback { id: 20 });

    // DropChain from that unit removes the entry.
    let removed = a.handle_chain_empty(DropChain {
        chain: "polkadot".to_string(),
        sender: f1.unit,
    });
    assert!(removed);
    assert!(a.lookup(&"polkadot".to_string()).is_none());

    // A later AddNode creates a new, distinct unit.
    let f3 = a.route_add_node(add("polkadot", 3, 30));
    assert!(f3.created);
    assert_ne!(f3.unit, f1.unit);
    assert_eq!(a.lookup(&"polkadot".to_string()), Some(f3.unit));
}

#[test]
fn idempotent_resolution() {
    let mut a = Aggregator::new();
    let (h1, created1) = a.lazy_chain("kusama".to_string());
    let (h2, created2) = a.lazy_chain("kusama".to_string());
    assert!(created1);
    assert!(!created2);
    assert_eq!(h1, h2);
    assert_eq!(a.lookup(&"kusama".to_string()), Some(h1));
}

#[test]
fn dead_unit_is_replaced_in_place() {
    let mut a = Aggregator::new();
    let (h1, _) = a.lazy_chain("polkadot".to_string());
    a.mark_dead(h1);
    // The map still holds the dead handle until the next resolution.
    assert_eq!(a.lookup(&"polkadot".to_string()), Some(h1));
    let (h2, created) = a.lazy_chain("polkadot".to_string());
    assert!(created);
    assert_ne!(h1, h2);
    // Exactly one handle remains reachable: the replacement.
    assert_eq!(a.lookup(&"polkadot".to_string()), Some(h2));
}

#[test]
fn stale_drop_race() {
    let mut a = Aggregator::new();
    // create(C) -> h1; mark h1 dead; create(C) -> h2.
    let (h1, _) = a.lazy_chain("c".to_string());
    a.mark_dead(h1);
    let (h2, _) = a.lazy_chain("c".to_string());
    assert_ne!(h1, h2);
    // Deliver DropChain(C) tagged with h1's identity: a silent no-op.
    let removed = a.handle_chain_empty(DropChain { chain: "c".to_string(), sender: h1 });
    assert!(!removed);
    // lookup(C) must still resolve to h2, not absent.
    assert_eq!(a.lookup(&"c".to_string()), Some(h2));
}

#[test]
fn drop_is_identity_guarded_not_name_guarded() {
    let mut a = Aggregator::new();
    let (h1, _) = a.lazy_chain("c".to_string());
    // A drop naming the right chain but the wrong unit does nothing.
    let removed = a.handle_chain_empty(DropChain {
        chain: "c".to_string(),
        sender: UnitHandle { id: h1.id + 1 },
    });
    assert!(!removed);
    assert_eq!(a.lookup(&"c".to_string()), Some(h1));
}

#[test]
fn drop_of_absent_chain_is_noop() {
    let mut a = Aggregator::new();
    let (h1, _) = a.lazy_chain("one".to_string());
    let removed = a.handle_chain_empty(DropChain {
        chain: "other".to_string(),
        sender: h1,
    });
    assert!(!removed);
    assert_eq!(a.lookup(&"one".to_string()), Some(h1));
}

#[test]
fn chains_are_independent_and_case_sensitive() {
    let mut a = Aggregator::new();
    let (h1, c1) = a.lazy_chain("polkadot".to_string());
    let (h2, c2) = a.lazy_chain("Polkadot".to_string());
    assert!(c1 && c2);
    assert_ne!(h1, h2);
    a.mark_dead(h1);
    let (h3, c3) = a.lazy_chain("polkadot".to_string());
    assert!(c3);
    // The other chain's entry is untouched by the replacement.
    assert_eq!(a.lookup(&"Polkadot".to_string()), Some(h2));
    assert_eq!(a.lookup(&"polkadot".to_string()), Some(h3));
}

#[test]
fn subscribe_routes_through_same_unit() {
    let mut a = Aggregator::new();
    let f1 = a.route_add_node(add("polkadot", 1, 10));
    let s = a.subscribe(Subscribe {
        chain: "polkadot".to_string(),
        feed: FeedHandle { id: 7 },
    });
    assert!(!s.created);
    assert_eq!(s.unit, f1.unit);
    assert_eq!(s.chain, "polkadot");
    assert_eq!(s.feed, FeedHandle { id: 7 });
}

#[test]
fn subscribe_creates_unit_when_absent() {
    let mut a = Aggregator::new();
    let s = a.subscribe(Subscribe {
        chain: "westend".to_string(),
        feed: FeedHandle { id: 3 },
    });
    assert!(s.created);
    assert_eq!(a.lookup(&"westend".to_string()), Some(s.unit));
}

#[test]
fn lookup_absent() {
    let a = Aggregator::new();
    assert!(a.lookup(&"anything".to_string()).is_none());
}

#[test]
fn feed_slots_on_registry() {
    let mut a = Aggregator::new();
    let s0 = a.connect_feed(FeedHandle { id: 100 });
    let s1 = a.connect_feed(FeedHandle { id: 101 });
    assert_ne!(s0, s1);
    assert_eq!(a.feed_at(s0), Some(FeedHandle { id: 100 }));
    assert_eq!(a.feed_at(s1), Some(FeedHandle { id: 101 }));
    a.disconnect_feed(s0);
    assert_eq!(a.feed_at(s0), None);
    assert_eq!(a.feed_at(s1), Some(FeedHandle { id: 101 }));
    // Iteration skips the freed slot.
    let first = a.next_feed(0).expect("one live feed remains");
    assert_eq!(first, s1);
    assert!(a.next_feed(first + 1).is_none());
}
