use stateless::CacheEntry;
use stateless::CacheStrategy;
use stateless::Error;
use stateless::Layer;
use stateless::Lifetime;
use stateless::Ownership;
use stateless::Pattern;
use stateless::layer::quick_start;
use stateless::strategy::OpEvent;
use stateless::strategy::OpState;
use stateless::strategy::OpTracker;

fn entry(value: &str) -> CacheEntry {
    CacheEntry::new(value.as_bytes().to_vec())
}

#[test]
fn run_all_tests() {
    // The cache assembles without configuration.
    let cache = quick_start();
    assert!(cache.graph.owners.is_empty());
    let authoritative = stateless::layer::auto();
    assert_eq!(authoritative.default_layer, Some(Layer::Server));
}

#[test]
fn test_local_miss_is_not_found_not_error() {
    // An owner with an empty fallback chain: a miss at the client layer
    // is reported as absence, not as an error, and no other layer is
    // consulted.
    let mut cache = quick_start();
    cache
        .register_owner(
            Ownership::new(
                "local:*",
                Layer::Client,
                Vec::new(),
                None,
                Lifetime::Persistent,
                Vec::new(),
            )
            .unwrap(),
        )
        .unwrap();

    // The same key sits on the server layer, which the chain never
    // names: it stays invisible.
    cache.server.insert("local:doc1", entry("stale"));

    let got = cache.get("local:doc1").unwrap();
    assert!(got.is_none());
}

#[test]
fn test_set_then_get_roundtrip() {
    let mut cache = quick_start();
    cache
        .register_owner(
            Ownership::new(
                "user:*",
                Layer::Client,
                Vec::new(),
                None,
                Lifetime::Persistent,
                Vec::new(),
            )
            .unwrap(),
        )
        .unwrap();

    cache.set("user:123", entry("Alice")).unwrap();
    let got = cache.get("user:123").unwrap().unwrap();
    assert_eq!(got.value, b"Alice".to_vec());

    cache.delete("user:123").unwrap();
    assert!(cache.get("user:123").unwrap().is_none());
}

#[test]
fn test_fallback_chain_consulted_in_order() {
    let mut cache = quick_start();
    cache
        .register_owner(
            Ownership::new(
                "user:*",
                Layer::Client,
                vec![Layer::Edge, Layer::Server],
                None,
                Lifetime::Persistent,
                Vec::new(),
            )
            .unwrap(),
        )
        .unwrap();

    cache.edge.insert("user:7", entry("from-edge"));
    cache.server.insert("user:7", entry("from-server"));

    let got = cache.get("user:7").unwrap().unwrap();
    assert_eq!(got.value, b"from-edge".to_vec());
}

#[test]
fn test_pattern_invalidation() {
    let mut cache = quick_start();
    cache
        .register_owner(
            Ownership::new(
                "cart:*",
                Layer::Client,
                Vec::new(),
                None,
                Lifetime::Persistent,
                vec!["total:*".to_string()],
            )
            .unwrap(),
        )
        .unwrap();

    // Update cart.
    cache.set("cart:123:item1", entry("product1")).unwrap();
    cache.set("cart:123:item2", entry("product2")).unwrap();

    // Total should be invalidated.
    assert!(cache.get("total:123").unwrap().is_none());

    // Recalculate total.
    cache.set("total:123", entry("300")).unwrap();
    assert!(cache.get("total:123").unwrap().is_some());

    // Update cart again.
    cache.set("cart:123:item3", entry("product3")).unwrap();

    // Total should be invalidated again.
    assert!(cache.get("total:123").unwrap().is_none());
}

#[test]
fn test_determine_location() {
    let mut cache = quick_start();
    cache
        .register_owner(
            Ownership::new(
                "global:*",
                Layer::Server,
                Vec::new(),
                None,
                Lifetime::Persistent,
                Vec::new(),
            )
            .unwrap(),
        )
        .unwrap();

    assert_eq!(cache.determine_location("global:cfg").unwrap(), Layer::Server);
    // An unresolved key goes to the configured default.
    assert_eq!(cache.determine_location("other:1").unwrap(), Layer::Client);

    // Without a default layer an unresolved key is a strategy error.
    let bare = stateless::LayerCoordinator::new(None);
    match bare.determine_location("other:1") {
        Err(Error::StrategyError(_)) => {}
        other => panic!("expected a strategy error, got {:?}", other),
    }
}

#[test]
fn test_strategy_trait_dispatch() {
    let mut cache = quick_start();
    cache
        .register_owner(
            Ownership::new(
                "user:*",
                Layer::Edge,
                Vec::new(),
                None,
                Lifetime::Persistent,
                vec!["feed:*".to_string()],
            )
            .unwrap(),
        )
        .unwrap();

    assert_eq!(
        CacheStrategy::determine_location(&cache, "user:3").unwrap(),
        Layer::Edge
    );
    let affected = CacheStrategy::handle_invalidation(&mut cache, "user:*").unwrap();
    assert_eq!(affected, vec!["user:*".to_string(), "feed:*".to_string()]);
}

#[test]
fn test_coordinator_invalidate_purges_all_tiers() {
    let mut cache = quick_start();
    cache.client.insert("doc:1", entry("c"));
    cache.edge.insert("doc:2", entry("e"));
    cache.server.insert("doc:3", entry("s"));
    cache.server.insert("other:1", entry("kept"));

    let pattern = Pattern::new("doc:*").unwrap();
    let affected = cache.invalidate(&pattern);
    assert_eq!(affected, vec!["doc:*".to_string()]);

    assert!(cache.client.lookup("doc:1").is_none());
    assert!(cache.edge.lookup("doc:2").is_none());
    assert!(cache.server.lookup("doc:3").is_none());
    assert_eq!(cache.server.lookup("other:1").unwrap().value, b"kept".to_vec());
}

#[test]
fn test_default_layer_set_without_owner() {
    let mut cache = quick_start();
    cache.set("free:1", entry("v")).unwrap();
    assert_eq!(cache.get("free:1").unwrap().unwrap().value, b"v".to_vec());
    cache.delete("free:1").unwrap();
    assert!(cache.get("free:1").unwrap().is_none());
}

#[test]
fn test_error_describe_carries_payload() {
    let e = Error::PatternConflict("user:*".to_string());
    assert_eq!(e.describe(), "user:*");
}

#[test]
fn test_layer_rank_orders_tiers() {
    assert!(Layer::Client.rank() < Layer::Edge.rank());
    assert!(Layer::Edge.rank() < Layer::Server.rank());
}

#[test]
fn test_operation_state_machine() {
    // A failure advances the chain; exhaustion is an error state
    // distinct from absence.
    let mut op = OpTracker::start(vec![Layer::Client, Layer::Edge]);
    assert_eq!(op.state, OpState::Resolved(0));
    assert_eq!(op.dispatch(), Some(Layer::Client));
    op.observe(OpEvent::Failure);
    assert_eq!(op.state, OpState::FailedOver(1));
    assert_eq!(op.dispatch(), Some(Layer::Edge));
    op.observe(OpEvent::Failure);
    assert_eq!(op.state, OpState::Exhausted);

    // An authoritative miss at the end of the chain is a true miss.
    let mut op2 = OpTracker::start(vec![Layer::Client]);
    assert_eq!(op2.dispatch(), Some(Layer::Client));
    op2.observe(OpEvent::Miss);
    assert_eq!(op2.state, OpState::NotFound);

    // A hit completes the operation.
    let mut op3 = OpTracker::start(vec![Layer::Server]);
    assert_eq!(op3.dispatch(), Some(Layer::Server));
    op3.observe(OpEvent::Hit);
    assert_eq!(op3.state, OpState::Completed);

    // An empty chain is exhausted from the outset.
    let op4 = OpTracker::start(Vec::new());
    assert_eq!(op4.state, OpState::Exhausted);
}

#[test]
fn test_pattern_operations() {
    let mut cache = quick_start();

    // Set some test data.
    cache.set("user:123:profile", entry("Alice")).unwrap();
    cache.set("user:123:settings", entry("dark_mode")).unwrap();
    cache.set("user:456:profile", entry("Bob")).unwrap();

    // Pattern operations over a caller-supplied key enumeration.
    let pattern = Pattern::new("user:123:*").unwrap();
    let keys: Vec<String> = cache.client.entries.iter().map(|p| p.0.clone()).collect();
    let hits = pattern.matching_keys(&keys);
    assert_eq!(hits.len(), 2);

    cache.invalidate(&pattern);
    assert!(cache.get("user:123:profile").unwrap().is_none());
    assert!(cache.get("user:456:profile").unwrap().is_some());
}
