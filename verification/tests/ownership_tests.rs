use stateless::CacheArgs;
use stateless::Error;
use stateless::Layer;
use stateless::ManifestArgs;
use stateless::Lifetime;
use stateless::Ownership;
use stateless::OwnershipGraph;
use stateless::Pattern;

fn owner(template: &str, layer: Layer) -> Ownership {
    Ownership::new(template, layer, Vec::new(), None, Lifetime::Persistent, Vec::new()).unwrap()
}

fn owner_with(template: &str, layer: Layer, invalidates: Vec<String>) -> Ownership {
    Ownership::new(template, layer, Vec::new(), None, Lifetime::Persistent, invalidates).unwrap()
}

#[test]
fn test_basic_ownership() {
    let mut graph = OwnershipGraph::new();

    assert!(graph.register_owner(owner("user:*", Layer::Client)).is_ok());
    assert!(graph.register_owner(owner("product:*", Layer::Client)).is_ok());

    // A second writer on an already owned namespace is rejected.
    match graph.register_owner(owner("user:*", Layer::Client)) {
        Err(Error::PatternConflict(existing)) => assert_eq!(existing, "user:*"),
        other => panic!("expected a pattern conflict, got {:?}", other),
    }
}

#[test]
fn test_borrowing() {
    let mut graph = OwnershipGraph::new();
    graph.register_owner(owner("user:*", Layer::Client)).unwrap();

    // Multiple borrows should be fine.
    assert!(graph
        .register_borrow(Pattern::new("user:*").unwrap(), "read_user1")
        .is_ok());
    assert!(graph
        .register_borrow(Pattern::new("user:*").unwrap(), "read_user2")
        .is_ok());
    assert_eq!(graph.borrows.len(), 2);
}

#[test]
fn test_pattern_specificity() {
    let mut graph = OwnershipGraph::new();
    graph.register_owner(owner("user:*", Layer::Client)).unwrap();

    // Every overlap is rejected, refinement of an owned namespace
    // included: the broad claim already governs the narrow one.
    match graph.register_owner(owner("user:123:profile", Layer::Client)) {
        Err(Error::PatternConflict(existing)) => assert_eq!(existing, "user:*"),
        other => panic!("expected a pattern conflict, got {:?}", other),
    }
    assert_eq!(graph.owners.len(), 1);
}

#[test]
fn test_layer_constraints() {
    let mut graph = OwnershipGraph::new();
    graph.register_owner(owner("local:*", Layer::Client)).unwrap();
    graph.register_owner(owner("edge:*", Layer::Edge)).unwrap();
    graph.register_owner(owner("global:*", Layer::Server)).unwrap();

    assert_eq!(graph.resolve("local:doc").unwrap().layer, Layer::Client);
    assert_eq!(graph.resolve("edge:page").unwrap().layer, Layer::Edge);
    assert_eq!(graph.resolve("global:cfg").unwrap().layer, Layer::Server);

    // A borrow from a layer outside the owner's primary layer and
    // fallback chain is a layer violation.
    match graph.register_borrow_at(Pattern::new("local:*").unwrap(), "reader", Layer::Server) {
        Err(Error::LayerViolation(_)) => {}
        other => panic!("expected a layer violation, got {:?}", other),
    }
    assert!(graph
        .register_borrow_at(Pattern::new("local:*").unwrap(), "reader", Layer::Client)
        .is_ok());
}

#[test]
fn test_invalidation() {
    let mut graph = OwnershipGraph::new();
    graph
        .register_owner(owner_with(
            "user:*",
            Layer::Client,
            vec!["profile:*".to_string()],
        ))
        .unwrap();

    let affected = graph.invalidate("user:*");
    assert_eq!(affected, vec!["user:*".to_string(), "profile:*".to_string()]);
}

#[test]
fn test_lifetime_rules() {
    let mut graph = OwnershipGraph::new();
    let temp = Ownership::new(
        "temp:*",
        Layer::Client,
        Vec::new(),
        Some(60),
        Lifetime::Request,
        Vec::new(),
    )
    .unwrap();
    graph.register_owner(temp).unwrap();

    let resolved = graph.resolve("temp:scratch").unwrap();
    assert_eq!(resolved.lifetime, Lifetime::Request);
    assert_eq!(resolved.ttl, Some(60));
}

#[test]
fn test_strategy_composition() {
    // An owner with a fallback chain: the primary layer is consulted
    // first, then the declared fallback.
    let mut graph = OwnershipGraph::new();
    let user_data = Ownership::new(
        "user:*",
        Layer::Client,
        vec![Layer::Edge],
        None,
        Lifetime::Persistent,
        Vec::new(),
    )
    .unwrap();
    graph.register_owner(user_data).unwrap();

    let resolved = graph.resolve("user:9").unwrap();
    assert_eq!(resolved.layer, Layer::Client);
    assert_eq!(resolved.fallback, vec![Layer::Edge]);
}

#[test]
fn test_disjoint_prefixes_never_conflict_either_order() {
    // In either order, two owners with disjoint literal prefixes both
    // register without a conflict.
    let mut g1 = OwnershipGraph::new();
    assert!(g1.register_owner(owner("user:*", Layer::Client)).is_ok());
    assert!(g1.register_owner(owner("product:*", Layer::Edge)).is_ok());

    let mut g2 = OwnershipGraph::new();
    assert!(g2.register_owner(owner("product:*", Layer::Edge)).is_ok());
    assert!(g2.register_owner(owner("user:*", Layer::Client)).is_ok());
}

#[test]
fn test_overlap_keeps_exactly_the_first() {
    let mut graph = OwnershipGraph::new();
    graph.register_owner(owner("user:*", Layer::Client)).unwrap();
    assert!(graph.register_owner(owner("user:{id}", Layer::Edge)).is_err());
    assert_eq!(graph.owners.len(), 1);
    assert_eq!(graph.owners[0].template, "user:*");
}

#[test]
fn test_borrow_registration_is_idempotent() {
    let mut graph = OwnershipGraph::new();
    graph.register_owner(owner("user:*", Layer::Client)).unwrap();

    assert!(graph
        .register_borrow(Pattern::new("user:*").unwrap(), "reader")
        .is_ok());
    assert_eq!(graph.borrows.len(), 1);
    // The identical registration again: no error, no new state.
    assert!(graph
        .register_borrow(Pattern::new("user:*").unwrap(), "reader")
        .is_ok());
    assert_eq!(graph.borrows.len(), 1);
}

#[test]
fn test_borrow_without_owner_rejected() {
    let mut graph = OwnershipGraph::new();
    match graph.register_borrow(Pattern::new("orphan:*").unwrap(), "reader") {
        Err(Error::InvalidBorrowing(_)) => {}
        other => panic!("expected an invalid borrowing error, got {:?}", other),
    }
}

#[test]
fn test_mutual_invalidates_cycle_rejected() {
    // a -> b then b -> a closes a cycle and is rejected at registration.
    let mut graph = OwnershipGraph::new();
    graph
        .register_owner(owner_with("a:*", Layer::Client, vec!["b:*".to_string()]))
        .unwrap();
    match graph.register_owner(owner_with("b:*", Layer::Client, vec!["a:*".to_string()])) {
        Err(Error::PatternConflict(_)) => {}
        other => panic!("expected a pattern conflict, got {:?}", other),
    }
    assert_eq!(graph.owners.len(), 1);
}

#[test]
fn test_self_invalidation_rejected() {
    let mut graph = OwnershipGraph::new();
    match graph.register_owner(owner_with("a:*", Layer::Client, vec!["a:*".to_string()])) {
        Err(Error::PatternConflict(_)) => {}
        other => panic!("expected a pattern conflict, got {:?}", other),
    }
}

#[test]
fn test_invalidation_walks_transitively() {
    let mut graph = OwnershipGraph::new();
    graph
        .register_owner(owner_with("a:*", Layer::Client, vec!["b:*".to_string()]))
        .unwrap();
    graph
        .register_owner(owner_with("b:*", Layer::Client, vec!["c:*".to_string()]))
        .unwrap();

    let affected = graph.invalidate("a:*");
    assert_eq!(
        affected,
        vec!["a:*".to_string(), "b:*".to_string(), "c:*".to_string()]
    );

    // A template with no dependents still yields its own match set.
    assert_eq!(graph.invalidate("c:*"), vec!["c:*".to_string()]);
    assert_eq!(graph.invalidate("zzz:*"), vec!["zzz:*".to_string()]);
}

#[test]
fn test_unregister_blocked_by_borrow() {
    let mut graph = OwnershipGraph::new();
    graph.register_owner(owner("user:*", Layer::Client)).unwrap();
    graph
        .register_borrow(Pattern::new("user:*").unwrap(), "reader")
        .unwrap();

    match graph.unregister("user:*", false) {
        Err(Error::StrategyError(_)) => {}
        other => panic!("expected a strategy error, got {:?}", other),
    }
    assert_eq!(graph.owners.len(), 1);

    assert!(graph.unregister("user:*", true).is_ok());
    assert_eq!(graph.owners.len(), 0);

    match graph.unregister("user:*", true) {
        Err(Error::StrategyError(_)) => {}
        other => panic!("expected a strategy error, got {:?}", other),
    }
}

#[test]
fn test_resolve_prefers_specific_then_first() {
    let mut graph = OwnershipGraph::new();
    graph.register_owner(owner("user:*", Layer::Client)).unwrap();
    graph.register_owner(owner("order:{id}:lines", Layer::Server)).unwrap();

    assert_eq!(graph.resolve("user:7").unwrap().template, "user:*");
    assert_eq!(
        graph.resolve("order:7:lines").unwrap().template,
        "order:{id}:lines"
    );
    assert!(graph.resolve("none:7").is_none());
}

#[test]
fn test_descriptor_application() {
    let mut graph = OwnershipGraph::new();
    let manifest = ManifestArgs {
        patterns: vec![
            CacheArgs {
                owns: Some("user:*".to_string()),
                borrows: Vec::new(),
                invalidates: vec!["profile:*".to_string()],
            },
            CacheArgs {
                owns: None,
                borrows: vec!["user:*".to_string()],
                invalidates: Vec::new(),
            },
        ],
        layer: Some(Layer::Client),
        fallback: vec![Layer::Edge],
        ttl: None,
        lifetime: Lifetime::Persistent,
    };
    manifest.apply(&mut graph, "profile_service").unwrap();

    assert_eq!(graph.owners.len(), 1);
    assert_eq!(graph.owners[0].template, "user:*");
    assert_eq!(graph.owners[0].layer, Layer::Client);
    assert_eq!(graph.borrows.len(), 1);
    assert_eq!(graph.borrows[0].borrower, "profile_service");

    // A conflicting second manifest is rejected.
    let clash = ManifestArgs {
        patterns: vec![CacheArgs {
            owns: Some("user:{id}".to_string()),
            borrows: Vec::new(),
            invalidates: Vec::new(),
        }],
        layer: Some(Layer::Server),
        fallback: Vec::new(),
        ttl: None,
        lifetime: Lifetime::Persistent,
    };
    match clash.apply(&mut graph, "other_service") {
        Err(Error::PatternConflict(_)) => {}
        other => panic!("expected a pattern conflict, got {:?}", other),
    }
}

#[test]
fn test_owner_overlapping_active_borrow_rejected() {
    // An ownership registered after the fact that overlaps an active
    // borrow's pattern (necessarily under a different owner) is a
    // conflict naming the borrowed pattern.
    let mut graph = OwnershipGraph::new();
    graph.register_owner(owner("x:a:*", Layer::Client)).unwrap();
    graph
        .register_borrow(Pattern::new("x:{n}:data").unwrap(), "reader")
        .unwrap();

    match graph.register_owner(owner("x:b:data", Layer::Edge)) {
        Err(Error::PatternConflict(named)) => assert_eq!(named, "x:{n}:data"),
        other => panic!("expected a pattern conflict, got {:?}", other),
    }
    assert_eq!(graph.owners.len(), 1);
}

#[test]
fn test_conflict_error_names_preexisting_pattern() {
    let mut graph = OwnershipGraph::new();
    graph.register_owner(owner("user:*", Layer::Client)).unwrap();

    match graph.register_owner(owner("user:7", Layer::Edge)) {
        Err(Error::PatternConflict(named)) => assert_eq!(named, "user:*"),
        other => panic!("expected a pattern conflict, got {:?}", other),
    }
    // A cycle names the offending edge target.
    match graph.register_owner(owner_with("b:*", Layer::Client, vec!["b:*".to_string()])) {
        Err(Error::PatternConflict(named)) => assert_eq!(named, "b:*"),
        other => panic!("expected a pattern conflict, got {:?}", other),
    }
}

#[test]
fn test_own_and_borrow_conflicting_roles_rejected() {
    // One actor may not both own and borrow overlapping namespaces.
    let mut graph = OwnershipGraph::new();
    let claim = CacheArgs {
        owns: Some("user:*".to_string()),
        borrows: vec!["user:{id}".to_string()],
        invalidates: Vec::new(),
    };
    match claim.apply(
        &mut graph,
        Layer::Client,
        Vec::new(),
        None,
        Lifetime::Persistent,
        "split_actor",
    ) {
        Err(Error::InvalidBorrowing(named)) => assert_eq!(named, "user:{id}"),
        other => panic!("expected an invalid borrowing error, got {:?}", other),
    }
    // Atomic: nothing was registered.
    assert_eq!(graph.owners.len(), 0);
    assert_eq!(graph.borrows.len(), 0);
}

#[test]
fn test_descriptor_apply_is_atomic() {
    // A claim with a governed borrow and an ungoverned one registers
    // nothing at all.
    let mut graph = OwnershipGraph::new();
    graph.register_owner(owner("data:*", Layer::Server)).unwrap();

    let claim = CacheArgs {
        owns: None,
        borrows: vec!["data:*".to_string(), "orphan:*".to_string()],
        invalidates: Vec::new(),
    };
    match claim.apply(
        &mut graph,
        Layer::Client,
        Vec::new(),
        None,
        Lifetime::Persistent,
        "reader",
    ) {
        Err(Error::InvalidBorrowing(named)) => assert_eq!(named, "orphan:*"),
        other => panic!("expected an invalid borrowing error, got {:?}", other),
    }
    assert_eq!(graph.borrows.len(), 0);

    // A malformed template in a claim is a strategy error, again with
    // nothing registered.
    let bad = CacheArgs {
        owns: Some("broken:{x".to_string()),
        borrows: Vec::new(),
        invalidates: Vec::new(),
    };
    match bad.apply(
        &mut graph,
        Layer::Client,
        Vec::new(),
        None,
        Lifetime::Persistent,
        "writer",
    ) {
        Err(Error::StrategyError(_)) => {}
        other => panic!("expected a strategy error, got {:?}", other),
    }
    assert_eq!(graph.owners.len(), 1);
}

#[test]
fn test_manifest_registration_is_all_or_nothing() {
    // Two claims whose owns patterns overlap: the whole manifest is
    // rejected and the registry is left exactly as it was — no partial
    // graph mutation.
    let mut graph = OwnershipGraph::new();
    let manifest = ManifestArgs {
        patterns: vec![
            CacheArgs {
                owns: Some("user:*".to_string()),
                borrows: Vec::new(),
                invalidates: Vec::new(),
            },
            CacheArgs {
                owns: Some("user:{id}".to_string()),
                borrows: Vec::new(),
                invalidates: Vec::new(),
            },
        ],
        layer: Some(Layer::Client),
        fallback: Vec::new(),
        ttl: None,
        lifetime: Lifetime::Persistent,
    };
    match manifest.apply(&mut graph, "writer") {
        Err(Error::PatternConflict(_)) => {}
        other => panic!("expected a pattern conflict, got {:?}", other),
    }
    assert_eq!(graph.owners.len(), 0);
    assert_eq!(graph.borrows.len(), 0);

    // The same registry still accepts a clean manifest afterwards.
    let clean = ManifestArgs {
        patterns: vec![CacheArgs {
            owns: Some("user:*".to_string()),
            borrows: vec!["product:*".to_string()],
            invalidates: Vec::new(),
        }],
        layer: Some(Layer::Client),
        fallback: Vec::new(),
        ttl: None,
        lifetime: Lifetime::Persistent,
    };
    // Its borrow has no governing owner yet: rejected, again with no
    // effect.
    assert!(clean.apply(&mut graph, "writer").is_err());
    assert_eq!(graph.owners.len(), 0);
    assert_eq!(graph.borrows.len(), 0);
}
