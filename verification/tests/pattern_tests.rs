use stateless::Error;
use stateless::Pattern;
use stateless::PatternMatcher;

#[test]
fn test_exact_patterns() {
    let pattern = Pattern::new("user:123").unwrap();

    assert!(pattern.matches("user:123"));
    assert!(!pattern.matches("user:124"));
    assert!(!pattern.matches("user:123:profile"));
}

#[test]
fn test_wildcard_patterns() {
    let pattern = Pattern::new("user:*").unwrap();

    assert!(pattern.matches("user:123"));
    assert!(pattern.matches("user:456"));
    assert!(!pattern.matches("profile:123"));
}

#[test]
fn test_trailing_wildcard_spans_suffixes() {
    // The wildcard matches any suffix of remaining segments, the empty
    // suffix included.
    let pattern = Pattern::new("user:*").unwrap();

    assert!(pattern.matches("user:123:profile"));
    assert!(pattern.matches("user"));
}

#[test]
fn test_variable_patterns() {
    let pattern = Pattern::new("user:{id}:profile").unwrap();

    assert!(pattern.matches("user:123:profile"));
    assert!(pattern.matches("user:456:profile"));
    assert!(!pattern.matches("user:123:settings"));
}

#[test]
fn test_regex_patterns() {
    let pattern = Pattern::new("user:[0-9]+:posts").unwrap();

    assert!(pattern.matches("user:123:posts"));
    assert!(!pattern.matches("user:abc:posts"));
}

#[test]
fn test_regex_quantifiers_and_classes() {
    let pattern = Pattern::new("v[0-9]*").unwrap();
    assert!(pattern.matches("v"));
    assert!(pattern.matches("v42"));
    assert!(!pattern.matches("vx"));

    let opt = Pattern::new("do?c").unwrap();
    assert!(opt.matches("dc"));
    assert!(opt.matches("doc"));
    assert!(!opt.matches("dooc"));

    let neg = Pattern::new("[^0-9]+").unwrap();
    assert!(neg.matches("abc"));
    assert!(!neg.matches("a1c"));

    let dot = Pattern::new("a.c").unwrap();
    assert!(dot.matches("abc"));
    assert!(dot.matches("axc"));
    assert!(!dot.matches("ac"));
}

#[test]
fn test_unterminated_variable_brace_rejected() {
    match Pattern::new("user:{id") {
        Err(Error::StrategyError(_)) => {}
        other => panic!("expected a strategy error, got {:?}", other),
    }
}

#[test]
fn test_invalid_regex_rejected() {
    match Pattern::new("user:[0-9") {
        Err(Error::StrategyError(_)) => {}
        other => panic!("expected a strategy error, got {:?}", other),
    }
    match Pattern::new("user:+abc") {
        Err(Error::StrategyError(_)) => {}
        other => panic!("expected a strategy error, got {:?}", other),
    }
    match Pattern::new("user:[]") {
        Err(Error::StrategyError(_)) => {}
        other => panic!("expected a strategy error, got {:?}", other),
    }
}

#[test]
fn test_overlap_is_conservative() {
    let a = Pattern::new("user:*").unwrap();
    let b = Pattern::new("user:123:profile").unwrap();
    let c = Pattern::new("product:*").unwrap();
    let d = Pattern::new("user:{id}").unwrap();

    assert!(a.overlaps(&b));
    assert!(b.overlaps(&a));
    assert!(!a.overlaps(&c));
    assert!(!c.overlaps(&a));
    assert!(a.overlaps(&d));
    assert!(d.overlaps(&a));
}

#[test]
fn test_specificity_order() {
    let broad = Pattern::new("user:*").unwrap();
    let narrow = Pattern::new("user:123:profile").unwrap();
    let var = Pattern::new("user:{id}").unwrap();

    assert!(narrow.more_specific(&broad));
    assert!(!broad.more_specific(&narrow));
    // Same literal characters; fewer flexible segments wins.
    assert!(!var.more_specific(&broad));
    assert!(!broad.more_specific(&var));
}

#[test]
fn test_pattern_matcher_registry() {
    let mut matcher = PatternMatcher::new();
    matcher.add(Pattern::new("user:*").unwrap());
    matcher.add(Pattern::new("product:{id}").unwrap());

    assert_eq!(matcher.len(), 2);
    assert!(matcher.matches("user:55"));
    assert!(matcher.matches("product:7"));
    assert!(!matcher.matches("order:7"));
}

#[test]
fn test_matching_keys_filters_enumeration() {
    let pattern = Pattern::new("user:*").unwrap();
    let keys = vec![
        "user:1".to_string(),
        "order:2".to_string(),
        "user:3".to_string(),
    ];
    let hits = pattern.matching_keys(&keys);
    assert_eq!(hits, vec!["user:1".to_string(), "user:3".to_string()]);
}

#[test]
fn test_wildcard_must_be_last_segment() {
    // The wildcard is a trailing construct; a `*` segment anywhere else
    // is rejected at compilation.
    match Pattern::new("a:*:b") {
        Err(Error::StrategyError(_)) => {}
        other => panic!("expected a strategy error, got {:?}", other),
    }
    assert!(Pattern::new("a:b:*").is_ok());
    assert!(Pattern::new("*").is_ok());
}
