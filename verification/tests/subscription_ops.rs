use elmore::subscriptions::Subscriptions;

#[test]
fn subscribing_twice_is_a_noop() {
    let mut subs = Subscriptions::new();
    let g = subs.subscribe("pulse");
    assert_eq!(g, Some(1));
    assert_eq!(subs.subscribe("pulse"), None);
    assert!(subs.is_live("pulse", 1));
}

#[test]
fn cancelling_stops_the_interval_and_unknown_ids_are_ignored() {
    let mut subs = Subscriptions::new();
    subs.cancel("nothing");
    assert!(!subs.is_active("nothing"));
    subs.subscribe("tick");
    subs.cancel("tick");
    assert!(!subs.is_active("tick"));
    assert!(!subs.is_live("tick", 1));
}

#[test]
fn resubscribing_retires_the_stale_generation() {
    let mut subs = Subscriptions::new();
    let first = subs.subscribe("tick").unwrap();
    subs.cancel("tick");
    let second = subs.subscribe("tick").unwrap();
    assert_ne!(first, second);
    assert!(!subs.is_live("tick", first));
    assert!(subs.is_live("tick", second));
}

#[test]
fn ids_are_independent() {
    let mut subs = Subscriptions::new();
    let a = subs.subscribe("a").unwrap();
    let b = subs.subscribe("b").unwrap();
    assert_ne!(a, b);
    subs.cancel("a");
    assert!(subs.is_live("b", b));
    assert!(!subs.is_active("a"));
    assert!(subs.can_subscribe());
}
