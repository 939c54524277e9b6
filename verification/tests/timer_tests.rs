use naming_listener::naming::ServiceKey;
use naming_listener::timer::TimeoutSet;

fn key(name: &str) -> ServiceKey {
    ServiceKey::new("ns".to_string(), "g".to_string(), name.to_string())
}

#[test]
fn drain_returns_due_entries_in_expiry_order() {
    let mut t = TimeoutSet::new();
    t.add(30, key("c"));
    t.add(10, key("a"));
    t.add(20, key("b"));
    let due = t.timeout(20);
    let names: Vec<&str> = due.iter().map(|k| k.service_name.as_str()).collect();
    assert_eq!(names, vec!["a", "b"]);
    // drained entries are gone; the later one stays
    let due = t.timeout(25);
    assert_eq!(due.len(), 0);
    let due = t.timeout(30);
    assert_eq!(due.len(), 1);
    assert_eq!(due[0].service_name.as_str(), "c");
    assert_eq!(t.len(), 0);
}

#[test]
fn duplicate_keys_and_expiries_coexist() {
    let mut t = TimeoutSet::new();
    t.add(5, key("a"));
    t.add(5, key("a"));
    t.add(5, key("b"));
    let due = t.timeout(5);
    assert_eq!(due.len(), 3);
}

#[test]
fn drain_on_empty_schedule_is_empty() {
    let mut t = TimeoutSet::new();
    assert_eq!(t.timeout(1000).len(), 0);
    assert_eq!(t.len(), 0);
}
