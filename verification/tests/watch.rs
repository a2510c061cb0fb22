use k2v::poll::PollRange;
use k2v::watch::{range_holds, WaiterRegistry};

fn some(text: &str) -> Option<String> {
    Some(text.to_string())
}

fn whole(pk: &str) -> PollRange {
    PollRange { partition_key: pk.to_string(), prefix: None, start: None, end: None }
}

fn prefixed(pk: &str, prefix: &str) -> PollRange {
    PollRange { partition_key: pk.to_string(), prefix: some(prefix), start: None, end: None }
}

#[test]
fn range_holds_the_keys_between_its_bounds() {
    let range = PollRange {
        partition_key: "p".to_string(),
        prefix: some("a"),
        start: some("a2"),
        end: some("a5"),
    };
    assert!(range_holds(&range, "p", "a2"));
    assert!(range_holds(&range, "p", "a4"));
    assert!(!range_holds(&range, "p", "a5"));
    assert!(!range_holds(&range, "p", "a1"));
    assert!(!range_holds(&range, "q", "a2"));
    assert!(range_holds(&whole("p"), "p", ""));
    assert!(!range_holds(&prefixed("p", "b"), "p", "a"));
}

#[test]
fn each_poll_waits_under_a_ticket_of_its_own() {
    let mut registry = WaiterRegistry::new();
    assert_eq!(registry.len(), 0);
    assert_eq!(registry.register(whole("p")), Some(0));
    assert_eq!(registry.register(whole("p")), Some(1));
    assert_eq!(registry.register(whole("q")), Some(2));
    assert_eq!(registry.len(), 3);
    assert!(registry.is_waiting(1));
    assert!(!registry.is_waiting(3));
}

#[test]
fn a_write_wakes_every_poll_whose_range_holds_its_key() {
    let mut registry = WaiterRegistry::new();
    registry.register(whole("p"));
    registry.register(prefixed("p", "a"));
    registry.register(prefixed("p", "b"));
    registry.register(whole("q"));
    registry.register(whole("p"));
    assert_eq!(registry.notify("p", "a1"), vec![0, 1, 4]);
    assert_eq!(registry.notify("p", "b1"), vec![0, 2, 4]);
    assert_eq!(registry.notify("q", "a1"), vec![3]);
    assert_eq!(registry.notify("r", "a1"), Vec::<u64>::new());
    assert_eq!(registry.len(), 5);
}

#[test]
fn a_poll_that_is_given_up_leaves_the_registry() {
    let mut registry = WaiterRegistry::new();
    registry.register(whole("p"));
    registry.register(whole("p"));
    registry.register(whole("p"));
    assert!(registry.cancel(1));
    assert_eq!(registry.len(), 2);
    assert!(!registry.is_waiting(1));
    assert_eq!(registry.notify("p", "a"), vec![0, 2]);
    assert!(!registry.cancel(1));
    assert!(!registry.cancel(7));
    assert_eq!(registry.len(), 2);
    assert!(registry.cancel(0));
    assert!(registry.cancel(2));
    assert_eq!(registry.len(), 0);
    assert_eq!(registry.register(whole("p")), Some(3));
}
