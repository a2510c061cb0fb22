use k2v::causality::CausalContext;
use k2v::item::{DvvsValue, ItemFilter, K2VItem};
use k2v::range::{is_selected, read_range, EnumerationOrder};
use k2v::table::ItemTable;

fn value(text: &str) -> DvvsValue {
    DvvsValue::Value(text.as_bytes().to_vec())
}

fn sample() -> ItemTable {
    let mut table = ItemTable::new(1);
    for (pk, sk) in [("p", "b2"), ("p", "a1"), ("q", "a1"), ("p", "a3"), ("p", "b1"), ("p", "a2"), ("o", "zz")] {
        table.insert(pk.to_string(), sk.to_string(), None, value(sk)).unwrap();
    }
    table
}

fn some(text: &str) -> Option<String> {
    Some(text.to_string())
}

fn sort_keys(items: &Vec<&K2VItem>) -> Vec<String> {
    items.iter().map(|i| i.sort_key.clone()).collect()
}

fn names(keys: &[&str]) -> Vec<String> {
    keys.iter().map(|k| k.to_string()).collect()
}

#[test]
fn from_reverse_picks_the_direction() {
    assert_eq!(EnumerationOrder::from_reverse(false), EnumerationOrder::Forward);
    assert_eq!(EnumerationOrder::from_reverse(true), EnumerationOrder::Reverse);
    assert!(EnumerationOrder::Reverse.is_reverse());
    assert!(!EnumerationOrder::Forward.is_reverse());
}

#[test]
fn a_listing_without_bounds_gives_the_partition_in_order() {
    let table = sample();
    let (items, more, next) =
        read_range(&table, "p", &None, &None, &None, None, None, EnumerationOrder::Forward);
    assert_eq!(sort_keys(&items), names(&["a1", "a2", "a3", "b1", "b2"]));
    assert!(!more);
    assert_eq!(next, None);
}

#[test]
fn a_reverse_listing_is_the_forward_listing_backwards() {
    let table = sample();
    let (forward, _, _) =
        read_range(&table, "p", &None, &None, &None, None, None, EnumerationOrder::Forward);
    let (backward, more, next) =
        read_range(&table, "p", &None, &None, &None, None, None, EnumerationOrder::Reverse);
    assert_eq!(sort_keys(&backward), names(&["b2", "b1", "a3", "a2", "a1"]));
    let mut turned = sort_keys(&forward);
    turned.reverse();
    assert_eq!(sort_keys(&backward), turned);
    assert!(!more);
    assert_eq!(next, None);
}

#[test]
fn a_prefix_narrows_the_listing() {
    let table = sample();
    let (items, more, _) =
        read_range(&table, "p", &some("a"), &None, &None, None, None, EnumerationOrder::Forward);
    assert_eq!(sort_keys(&items), names(&["a1", "a2", "a3"]));
    assert!(!more);
    let (items, _, _) =
        read_range(&table, "p", &some("b"), &None, &None, None, None, EnumerationOrder::Reverse);
    assert_eq!(sort_keys(&items), names(&["b2", "b1"]));
    let (items, _, _) =
        read_range(&table, "p", &some("c"), &None, &None, None, None, EnumerationOrder::Forward);
    assert_eq!(sort_keys(&items), names(&[]));
}

#[test]
fn start_is_included_and_end_is_left_out() {
    let table = sample();
    let (items, _, _) = read_range(
        &table,
        "p",
        &None,
        &some("a2"),
        &some("b2"),
        None,
        None,
        EnumerationOrder::Forward,
    );
    assert_eq!(sort_keys(&items), names(&["a2", "a3", "b1"]));
}

#[test]
fn in_reverse_start_is_the_upper_bound_and_end_the_lower() {
    let table = sample();
    let (items, _, _) = read_range(
        &table,
        "p",
        &None,
        &some("b1"),
        &some("a1"),
        None,
        None,
        EnumerationOrder::Reverse,
    );
    assert_eq!(sort_keys(&items), names(&["b1", "a3", "a2"]));
}

#[test]
fn prefix_and_bounds_hold_together() {
    let table = sample();
    let (items, _, _) = read_range(
        &table,
        "p",
        &some("a"),
        &some("a2"),
        &some("b2"),
        None,
        None,
        EnumerationOrder::Forward,
    );
    assert_eq!(sort_keys(&items), names(&["a2", "a3"]));
}

#[test]
fn a_limit_cuts_the_listing_and_gives_a_cursor() {
    let table = sample();
    let (items, more, next) =
        read_range(&table, "p", &None, &None, &None, Some(2), None, EnumerationOrder::Forward);
    assert_eq!(sort_keys(&items), names(&["a1", "a2"]));
    assert!(more);
    assert_eq!(next, some("a3"));
    let (items, more, next) =
        read_range(&table, "p", &None, &None, &None, Some(5), None, EnumerationOrder::Forward);
    assert_eq!(items.len(), 5);
    assert!(!more);
    assert_eq!(next, None);
    let (items, more, next) =
        read_range(&table, "p", &None, &None, &None, Some(0), None, EnumerationOrder::Forward);
    assert_eq!(items.len(), 0);
    assert!(more);
    assert_eq!(next, some("a1"));
}

#[test]
fn pages_taken_one_after_another_give_the_whole_listing() {
    let table = sample();
    for reverse in [false, true] {
        let order = EnumerationOrder::from_reverse(reverse);
        let (whole, _, _) = read_range(&table, "p", &None, &None, &None, None, None, order);
        for limit in 1..7 {
            let mut seen: Vec<String> = Vec::new();
            let mut start: Option<String> = None;
            let mut pages = 0;
            loop {
                let (items, more, next) =
                    read_range(&table, "p", &None, &start, &None, Some(limit), None, order);
                seen.extend(sort_keys(&items));
                pages += 1;
                assert_eq!(more, next.is_some());
                if !more {
                    break;
                }
                assert_eq!(items.len() as u64, limit);
                start = next;
                assert!(pages < 10);
            }
            assert_eq!(seen, sort_keys(&whole));
        }
    }
}

#[test]
fn pages_in_reverse_take_up_at_the_cursor() {
    let table = sample();
    let (items, more, next) =
        read_range(&table, "p", &None, &None, &None, Some(2), None, EnumerationOrder::Reverse);
    assert_eq!(sort_keys(&items), names(&["b2", "b1"]));
    assert!(more);
    assert_eq!(next, some("a3"));
    let (items, more, next) =
        read_range(&table, "p", &None, &next, &None, Some(2), None, EnumerationOrder::Reverse);
    assert_eq!(sort_keys(&items), names(&["a3", "a2"]));
    assert!(more);
    assert_eq!(next, some("a1"));
    let (items, more, next) =
        read_range(&table, "p", &None, &next, &None, Some(2), None, EnumerationOrder::Reverse);
    assert_eq!(sort_keys(&items), names(&["a1"]));
    assert!(!more);
    assert_eq!(next, None);
}

#[test]
fn the_filter_is_applied_before_the_limit() {
    let mut table = sample();
    let cc = table.get("p", "a2").unwrap().causal_context();
    table.insert("p".to_string(), "a2".to_string(), Some(cc), DvvsValue::Deleted).unwrap();
    let live = ItemFilter { exclude_only_tombstones: true, conflicts_only: false };
    let (items, more, next) = read_range(
        &table,
        "p",
        &None,
        &None,
        &None,
        Some(2),
        Some(live),
        EnumerationOrder::Forward,
    );
    assert_eq!(sort_keys(&items), names(&["a1", "a3"]));
    assert!(more);
    assert_eq!(next, some("b1"));
    let all = ItemFilter { exclude_only_tombstones: false, conflicts_only: false };
    let (items, _, next) = read_range(
        &table,
        "p",
        &None,
        &None,
        &None,
        Some(2),
        Some(all),
        EnumerationOrder::Forward,
    );
    assert_eq!(sort_keys(&items), names(&["a1", "a2"]));
    assert_eq!(next, some("a3"));
}

#[test]
fn a_filter_for_conflicts_keeps_only_items_in_conflict() {
    let mut table = sample();
    table.insert("p".to_string(), "b1".to_string(), None, value("other")).unwrap();
    let conflicts = ItemFilter { exclude_only_tombstones: false, conflicts_only: true };
    let (items, more, _) = read_range(
        &table,
        "p",
        &None,
        &None,
        &None,
        None,
        Some(conflicts),
        EnumerationOrder::Forward,
    );
    assert_eq!(sort_keys(&items), names(&["b1"]));
    assert!(!more);
}

#[test]
fn another_partition_is_not_listed() {
    let table = sample();
    let (items, _, _) =
        read_range(&table, "q", &None, &None, &None, None, None, EnumerationOrder::Forward);
    assert_eq!(sort_keys(&items), names(&["a1"]));
    let (items, _, _) =
        read_range(&table, "r", &None, &None, &None, None, None, EnumerationOrder::Forward);
    assert_eq!(items.len(), 0);
}

#[test]
fn is_selected_tests_one_item() {
    let mut item = K2VItem::new("p".to_string(), "a2".to_string());
    item.update(k2v::item::Dot { node: 1, counter: 1 }, &None::<CausalContext>, value("x"));
    assert!(is_selected(&item, "p", &None, &None, &None, &None, false));
    assert!(!is_selected(&item, "q", &None, &None, &None, &None, false));
    assert!(is_selected(&item, "p", &some("a"), &some("a2"), &some("a3"), &None, false));
    assert!(!is_selected(&item, "p", &None, &some("a3"), &None, &None, false));
    assert!(is_selected(&item, "p", &None, &some("a3"), &None, &None, true));
    assert!(!is_selected(&item, "p", &None, &None, &some("a2"), &None, false));
    assert!(!is_selected(&item, "p", &None, &None, &some("a2"), &None, true));
    assert!(is_selected(&item, "p", &None, &None, &some("a1"), &None, true));
}
