use k2v::causality::CausalContext;
use k2v::item::{Dot, DvvsValue, ItemFilter, K2VItem};

fn dot(node: u64, counter: u64) -> Dot {
    Dot { node, counter }
}

fn value(text: &str) -> DvvsValue {
    DvvsValue::Value(text.as_bytes().to_vec())
}

fn context(entries: &[(u64, u64)]) -> CausalContext {
    let mut c = CausalContext::new();
    for (node, time) in entries {
        c.set(*node, *time);
    }
    c
}

fn payloads(item: &K2VItem) -> Vec<Option<Vec<u8>>> {
    item.values()
        .into_iter()
        .map(|v| match v {
            DvvsValue::Value(b) => Some(b.clone()),
            DvvsValue::Deleted => None,
        })
        .collect()
}

#[test]
fn a_new_item_holds_no_value() {
    let item = K2VItem::new("u1".to_string(), "a".to_string());
    assert_eq!(item.partition_key, "u1");
    assert_eq!(item.sort_key, "a");
    assert_eq!(item.value_count(), 0);
    assert_eq!(item.causal_context(), CausalContext::new());
    assert!(item.is_tombstone());
    assert!(!item.is_conflicted());
}

#[test]
fn a_write_without_context_removes_nothing() {
    let mut item = K2VItem::new("u1".to_string(), "a".to_string());
    item.update(dot(1, 1), &None, value("x1"));
    item.update(dot(1, 2), &None, value("x2"));
    item.update(dot(2, 1), &None, DvvsValue::Deleted);
    assert_eq!(
        payloads(&item),
        vec![Some(b"x1".to_vec()), Some(b"x2".to_vec()), None]
    );
    assert!(item.is_conflicted());
    assert!(!item.is_tombstone());
}

#[test]
fn a_write_supersedes_the_values_that_its_context_covers() {
    let mut item = K2VItem::new("u1".to_string(), "a".to_string());
    item.update(dot(1, 1), &None, value("x1"));
    item.update(dot(1, 2), &None, value("x2"));
    item.update(dot(2, 1), &None, value("y1"));
    item.update(dot(2, 2), &Some(context(&[(1, 1), (2, 1)])), value("z"));
    assert_eq!(payloads(&item), vec![Some(b"x2".to_vec()), Some(b"z".to_vec())]);
    assert_eq!(item.values[0].dot, dot(1, 2));
    assert_eq!(item.values[1].dot, dot(2, 2));
}

#[test]
fn a_write_under_the_items_own_context_leaves_one_value() {
    let mut item = K2VItem::new("u1".to_string(), "a".to_string());
    item.update(dot(1, 1), &None, value("x1"));
    item.update(dot(2, 4), &None, value("x2"));
    let cc = item.causal_context();
    assert_eq!(cc, context(&[(1, 1), (2, 4)]));
    item.update(dot(1, 2), &Some(cc), value("x3"));
    assert_eq!(payloads(&item), vec![Some(b"x3".to_vec())]);
    assert!(!item.is_conflicted());
    assert_eq!(item.causal_context(), context(&[(1, 2)]));
}

#[test]
fn causal_context_joins_the_dots_of_the_values() {
    let mut item = K2VItem::new("u1".to_string(), "a".to_string());
    item.update(dot(3, 9), &None, value("a"));
    item.update(dot(3, 2), &None, value("b"));
    item.update(dot(1, 1), &None, value("c"));
    assert_eq!(item.causal_context(), context(&[(1, 1), (3, 9)]));
}

#[test]
fn values_written_with_contexts_that_do_not_cover_each_other_conflict() {
    let mut item = K2VItem::new("u1".to_string(), "a".to_string());
    item.update(dot(1, 1), &Some(context(&[(2, 3)])), value("x1"));
    item.update(dot(2, 4), &Some(context(&[(1, 0), (2, 3)])), value("x2"));
    let conflicts = ItemFilter { exclude_only_tombstones: false, conflicts_only: true };
    assert!(item.matches_filter(&conflicts));
    assert!(item.is_conflicted());
}

#[test]
fn an_item_with_one_value_is_no_conflict() {
    let mut item = K2VItem::new("u1".to_string(), "a".to_string());
    item.update(dot(1, 1), &None, value("x1"));
    let conflicts = ItemFilter { exclude_only_tombstones: false, conflicts_only: true };
    assert!(!item.matches_filter(&conflicts));
    let all = ItemFilter { exclude_only_tombstones: false, conflicts_only: false };
    assert!(item.matches_filter(&all));
}

#[test]
fn a_filter_can_leave_out_deleted_items() {
    let mut item = K2VItem::new("u1".to_string(), "a".to_string());
    item.update(dot(1, 1), &None, DvvsValue::Deleted);
    item.update(dot(2, 1), &None, DvvsValue::Deleted);
    assert!(item.is_tombstone());
    let live = ItemFilter { exclude_only_tombstones: true, conflicts_only: false };
    let all = ItemFilter { exclude_only_tombstones: false, conflicts_only: false };
    let conflicts = ItemFilter { exclude_only_tombstones: false, conflicts_only: true };
    assert!(!item.matches_filter(&live));
    assert!(item.matches_filter(&all));
    assert!(!item.matches_filter(&conflicts));
    item.update(dot(3, 1), &None, value(""));
    assert!(!item.is_tombstone());
    assert!(item.matches_filter(&live));
}

#[test]
fn marks_of_deletions_are_no_part_of_a_conflict() {
    let conflicts = ItemFilter { exclude_only_tombstones: false, conflicts_only: true };
    let mut item = K2VItem::new("u1".to_string(), "a".to_string());
    item.update(dot(1, 1), &None, DvvsValue::Deleted);
    item.update(dot(2, 1), &None, DvvsValue::Deleted);
    assert_eq!(item.live_values(), 0);
    assert!(!item.is_conflicted());
    assert!(!item.matches_filter(&conflicts));
    item.update(dot(3, 1), &None, value("x"));
    assert_eq!(item.live_values(), 1);
    assert_eq!(item.value_count(), 3);
    assert!(!item.is_conflicted());
    assert!(!item.matches_filter(&conflicts));
    item.update(dot(4, 1), &None, value("y"));
    assert_eq!(item.live_values(), 2);
    assert!(item.is_conflicted());
    assert!(item.matches_filter(&conflicts));
    let both = ItemFilter { exclude_only_tombstones: true, conflicts_only: true };
    assert!(item.matches_filter(&both));
}

#[test]
fn an_empty_payload_is_no_deletion() {
    let v = DvvsValue::Value(vec![]);
    assert!(!v.is_deleted());
    assert!(DvvsValue::Deleted.is_deleted());
    assert_eq!(v.duplicate(), DvvsValue::Value(vec![]));
}

#[test]
fn duplicate_copies_an_item() {
    let mut item = K2VItem::new("u1".to_string(), "a".to_string());
    item.update(dot(1, 1), &None, value("x1"));
    item.update(dot(1, 2), &None, DvvsValue::Deleted);
    assert_eq!(item.duplicate(), item);
}
