use k2v::batch::{handle_insert_batch, InsertBatchItem, ReadBatchResponseItem};
use k2v::causality::CausalContext;
use k2v::error::Error;
use k2v::item::{Dot, DvvsValue, K2VItem};
use k2v::poll::{
    handle_poll_range, is_unseen, poll_range, poll_step, poll_timeout_msec, remaining_wait,
    PollAction, PollEvent,
    PollRange, PollRangeQuery, PollRangeResponse,
};
use k2v::table::ItemTable;

fn some(text: &str) -> Option<String> {
    Some(text.to_string())
}

fn write(table: &mut ItemTable, pk: &str, sk: &str, v: &str) {
    let item = InsertBatchItem { pk: pk.to_string(), sk: sk.to_string(), ct: None, v: some(v) };
    handle_insert_batch(table, vec![item]).unwrap();
}

fn query(marker: Option<&str>) -> PollRangeQuery {
    PollRangeQuery {
        prefix: None,
        start: None,
        end: None,
        timeout: None,
        seen_marker: marker.map(|s| s.to_string()),
    }
}

fn whole(pk: &str) -> PollRange {
    PollRange { partition_key: pk.to_string(), prefix: None, start: None, end: None }
}

fn sort_keys(items: &Vec<&K2VItem>) -> Vec<String> {
    items.iter().map(|i| i.sort_key.clone()).collect()
}

#[test]
fn the_wait_is_held_between_its_bounds() {
    assert_eq!(poll_timeout_msec(None), 300_000);
    assert_eq!(poll_timeout_msec(Some(42)), 42_000);
    assert_eq!(poll_timeout_msec(Some(0)), 10_000);
    assert_eq!(poll_timeout_msec(Some(9)), 10_000);
    assert_eq!(poll_timeout_msec(Some(10)), 10_000);
    assert_eq!(poll_timeout_msec(Some(600)), 600_000);
    assert_eq!(poll_timeout_msec(Some(601)), 600_000);
    assert_eq!(poll_timeout_msec(Some(u64::MAX)), 600_000);
}

#[test]
fn is_unseen_finds_a_write_that_the_marker_does_not_cover() {
    let mut item = K2VItem::new("p".to_string(), "a".to_string());
    item.update(Dot { node: 7, counter: 2 }, &None, DvvsValue::Deleted);
    item.update(Dot { node: 7, counter: 5 }, &None, DvvsValue::Deleted);
    let mut seen = CausalContext::new();
    assert!(is_unseen(&item, &seen));
    seen.set(7, 4);
    assert!(is_unseen(&item, &seen));
    seen.set(7, 5);
    assert!(!is_unseen(&item, &seen));
}

#[test]
fn a_first_poll_reports_the_whole_range() {
    let mut table = ItemTable::new(7);
    write(&mut table, "p", "b", "eDE=");
    write(&mut table, "p", "a", "eDI=");
    write(&mut table, "q", "a", "eDM=");
    let (items, marker) = poll_range(&table, &whole("p"), &None).unwrap();
    assert_eq!(sort_keys(&items), vec!["a".to_string(), "b".to_string()]);
    let mut expected = CausalContext::new();
    expected.set(7, 2);
    assert_eq!(marker, expected);
}

#[test]
fn a_poll_of_an_empty_range_has_nothing_to_report() {
    let table = ItemTable::new(7);
    assert!(poll_range(&table, &whole("p"), &None).is_none());
    assert_eq!(handle_poll_range(&table, "p", &query(None)), Ok(None));
}

#[test]
fn a_poll_reports_only_what_the_marker_does_not_cover() {
    let mut table = ItemTable::new(7);
    write(&mut table, "p", "a", "eDE=");
    write(&mut table, "p", "b", "eDI=");
    let (_, marker) = poll_range(&table, &whole("p"), &None).unwrap();
    assert!(poll_range(&table, &whole("p"), &Some(marker.duplicate())).is_none());
    write(&mut table, "p", "c", "eDM=");
    write(&mut table, "q", "a", "eDM=");
    write(&mut table, "p", "a", "eDQ=");
    let (items, next) = poll_range(&table, &whole("p"), &Some(marker)).unwrap();
    assert_eq!(sort_keys(&items), vec!["a".to_string(), "c".to_string()]);
    let mut expected = CausalContext::new();
    expected.set(7, 5);
    assert_eq!(next, expected);
    assert!(poll_range(&table, &whole("p"), &Some(next)).is_none());
}

#[test]
fn a_poll_watches_only_its_range() {
    let mut table = ItemTable::new(7);
    write(&mut table, "p", "a1", "eDE=");
    write(&mut table, "p", "a2", "eDE=");
    write(&mut table, "p", "b1", "eDE=");
    let range = PollRange {
        partition_key: "p".to_string(),
        prefix: some("a"),
        start: some("a2"),
        end: None,
    };
    let (items, _) = poll_range(&table, &range, &None).unwrap();
    assert_eq!(sort_keys(&items), vec!["a2".to_string()]);
    let range = PollRange {
        partition_key: "p".to_string(),
        prefix: None,
        start: None,
        end: some("a2"),
    };
    let (items, _) = poll_range(&table, &range, &None).unwrap();
    assert_eq!(sort_keys(&items), vec!["a1".to_string()]);
}

#[test]
fn a_report_holds_items_and_the_new_marker() {
    let mut table = ItemTable::new(7);
    write(&mut table, "p", "a", "eDE=");
    let resp = handle_poll_range(&table, "p", &query(None)).unwrap().unwrap();
    assert_eq!(
        resp,
        PollRangeResponse {
            items: vec![ReadBatchResponseItem {
                sk: "a".to_string(),
                ct: "AAAAAAAAAAYAAAAAAAAABwAAAAAAAAAB".to_string(),
                v: vec![some("eDE=")],
            }],
            seen_marker: "AAAAAAAAAAYAAAAAAAAABwAAAAAAAAAB".to_string(),
        }
    );
    assert_eq!(handle_poll_range(&table, "p", &query(Some(&resp.seen_marker))), Ok(None));
    write(&mut table, "p", "b", "eDI=");
    let next = handle_poll_range(&table, "p", &query(Some(&resp.seen_marker))).unwrap().unwrap();
    assert_eq!(next.items.len(), 1);
    assert_eq!(next.items[0].sk, "b");
    assert_eq!(next.seen_marker, "AAAAAAAAAAUAAAAAAAAABwAAAAAAAAAC");
}

#[test]
fn a_poll_with_a_bad_marker_is_refused() {
    let table = ItemTable::new(7);
    assert_eq!(
        handle_poll_range(&table, "p", &query(Some("nonsense!"))),
        Err(Error::InvalidSeenMarker)
    );
    assert_eq!(
        poll_step(&table, "p", &query(Some("nonsense!")), PollEvent::Started),
        PollAction::Fail(Error::InvalidSeenMarker)
    );
}

#[test]
fn a_poll_with_something_to_report_is_answered_at_once() {
    let mut table = ItemTable::new(7);
    write(&mut table, "p", "a", "eDE=");
    match poll_step(&table, "p", &query(None), PollEvent::Started) {
        PollAction::Respond(resp) => {
            assert_eq!(resp.items.len(), 1);
            assert_eq!(resp.seen_marker, "AAAAAAAAAAYAAAAAAAAABwAAAAAAAAAB");
        }
        other => panic!("{:?}", other),
    }
}

#[test]
fn a_poll_with_nothing_to_report_waits_and_then_gives_up() {
    let mut table = ItemTable::new(7);
    write(&mut table, "p", "a", "eDE=");
    let mut q = query(Some("AAAAAAAAAAYAAAAAAAAABwAAAAAAAAAB"));
    q.timeout = Some(5);
    assert_eq!(
        poll_step(&table, "p", &q, PollEvent::Started),
        PollAction::Wait { timeout_msec: 10_000 }
    );
    assert_eq!(
        poll_step(&table, "p", &q, PollEvent::Notified),
        PollAction::Wait { timeout_msec: 10_000 }
    );
    assert_eq!(poll_step(&table, "p", &q, PollEvent::TimedOut), PollAction::NotModified);
    assert_eq!(poll_step(&table, "p", &q, PollEvent::Cancelled), PollAction::Release);
}

#[test]
fn a_waiting_poll_is_answered_when_a_write_wakes_it() {
    let mut table = ItemTable::new(7);
    write(&mut table, "p", "a", "eDE=");
    let q = query(Some("AAAAAAAAAAYAAAAAAAAABwAAAAAAAAAB"));
    assert_eq!(
        poll_step(&table, "p", &q, PollEvent::Started),
        PollAction::Wait { timeout_msec: 300_000 }
    );
    write(&mut table, "q", "a", "eDE=");
    assert_eq!(
        poll_step(&table, "p", &q, PollEvent::Notified),
        PollAction::Wait { timeout_msec: 300_000 }
    );
    write(&mut table, "p", "b", "eDI=");
    match poll_step(&table, "p", &q, PollEvent::Notified) {
        PollAction::Respond(resp) => {
            assert_eq!(resp.items.len(), 1);
            assert_eq!(resp.items[0].sk, "b");
            assert_eq!(resp.seen_marker, "AAAAAAAAAAQAAAAAAAAABwAAAAAAAAAD");
        }
        other => panic!("{:?}", other),
    }
}

#[test]
fn the_wait_that_is_left_shrinks_to_none() {
    assert_eq!(remaining_wait(10_000, 0), Some(10_000));
    assert_eq!(remaining_wait(10_000, 9_999), Some(1));
    assert_eq!(remaining_wait(10_000, 10_000), None);
    assert_eq!(remaining_wait(10_000, 10_001), None);
    assert_eq!(remaining_wait(0, 0), None);
    assert_eq!(remaining_wait(u64::MAX, u64::MAX - 1), Some(1));
    assert_eq!(remaining_wait(5, u64::MAX), None);
}
