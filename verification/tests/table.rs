use k2v::causality::CausalContext;
use k2v::error::Error;
use k2v::item::{Dot, DvvsValue, K2VItem};
use k2v::table::{InsertOp, ItemTable};

fn value(text: &str) -> DvvsValue {
    DvvsValue::Value(text.as_bytes().to_vec())
}

fn write(table: &mut ItemTable, pk: &str, sk: &str, text: &str) {
    table.insert(pk.to_string(), sk.to_string(), None, value(text)).unwrap();
}

fn keys(table: &ItemTable) -> Vec<(String, String)> {
    (0..table.len())
        .map(|i| (table.item(i).partition_key.clone(), table.item(i).sort_key.clone()))
        .collect()
}

#[test]
fn a_new_table_is_empty() {
    let table = ItemTable::new(7);
    assert_eq!(table.len(), 0);
    assert_eq!(table.node(), 7);
    assert_eq!(table.issued(), 0);
    assert!(table.get("u1", "a").is_none());
}

#[test]
fn insert_stamps_writes_with_rising_counters() {
    let mut table = ItemTable::new(7);
    write(&mut table, "u1", "a", "x1");
    write(&mut table, "u1", "b", "y1");
    write(&mut table, "u1", "a", "x2");
    assert_eq!(table.issued(), 3);
    let a = table.get("u1", "a").unwrap();
    assert_eq!(a.values.len(), 2);
    assert_eq!(a.values[0].dot, Dot { node: 7, counter: 1 });
    assert_eq!(a.values[0].value, value("x1"));
    assert_eq!(a.values[1].dot, Dot { node: 7, counter: 3 });
    assert_eq!(a.values[1].value, value("x2"));
    let b = table.get("u1", "b").unwrap();
    assert_eq!(b.values.len(), 1);
    assert_eq!(b.values[0].dot, Dot { node: 7, counter: 2 });
}

#[test]
fn items_stand_in_order_of_their_keys() {
    let mut table = ItemTable::new(1);
    write(&mut table, "q", "a", "1");
    write(&mut table, "p", "b", "2");
    write(&mut table, "p", "a", "3");
    write(&mut table, "p", "ab", "4");
    write(&mut table, "", "z", "5");
    write(&mut table, "p", "b", "6");
    let expected: Vec<(String, String)> = [("", "z"), ("p", "a"), ("p", "ab"), ("p", "b"), ("q", "a")]
        .iter()
        .map(|(p, s)| (p.to_string(), s.to_string()))
        .collect();
    assert_eq!(keys(&table), expected);
}

#[test]
fn get_finds_only_the_item_under_both_keys() {
    let mut table = ItemTable::new(1);
    write(&mut table, "p", "a", "1");
    write(&mut table, "q", "b", "2");
    assert!(table.get("p", "a").is_some());
    assert!(table.get("q", "b").is_some());
    assert!(table.get("p", "b").is_none());
    assert!(table.get("q", "a").is_none());
    assert!(table.get("pa", "").is_none());
}

#[test]
fn insert_with_context_supersedes_covered_values() {
    let mut table = ItemTable::new(7);
    write(&mut table, "u1", "a", "x1");
    write(&mut table, "u1", "a", "x2");
    let cc = table.get("u1", "a").unwrap().causal_context();
    let mut expected = CausalContext::new();
    expected.set(7, 2);
    assert_eq!(cc, expected);
    table.insert("u1".to_string(), "a".to_string(), Some(cc), value("x3")).unwrap();
    let a = table.get("u1", "a").unwrap();
    assert_eq!(a.values.len(), 1);
    assert_eq!(a.values[0].value, value("x3"));
    assert_eq!(a.values[0].dot, Dot { node: 7, counter: 3 });
}

#[test]
fn insert_fails_when_the_counter_is_exhausted() {
    let mut table = ItemTable::with_counter(7, u64::MAX - 1);
    assert_eq!(table.insert("p".to_string(), "a".to_string(), None, value("1")), Ok(()));
    assert_eq!(table.issued(), u64::MAX);
    assert_eq!(
        table.insert("p".to_string(), "b".to_string(), None, value("2")),
        Err(Error::CounterExhausted)
    );
    assert_eq!(table.len(), 1);
    assert!(table.get("p", "b").is_none());
}

#[test]
fn insert_batch_applies_writes_in_order() {
    let mut table = ItemTable::new(7);
    let ops = vec![
        InsertOp {
            partition_key: "p".to_string(),
            sort_key: "b".to_string(),
            context: None,
            value: value("1"),
        },
        InsertOp {
            partition_key: "p".to_string(),
            sort_key: "a".to_string(),
            context: None,
            value: value("2"),
        },
        InsertOp {
            partition_key: "p".to_string(),
            sort_key: "b".to_string(),
            context: None,
            value: DvvsValue::Deleted,
        },
    ];
    assert_eq!(table.insert_batch(ops), Ok(()));
    assert_eq!(table.issued(), 3);
    let b = table.get("p", "b").unwrap();
    assert_eq!(b.values.len(), 2);
    assert_eq!(b.values[0].dot, Dot { node: 7, counter: 1 });
    assert_eq!(b.values[1].dot, Dot { node: 7, counter: 3 });
    assert_eq!(b.values[1].value, DvvsValue::Deleted);
    assert_eq!(table.get("p", "a").unwrap().values[0].dot, Dot { node: 7, counter: 2 });
}

#[test]
fn insert_batch_applies_nothing_when_counters_run_out() {
    let mut table = ItemTable::with_counter(7, u64::MAX - 1);
    let ops = vec![
        InsertOp {
            partition_key: "p".to_string(),
            sort_key: "a".to_string(),
            context: None,
            value: value("1"),
        },
        InsertOp {
            partition_key: "p".to_string(),
            sort_key: "b".to_string(),
            context: None,
            value: value("2"),
        },
    ];
    assert_eq!(table.insert_batch(ops), Err(Error::CounterExhausted));
    assert_eq!(table.len(), 0);
    assert_eq!(table.issued(), u64::MAX - 1);
}

#[test]
fn from_items_takes_items_in_order_only() {
    let item = |pk: &str, sk: &str| {
        let mut i = K2VItem::new(pk.to_string(), sk.to_string());
        i.update(Dot { node: 3, counter: 1 }, &None, value("v"));
        i
    };
    let table =
        ItemTable::from_items(7, 4, vec![item("p", "a"), item("p", "b"), item("q", "a")]).unwrap();
    assert_eq!(table.len(), 3);
    assert_eq!(table.node(), 7);
    assert_eq!(table.issued(), 4);
    assert_eq!(table.get("p", "b").unwrap().values[0].dot, Dot { node: 3, counter: 1 });
    assert!(ItemTable::from_items(7, 0, vec![item("p", "b"), item("p", "a")]).is_none());
    assert!(ItemTable::from_items(7, 0, vec![item("p", "a"), item("p", "a")]).is_none());
    assert!(ItemTable::from_items(7, 0, vec![item("q", "a"), item("p", "b")]).is_none());
    assert!(ItemTable::from_items(7, 0, vec![item("p", "a"), item("p", "c"), item("p", "b")]).is_none());
    let stamped = |node: u64, counter: u64| {
        let mut i = K2VItem::new("p".to_string(), "a".to_string());
        i.update(Dot { node, counter }, &None, value("v"));
        i
    };
    assert!(ItemTable::from_items(7, 4, vec![stamped(7, 4)]).is_some());
    assert!(ItemTable::from_items(7, 4, vec![stamped(7, 5)]).is_none());
    assert!(ItemTable::from_items(7, 4, vec![stamped(8, 5)]).is_some());
    assert_eq!(ItemTable::from_items(7, 0, vec![]).unwrap().len(), 0);
    assert_eq!(ItemTable::from_items(7, 0, vec![item("p", "a")]).unwrap().len(), 1);
}
