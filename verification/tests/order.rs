use k2v::order::{bytes_order, pair_order, starts_with, str_order, KeyOrder};

#[test]
fn bytes_order_is_lexicographic() {
    assert_eq!(bytes_order(b"a", b"b"), KeyOrder::Less);
    assert_eq!(bytes_order(b"b", b"a"), KeyOrder::Greater);
    assert_eq!(bytes_order(b"abc", b"abc"), KeyOrder::Equal);
    assert_eq!(bytes_order(b"ab", b"abc"), KeyOrder::Less);
    assert_eq!(bytes_order(b"abc", b"ab"), KeyOrder::Greater);
    assert_eq!(bytes_order(b"", b""), KeyOrder::Equal);
    assert_eq!(bytes_order(b"", b"a"), KeyOrder::Less);
    assert_eq!(bytes_order(&[0xff], &[0x01, 0x02]), KeyOrder::Greater);
}

#[test]
fn str_order_agrees_with_the_order_of_strings() {
    let keys = ["", "a", "a1", "a10", "a2", "b", "é", "z", "日本"];
    for a in keys {
        for b in keys {
            let expected = match a.cmp(b) {
                std::cmp::Ordering::Less => KeyOrder::Less,
                std::cmp::Ordering::Equal => KeyOrder::Equal,
                std::cmp::Ordering::Greater => KeyOrder::Greater,
            };
            assert_eq!(str_order(a, b), expected);
        }
    }
}

#[test]
fn pair_order_goes_by_partition_first() {
    assert_eq!(pair_order("p", "z", "q", "a"), KeyOrder::Less);
    assert_eq!(pair_order("q", "a", "p", "z"), KeyOrder::Greater);
    assert_eq!(pair_order("p", "a", "p", "b"), KeyOrder::Less);
    assert_eq!(pair_order("p", "a", "p", "a"), KeyOrder::Equal);
}

#[test]
fn starts_with_tests_a_prefix_of_bytes() {
    assert!(starts_with("abc", "ab"));
    assert!(starts_with("abc", ""));
    assert!(starts_with("abc", "abc"));
    assert!(!starts_with("abc", "abcd"));
    assert!(!starts_with("abc", "b"));
    assert!(starts_with("日本語", "日本"));
}
