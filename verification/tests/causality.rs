use k2v::causality::{CausalContext, Dot};
use k2v::error::Error;

fn context(entries: &[(u64, u64)]) -> CausalContext {
    let mut c = CausalContext::new();
    for (node, time) in entries {
        c.set(*node, *time);
    }
    c
}

#[test]
fn empty_context_round_trips() {
    let c = CausalContext::new();
    let token = c.try_serialize().unwrap();
    assert_eq!(token, "AAAAAAAAAAA");
    let back = CausalContext::parse(&token).unwrap();
    assert!(back.same(&c));
    assert_eq!(back.len(), 0);
}

#[test]
fn token_of_one_entry_is_exact() {
    let c = context(&[(1, 5)]);
    assert_eq!(c.serialize(), "AAAAAAAAAAQAAAAAAAAAAQAAAAAAAAAF");
    assert_eq!(
        c.to_bytes(),
        vec![0, 0, 0, 0, 0, 0, 0, 4, 0, 0, 0, 0, 0, 0, 0, 1, 0, 0, 0, 0, 0, 0, 0, 5]
    );
    assert_eq!(c.checksum(), 4);
}

#[test]
fn token_lists_entries_in_order_of_node() {
    let a = context(&[(1, 5), (2, 7)]);
    let b = context(&[(2, 7), (1, 5)]);
    assert_eq!(a.serialize(), "AAAAAAAAAAEAAAAAAAAAAQAAAAAAAAAFAAAAAAAAAAIAAAAAAAAABw");
    assert_eq!(a.serialize(), b.serialize());
    assert_eq!(a, b);
    assert_eq!(a.entry(0), (1, 5));
    assert_eq!(a.entry(1), (2, 7));
}

#[test]
fn token_uses_url_safe_alphabet_without_padding() {
    let c = context(&[(0xfbff_ffff_ffff_ffff, 0)]);
    assert_eq!(c.serialize(), "-__________7_________wAAAAAAAAAA");
}

#[test]
fn a_token_read_back_is_the_context_written() {
    let c = context(&[(4, 42), (1928131023, 76), (0xefc0c1c47f9de433, 2)]);
    let token = c.serialize();
    assert_eq!(
        token,
        "78DBxA1xFZwAAAAAAAAABAAAAAAAAAAqAAAAAHLs8c8AAAAAAAAATO_AwcR_neQzAAAAAAAAAAI"
    );
    let back = CausalContext::parse(&token).unwrap();
    assert_eq!(back, c);
    assert_eq!(back.get(4), 42);
    assert_eq!(back.get(1928131023), 76);
    assert_eq!(back.get(0xefc0c1c47f9de433), 2);
}

#[test]
fn parse_reads_entries_in_any_order() {
    let c = CausalContext::parse("AAAAAAAAAAEAAAAAAAAAAgAAAAAAAAAHAAAAAAAAAAEAAAAAAAAABQ").unwrap();
    assert_eq!(c, context(&[(1, 5), (2, 7)]));
}

#[test]
fn parse_lets_a_later_entry_replace_an_earlier_one() {
    let c = CausalContext::parse("AAAAAAAAAAgAAAAAAAAAAQAAAAAAAAAFAAAAAAAAAAEAAAAAAAAACQ").unwrap();
    assert_eq!(c, context(&[(1, 9)]));
}

#[test]
fn parse_refuses_a_wrong_checksum() {
    assert_eq!(
        CausalContext::parse("AAAAAAAAAAAAAAAAAAAAAQAAAAAAAAAF"),
        Err(Error::InvalidCausalityToken)
    );
}

#[test]
fn parse_refuses_a_wrong_length() {
    assert_eq!(CausalContext::parse("AAAAAAAAAAAA"), Err(Error::InvalidCausalityToken));
    assert_eq!(
        CausalContext::parse("AAAAAAAAAAAAAAAAAAAAAA"),
        Err(Error::InvalidCausalityToken)
    );
    assert_eq!(CausalContext::parse(""), Err(Error::InvalidCausalityToken));
}

#[test]
fn parse_refuses_text_that_is_not_base64() {
    assert_eq!(CausalContext::parse("not a token!"), Err(Error::InvalidCausalityToken));
    assert_eq!(CausalContext::parse("AAAAAAAAAA+"), Err(Error::InvalidCausalityToken));
}

#[test]
fn from_bytes_is_the_inverse_of_to_bytes() {
    let c = context(&[(3, 9), (7, 2)]);
    let bytes = c.to_bytes();
    assert_eq!(bytes.len(), 40);
    assert_eq!(CausalContext::from_bytes(&bytes), Some(context(&[(3, 9), (7, 2)])));
    assert_eq!(CausalContext::from_bytes(&bytes[..39]), None);
    assert_eq!(CausalContext::from_bytes(&[]), None);
}

#[test]
fn get_counts_an_absent_node_as_zero() {
    let c = context(&[(1, 5)]);
    assert_eq!(c.get(1), 5);
    assert_eq!(c.get(2), 0);
    assert!(c.lists(1));
    assert!(!c.lists(2));
}

#[test]
fn set_replaces_the_counter_of_a_node() {
    let mut c = context(&[(1, 5), (3, 1)]);
    c.set(1, 2);
    c.set(2, 8);
    assert_eq!(c.len(), 3);
    assert_eq!(c.entry(0), (1, 2));
    assert_eq!(c.entry(1), (2, 8));
    assert_eq!(c.entry(2), (3, 1));
}

#[test]
fn covers_compares_with_the_counter_of_the_node() {
    let c = context(&[(1, 5)]);
    assert!(c.covers(Dot { node: 1, counter: 5 }));
    assert!(c.covers(Dot { node: 1, counter: 4 }));
    assert!(!c.covers(Dot { node: 1, counter: 6 }));
    assert!(!c.covers(Dot { node: 2, counter: 1 }));
    assert!(!CausalContext::new().covers(Dot { node: 1, counter: 1 }));
}

#[test]
fn merge_takes_the_larger_counter_of_each_node() {
    let a = context(&[(1, 5), (2, 1)]);
    let b = context(&[(1, 3), (2, 7), (9, 4)]);
    assert_eq!(a.merge(&b), context(&[(1, 5), (2, 7), (9, 4)]));
}

#[test]
fn merge_is_commutative_idempotent_and_associative() {
    let a = context(&[(1, 5), (2, 1)]);
    let b = context(&[(1, 3), (2, 7), (9, 4)]);
    let c = context(&[(2, 2), (5, 5)]);
    assert_eq!(a.merge(&b), b.merge(&a));
    assert_eq!(a.merge(&a), a);
    assert_eq!(a.merge(&b).merge(&c), a.merge(&b.merge(&c)));
}

#[test]
fn merge_with_the_empty_context_changes_nothing() {
    let a = context(&[(1, 5), (2, 1)]);
    let e = CausalContext::new();
    assert_eq!(a.merge(&e), a);
    assert_eq!(e.merge(&a), a);
}

#[test]
fn is_newer_than_finds_a_write_the_other_has_not_seen() {
    let a = context(&[(1, 5), (2, 1)]);
    let b = context(&[(1, 5)]);
    assert!(a.is_newer_than(&b));
    assert!(!b.is_newer_than(&a));
    assert!(!a.is_newer_than(&a));
    let c = context(&[(1, 4), (3, 1)]);
    assert!(a.is_newer_than(&c));
    assert!(c.is_newer_than(&a));
}

#[test]
fn same_tells_equal_mappings() {
    let a = context(&[(1, 5), (2, 1)]);
    assert!(a.same(&context(&[(2, 1), (1, 5)])));
    assert!(!a.same(&context(&[(1, 5)])));
    assert!(!a.same(&context(&[(1, 5), (2, 2)])));
    assert!(a.same(&a.duplicate()));
}
