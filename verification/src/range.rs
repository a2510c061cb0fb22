//! Listing a contiguous range of one partition, page by page, in either
//! direction.

use vstd::prelude::*;
use crate::item::{passes, ItemFilter, ItemView, K2VItem};
use crate::order::{starts_with, str_lt, str_order, str_prefix, KeyOrder};
use crate::table::ItemTable;

verus! {

/// The direction of a listing.
#[derive(Clone, Copy, Debug, PartialEq, Eq, Structural)]
pub enum EnumerationOrder {
    /// Ascending order of sort key.
    Forward,
    /// Descending order of sort key.
    Reverse,
}

impl EnumerationOrder {
    /// The direction that a `reverse` flag asks for.
    pub fn from_reverse(reverse: bool) -> (r: Self)
        ensures
            r is Reverse <==> reverse,
    {
        if reverse {
            EnumerationOrder::Reverse
        } else {
            EnumerationOrder::Forward
        }
    }

    /// Whether the direction is the descending one.
    pub fn is_reverse(self) -> (r: bool)
        ensures
            r <==> self is Reverse,
    {
        match self {
            EnumerationOrder::Forward => false,
            EnumerationOrder::Reverse => true,
        }
    }
}

/// A range of one partition, as plain data.
pub struct RangeView {
    /// The partition to list.
    pub partition_key: Seq<char>,
    /// Sort keys must start with this.
    pub prefix: Option<Seq<char>>,
    /// Where the listing starts, itself included.
    pub start: Option<Seq<char>>,
    /// Where the listing ends, itself left out.
    pub end: Option<Seq<char>>,
    /// The items to keep.
    pub filter: Option<ItemFilter>,
    /// Whether the listing runs in descending order.
    pub reverse: bool,
}

/// Sort key `a` comes before sort key `b` in the direction of the listing.
pub open spec fn comes_before(a: Seq<char>, b: Seq<char>, reverse: bool) -> bool {
    if reverse {
        str_lt(b, a)
    } else {
        str_lt(a, b)
    }
}

/// The sort key lies in the range: it has the prefix, does not come before
/// the start, and comes before the end.
pub open spec fn in_bounds(sk: Seq<char>, q: RangeView) -> bool {
    &&& q.prefix matches Some(p) ==> str_prefix(p, sk)
    &&& q.start matches Some(s) ==> !comes_before(sk, s, q.reverse)
    &&& q.end matches Some(e) ==> comes_before(sk, e, q.reverse)
}

/// The item belongs to the listing.
pub open spec fn selected(item: ItemView, q: RangeView) -> bool {
    &&& item.partition_key == q.partition_key
    &&& in_bounds(item.sort_key, q)
    &&& q.filter matches Some(f) ==> passes(item, f)
}

/// The items of a list that belong to the listing, in the order of the list.
pub open spec fn select(items: Seq<ItemView>, q: RangeView) -> Seq<ItemView>
    decreases items.len(),
{
    if items.len() == 0 {
        Seq::<ItemView>::empty()
    } else {
        let rest = select(items.drop_last(), q);
        if selected(items.last(), q) {
            rest.push(items.last())
        } else {
            rest
        }
    }
}

/// The items in the direction of a listing.
pub open spec fn in_direction(items: Seq<ItemView>, reverse: bool) -> Seq<ItemView> {
    if reverse {
        items.reverse()
    } else {
        items
    }
}

/// The whole listing of a range: every item that belongs to it, in its
/// direction.
pub open spec fn scan(items: Seq<ItemView>, q: RangeView) -> Seq<ItemView> {
    select(in_direction(items, q.reverse), q)
}

/// How many items a page of the listing holds.
pub open spec fn page_len(total: nat, limit: Option<u64>) -> nat {
    match limit {
        Some(l) => if total <= l {
            total
        } else {
            l as nat
        },
        None => total,
    }
}

/// The items of the first page of a listing.
pub open spec fn page_items(items: Seq<ItemView>, q: RangeView, limit: Option<u64>) -> Seq<
    ItemView,
> {
    scan(items, q).take(page_len(scan(items, q).len(), limit) as int)
}

/// Whether the limit cut the listing short.
pub open spec fn page_more(items: Seq<ItemView>, q: RangeView, limit: Option<u64>) -> bool {
    limit matches Some(l) && scan(items, q).len() > l
}

/// Where the next page starts: the sort key of the first item that the limit
/// left out.
pub open spec fn page_next(items: Seq<ItemView>, q: RangeView, limit: Option<u64>) -> Option<
    Seq<char>,
> {
    if page_more(items, q, limit) {
        Some(scan(items, q)[limit->0 as int].sort_key)
    } else {
        None
    }
}

/// The text of an optional key.
pub open spec fn text_view(o: &Option<String>) -> Option<Seq<char>> {
    match o {
        Some(s) => Some(s@),
        None => None,
    }
}

/// The items that a list of references points to, as plain data.
pub open spec fn ref_views(s: Seq<&K2VItem>) -> Seq<ItemView> {
    Seq::new(s.len(), |i: int| s[i]@)
}

/// The listing of a prefix of the items is a prefix of their listing.
pub proof fn lemma_select_prefix(items: Seq<ItemView>, q: RangeView, k: int)
    requires
        0 <= k <= items.len(),
    ensures
        select(items.take(k), q).len() <= select(items, q).len(),
        select(items, q).take(select(items.take(k), q).len() as int) == select(items.take(k), q),
    decreases items.len() - k,
{
    if k == items.len() {
        assert(items.take(k) =~= items);
        assert(select(items, q).take(select(items, q).len() as int) =~= select(items, q));
    } else {
        lemma_select_prefix(items, q, k + 1);
        let a = select(items.take(k), q);
        let b = select(items.take(k + 1), q);
        assert(items.take(k + 1).drop_last() =~= items.take(k));
        assert(select(items, q).take(a.len() as int) =~= b.take(a.len() as int));
        assert(b.take(a.len() as int) =~= a);
    }
}

/// Whether the sort key lies between the bounds: it has the prefix, does
/// not come before the start, and comes before the end.
pub fn key_in_bounds(
    sk: &str,
    prefix: &Option<String>,
    start: &Option<String>,
    end: &Option<String>,
    reverse: bool,
) -> (r: bool)
    ensures
        forall|partition_key: Seq<char>, filter: Option<ItemFilter>|
            r == #[trigger] in_bounds(
                sk@,
                RangeView {
                    partition_key,
                    prefix: text_view(prefix),
                    start: text_view(start),
                    end: text_view(end),
                    filter,
                    reverse,
                },
            ),
{
    match prefix {
        Some(p) => {
            if !starts_with(sk, p.as_str()) {
                return false;
            }
        },
        None => {},
    }
    match start {
        Some(s) => {
            let o = str_order(sk, s.as_str());
            let early = match o {
                KeyOrder::Less => !reverse,
                KeyOrder::Equal => false,
                KeyOrder::Greater => reverse,
            };
            if early {
                return false;
            }
        },
        None => {},
    }
    match end {
        Some(e) => {
            let o = str_order(sk, e.as_str());
            let inside = match o {
                KeyOrder::Less => !reverse,
                KeyOrder::Equal => false,
                KeyOrder::Greater => reverse,
            };
            if !inside {
                return false;
            }
        },
        None => {},
    }
    true
}

/// Whether the item belongs to the listing.
pub fn is_selected(
    item: &K2VItem,
    partition_key: &str,
    prefix: &Option<String>,
    start: &Option<String>,
    end: &Option<String>,
    filter: &Option<ItemFilter>,
    reverse: bool,
) -> (r: bool)
    ensures
        r == selected(
            item@,
            RangeView {
                partition_key: partition_key@,
                prefix: text_view(prefix),
                start: text_view(start),
                end: text_view(end),
                filter: *filter,
                reverse,
            },
        ),
{
    let ghost q = RangeView {
        partition_key: partition_key@,
        prefix: text_view(prefix),
        start: text_view(start),
        end: text_view(end),
        filter: *filter,
        reverse,
    };
    match str_order(item.partition_key.as_str(), partition_key) {
        KeyOrder::Equal => {},
        _ => {
            return false;
        },
    }
    let inside = key_in_bounds(item.sort_key.as_str(), prefix, start, end, reverse);
    proof {
        assert(inside == in_bounds(item@.sort_key, q));
    }
    if !inside {
        return false;
    }
    match filter {
        Some(f) => item.matches_filter(f),
        None => true,
    }
}

/// Lists a range of one partition: the items whose sort key has the prefix
/// and lies between start and end, that the filter lets through, in the
/// direction asked for, up to `limit` of them. The flag tells whether the
/// limit cut the listing short; the cursor is then the sort key at which a
/// call with the same parameters but for `start` takes the listing up.
pub fn read_range<'a>(
    table: &'a ItemTable,
    partition_key: &str,
    prefix: &Option<String>,
    start: &Option<String>,
    end: &Option<String>,
    limit: Option<u64>,
    filter: Option<ItemFilter>,
    order: EnumerationOrder,
) -> (r: (Vec<&'a K2VItem>, bool, Option<String>))
    ensures
        ({
            let q = RangeView {
                partition_key: partition_key@,
                prefix: text_view(prefix),
                start: text_view(start),
                end: text_view(end),
                filter,
                reverse: order is Reverse,
            };
            &&& ref_views(r.0@) == page_items(table@.items, q, limit)
            &&& r.1 == page_more(table@.items, q, limit)
            &&& text_view(&r.2) == page_next(table@.items, q, limit)
        }),
{
    let reverse = order.is_reverse();
    let ghost q = RangeView {
        partition_key: partition_key@,
        prefix: text_view(prefix),
        start: text_view(start),
        end: text_view(end),
        filter,
        reverse,
    };
    let ghost ordered = in_direction(table@.items, reverse);
    let n = table.len();
    let mut out: Vec<&'a K2VItem> = Vec::new();
    let mut k: usize = 0;
    proof {
        assert(ordered.take(0) =~= Seq::<ItemView>::empty());
        assert(ref_views(out@) =~= Seq::<ItemView>::empty());
    }
    while k < n
        invariant
            n == table@.items.len(),
            reverse == (order is Reverse),
            ordered == in_direction(table@.items, reverse),
            ordered.len() == n,
            k <= n,
            q == (RangeView {
                partition_key: partition_key@,
                prefix: text_view(prefix),
                start: text_view(start),
                end: text_view(end),
                filter,
                reverse,
            }),
            out@.len() == select(ordered.take(k as int), q).len(),
            ref_views(out@) == select(ordered.take(k as int), q),
            limit matches Some(l) ==> out@.len() <= l,
        decreases n - k,
    {
        let idx = if reverse {
            n - 1 - k
        } else {
            k
        };
        let item = table.item(idx);
        proof {
            assert(item@ == ordered[k as int]);
            assert(ordered.take(k + 1).drop_last() =~= ordered.take(k as int));
            assert(ordered.take(k + 1).last() == ordered[k as int]);
        }
        if is_selected(item, partition_key, prefix, start, end, &filter, reverse) {
            let full = match limit {
                Some(l) => out.len() as u64 >= l,
                None => false,
            };
            if full {
                proof {
                    lemma_select_prefix(ordered, q, k + 1);
                    let s = scan(table@.items, q);
                    let upto = select(ordered.take(k + 1), q);
                    assert(upto == ref_views(out@).push(item@));
                    assert(s.take(upto.len() as int) == upto);
                    assert(s[out@.len() as int] == upto[out@.len() as int]);
                    assert(s.take(out@.len() as int) =~= ref_views(out@));
                }
                return (out, true, Some(item.sort_key.clone()));
            }
            let ghost prior = out@;
            out.push(item);
            proof {
                assert(ref_views(out@) =~= ref_views(prior).push(item@));
            }
        }
        k += 1;
    }
    proof {
        assert(ordered.take(k as int) =~= ordered);
        let s = scan(table@.items, q);
        assert(s.take(s.len() as int) =~= s);
    }
    (out, false, None)
}

} // verus!
