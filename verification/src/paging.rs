//! What holds of listings: pages taken up one after another give the whole
//! listing, and the two directions list the same items.

use vstd::prelude::*;
use crate::item::ItemView;
use crate::order::{
    key_bytes, lemma_lt_asymmetric, lemma_lt_irreflexive, lemma_lt_transitive, lemma_str_total,
    str_lt,
};
use crate::range::{
    comes_before, in_bounds, in_direction, page_items, page_more, page_next, scan, select,
    selected, RangeView,
};
use crate::table::{item_before, sorted_items};

verus! {

/// In a list all items of one partition stand in the direction of the
/// listing.
pub open spec fn scan_sorted(t: Seq<ItemView>, reverse: bool) -> bool {
    forall|i: int, j: int|
        0 <= i < j < t.len() && t[i].partition_key == t[j].partition_key ==> comes_before(
            t[i].sort_key,
            t[j].sort_key,
            reverse,
        )
}

/// The range `q` with another start.
pub open spec fn with_start(q: RangeView, start: Seq<char>) -> RangeView {
    RangeView { start: Some(start), ..q }
}

/// The pages of a listing, one after another: each page but the first
/// starts at the cursor that the page before it gave. `rounds` bounds the
/// number of pages that are taken after the first.
pub open spec fn all_pages(items: Seq<ItemView>, q: RangeView, limit: u64, rounds: nat) -> Seq<
    ItemView,
>
    decreases rounds,
{
    let page = page_items(items, q, Some(limit));
    if rounds == 0 || !page_more(items, q, Some(limit)) {
        page
    } else {
        page + all_pages(
            items,
            with_start(q, page_next(items, q, Some(limit))->0),
            limit,
            (rounds - 1) as nat,
        )
    }
}

/// No sort key comes before itself, and of two at most one comes before the
/// other.
pub proof fn lemma_comes_before_asymmetric(a: Seq<char>, b: Seq<char>, reverse: bool)
    ensures
        !comes_before(a, a, reverse),
        comes_before(a, b, reverse) ==> !comes_before(b, a, reverse),
{
    lemma_lt_irreflexive(key_bytes(a));
    if str_lt(a, b) {
        lemma_lt_asymmetric(key_bytes(a), key_bytes(b));
    }
    if str_lt(b, a) {
        lemma_lt_asymmetric(key_bytes(b), key_bytes(a));
    }
}

/// Sorted items stand in either direction of a listing.
pub proof fn lemma_direction_sorted(items: Seq<ItemView>, reverse: bool)
    requires
        sorted_items(items),
    ensures
        scan_sorted(in_direction(items, reverse), reverse),
{
    let t = in_direction(items, reverse);
    let n = items.len() as int;
    assert forall|i: int, j: int|
        0 <= i < j < t.len() && t[i].partition_key == t[j].partition_key implies comes_before(
        t[i].sort_key,
        t[j].sort_key,
        reverse,
    ) by {
        lemma_lt_irreflexive(key_bytes(t[i].partition_key));
        if reverse {
            assert(t[i] == items[n - 1 - i]);
            assert(t[j] == items[n - 1 - j]);
            assert(item_before(items[n - 1 - j], items[n - 1 - i]));
        } else {
            assert(item_before(items[i], items[j]));
        }
    }
}

/// Each item of a listing is an item of the list that was listed, and
/// belongs to the listing.
pub proof fn lemma_select_member(t: Seq<ItemView>, q: RangeView, j: int)
    requires
        0 <= j < select(t, q).len(),
    ensures
        selected(select(t, q)[j], q),
        exists|m: int| 0 <= m < t.len() && #[trigger] t[m] == select(t, q)[j],
    decreases t.len(),
{
    let d = t.drop_last();
    if j < select(d, q).len() {
        lemma_select_member(d, q, j);
        let m = choose|m: int| 0 <= m < d.len() && #[trigger] d[m] == select(d, q)[j];
        assert(t[m] == select(t, q)[j]);
    } else {
        assert(t[t.len() - 1] == select(t, q)[j]);
    }
}

/// The listing of a list that stands in the direction of the listing
/// stands in that direction too.
pub proof fn lemma_select_sorted(t: Seq<ItemView>, q: RangeView)
    requires
        scan_sorted(t, q.reverse),
    ensures
        forall|i: int, j: int|
            0 <= i < j < select(t, q).len() ==> comes_before(
                #[trigger] select(t, q)[i].sort_key,
                #[trigger] select(t, q)[j].sort_key,
                q.reverse,
            ),
    decreases t.len(),
{
    let s = select(t, q);
    if t.len() > 0 {
        let d = t.drop_last();
        let sd = select(d, q);
        assert(scan_sorted(d, q.reverse)) by {
            assert forall|i: int, j: int|
                0 <= i < j < d.len() && d[i].partition_key == d[j].partition_key implies comes_before(
                d[i].sort_key,
                d[j].sort_key,
                q.reverse,
            ) by {
                assert(d[i] == t[i] && d[j] == t[j]);
            }
        }
        lemma_select_sorted(d, q);
        assert forall|i: int, j: int| 0 <= i < j < s.len() implies comes_before(
            #[trigger] s[i].sort_key,
            #[trigger] s[j].sort_key,
            q.reverse,
        ) by {
            if j < sd.len() {
                assert(s[i] == sd[i] && s[j] == sd[j]);
            } else {
                assert(s[j] == t[t.len() - 1]);
                assert(s[i] == sd[i]);
                lemma_select_member(d, q, i);
                let m = choose|m: int| 0 <= m < d.len() && #[trigger] d[m] == sd[i];
                assert(t[m] == sd[i]);
                assert(selected(t[m], q) && selected(t[t.len() - 1], q));
            }
        }
    }
}

/// A listing gives the items of its range in order of sort key, ascending
/// or, in reverse, descending: each item comes strictly before the next, so
/// that no item is listed twice.
pub proof fn lemma_scan_ordered(items: Seq<ItemView>, q: RangeView)
    requires
        sorted_items(items),
    ensures
        forall|i: int, j: int|
            0 <= i < j < scan(items, q).len() ==> comes_before(
                #[trigger] scan(items, q)[i].sort_key,
                #[trigger] scan(items, q)[j].sort_key,
                q.reverse,
            ) && scan(items, q)[i].sort_key != scan(items, q)[j].sort_key,
{
    lemma_direction_sorted(items, q.reverse);
    lemma_select_sorted(in_direction(items, q.reverse), q);
    let s = scan(items, q);
    assert forall|i: int, j: int| 0 <= i < j < s.len() implies comes_before(
        #[trigger] s[i].sort_key,
        #[trigger] s[j].sort_key,
        q.reverse,
    ) && s[i].sort_key != s[j].sort_key by {
        lemma_comes_before_asymmetric(s[i].sort_key, s[j].sort_key, q.reverse);
    }
}

/// Every item of a listing belongs to its range, and every item of the
/// table that belongs to the range is listed.
pub proof fn lemma_scan_exact(items: Seq<ItemView>, q: RangeView, item: ItemView)
    ensures
        scan(items, q).contains(item) <==> items.contains(item) && selected(item, q),
{
    let t = in_direction(items, q.reverse);
    lemma_select_contains(t, q, item);
    if q.reverse {
        if t.contains(item) {
            let m = choose|m: int| 0 <= m < t.len() && t[m] == item;
            assert(items[items.len() - 1 - m] == item);
        }
        if items.contains(item) {
            let m = choose|m: int| 0 <= m < items.len() && items[m] == item;
            assert(t[items.len() - 1 - m] == item);
        }
    }
}

/// The listing of a list holds exactly the items of the list that belong to
/// the listing.
pub proof fn lemma_select_contains(t: Seq<ItemView>, q: RangeView, item: ItemView)
    ensures
        select(t, q).contains(item) <==> t.contains(item) && selected(item, q),
    decreases t.len(),
{
    let s = select(t, q);
    if t.len() > 0 {
        let d = t.drop_last();
        let sd = select(d, q);
        lemma_select_contains(d, q, item);
        if s.contains(item) {
            let k = choose|k: int| 0 <= k < s.len() && s[k] == item;
            if k < sd.len() {
                assert(sd[k] == item);
                assert(sd.contains(item));
                let m = choose|m: int| 0 <= m < d.len() && d[m] == item;
                assert(t[m] == item);
            } else {
                assert(t[t.len() - 1] == item);
            }
        }
        if t.contains(item) && selected(item, q) {
            let m = choose|m: int| 0 <= m < t.len() && t[m] == item;
            if m < d.len() {
                assert(d[m] == item);
                assert(d.contains(item));
                let k = choose|k: int| 0 <= k < sd.len() && sd[k] == item;
                assert(s[k] == item);
            } else {
                assert(s[s.len() - 1] == item);
            }
        }
    }
}

/// Where no item of a list belongs to a listing, the listing is empty.
pub proof fn lemma_select_none(t: Seq<ItemView>, q: RangeView)
    requires
        forall|i: int| 0 <= i < t.len() ==> !selected(#[trigger] t[i], q),
    ensures
        select(t, q) == Seq::<ItemView>::empty(),
    decreases t.len(),
{
    if t.len() > 0 {
        let d = t.drop_last();
        assert forall|i: int| 0 <= i < d.len() implies !selected(#[trigger] d[i], q) by {
            assert(d[i] == t[i]);
        }
        lemma_select_none(d, q);
        assert(!selected(t[t.len() - 1], q));
    }
}

/// Two ranges that the same items of a list belong to give the same
/// listing of it.
pub proof fn lemma_select_same(t: Seq<ItemView>, q1: RangeView, q2: RangeView)
    requires
        forall|i: int| 0 <= i < t.len() ==> selected(#[trigger] t[i], q1) == selected(t[i], q2),
    ensures
        select(t, q1) == select(t, q2),
    decreases t.len(),
{
    if t.len() > 0 {
        let d = t.drop_last();
        assert forall|i: int| 0 <= i < d.len() implies selected(#[trigger] d[i], q1) == selected(
            d[i],
            q2,
        ) by {
            assert(d[i] == t[i]);
        }
        lemma_select_same(d, q1, q2);
        assert(selected(t[t.len() - 1], q1) == selected(t[t.len() - 1], q2));
    }
}

/// The listing of two lists one after the other is their listings one after
/// the other.
pub proof fn lemma_select_add(a: Seq<ItemView>, b: Seq<ItemView>, q: RangeView)
    ensures
        select(a + b, q) == select(a, q) + select(b, q),
    decreases b.len(),
{
    if b.len() == 0 {
        assert(a + b =~= a);
        assert(select(a, q) + select(b, q) =~= select(a, q));
    } else {
        let d = b.drop_last();
        lemma_select_add(a, d, q);
        assert((a + b).drop_last() =~= a + d);
        assert((a + b).last() == b.last());
        if selected(b.last(), q) {
            assert(select(a + b, q) =~= select(a, q) + select(b, q));
        } else {
            assert(select(a + b, q) =~= select(a, q) + select(b, q));
        }
    }
}

/// Listing a list backwards gives its listing backwards.
pub proof fn lemma_select_reverse(t: Seq<ItemView>, q: RangeView)
    ensures
        select(t.reverse(), q) == select(t, q).reverse(),
    decreases t.len(),
{
    if t.len() == 0 {
        assert(t.reverse() =~= t);
        assert(select(t, q).reverse() =~= select(t, q));
    } else {
        let d = t.drop_last();
        let x = t.last();
        let one = seq![x];
        lemma_select_reverse(d, q);
        assert(t.reverse() =~= one + d.reverse());
        lemma_select_add(one, d.reverse(), q);
        assert(one.drop_last() =~= Seq::<ItemView>::empty());
        assert(one.last() == x);
        assert(select(one.drop_last(), q) =~= Seq::<ItemView>::empty());
        if selected(x, q) {
            assert(select(one, q) =~= one);
            assert(select(t, q).reverse() =~= one + select(d, q).reverse());
        } else {
            assert(select(one, q) =~= Seq::<ItemView>::empty());
            assert(select(t, q).reverse() =~= select(d, q).reverse());
            assert(select(one, q) + select(d, q).reverse() =~= select(d, q).reverse());
        }
    }
}

/// An item belongs to a listing taken up at `next` exactly if it belongs to
/// the listing and does not come before `next`, given that `next` itself
/// does not come before the start of the listing.
pub proof fn lemma_selected_resume(y: ItemView, q: RangeView, next: Seq<char>)
    requires
        q.start matches Some(s) ==> !comes_before(next, s, q.reverse),
    ensures
        selected(y, with_start(q, next)) <==> selected(y, q) && !comes_before(
            y.sort_key,
            next,
            q.reverse,
        ),
{
    if let Some(s) = q.start {
        if !comes_before(y.sort_key, next, q.reverse) && comes_before(y.sort_key, s, q.reverse) {
            lemma_str_total(y.sort_key, next);
            if q.reverse {
                if str_lt(y.sort_key, next) {
                    lemma_lt_transitive(key_bytes(s), key_bytes(y.sort_key), key_bytes(next));
                }
            } else {
                if str_lt(next, y.sort_key) {
                    lemma_lt_transitive(key_bytes(next), key_bytes(y.sort_key), key_bytes(s));
                }
            }
        }
    }
}

/// Taking a listing up at the sort key of its item `l` gives the listing
/// from that item on: nothing twice, nothing left out.
pub proof fn lemma_resume(t: Seq<ItemView>, q: RangeView, l: int)
    requires
        scan_sorted(t, q.reverse),
        0 <= l < select(t, q).len(),
    ensures
        select(t, with_start(q, select(t, q)[l].sort_key), ) == select(t, q).skip(l),
    decreases t.len(),
{
    let s = select(t, q);
    let next = s[l].sort_key;
    let q2 = with_start(q, next);
    let d = t.drop_last();
    let x = t.last();
    let sd = select(d, q);
    lemma_select_member(t, q, l);
    assert(scan_sorted(d, q.reverse)) by {
        assert forall|i: int, j: int|
            0 <= i < j < d.len() && d[i].partition_key == d[j].partition_key implies comes_before(
            d[i].sort_key,
            d[j].sort_key,
            q.reverse,
        ) by {
            assert(d[i] == t[i] && d[j] == t[j]);
        }
    }
    lemma_selected_resume(x, q, next);
    if l < sd.len() {
        assert(s[l] == sd[l]);
        lemma_resume(d, q, l);
        if selected(x, q) {
            lemma_select_member(d, q, l);
            let m = choose|m: int| 0 <= m < d.len() && #[trigger] d[m] == sd[l];
            assert(t[m] == sd[l]);
            assert(comes_before(t[m].sort_key, t[t.len() - 1].sort_key, q.reverse));
            lemma_comes_before_asymmetric(t[m].sort_key, x.sort_key, q.reverse);
            assert(select(t, q2) =~= s.skip(l));
        } else {
            assert(select(t, q2) =~= s.skip(l));
        }
    } else {
        assert(selected(x, q));
        assert(s[l] == x);
        assert forall|i: int| 0 <= i < d.len() implies !selected(#[trigger] d[i], q2) by {
            lemma_selected_resume(d[i], q, next);
            if selected(d[i], q) {
                assert(d[i] == t[i]);
                assert(comes_before(t[i].sort_key, t[t.len() - 1].sort_key, q.reverse));
            }
        }
        lemma_select_none(d, q2);
        lemma_comes_before_asymmetric(x.sort_key, x.sort_key, q.reverse);
        assert(select(t, q2) =~= s.skip(l));
    }
}

/// Pages taken one after another, each from the cursor of the page before
/// it, until no cursor comes back, give exactly the whole listing: every
/// item once, in order, none left out.
pub proof fn lemma_pagination_complete(items: Seq<ItemView>, q: RangeView, limit: u64, rounds: nat)
    requires
        sorted_items(items),
        limit >= 1,
        rounds >= scan(items, q).len(),
    ensures
        all_pages(items, q, limit, rounds) == scan(items, q),
    decreases rounds,
{
    let s = scan(items, q);
    let t = in_direction(items, q.reverse);
    if s.len() <= limit {
        assert(s.take(s.len() as int) =~= s);
    } else {
        let next = s[limit as int].sort_key;
        let q2 = with_start(q, next);
        lemma_direction_sorted(items, q.reverse);
        lemma_resume(t, q, limit as int);
        assert(scan(items, q2) == s.skip(limit as int));
        lemma_pagination_complete(items, q2, limit, (rounds - 1) as nat);
        assert(s.take(limit as int) + s.skip(limit as int) =~= s);
    }
}

/// A page that reports no more items is the whole listing, and a page that
/// reports more holds exactly `limit` items.
pub proof fn lemma_page_shape(items: Seq<ItemView>, q: RangeView, limit: Option<u64>)
    ensures
        !page_more(items, q, limit) ==> page_items(items, q, limit) == scan(items, q),
        page_more(items, q, limit) ==> page_items(items, q, limit).len() == limit->0,
        page_next(items, q, limit) is Some <==> page_more(items, q, limit),
{
    let s = scan(items, q);
    if !page_more(items, q, limit) {
        assert(s.take(s.len() as int) =~= s);
    }
}

/// The descending listing of a range is the ascending listing of the same
/// range, backwards: given two ranges of one partition, one in each
/// direction, with the same filter and bounds that admit the same sort keys.
pub proof fn lemma_reverse_consistent(items: Seq<ItemView>, forward: RangeView, backward: RangeView)
    requires
        !forward.reverse,
        backward.reverse,
        forward.partition_key == backward.partition_key,
        forward.filter == backward.filter,
        forall|sk: Seq<char>| #[trigger] in_bounds(sk, forward) == in_bounds(sk, backward),
    ensures
        scan(items, backward) == scan(items, forward).reverse(),
{
    let r = items.reverse();
    assert forall|i: int| 0 <= i < r.len() implies selected(#[trigger] r[i], backward) == selected(
        r[i],
        forward,
    ) by {
        assert(in_bounds(r[i].sort_key, forward) == in_bounds(r[i].sort_key, backward));
    }
    lemma_select_same(r, backward, forward);
    lemma_select_reverse(items, forward);
}

/// Without start and end, turning the direction of a range turns its
/// listing round.
pub proof fn lemma_reverse_unbounded(items: Seq<ItemView>, q: RangeView)
    requires
        q.start is None,
        q.end is None,
    ensures
        scan(items, RangeView { reverse: true, ..q }) == scan(
            items,
            RangeView { reverse: false, ..q },
        ).reverse(),
{
    lemma_reverse_consistent(
        items,
        RangeView { reverse: false, ..q },
        RangeView { reverse: true, ..q },
    );
}

} // verus!
