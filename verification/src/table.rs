//! An ordered table of items, held in memory: point lookup, and writes that
//! the table stamps with dots of its own.

use vstd::prelude::*;
use crate::causality::CausalContext;
use crate::drain::{lemma_pop_reversed, reversed};
use crate::error::Error;
use crate::item::{
    context_view, lemma_surviving, surviving, written, Dot, DottedView, DvvsValue, ItemView,
    K2VItem,
};
use crate::order::{
    key_lt, lemma_key_lt_asymmetric, lemma_key_lt_transitive, pair_order, KeyOrder,
};

verus! {

/// The items of a list as plain data.
pub open spec fn item_views(s: Seq<K2VItem>) -> Seq<ItemView> {
    Seq::new(s.len(), |i: int| s[i]@)
}

/// Item `a` sorts before item `b`.
pub open spec fn item_before(a: ItemView, b: ItemView) -> bool {
    key_lt(a.partition_key, a.sort_key, b.partition_key, b.sort_key)
}

/// Items stand in strictly ascending order of partition key and sort key, so
/// no two of them share both keys.
pub open spec fn sorted_items(s: Seq<ItemView>) -> bool {
    forall|i: int, j: int| 0 <= i < j < s.len() ==> item_before(s[i], s[j])
}

/// The item is the one stored under the two keys.
pub open spec fn key_is(item: ItemView, pk: Seq<char>, sk: Seq<char>) -> bool {
    item.partition_key == pk && item.sort_key == sk
}

/// The item sorts before the two keys.
pub open spec fn below_key(item: ItemView, pk: Seq<char>, sk: Seq<char>) -> bool {
    key_lt(item.partition_key, item.sort_key, pk, sk)
}

/// Index `p` parts the items that sort before the two keys from the rest.
pub open spec fn split_at(items: Seq<ItemView>, pk: Seq<char>, sk: Seq<char>, p: int) -> bool {
    &&& 0 <= p <= items.len()
    &&& forall|i: int| 0 <= i < p ==> below_key(#[trigger] items[i], pk, sk)
    &&& forall|i: int| p <= i < items.len() ==> !below_key(#[trigger] items[i], pk, sk)
}

/// Where an item with the two keys stands, or would stand, among sorted
/// items.
pub open spec fn slot(items: Seq<ItemView>, pk: Seq<char>, sk: Seq<char>) -> int {
    choose|p: int| split_at(items, pk, sk, p)
}

/// The item stored under the two keys, if there is one.
pub open spec fn lookup(items: Seq<ItemView>, pk: Seq<char>, sk: Seq<char>) -> Option<ItemView> {
    let p = slot(items, pk, sk);
    if 0 <= p < items.len() && key_is(items[p], pk, sk) {
        Some(items[p])
    } else {
        None
    }
}

/// The items after a write under the two keys: the item stored there takes
/// the write, or a new item is made for it at its place in the order.
pub open spec fn put(
    items: Seq<ItemView>,
    pk: Seq<char>,
    sk: Seq<char>,
    ctx: Option<Map<u64, u64>>,
    dot: Dot,
    value: Option<Seq<u8>>,
) -> Seq<ItemView> {
    let p = slot(items, pk, sk);
    if 0 <= p < items.len() && key_is(items[p], pk, sk) {
        items.update(
            p,
            ItemView { values: written(items[p].values, ctx, dot, value), ..items[p] },
        )
    } else {
        items.insert(
            p,
            ItemView {
                partition_key: pk,
                sort_key: sk,
                values: written(Seq::<DottedView>::empty(), ctx, dot, value),
            },
        )
    }
}

/// A table as plain data.
pub struct TableView {
    /// The node in whose name the table stamps writes.
    pub node: u64,
    /// The counter of the last write that the table stamped.
    pub issued: u64,
    /// The items, in ascending order of partition key and sort key.
    pub items: Seq<ItemView>,
}

/// The table after it has accepted a write.
pub open spec fn after_insert(
    t: TableView,
    pk: Seq<char>,
    sk: Seq<char>,
    ctx: Option<Map<u64, u64>>,
    value: Option<Seq<u8>>,
) -> TableView {
    let dot = Dot { node: t.node, counter: (t.issued + 1) as u64 };
    TableView { node: t.node, issued: dot.counter, items: put(t.items, pk, sk, ctx, dot, value) }
}

/// One write that a table is asked to accept.
#[derive(Debug)]
pub struct InsertOp {
    pub partition_key: String,
    pub sort_key: String,
    /// What the writer had seen of the item; `None` where it had not read.
    pub context: Option<CausalContext>,
    pub value: DvvsValue,
}

/// A write as plain data.
pub struct OpView {
    pub partition_key: Seq<char>,
    pub sort_key: Seq<char>,
    pub context: Option<Map<u64, u64>>,
    pub value: Option<Seq<u8>>,
}

impl View for InsertOp {
    type V = OpView;

    open spec fn view(&self) -> OpView {
        OpView {
            partition_key: self.partition_key@,
            sort_key: self.sort_key@,
            context: context_view(&self.context),
            value: self.value@,
        }
    }
}

/// The writes of a list as plain data.
pub open spec fn op_views(s: Seq<InsertOp>) -> Seq<OpView> {
    Seq::new(s.len(), |i: int| s[i]@)
}

/// The table after it has accepted a list of writes, one after another.
pub open spec fn after_inserts(t: TableView, ops: Seq<OpView>) -> TableView
    decreases ops.len(),
{
    if ops.len() == 0 {
        t
    } else {
        let op = ops.last();
        after_insert(
            after_inserts(t, ops.drop_last()),
            op.partition_key,
            op.sort_key,
            op.context,
            op.value,
        )
    }
}

/// Each accepted write takes one counter.
pub proof fn lemma_after_inserts_issued(t: TableView, ops: Seq<OpView>)
    requires
        t.issued + ops.len() <= u64::MAX,
    ensures
        after_inserts(t, ops).issued == t.issued + ops.len(),
        after_inserts(t, ops).node == t.node,
    decreases ops.len(),
{
    if ops.len() > 0 {
        lemma_after_inserts_issued(t, ops.drop_last());
    }
}

/// Among sorted items only one index parts those below a key from the rest.
pub proof fn lemma_split_unique(items: Seq<ItemView>, pk: Seq<char>, sk: Seq<char>, p: int)
    requires
        split_at(items, pk, sk, p),
    ensures
        slot(items, pk, sk) == p,
{
    let q = slot(items, pk, sk);
    assert(split_at(items, pk, sk, q));
    if q < p {
        assert(below_key(items[q], pk, sk));
    } else if p < q {
        assert(below_key(items[p], pk, sk));
    }
}

/// Among sorted items some index parts those below a key from the rest.
pub proof fn lemma_split_exists(items: Seq<ItemView>, pk: Seq<char>, sk: Seq<char>)
    requires
        sorted_items(items),
    ensures
        exists|p: int| split_at(items, pk, sk, p),
    decreases items.len(),
{
    if items.len() == 0 {
        assert(split_at(items, pk, sk, 0));
    } else {
        let d = items.drop_last();
        let last = items.last();
        assert(sorted_items(d)) by {
            assert forall|i: int, j: int| 0 <= i < j < d.len() implies item_before(d[i], d[j]) by {
                assert(d[i] == items[i] && d[j] == items[j]);
            }
        }
        lemma_split_exists(d, pk, sk);
        let p = choose|p: int| split_at(d, pk, sk, p);
        assert(forall|i: int| 0 <= i < d.len() ==> d[i] == items[i]);
        if p < d.len() {
            assert(!below_key(d[p], pk, sk));
            if below_key(last, pk, sk) {
                assert(item_before(items[p], items[items.len() - 1]));
                lemma_key_lt_transitive(
                    items[p].partition_key,
                    items[p].sort_key,
                    last.partition_key,
                    last.sort_key,
                    pk,
                    sk,
                );
            }
            assert(split_at(items, pk, sk, p)) by {
                assert forall|i: int| 0 <= i < p implies below_key(#[trigger] items[i], pk, sk) by {
                    assert(below_key(d[i], pk, sk));
                }
                assert forall|i: int| p <= i < items.len() implies !below_key(
                    #[trigger] items[i],
                    pk,
                    sk,
                ) by {
                    if i < d.len() {
                        assert(!below_key(d[i], pk, sk));
                    }
                }
            }
        } else if below_key(last, pk, sk) {
            assert(split_at(items, pk, sk, items.len() as int)) by {
                assert forall|i: int| 0 <= i < items.len() implies below_key(
                    #[trigger] items[i],
                    pk,
                    sk,
                ) by {
                    if i < d.len() {
                        assert(below_key(d[i], pk, sk));
                    }
                }
            }
        } else {
            assert(split_at(items, pk, sk, d.len() as int)) by {
                assert forall|i: int| 0 <= i < d.len() implies below_key(#[trigger] items[i], pk, sk) by {
                    assert(below_key(d[i], pk, sk));
                }
            }
        }
    }
}

/// Among sorted items, an item stored under the two keys is the one that
/// `lookup` finds, and stands at `slot`.
pub proof fn lemma_lookup_found(items: Seq<ItemView>, pk: Seq<char>, sk: Seq<char>, i: int)
    requires
        sorted_items(items),
        0 <= i < items.len(),
        key_is(items[i], pk, sk),
    ensures
        split_at(items, pk, sk, i),
        slot(items, pk, sk) == i,
        lookup(items, pk, sk) == Some(items[i]),
{
    assert(split_at(items, pk, sk, i)) by {
        assert forall|j: int| 0 <= j < i implies below_key(#[trigger] items[j], pk, sk) by {
            assert(item_before(items[j], items[i]));
        }
        assert forall|j: int| i <= j < items.len() implies !below_key(#[trigger] items[j], pk, sk) by {
            lemma_key_lt_asymmetric(pk, sk, items[j].partition_key, items[j].sort_key);
            if i < j {
                assert(item_before(items[i], items[j]));
            }
        }
    }
    lemma_split_unique(items, pk, sk, i);
}

/// A write keeps the items sorted, and the item under the written keys holds
/// the survivors of the write and the new value.
pub proof fn lemma_put(
    items: Seq<ItemView>,
    pk: Seq<char>,
    sk: Seq<char>,
    ctx: Option<Map<u64, u64>>,
    dot: Dot,
    value: Option<Seq<u8>>,
)
    requires
        sorted_items(items),
        exists|p: int| split_at(items, pk, sk, p),
    ensures
        sorted_items(put(items, pk, sk, ctx, dot, value)),
        lookup(put(items, pk, sk, ctx, dot, value), pk, sk) is Some,
        lookup(put(items, pk, sk, ctx, dot, value), pk, sk)->0.values == written(
            match lookup(items, pk, sk) {
                Some(it) => it.values,
                None => Seq::<DottedView>::empty(),
            },
            ctx,
            dot,
            value,
        ),
{
    let p = slot(items, pk, sk);
    assert(split_at(items, pk, sk, p));
    let out = put(items, pk, sk, ctx, dot, value);
    if 0 <= p < items.len() && key_is(items[p], pk, sk) {
        assert forall|i: int, j: int| 0 <= i < j < out.len() implies item_before(out[i], out[j]) by {
            assert(item_before(items[i], items[j]));
        }
        lemma_lookup_found(out, pk, sk, p);
    } else {
        lemma_insert_sorted(items, pk, sk, p, out[p]);
        lemma_lookup_found(out, pk, sk, p);
    }
}

/// Putting a new item where the split is keeps the items sorted, given that
/// the items from the split on sort after the new keys.
proof fn lemma_insert_sorted(
    items: Seq<ItemView>,
    pk: Seq<char>,
    sk: Seq<char>,
    p: int,
    item: ItemView,
)
    requires
        sorted_items(items),
        split_at(items, pk, sk, p),
        key_is(item, pk, sk),
        p == items.len() || !key_is(items[p], pk, sk),
    ensures
        sorted_items(items.insert(p, item)),
{
    let out = items.insert(p, item);
    assert forall|i: int| p <= i < items.len() implies key_lt(
        pk,
        sk,
        (#[trigger] items[i]).partition_key,
        items[i].sort_key,
    ) by {
        lemma_above_key(items[p], pk, sk);
        if p < i {
            assert(item_before(items[p], items[i]));
            lemma_key_lt_transitive(
                pk,
                sk,
                items[p].partition_key,
                items[p].sort_key,
                items[i].partition_key,
                items[i].sort_key,
            );
        }
    }
    assert forall|i: int, j: int| 0 <= i < j < out.len() implies item_before(out[i], out[j]) by {
        if j < p {
            assert(item_before(items[i], items[j]));
        } else if j == p {
            assert(below_key(items[i], pk, sk));
        } else if i < p {
            assert(item_before(items[i], items[j - 1]));
        } else if i == p {
            assert(key_lt(pk, sk, items[j - 1].partition_key, items[j - 1].sort_key));
        } else {
            assert(item_before(items[i - 1], items[j - 1]));
        }
    }
}

/// An item that neither sorts before two keys nor is stored under them sorts
/// after them.
pub proof fn lemma_above_key(item: ItemView, pk: Seq<char>, sk: Seq<char>)
    requires
        !below_key(item, pk, sk),
        !key_is(item, pk, sk),
    ensures
        key_lt(pk, sk, item.partition_key, item.sort_key),
{
    crate::order::lemma_str_total(item.partition_key, pk);
    crate::order::lemma_str_total(item.sort_key, sk);
}

/// Where the two keys stand among sorted items, and whether an item is
/// stored under them.
fn find_slot(items: &Vec<K2VItem>, pk: &str, sk: &str) -> (r: (usize, bool))
    requires
        sorted_items(item_views(items@)),
    ensures
        split_at(item_views(items@), pk@, sk@, r.0 as int),
        r.1 == (r.0 < items@.len() && key_is(items@[r.0 as int]@, pk@, sk@)),
        r.1 ==> lookup(item_views(items@), pk@, sk@) == Some(items@[r.0 as int]@),
        !r.1 ==> lookup(item_views(items@), pk@, sk@) is None,
{
    let ghost views = item_views(items@);
    let mut p: usize = 0;
    while p < items.len()
        invariant
            views == item_views(items@),
            sorted_items(views),
            p <= items.len(),
            forall|i: int| 0 <= i < p ==> below_key(#[trigger] views[i], pk@, sk@),
        decreases items.len() - p,
    {
        let it = &items[p];
        match pair_order(it.partition_key.as_str(), it.sort_key.as_str(), pk, sk) {
            KeyOrder::Less => {
                assert(below_key(views[p as int], pk@, sk@));
            },
            KeyOrder::Equal => {
                proof {
                    assert(key_is(views[p as int], pk@, sk@));
                    lemma_lookup_found(views, pk@, sk@, p as int);
                }
                return (p, true);
            },
            KeyOrder::Greater => {
                proof {
                    lemma_split_from_greater(views, pk@, sk@, p as int);
                    lemma_split_unique(views, pk@, sk@, p as int);
                    lemma_key_lt_asymmetric(pk@, sk@, views[p as int].partition_key, views[p as int].sort_key);
                }
                return (p, false);
            },
        }
        p += 1;
    }
    proof {
        assert(split_at(views, pk@, sk@, p as int));
        lemma_split_unique(views, pk@, sk@, p as int);
    }
    (p, false)
}

/// Where the item at `p` sorts after two keys and all before it sort before
/// them, `p` parts the items.
proof fn lemma_split_from_greater(items: Seq<ItemView>, pk: Seq<char>, sk: Seq<char>, p: int)
    requires
        sorted_items(items),
        0 <= p < items.len(),
        forall|i: int| 0 <= i < p ==> below_key(#[trigger] items[i], pk, sk),
        key_lt(pk, sk, items[p].partition_key, items[p].sort_key),
    ensures
        split_at(items, pk, sk, p),
        forall|i: int| p <= i < items.len() ==> !key_is(#[trigger] items[i], pk, sk),
{
    assert forall|i: int| p <= i < items.len() implies !below_key(#[trigger] items[i], pk, sk)
        && !key_is(items[i], pk, sk) by {
        if p < i {
            assert(item_before(items[p], items[i]));
            lemma_key_lt_transitive(
                pk,
                sk,
                items[p].partition_key,
                items[p].sort_key,
                items[i].partition_key,
                items[i].sort_key,
            );
        }
        lemma_key_lt_asymmetric(pk, sk, items[i].partition_key, items[i].sort_key);
    }
}

/// Every dot that the items hold in the name of `node` has a counter that
/// has been handed out: one of at most `issued`.
pub open spec fn stamped(items: Seq<ItemView>, node: u64, issued: u64) -> bool {
    forall|i: int, j: int|
        0 <= i < items.len() && 0 <= j < items[i].values.len() && (
        #[trigger] items[i].values[j]).dot.node == node ==> items[i].values[j].dot.counter
            <= issued
}

/// The dot that the table stamps its next write with is held by no value:
/// a dot names one write.
pub proof fn lemma_next_dot_fresh(items: Seq<ItemView>, node: u64, issued: u64)
    requires
        stamped(items, node, issued),
        issued < u64::MAX,
    ensures
        forall|i: int, j: int|
            0 <= i < items.len() && 0 <= j < items[i].values.len() ==> (
            #[trigger] items[i].values[j]).dot != (Dot { node, counter: (issued + 1) as u64 }),
{
}

/// A write that is stamped with the next dot leaves every dot of the node
/// among those handed out.
pub proof fn lemma_put_stamped(
    items: Seq<ItemView>,
    pk: Seq<char>,
    sk: Seq<char>,
    ctx: Option<Map<u64, u64>>,
    value: Option<Seq<u8>>,
    node: u64,
    issued: u64,
)
    requires
        stamped(items, node, issued),
        issued < u64::MAX,
        exists|p: int| split_at(items, pk, sk, p),
    ensures
        stamped(
            put(items, pk, sk, ctx, Dot { node, counter: (issued + 1) as u64 }, value),
            node,
            (issued + 1) as u64,
        ),
{
    let dot = Dot { node, counter: (issued + 1) as u64 };
    let out = put(items, pk, sk, ctx, dot, value);
    let p = slot(items, pk, sk);
    assert(split_at(items, pk, sk, p));
    let found = 0 <= p < items.len() && key_is(items[p], pk, sk);
    let before = if found {
        items[p].values
    } else {
        Seq::<DottedView>::empty()
    };
    lemma_surviving(before, ctx);
    assert forall|i: int, j: int|
        0 <= i < out.len() && 0 <= j < out[i].values.len() && (#[trigger] out[i].values[j]).dot.node
            == node implies out[i].values[j].dot.counter <= issued + 1 by {
        if found {
            if i == p {
                let kept = surviving(before, ctx);
                if j < kept.len() {
                    assert(out[i].values[j] == kept[j]);
                    assert(before.contains(kept[j]));
                    let k = choose|k: int| 0 <= k < before.len() && before[k] == kept[j];
                    assert(items[p].values[k].dot.counter <= issued);
                }
            } else {
                assert(out[i] == items[i]);
                assert(items[i].values[j].dot.counter <= issued);
            }
        } else {
            if i < p {
                assert(out[i] == items[i]);
                assert(items[i].values[j].dot.counter <= issued);
            } else if i > p {
                assert(out[i] == items[i - 1]);
                assert(items[i - 1].values[j].dot.counter <= issued);
            } else {
                let kept = surviving(before, ctx);
                assert(kept.len() == 0);
            }
        }
    }
}

/// An ordered table of items, with the counter from which it stamps writes.
#[derive(Debug)]
pub struct ItemTable {
    node: u64,
    issued: u64,
    items: Vec<K2VItem>,
}

impl View for ItemTable {
    type V = TableView;

    closed spec fn view(&self) -> TableView {
        TableView { node: self.node, issued: self.issued, items: item_views(self.items@) }
    }
}

impl ItemTable {
    /// The items stand in strictly ascending order of their keys, and every
    /// dot that they hold in the name of the table's node has been handed
    /// out by the table.
    #[verifier::type_invariant]
    pub closed spec fn wf(&self) -> bool {
        &&& sorted_items(item_views(self.items@))
        &&& stamped(item_views(self.items@), self.node, self.issued)
    }

    /// A well-formed table holds its items in order, and only dots that it
    /// has handed out.
    pub proof fn lemma_wf(&self)
        requires
            self.wf(),
        ensures
            sorted_items(self@.items),
            stamped(self@.items, self@.node, self@.issued),
    {
    }

    /// An empty table that stamps writes in the name of `node`.
    pub fn new(node: u64) -> (r: Self)
        ensures
            r.wf(),
            r@ == (TableView { node, issued: 0, items: Seq::<ItemView>::empty() }),
    {
        let r = ItemTable { node, issued: 0, items: Vec::new() };
        proof {
            assert(item_views(r.items@) =~= Seq::<ItemView>::empty());
        }
        r
    }

    /// An empty table that stamps writes in the name of `node` and has
    /// stamped `issued` writes before.
    pub fn with_counter(node: u64, issued: u64) -> (r: Self)
        ensures
            r.wf(),
            r@ == (TableView { node, issued, items: Seq::<ItemView>::empty() }),
    {
        let r = ItemTable { node, issued, items: Vec::new() };
        proof {
            assert(item_views(r.items@) =~= Seq::<ItemView>::empty());
        }
        r
    }

    /// The table that holds the given items. They must stand in strictly
    /// ascending order of their keys, and hold no dot of `node` with a
    /// counter above `issued`; `None` where they do not.
    pub fn from_items(node: u64, issued: u64, items: Vec<K2VItem>) -> (r: Option<Self>)
        ensures
            r is Some <==> sorted_items(item_views(items@)) && stamped(
                item_views(items@),
                node,
                issued,
            ),
            r matches Some(t) ==> t.wf() && t@ == (TableView {
                node,
                issued,
                items: item_views(items@),
            }),
    {
        let ghost views = item_views(items@);
        let mut i: usize = 0;
        while i < items.len()
            invariant
                views == item_views(items@),
                i <= items.len(),
                sorted_items(views.take(i as int)),
                stamped(views.take(i as int), node, issued),
            decreases items.len() - i,
        {
            if i > 0 {
                let a = &items[i - 1];
                let b = &items[i];
                match pair_order(
                    a.partition_key.as_str(),
                    a.sort_key.as_str(),
                    b.partition_key.as_str(),
                    b.sort_key.as_str(),
                ) {
                    KeyOrder::Less => {},
                    _ => {
                        proof {
                            assert(views[i - 1] == a@ && views[i as int] == b@);
                            assert(!item_before(views[i - 1], views[i as int]));
                        }
                        return None;
                    },
                }
            }
            let item = &items[i];
            let mut j: usize = 0;
            while j < item.values.len()
                invariant
                    views == item_views(items@),
                    i < items.len(),
                    item@ == views[i as int],
                    j <= item.values.len(),
                    forall|k: int|
                        0 <= k < j && (#[trigger] item@.values[k]).dot.node == node
                            ==> item@.values[k].dot.counter <= issued,
                decreases item.values.len() - j,
            {
                let d = item.values[j].dot;
                if d.node == node && d.counter > issued {
                    proof {
                        assert(views[i as int].values[j as int].dot == d);
                    }
                    return None;
                }
                j += 1;
            }
            proof {
                let now = views.take(i as int);
                let next = views.take(i + 1);
                assert forall|x: int, y: int| 0 <= x < y < next.len() implies item_before(
                    next[x],
                    next[y],
                ) by {
                    if y < i {
                        assert(item_before(now[x], now[y]));
                    } else if x < i - 1 {
                        assert(item_before(now[x], now[i - 1]));
                        lemma_key_lt_transitive(
                            views[x].partition_key,
                            views[x].sort_key,
                            views[i - 1].partition_key,
                            views[i - 1].sort_key,
                            views[i as int].partition_key,
                            views[i as int].sort_key,
                        );
                    }
                }
                assert forall|x: int, y: int|
                    0 <= x < next.len() && 0 <= y < next[x].values.len() && (
                    #[trigger] next[x].values[y]).dot.node == node implies next[x].values[y].dot.counter
                    <= issued by {
                    if x < i {
                        assert(next[x] == now[x]);
                        assert(now[x].values[y].dot.counter <= issued);
                    }
                }
            }
            i += 1;
        }
        proof {
            assert(views.take(items.len() as int) =~= views);
        }
        Some(ItemTable { node, issued, items })
    }

    /// The node in whose name the table stamps writes.
    pub fn node(&self) -> (r: u64)
        ensures
            r == self@.node,
    {
        self.node
    }

    /// How many items the table holds.
    pub fn len(&self) -> (r: usize)
        ensures
            r == self@.items.len(),
    {
        self.items.len()
    }

    /// The item at place `i` of the order.
    pub fn item(&self, i: usize) -> (r: &K2VItem)
        requires
            i < self@.items.len(),
        ensures
            r@ == self@.items[i as int],
    {
        &self.items[i]
    }

    /// The counter of the last write that the table stamped.
    pub fn issued(&self) -> (r: u64)
        ensures
            r == self@.issued,
    {
        self.issued
    }

    /// The item stored under the two keys, if there is one.
    pub fn get(&self, partition_key: &str, sort_key: &str) -> (r: Option<&K2VItem>)
        ensures
            self.wf(),
            match r {
                Some(item) => lookup(self@.items, partition_key@, sort_key@) == Some(item@),
                None => lookup(self@.items, partition_key@, sort_key@) is None,
            },
    {
        proof {
            use_type_invariant(self);
        }
        let (p, found) = find_slot(&self.items, partition_key, sort_key);
        if found {
            Some(&self.items[p])
        } else {
            None
        }
    }

    /// Accepts a write: stamps it with the next dot of the table and applies
    /// it to the item under the two keys, which is made if it is not there.
    /// Fails, and changes nothing, only where the counter is exhausted.
    pub fn insert(
        &mut self,
        partition_key: String,
        sort_key: String,
        context: Option<CausalContext>,
        value: DvvsValue,
    ) -> (r: Result<(), Error>)
        ensures
            final(self).wf(),
            r is Ok <==> old(self)@.issued < u64::MAX,
            r is Ok ==> final(self)@ == after_insert(
                old(self)@,
                partition_key@,
                sort_key@,
                context_view(&context),
                value@,
            ),
            r is Err ==> r == Err::<(), Error>(Error::CounterExhausted) && final(self)@ == old(self)@,
    {
        proof {
            use_type_invariant(&*self);
        }
        if self.issued == u64::MAX {
            return Err(Error::CounterExhausted);
        }
        let ghost before = self@;
        let ghost ctx = context_view(&context);
        let dot = Dot { node: self.node, counter: self.issued + 1 };
        let (p, found) = find_slot(&self.items, partition_key.as_str(), sort_key.as_str());
        let mut items: Vec<K2VItem> = Vec::new();
        proof {
            assert(item_views(items@) =~= Seq::<ItemView>::empty());
        }
        core::mem::swap(&mut self.items, &mut items);
        let ghost old_items = items@;
        proof {
            assert(item_views(old_items) == before.items);
            lemma_split_unique(before.items, partition_key@, sort_key@, p as int);
            lemma_put(before.items, partition_key@, sort_key@, ctx, dot, value@);
        }
        let mut item = if found {
            items.remove(p)
        } else {
            K2VItem::new(partition_key, sort_key)
        };
        item.update(dot, &context, value);
        items.insert(p, item);
        proof {
            let target = put(before.items, partition_key@, sort_key@, ctx, dot, value@);
            if found {
                assert(items@ == old_items.remove(p as int).insert(p as int, item));
                assert forall|i: int| 0 <= i < target.len() implies item_views(items@)[i] == target[i] by {
                    if i != p {
                        assert(items@[i] == old_items[i]);
                        assert(before.items[i] == old_items[i]@);
                    }
                }
            } else {
                assert(items@ == old_items.insert(p as int, item));
                assert forall|i: int| 0 <= i < target.len() implies item_views(items@)[i] == target[i] by {
                    if i < p {
                        assert(items@[i] == old_items[i]);
                        assert(before.items[i] == old_items[i]@);
                    } else if i > p {
                        assert(items@[i] == old_items[i - 1]);
                        assert(before.items[i - 1] == old_items[i - 1]@);
                    }
                }
            }
            assert(item_views(items@) =~= target);
        }
        proof {
            lemma_put_stamped(
                before.items,
                partition_key@,
                sort_key@,
                ctx,
                value@,
                before.node,
                before.issued,
            );
        }
        self.issued = dot.counter;
        self.items = items;
        Ok(())
    }

    /// Accepts a list of writes, one after another, or none of them: it
    /// fails, and changes nothing, only where the counter would be exhausted
    /// before the last of them.
    pub fn insert_batch(&mut self, ops: Vec<InsertOp>) -> (r: Result<(), Error>)
        ensures
            final(self).wf(),
            r is Ok <==> old(self)@.issued + ops@.len() <= u64::MAX,
            r is Ok ==> final(self)@ == after_inserts(old(self)@, op_views(ops@)),
            r is Err ==> r == Err::<(), Error>(Error::CounterExhausted) && final(self)@ == old(self)@,
    {
        proof {
            use_type_invariant(&*self);
        }
        if ops.len() as u64 > u64::MAX - self.issued {
            return Err(Error::CounterExhausted);
        }
        let ghost before = self@;
        let ghost owned = ops@;
        let ghost all = op_views(ops@);
        let ghost mut k: int = 0;
        let mut rest = reversed(ops);
        proof {
            assert(all.take(0) =~= Seq::<OpView>::empty());
            assert(owned.skip(0) =~= owned);
        }
        while rest.len() > 0
            invariant
                self.wf(),
                all == op_views(owned),
                0 <= k <= owned.len(),
                before.issued + owned.len() <= u64::MAX,
                rest@ == owned.skip(k).reverse(),
                self@ == after_inserts(before, all.take(k)),
            decreases rest@.len(),
        {
            proof {
                assert(rest@.len() == owned.len() - k);
                lemma_pop_reversed(owned, k);
                lemma_after_inserts_issued(before, all.take(k));
            }
            let op = rest.pop().unwrap();
            proof {
                assert(op == owned[k]);
                assert(op@ == all[k]);
                assert(all.take(k + 1).drop_last() =~= all.take(k));
                assert(all.take(k + 1).last() == all[k]);
            }
            let InsertOp { partition_key, sort_key, context, value } = op;
            let done = self.insert(partition_key, sort_key, context, value);
            proof {
                assert(done is Ok);
                k = k + 1;
            }
        }
        proof {
            assert(rest@.len() == owned.len() - k);
        }
        proof {
            assert(all.take(k) =~= all);
        }
        Ok(())
    }
}

} // verus!
