//! Items: the values written under one key that no later write has
//! superseded, each with the dot of the write that made it.

use vstd::prelude::*;
use crate::causality::{covers, join, CausalContext};
pub use crate::causality::Dot;

verus! {

/// What a write leaves under a key: a payload, or the mark of a deletion.
#[derive(Debug, PartialEq, Eq)]
pub enum DvvsValue {
    Value(Vec<u8>),
    Deleted,
}

impl View for DvvsValue {
    type V = Option<Seq<u8>>;

    open spec fn view(&self) -> Option<Seq<u8>> {
        match self {
            DvvsValue::Value(bytes) => Some(bytes@),
            DvvsValue::Deleted => None,
        }
    }
}

/// A copy of a byte string.
pub fn copy_bytes(s: &[u8]) -> (r: Vec<u8>)
    ensures
        r@ == s@,
{
    let mut r: Vec<u8> = Vec::new();
    let mut i: usize = 0;
    while i < s.len()
        invariant
            i <= s.len(),
            r@ == s@.take(i as int),
        decreases s.len() - i,
    {
        r.push(s[i]);
        proof {
            assert(r@ =~= s@.take(i + 1));
        }
        i += 1;
    }
    proof {
        assert(r@ =~= s@);
    }
    r
}

impl DvvsValue {
    /// A copy of the value.
    pub fn duplicate(&self) -> (r: Self)
        ensures
            r@ == self@,
    {
        match self {
            DvvsValue::Value(bytes) => DvvsValue::Value(copy_bytes(bytes.as_slice())),
            DvvsValue::Deleted => DvvsValue::Deleted,
        }
    }

    /// Whether the value marks a deletion.
    pub fn is_deleted(&self) -> (r: bool)
        ensures
            r == (self@ is None),
    {
        match self {
            DvvsValue::Value(_) => false,
            DvvsValue::Deleted => true,
        }
    }
}

/// A value together with the dot of the write that made it.
#[derive(Debug, PartialEq, Eq)]
pub struct DottedValue {
    pub dot: Dot,
    pub value: DvvsValue,
}

/// A dotted value as plain data: `None` for the mark of a deletion.
pub struct DottedView {
    pub dot: Dot,
    pub value: Option<Seq<u8>>,
}

impl View for DottedValue {
    type V = DottedView;

    open spec fn view(&self) -> DottedView {
        DottedView { dot: self.dot, value: self.value@ }
    }
}

/// The values of a list as plain data.
pub open spec fn value_views(s: Seq<DottedValue>) -> Seq<DottedView> {
    Seq::new(s.len(), |i: int| s[i]@)
}

/// Whether a write under `ctx` supersedes the value that `dot` made: the
/// context covers the dot. A write without context supersedes nothing.
pub open spec fn supersedes(ctx: Option<Map<u64, u64>>, dot: Dot) -> bool {
    match ctx {
        Some(m) => covers(m, dot.node, dot.counter),
        None => false,
    }
}

/// The values that a write under `ctx` leaves in place, in their order.
pub open spec fn surviving(values: Seq<DottedView>, ctx: Option<Map<u64, u64>>) -> Seq<DottedView>
    decreases values.len(),
{
    if values.len() == 0 {
        Seq::<DottedView>::empty()
    } else {
        let rest = surviving(values.drop_last(), ctx);
        if supersedes(ctx, values.last().dot) {
            rest
        } else {
            rest.push(values.last())
        }
    }
}

/// The values of an item after a write: the survivors, then the new value.
pub open spec fn written(
    values: Seq<DottedView>,
    ctx: Option<Map<u64, u64>>,
    dot: Dot,
    value: Option<Seq<u8>>,
) -> Seq<DottedView> {
    surviving(values, ctx).push(DottedView { dot, value })
}

/// The mapping that holds one dot and nothing else.
pub open spec fn dot_clock(dot: Dot) -> Map<u64, u64> {
    Map::<u64, u64>::empty().insert(dot.node, dot.counter)
}

/// The causal context of a set of values: the join of all their dots.
pub open spec fn context_of(values: Seq<DottedView>) -> Map<u64, u64>
    decreases values.len(),
{
    if values.len() == 0 {
        Map::<u64, u64>::empty()
    } else {
        join(context_of(values.drop_last()), dot_clock(values.last().dot))
    }
}

/// Every value marks a deletion.
pub open spec fn all_deleted(values: Seq<DottedView>) -> bool {
    forall|i: int| 0 <= i < values.len() ==> (#[trigger] values[i]).value is None
}

/// The mapping that an optional context stands for.
pub open spec fn context_view(context: &Option<CausalContext>) -> Option<Map<u64, u64>> {
    match context {
        Some(c) => Some(c@),
        None => None,
    }
}

/// A read-time choice of items: two flags that narrow independently.
#[derive(Clone, Copy, Debug, PartialEq, Eq, Structural)]
pub struct ItemFilter {
    /// Leave out items all of whose values mark deletions.
    pub exclude_only_tombstones: bool,
    /// Leave out items that hold fewer than two live values.
    pub conflicts_only: bool,
}

/// An item as plain data.
pub struct ItemView {
    pub partition_key: Seq<char>,
    pub sort_key: Seq<char>,
    pub values: Seq<DottedView>,
}

/// How many of the values are live: payloads, not marks of a deletion.
pub open spec fn live_count(values: Seq<DottedView>) -> nat
    decreases values.len(),
{
    if values.len() == 0 {
        0
    } else {
        live_count(values.drop_last()) + if values.last().value is Some {
            1nat
        } else {
            0nat
        }
    }
}

/// Whether a filter lets an item through: one that asks for conflicts only
/// lets through the items with more than one live value, and one that
/// leaves out deleted items those that hold a live value.
pub open spec fn passes(item: ItemView, filter: ItemFilter) -> bool {
    &&& !(filter.conflicts_only && live_count(item.values) < 2)
    &&& !(filter.exclude_only_tombstones && all_deleted(item.values))
}

/// The values stored under one partition key and sort key.
#[derive(Debug, PartialEq, Eq)]
pub struct K2VItem {
    pub partition_key: String,
    pub sort_key: String,
    pub values: Vec<DottedValue>,
}

impl View for K2VItem {
    type V = ItemView;

    open spec fn view(&self) -> ItemView {
        ItemView {
            partition_key: self.partition_key@,
            sort_key: self.sort_key@,
            values: value_views(self.values@),
        }
    }
}

/// A write without context leaves every value in place.
pub proof fn lemma_surviving_none(values: Seq<DottedView>)
    ensures
        surviving(values, None) == values,
    decreases values.len(),
{
    if values.len() > 0 {
        lemma_surviving_none(values.drop_last());
        assert(values.drop_last().push(values.last()) =~= values);
    } else {
        assert(values =~= Seq::<DottedView>::empty());
    }
}

/// The survivors of a write are the values that it does not supersede, and
/// only those: each survivor is a value that the context does not cover, and
/// each such value survives.
pub proof fn lemma_surviving(values: Seq<DottedView>, ctx: Option<Map<u64, u64>>)
    ensures
        surviving(values, ctx).len() <= values.len(),
        forall|j: int|
            0 <= j < surviving(values, ctx).len() ==> values.contains(
                #[trigger] surviving(values, ctx)[j],
            ) && !supersedes(ctx, surviving(values, ctx)[j].dot),
        forall|i: int|
            0 <= i < values.len() && !supersedes(ctx, (#[trigger] values[i]).dot) ==> surviving(
                values,
                ctx,
            ).contains(values[i]),
    decreases values.len(),
{
    let out = surviving(values, ctx);
    if values.len() > 0 {
        let d = values.drop_last();
        let rest = surviving(d, ctx);
        lemma_surviving(d, ctx);
        assert forall|j: int| 0 <= j < out.len() implies values.contains(#[trigger] out[j])
            && !supersedes(ctx, out[j].dot) by {
            if j < rest.len() {
                assert(out[j] == rest[j]);
                assert(d.contains(rest[j]));
                let k = choose|k: int| 0 <= k < d.len() && d[k] == rest[j];
                assert(values[k] == rest[j]);
            } else {
                assert(out[j] == values.last());
                assert(values[values.len() - 1] == out[j]);
            }
        }
        assert forall|i: int|
            0 <= i < values.len() && !supersedes(ctx, (#[trigger] values[i]).dot) implies out.contains(
            values[i],
        ) by {
            if i < d.len() {
                assert(d[i] == values[i]);
                assert(rest.contains(d[i]));
                let k = choose|k: int| 0 <= k < rest.len() && rest[k] == d[i];
                assert(out[k] == values[i]);
            } else {
                assert(out[out.len() - 1] == values[i]);
            }
        }
    }
}

/// The causal context of a set of values covers the dot of each of them.
pub proof fn lemma_context_covers(values: Seq<DottedView>, i: int)
    requires
        0 <= i < values.len(),
    ensures
        covers(context_of(values), values[i].dot.node, values[i].dot.counter),
    decreases values.len(),
{
    let d = values.drop_last();
    if i < d.len() {
        lemma_context_covers(d, i);
        assert(d[i] == values[i]);
    }
}

/// A write under the causal context of the values supersedes all of them.
pub proof fn lemma_own_context_supersedes(values: Seq<DottedView>)
    ensures
        surviving(values, Some(context_of(values))) == Seq::<DottedView>::empty(),
{
    let ctx = Some(context_of(values));
    lemma_surviving(values, ctx);
    let out = surviving(values, ctx);
    if out.len() > 0 {
        assert(values.contains(out[0]));
        let k = choose|k: int| 0 <= k < values.len() && values[k] == out[0];
        lemma_context_covers(values, k);
    }
    assert(out =~= Seq::<DottedView>::empty());
}

/// A write whose context covers the dot of a value removes that value from
/// the item: no value with that dot is left among the survivors.
pub proof fn lemma_write_supersedes(
    values: Seq<DottedView>,
    ctx: Option<Map<u64, u64>>,
    i: int,
)
    requires
        0 <= i < values.len(),
        supersedes(ctx, values[i].dot),
    ensures
        forall|j: int|
            0 <= j < surviving(values, ctx).len() ==> (#[trigger] surviving(values, ctx)[j]).dot
                != values[i].dot,
{
    lemma_surviving(values, ctx);
}

/// A write without context removes no value: the values after it are those
/// before it, then the new one.
pub proof fn lemma_write_without_context(
    values: Seq<DottedView>,
    dot: Dot,
    value: Option<Seq<u8>>,
)
    ensures
        written(values, None, dot, value) == values.push(DottedView { dot, value }),
{
    lemma_surviving_none(values);
}

/// The live values of a list are at most as many as its values, and none
/// where every value marks a deletion.
pub proof fn lemma_live_count(values: Seq<DottedView>)
    ensures
        live_count(values) <= values.len(),
        live_count(values) == 0 <==> all_deleted(values),
    decreases values.len(),
{
    if values.len() > 0 {
        let d = values.drop_last();
        lemma_live_count(d);
        if all_deleted(values) {
            assert forall|i: int| 0 <= i < d.len() implies (#[trigger] d[i]).value is None by {
                assert(d[i] == values[i]);
            }
            assert(values[values.len() - 1].value is None);
        }
        if live_count(values) == 0 {
            assert forall|i: int| 0 <= i < values.len() implies (#[trigger] values[i]).value is None by {
                if i < d.len() {
                    assert(d[i] == values[i]);
                }
            }
        }
    }
}

/// Two writes of payloads of which the second does not cover the first
/// leave an item in conflict: it holds two live values at least, and a
/// filter that asks for conflicts only lets it through.
pub proof fn lemma_conflict_detected(
    item: ItemView,
    ctx1: Option<Map<u64, u64>>,
    dot1: Dot,
    value1: Seq<u8>,
    ctx2: Option<Map<u64, u64>>,
    dot2: Dot,
    value2: Seq<u8>,
)
    requires
        !supersedes(ctx2, dot1),
    ensures
        live_count(
            written(written(item.values, ctx1, dot1, Some(value1)), ctx2, dot2, Some(value2)),
        ) >= 2,
        passes(
            ItemView {
                values: written(
                    written(item.values, ctx1, dot1, Some(value1)),
                    ctx2,
                    dot2,
                    Some(value2),
                ),
                ..item
            },
            ItemFilter { exclude_only_tombstones: false, conflicts_only: true },
        ),
{
    let first = written(item.values, ctx1, dot1, Some(value1));
    let d = first.drop_last();
    let e1 = DottedView { dot: dot1, value: Some(value1) };
    let e2 = DottedView { dot: dot2, value: Some(value2) };
    assert(first.last() == e1);
    let kept = surviving(first, ctx2);
    assert(kept == surviving(d, ctx2).push(e1));
    assert(kept.drop_last() =~= surviving(d, ctx2));
    assert(kept.last() == e1);
    assert(live_count(kept) >= 1);
    let second = kept.push(e2);
    assert(second.drop_last() =~= kept);
    assert(second.last() == e2);
    assert(live_count(second) >= 2);
    assert(second[second.len() - 1].value is Some);
}

impl K2VItem {
    /// An item without values.
    pub fn new(partition_key: String, sort_key: String) -> (r: Self)
        ensures
            r@ == (ItemView {
                partition_key: partition_key@,
                sort_key: sort_key@,
                values: Seq::<DottedView>::empty(),
            }),
    {
        let r = K2VItem { partition_key, sort_key, values: Vec::new() };
        proof {
            assert(r@.values =~= Seq::<DottedView>::empty());
        }
        r
    }

    /// Applies a write: the values whose dots `context` covers leave, and the
    /// new value joins the rest under `dot`.
    pub fn update(&mut self, dot: Dot, context: &Option<CausalContext>, value: DvvsValue)
        ensures
            final(self)@ == (ItemView {
                values: written(old(self)@.values, context_view(context), dot, value@),
                ..old(self)@
            }),
    {
        let ghost before = self@.values;
        let ghost ctx = context_view(context);
        let ghost mut k: int = 0;
        let mut i: usize = 0;
        proof {
            assert(before.take(0) =~= Seq::<DottedView>::empty());
            assert(value_views(self.values@) =~= surviving(before.take(0), ctx) + before.skip(0));
        }
        while i < self.values.len()
            invariant
                ctx == context_view(context),
                self.partition_key == old(self).partition_key,
                self.sort_key == old(self).sort_key,
                0 <= k <= before.len(),
                i == surviving(before.take(k), ctx).len(),
                self.values@.len() == i + before.len() - k,
                value_views(self.values@) == surviving(before.take(k), ctx) + before.skip(k),
            decreases before.len() - k,
        {
            let ghost now = self.values@;
            let ghost kept = surviving(before.take(k), ctx);
            proof {
                assert(value_views(now)[i as int] == before.skip(k)[0]);
                assert(k < before.len());
                assert(before.take(k + 1).drop_last() =~= before.take(k));
                assert(before.take(k + 1).last() == before[k]);
            }
            let d = self.values[i].dot;
            let gone = match context {
                Some(c) => c.covers(d),
                None => false,
            };
            if gone {
                self.values.remove(i);
                proof {
                    let vv = value_views(now);
                    let target = kept + before.skip(k + 1);
                    assert(self.values@ == now.remove(i as int));
                    assert(vv == kept + before.skip(k));
                    assert forall|j: int| 0 <= j < self.values@.len() implies value_views(
                        self.values@,
                    )[j] == target[j] by {
                        if j < i {
                            assert(vv[j] == kept[j]);
                        } else {
                            assert(vv[j + 1] == before.skip(k)[j + 1 - i]);
                        }
                    }
                    assert(value_views(self.values@) =~= target);
                }
            } else {
                i += 1;
                proof {
                    let vv = value_views(now);
                    let target = kept.push(before[k]) + before.skip(k + 1);
                    assert(vv == kept + before.skip(k));
                    assert forall|j: int| 0 <= j < vv.len() implies vv[j] == target[j] by {
                        if j < kept.len() {
                            assert(vv[j] == kept[j]);
                        } else {
                            assert(vv[j] == before.skip(k)[j - kept.len()]);
                        }
                    }
                    assert(vv =~= target);
                }
            }
            proof {
                k = k + 1;
            }
        }
        proof {
            assert(before.take(k) =~= before);
        }
        self.values.push(DottedValue { dot, value });
        proof {
            assert(value_views(self.values@) =~= written(before, ctx, dot, value@));
        }
    }

    /// The causal context of the item: the join of the dots of its values.
    /// A write under it supersedes every value that the item holds now.
    pub fn causal_context(&self) -> (r: CausalContext)
        ensures
            r.wf(),
            r@ == context_of(self@.values),
    {
        let mut ctx = CausalContext::new();
        let mut i: usize = 0;
        proof {
            assert(self@.values.take(0) =~= Seq::<DottedView>::empty());
        }
        while i < self.values.len()
            invariant
                i <= self.values.len(),
                ctx.wf(),
                ctx@ == context_of(self@.values.take(i as int)),
            decreases self.values.len() - i,
        {
            let d = self.values[i].dot;
            let have = ctx.get(d.node);
            let ghost seen = ctx@;
            if d.counter > have {
                ctx.set(d.node, d.counter);
            } else {
                ctx.set(d.node, have);
            }
            proof {
                let t = self@.values.take(i + 1);
                assert(t.drop_last() =~= self@.values.take(i as int));
                assert(t.last().dot == d);
                assert(ctx@ =~= join(seen, dot_clock(d)));
            }
            i += 1;
        }
        proof {
            assert(self@.values.take(i as int) =~= self@.values);
        }
        ctx
    }

    /// How many values the item holds.
    pub fn value_count(&self) -> (r: usize)
        ensures
            r == self@.values.len(),
    {
        self.values.len()
    }

    /// The values of the item, in the order in which they were written.
    pub fn values(&self) -> (r: Vec<&DvvsValue>)
        ensures
            r@.len() == self@.values.len(),
            forall|i: int| 0 <= i < r@.len() ==> (#[trigger] r@[i])@ == self@.values[i].value,
    {
        let mut r: Vec<&DvvsValue> = Vec::new();
        let mut i: usize = 0;
        while i < self.values.len()
            invariant
                i <= self.values.len(),
                r@.len() == i,
                forall|j: int| 0 <= j < i ==> (#[trigger] r@[j])@ == self@.values[j].value,
            decreases self.values.len() - i,
        {
            r.push(&self.values[i].value);
            i += 1;
        }
        r
    }

    /// Whether every value of the item marks a deletion.
    pub fn is_tombstone(&self) -> (r: bool)
        ensures
            r == all_deleted(self@.values),
    {
        let mut i: usize = 0;
        while i < self.values.len()
            invariant
                i <= self.values.len(),
                forall|j: int| 0 <= j < i ==> (#[trigger] self@.values[j]).value is None,
            decreases self.values.len() - i,
        {
            if !self.values[i].value.is_deleted() {
                proof {
                    assert(self@.values[i as int].value is Some);
                }
                return false;
            }
            i += 1;
        }
        true
    }

    /// How many live values the item holds: payloads, not marks of a
    /// deletion.
    pub fn live_values(&self) -> (r: usize)
        ensures
            r == live_count(self@.values),
    {
        let mut n: usize = 0;
        let mut i: usize = 0;
        proof {
            assert(self@.values.take(0) =~= Seq::<DottedView>::empty());
        }
        while i < self.values.len()
            invariant
                i <= self.values.len(),
                n <= i,
                n == live_count(self@.values.take(i as int)),
            decreases self.values.len() - i,
        {
            proof {
                assert(self@.values.take(i + 1).drop_last() =~= self@.values.take(i as int));
                assert(self@.values.take(i + 1).last() == self@.values[i as int]);
            }
            if !self.values[i].value.is_deleted() {
                n += 1;
            }
            i += 1;
        }
        proof {
            assert(self@.values.take(i as int) =~= self@.values);
        }
        n
    }

    /// Whether the item is in conflict: it holds more than one live value,
    /// the payloads of concurrent writes that no later write has resolved.
    pub fn is_conflicted(&self) -> (r: bool)
        ensures
            r == (live_count(self@.values) > 1),
    {
        self.live_values() > 1
    }

    /// Whether `filter` lets the item through.
    pub fn matches_filter(&self, filter: &ItemFilter) -> (r: bool)
        ensures
            r == passes(self@, *filter),
    {
        if filter.conflicts_only && self.live_values() < 2 {
            return false;
        }
        if filter.exclude_only_tombstones && self.is_tombstone() {
            return false;
        }
        true
    }

    /// A copy of the item.
    pub fn duplicate(&self) -> (r: Self)
        ensures
            r@ == self@,
    {
        let mut values: Vec<DottedValue> = Vec::new();
        let mut i: usize = 0;
        while i < self.values.len()
            invariant
                i <= self.values.len(),
                values@.len() == i,
                value_views(values@) == value_views(self.values@).take(i as int),
            decreases self.values.len() - i,
        {
            let v = DottedValue { dot: self.values[i].dot, value: self.values[i].value.duplicate() };
            let ghost prior = values@;
            values.push(v);
            proof {
                let have = value_views(values@);
                let want = value_views(self.values@).take(i + 1);
                assert(value_views(prior) == value_views(self.values@).take(i as int));
                assert forall|j: int| 0 <= j < have.len() implies have[j] == want[j] by {
                    if j < i {
                        assert(have[j] == value_views(prior)[j]);
                    }
                }
                assert(have =~= want);
            }
            i += 1;
        }
        proof {
            assert(value_views(values@) =~= value_views(self.values@));
        }
        K2VItem {
            partition_key: self.partition_key.clone(),
            sort_key: self.sort_key.clone(),
            values,
        }
    }
}

} // verus!
