//! Batches of writes, reads and deletions against a table: each request of
//! a batch is checked and answered on its own, and the answers stand in the
//! order of the requests.

use vstd::prelude::*;
use crate::causality::{clock_bytes, clock_token, token_clock, CausalContext};
use crate::drain::{lemma_pop_reversed, reversed};
use crate::encoding::{fits_text, standard_text, text_to_value, value_of_text, value_to_text};
use crate::error::Error;
use crate::item::{
    all_deleted, context_of, lemma_own_context_supersedes, passes, Dot, DottedView, DvvsValue,
    ItemFilter, ItemView, K2VItem,
};
use crate::range::{
    page_items, page_more, page_next, read_range, ref_views, scan, text_view, EnumerationOrder,
    RangeView,
};
use crate::table::{
    after_inserts, lemma_put, lookup, op_views, put, sorted_items, split_at, InsertOp, ItemTable,
    OpView, TableView,
};

verus! {

/// One write of a batch, as a client sends it: the keys, the causality
/// token of what the client had read, and the value as base64 text, `None`
/// for a deletion.
#[derive(Debug)]
pub struct InsertBatchItem {
    pub pk: String,
    pub sk: String,
    pub ct: Option<String>,
    pub v: Option<String>,
}

/// The causal context that an optional token stands for.
pub open spec fn parsed_context(ct: Option<Seq<char>>) -> Result<Option<Map<u64, u64>>, Error> {
    match ct {
        None => Ok(None),
        Some(t) => match token_clock(t) {
            Some(m) => Ok(Some(m)),
            None => Err(Error::InvalidCausalityToken),
        },
    }
}

/// The value that an optional base64 text stands for: without text, a
/// deletion.
pub open spec fn parsed_value(v: Option<Seq<char>>) -> Result<Option<Seq<u8>>, Error> {
    match v {
        None => Ok(None),
        Some(t) => match value_of_text(t) {
            Some(b) => Ok(Some(b)),
            None => Err(Error::InvalidBase64Value),
        },
    }
}

/// The write that an item of a batch stands for. The token is looked at
/// before the value.
pub open spec fn parsed_op(item: InsertBatchItem) -> Result<OpView, Error> {
    match parsed_context(text_view(&item.ct)) {
        Err(e) => Err(e),
        Ok(context) => match parsed_value(text_view(&item.v)) {
            Err(e) => Err(e),
            Ok(value) => Ok(
                OpView { partition_key: item.pk@, sort_key: item.sk@, context, value },
            ),
        },
    }
}

/// The writes that a batch stands for, or what is wrong with the first item
/// that stands for none.
pub open spec fn parsed_ops(items: Seq<InsertBatchItem>) -> Result<Seq<OpView>, Error>
    decreases items.len(),
{
    if items.len() == 0 {
        Ok(Seq::<OpView>::empty())
    } else {
        match parsed_ops(items.drop_last()) {
            Err(e) => Err(e),
            Ok(ops) => match parsed_op(items.last()) {
                Err(e) => Err(e),
                Ok(op) => Ok(ops.push(op)),
            },
        }
    }
}

/// An error among the first items of a batch is the error of the batch.
pub proof fn lemma_parsed_ops_error(items: Seq<InsertBatchItem>, k: int, e: Error)
    requires
        0 <= k <= items.len(),
        parsed_ops(items.take(k)) == Err::<Seq<OpView>, Error>(e),
    ensures
        parsed_ops(items) == Err::<Seq<OpView>, Error>(e),
    decreases items.len() - k,
{
    if k < items.len() {
        assert(items.take(k + 1).drop_last() =~= items.take(k));
        lemma_parsed_ops_error(items, k + 1, e);
    } else {
        assert(items.take(k) =~= items);
    }
}

/// Checks one item of a batch and makes the write that it stands for.
pub fn parse_insert_item(item: InsertBatchItem) -> (r: Result<InsertOp, Error>)
    ensures
        match r {
            Ok(op) => parsed_op(item) == Ok::<OpView, Error>(op@),
            Err(e) => parsed_op(item) == Err::<OpView, Error>(e),
        },
{
    let InsertBatchItem { pk, sk, ct, v } = item;
    let context = match &ct {
        Some(t) => match CausalContext::parse(t.as_str()) {
            Ok(c) => Some(c),
            Err(e) => {
                return Err(e);
            },
        },
        None => None,
    };
    let value = match &v {
        Some(t) => match text_to_value(t.as_str()) {
            Some(bytes) => DvvsValue::Value(bytes),
            None => {
                return Err(Error::InvalidBase64Value);
            },
        },
        None => DvvsValue::Deleted,
    };
    Ok(InsertOp { partition_key: pk, sort_key: sk, context, value })
}

/// Checks a batch of writes: every token and every value of it. One item
/// that fails the check fails the whole batch, with the error of the first
/// such item.
pub fn parse_insert_batch(items: Vec<InsertBatchItem>) -> (r: Result<Vec<InsertOp>, Error>)
    ensures
        match r {
            Ok(ops) => parsed_ops(items@) == Ok::<Seq<OpView>, Error>(op_views(ops@)),
            Err(e) => parsed_ops(items@) == Err::<Seq<OpView>, Error>(e),
        },
{
    let ghost all = items@;
    let ghost mut k: int = 0;
    let mut rest = reversed(items);
    let mut ops: Vec<InsertOp> = Vec::new();
    proof {
        assert(all.take(0) =~= Seq::<InsertBatchItem>::empty());
        assert(op_views(ops@) =~= Seq::<OpView>::empty());
    }
    while rest.len() > 0
        invariant
            all == items@,
            0 <= k <= all.len(),
            rest@ == all.skip(k).reverse(),
            parsed_ops(all.take(k)) == Ok::<Seq<OpView>, Error>(op_views(ops@)),
        decreases rest@.len(),
    {
        proof {
            assert(rest@.len() == all.len() - k);
            lemma_pop_reversed(all, k);
            assert(all.take(k + 1).drop_last() =~= all.take(k));
            assert(all.take(k + 1).last() == all[k]);
        }
        let item = rest.pop().unwrap();
        proof {
            assert(item == all[k]);
        }
        match parse_insert_item(item) {
            Ok(op) => {
                let ghost prior = ops@;
                ops.push(op);
                proof {
                    assert(op_views(ops@) =~= op_views(prior).push(op@));
                }
            },
            Err(e) => {
                proof {
                    lemma_parsed_ops_error(all, k + 1, e);
                }
                return Err(e);
            },
        }
        proof {
            k = k + 1;
        }
    }
    proof {
        assert(rest@.len() == all.len() - k);
        assert(all.take(k) =~= all);
    }
    Ok(ops)
}

/// Writes a batch into the table. The batch is checked as a whole before
/// the first write: one item with a token or a value that cannot be read
/// fails it, and the table is then left as it was. So it is where the table
/// has not enough counters left for all the writes.
pub fn handle_insert_batch(table: &mut ItemTable, items: Vec<InsertBatchItem>) -> (r: Result<
    (),
    Error,
>)
    ensures
        final(table).wf(),
        match parsed_ops(items@) {
            Err(e) => r == Err::<(), Error>(e) && final(table)@ == old(table)@,
            Ok(ops) => if old(table)@.issued + ops.len() <= u64::MAX {
                r is Ok && final(table)@ == after_inserts(old(table)@, ops)
            } else {
                r == Err::<(), Error>(Error::CounterExhausted) && final(table)@ == old(table)@
            },
        },
{
    proof {
        use_type_invariant(&*table);
    }
    match parse_insert_batch(items) {
        Err(e) => Err(e),
        Ok(ops) => table.insert_batch(ops),
    }
}

/// One item of an answer: its sort key, the causality token of its values,
/// and the values as base64 text, `None` for a deletion.
#[derive(Debug, PartialEq, Eq)]
pub struct ReadBatchResponseItem {
    pub sk: String,
    pub ct: String,
    pub v: Vec<Option<String>>,
}

/// An item of an answer as plain data.
pub struct ResponseItemView {
    pub sk: Seq<char>,
    pub ct: Seq<char>,
    pub v: Seq<Option<Seq<char>>>,
}

/// The texts of a list of optional texts.
pub open spec fn text_views(s: Seq<Option<String>>) -> Seq<Option<Seq<char>>> {
    Seq::new(s.len(), |i: int| text_view(&s[i]))
}

impl View for ReadBatchResponseItem {
    type V = ResponseItemView;

    open spec fn view(&self) -> ResponseItemView {
        ResponseItemView { sk: self.sk@, ct: self.ct@, v: text_views(self.v@) }
    }
}

/// A value as it stands in an answer.
pub open spec fn value_text(value: Option<Seq<u8>>) -> Option<Seq<char>> {
    match value {
        Some(bytes) => Some(standard_text(bytes)),
        None => None,
    }
}

/// The values of an item as they stand in an answer.
pub open spec fn value_texts(values: Seq<DottedView>) -> Seq<Option<Seq<char>>> {
    Seq::new(values.len(), |i: int| value_text(values[i].value))
}

/// An item as it stands in an answer.
pub open spec fn present(item: ItemView) -> ResponseItemView {
    ResponseItemView {
        sk: item.sort_key,
        ct: clock_token(context_of(item.values)),
        v: value_texts(item.values),
    }
}

/// A text of an answer reads back to the value that it stands for: the
/// text of a payload to that payload, and no text stands for a deletion.
pub open spec fn text_reads_back(text: Option<Seq<char>>, value: Option<Seq<u8>>) -> bool {
    match value {
        Some(bytes) => text matches Some(t) && value_of_text(t) == Some(bytes),
        None => text is None,
    }
}

/// What an answer shows of an item reads back to the item: the token parses
/// to the causal context of the item, and each text reads back to the value
/// at its place.
pub open spec fn reads_back(shown: ResponseItemView, item: ItemView) -> bool {
    &&& shown.sk == item.sort_key
    &&& token_clock(shown.ct) == Some(context_of(item.values))
    &&& shown.v.len() == item.values.len()
    &&& forall|k: int|
        0 <= k < item.values.len() ==> text_reads_back(#[trigger] shown.v[k], item.values[k].value)
}

/// What an answer shows of each item reads back to the item at its place.
pub open spec fn all_read_back(shown: Seq<ResponseItemView>, items: Seq<ItemView>) -> bool {
    &&& shown.len() == items.len()
    &&& forall|i: int| 0 <= i < items.len() ==> reads_back(#[trigger] shown[i], items[i])
}

/// The first `n` values can be written as text.
pub open spec fn values_fit(values: Seq<DottedView>, n: int) -> bool {
    forall|i: int|
        0 <= i < n ==> ((#[trigger] values[i]).value matches Some(bytes) ==> fits_text(
            bytes.len(),
        ))
}

/// The item can be written into an answer: its token and each of its values
/// as text.
pub open spec fn presentable(item: ItemView) -> bool {
    &&& fits_text(clock_bytes(context_of(item.values)).len())
    &&& values_fit(item.values, item.values.len() as int)
}

impl ReadBatchResponseItem {
    /// The item as it stands in an answer; `None` where it cannot be
    /// written into one.
    pub fn try_from(i: &K2VItem) -> (r: Option<Self>)
        ensures
            r is Some <==> presentable(i@),
            r matches Some(item) ==> item@ == present(i@) && reads_back(item@, i@),
    {
        let ct = match i.causal_context().try_serialize() {
            Some(t) => t,
            None => {
                return None;
            },
        };
        let mut v: Vec<Option<String>> = Vec::new();
        let mut k: usize = 0;
        proof {
            assert(text_views(v@) =~= value_texts(i@.values).take(0));
        }
        while k < i.values.len()
            invariant
                k <= i.values.len(),
                v@.len() == k,
                values_fit(i@.values, k as int),
                text_views(v@) == value_texts(i@.values).take(k as int),
                forall|j: int|
                    0 <= j < k ==> text_reads_back(
                        #[trigger] text_views(v@)[j],
                        i@.values[j].value,
                    ),
            decreases i.values.len() - k,
        {
            let ghost prior = v@;
            match &i.values[k].value {
                DvvsValue::Value(bytes) => {
                    match value_to_text(bytes.as_slice()) {
                        Some(t) => {
                            v.push(Some(t));
                        },
                        None => {
                            proof {
                                assert(i@.values[k as int].value == Some(bytes@));
                            }
                            return None;
                        },
                    }
                },
                DvvsValue::Deleted => {
                    v.push(None);
                },
            }
            proof {
                let have = text_views(v@);
                let want = value_texts(i@.values).take(k + 1);
                assert forall|j: int| 0 <= j < have.len() implies have[j] == want[j] by {
                    if j < k {
                        assert(have[j] == text_views(prior)[j]);
                    }
                }
                assert(have =~= want);
                assert forall|j: int| 0 <= j < k + 1 implies text_reads_back(
                    #[trigger] have[j],
                    i@.values[j].value,
                ) by {
                    if j < k {
                        assert(have[j] == text_views(prior)[j]);
                    }
                }
            }
            k += 1;
        }
        proof {
            assert(value_texts(i@.values).take(k as int) =~= value_texts(i@.values));
        }
        Some(ReadBatchResponseItem { sk: i.sort_key.clone(), ct, v })
    }

    /// The item as it stands in an answer.
    pub fn from(i: &K2VItem) -> (r: Self)
        requires
            presentable(i@),
        ensures
            r@ == present(i@),
            reads_back(r@, i@),
    {
        match ReadBatchResponseItem::try_from(i) {
            Some(item) => item,
            None => vstd::pervasive::unreached(),
        }
    }
}

/// One read of a batch: a range of one partition, or a single item.
#[derive(Debug)]
pub struct ReadBatchQuery {
    pub partition_key: String,
    pub prefix: Option<String>,
    pub start: Option<String>,
    pub end: Option<String>,
    pub limit: Option<u64>,
    pub reverse: bool,
    /// Look up the one item whose sort key is `start`.
    pub single_item: bool,
    /// Answer only with items that hold values of concurrent writes.
    pub conflicts_only: bool,
    /// Answer also with items all of whose values mark deletions.
    pub tombstones: bool,
}

/// The answer to one read: the query as it was asked, the items found, and
/// whether and where the listing goes on.
#[derive(Debug, PartialEq, Eq)]
pub struct ReadBatchResponse {
    pub partition_key: String,
    pub prefix: Option<String>,
    pub start: Option<String>,
    pub end: Option<String>,
    pub limit: Option<u64>,
    pub reverse: bool,
    pub single_item: bool,
    pub conflicts_only: bool,
    pub tombstones: bool,
    pub items: Vec<ReadBatchResponseItem>,
    pub more: bool,
    pub next_start: Option<String>,
}

/// What a read finds: items, and whether and where the listing goes on.
pub struct ReadListing {
    pub items: Seq<ItemView>,
    pub more: bool,
    pub next_start: Option<Seq<char>>,
}

/// The filter of a read.
pub open spec fn read_filter(q: ReadBatchQuery) -> ItemFilter {
    ItemFilter { exclude_only_tombstones: !q.tombstones, conflicts_only: q.conflicts_only }
}

/// The range of a read that is not for a single item.
pub open spec fn read_range_of(q: ReadBatchQuery) -> RangeView {
    RangeView {
        partition_key: q.partition_key@,
        prefix: text_view(&q.prefix),
        start: text_view(&q.start),
        end: text_view(&q.end),
        filter: Some(read_filter(q)),
        reverse: q.reverse,
    }
}

/// The item stored under two keys, where the filter lets it through.
pub open spec fn single_item(
    items: Seq<ItemView>,
    pk: Seq<char>,
    sk: Seq<char>,
    filter: ItemFilter,
) -> Seq<ItemView> {
    match lookup(items, pk, sk) {
        Some(item) => if passes(item, filter) {
            seq![item]
        } else {
            Seq::<ItemView>::empty()
        },
        None => Seq::<ItemView>::empty(),
    }
}

impl ReadBatchQuery {
    /// Why the read is refused, if it is: a read for a single item may name
    /// no prefix, end, limit or reverse direction, and must name a start.
    pub open spec fn refusal(self) -> Option<Error> {
        if !self.single_item {
            None
        } else if self.prefix is Some || self.end is Some || self.limit is Some || self.reverse {
            Some(Error::SingleItemReadParameters)
        } else if self.start is None {
            Some(Error::SingleItemWithoutStart)
        } else {
            None
        }
    }

    /// Checks that the parameters of the read go together.
    pub fn validate(&self) -> (r: Result<(), Error>)
        ensures
            match r {
                Ok(_) => self.refusal() is None,
                Err(e) => self.refusal() == Some(e),
            },
    {
        if !self.single_item {
            return Ok(());
        }
        if self.prefix.is_some() || self.end.is_some() || self.limit.is_some() || self.reverse {
            return Err(Error::SingleItemReadParameters);
        }
        if self.start.is_none() {
            return Err(Error::SingleItemWithoutStart);
        }
        Ok(())
    }
}

/// What a read finds among the items of a table, or why it is refused.
pub open spec fn read_listing(items: Seq<ItemView>, q: ReadBatchQuery) -> Result<
    ReadListing,
    Error,
> {
    match q.refusal() {
        Some(e) => Err(e),
        None => if q.single_item {
            Ok(
                ReadListing {
                    items: single_item(items, q.partition_key@, q.start->0@, read_filter(q)),
                    more: false,
                    next_start: None,
                },
            )
        } else {
            let range = read_range_of(q);
            Ok(
                ReadListing {
                    items: page_items(items, range, q.limit),
                    more: page_more(items, range, q.limit),
                    next_start: page_next(items, range, q.limit),
                },
            )
        },
    }
}

/// Each of the first `n` items can be written into an answer.
pub open spec fn all_presentable(items: Seq<ItemView>, n: int) -> bool {
    forall|i: int| 0 <= i < n ==> presentable(#[trigger] items[i])
}

/// What a read is answered with: what it finds, or why it fails. It fails
/// where it is refused, and where an item found cannot be written into an
/// answer.
pub open spec fn read_answer(items: Seq<ItemView>, q: ReadBatchQuery) -> Result<
    ReadListing,
    Error,
> {
    match read_listing(items, q) {
        Err(e) => Err(e),
        Ok(listing) => if all_presentable(listing.items, listing.items.len() as int) {
            Ok(listing)
        } else {
            Err(Error::TooLarge)
        },
    }
}

/// The items of an answer as plain data.
pub open spec fn response_item_views(s: Seq<ReadBatchResponseItem>) -> Seq<ResponseItemView> {
    Seq::new(s.len(), |i: int| s[i]@)
}

/// Items as they stand in an answer.
pub open spec fn presented(items: Seq<ItemView>) -> Seq<ResponseItemView> {
    Seq::new(items.len(), |i: int| present(items[i]))
}

/// The answer repeats the query and holds what the read found.
pub open spec fn answers(resp: ReadBatchResponse, q: ReadBatchQuery, found: ReadListing) -> bool {
    &&& resp.partition_key == q.partition_key
    &&& resp.prefix == q.prefix
    &&& resp.start == q.start
    &&& resp.end == q.end
    &&& resp.limit == q.limit
    &&& resp.reverse == q.reverse
    &&& resp.single_item == q.single_item
    &&& resp.conflicts_only == q.conflicts_only
    &&& resp.tombstones == q.tombstones
    &&& response_item_views(resp.items@) == presented(found.items)
    &&& all_read_back(response_item_views(resp.items@), found.items)
    &&& resp.more == found.more
    &&& text_view(&resp.next_start) == found.next_start
}

/// Writes the items found into an answer; `None` where one of them cannot
/// be written into one.
pub fn present_items(found: &Vec<&K2VItem>) -> (r: Option<Vec<ReadBatchResponseItem>>)
    ensures
        r is Some <==> all_presentable(ref_views(found@), found@.len() as int),
        r matches Some(items) ==> response_item_views(items@) == presented(ref_views(found@))
            && all_read_back(response_item_views(items@), ref_views(found@)),
{
    let ghost views = ref_views(found@);
    let mut out: Vec<ReadBatchResponseItem> = Vec::new();
    let mut k: usize = 0;
    proof {
        assert(response_item_views(out@) =~= presented(views).take(0));
    }
    while k < found.len()
        invariant
            views == ref_views(found@),
            k <= found.len(),
            out@.len() == k,
            all_presentable(views, k as int),
            response_item_views(out@) == presented(views).take(k as int),
            forall|j: int| 0 <= j < k ==> reads_back(#[trigger] response_item_views(out@)[j], views[j]),
        decreases found.len() - k,
    {
        let ghost prior = out@;
        match ReadBatchResponseItem::try_from(found[k]) {
            Some(item) => {
                out.push(item);
            },
            None => {
                proof {
                    assert(!presentable(views[k as int]));
                }
                return None;
            },
        }
        proof {
            let have = response_item_views(out@);
            let want = presented(views).take(k + 1);
            assert forall|j: int| 0 <= j < have.len() implies have[j] == want[j] by {
                if j < k {
                    assert(have[j] == response_item_views(prior)[j]);
                }
            }
            assert(have =~= want);
            assert forall|j: int| 0 <= j < k + 1 implies reads_back(#[trigger] have[j], views[j]) by {
                if j < k {
                    assert(have[j] == response_item_views(prior)[j]);
                }
            }
        }
        k += 1;
    }
    proof {
        assert(presented(views).take(k as int) =~= presented(views));
    }
    Some(out)
}

/// Answers one read against the table.
pub fn handle_read_batch_query(table: &ItemTable, query: ReadBatchQuery) -> (r: Result<
    ReadBatchResponse,
    Error,
>)
    ensures
        read_answered(read_answer(table@.items, query), query, r),
{
    let filter = ItemFilter {
        exclude_only_tombstones: !query.tombstones,
        conflicts_only: query.conflicts_only,
    };
    match query.validate() {
        Ok(_) => {},
        Err(e) => {
            return Err(e);
        },
    }
    let (found, more, next_start) = if query.single_item {
        let sk = match &query.start {
            Some(sk) => sk,
            None => {
                return Err(Error::SingleItemWithoutStart);
            },
        };
        let mut one: Vec<&K2VItem> = Vec::new();
        match table.get(query.partition_key.as_str(), sk.as_str()) {
            Some(item) => {
                if item.matches_filter(&filter) {
                    one.push(item);
                }
            },
            None => {},
        }
        proof {
            assert(ref_views(one@) =~= single_item(
                table@.items,
                query.partition_key@,
                sk@,
                filter,
            ));
        }
        (one, false, None)
    } else {
        read_range(
            table,
            query.partition_key.as_str(),
            &query.prefix,
            &query.start,
            &query.end,
            query.limit,
            Some(filter),
            EnumerationOrder::from_reverse(query.reverse),
        )
    };
    let items = match present_items(&found) {
        Some(items) => items,
        None => {
            return Err(Error::TooLarge);
        },
    };
    Ok(
        ReadBatchResponse {
            partition_key: query.partition_key,
            prefix: query.prefix,
            start: query.start,
            end: query.end,
            limit: query.limit,
            reverse: query.reverse,
            single_item: query.single_item,
            conflicts_only: query.conflicts_only,
            tombstones: query.tombstones,
            items,
            more,
            next_start,
        },
    )
}

/// The result is what the read has come to: its answer where it succeeds,
/// its error where it fails.
pub open spec fn read_answered(
    outcome: Result<ReadListing, Error>,
    query: ReadBatchQuery,
    result: Result<ReadBatchResponse, Error>,
) -> bool {
    match outcome {
        Ok(found) => result matches Ok(resp) && answers(resp, query, found),
        Err(e) => result == Err::<ReadBatchResponse, Error>(e),
    }
}

/// Each of the first `n` results is what the read at its place has come to.
pub open spec fn reads_answered(
    items: Seq<ItemView>,
    queries: Seq<ReadBatchQuery>,
    results: Seq<Result<ReadBatchResponse, Error>>,
    n: int,
) -> bool {
    forall|i: int|
        0 <= i < n ==> read_answered(
            #[trigger] read_answer(items, queries[i]),
            queries[i],
            results[i],
        )
}

/// Answers a batch of reads against the table: one result for each read, at
/// the place of the read. A read that fails has its error at its place, and
/// touches no other read of the batch.
pub fn handle_read_batch(table: &ItemTable, queries: Vec<ReadBatchQuery>) -> (r: Vec<
    Result<ReadBatchResponse, Error>,
>)
    ensures
        r@.len() == queries@.len(),
        reads_answered(table@.items, queries@, r@, queries@.len() as int),
{
    let ghost all = queries@;
    let ghost mut k: int = 0;
    let mut rest = reversed(queries);
    let mut results: Vec<Result<ReadBatchResponse, Error>> = Vec::new();
    while rest.len() > 0
        invariant
            all == queries@,
            0 <= k <= all.len(),
            rest@ == all.skip(k).reverse(),
            results@.len() == k,
            reads_answered(table@.items, all, results@, k),
        decreases rest@.len(),
    {
        proof {
            assert(rest@.len() == all.len() - k);
            lemma_pop_reversed(all, k);
        }
        let query = rest.pop().unwrap();
        proof {
            assert(query == all[k]);
        }
        let ghost prior = results@;
        let result = handle_read_batch_query(table, query);
        results.push(result);
        proof {
            assert forall|i: int| 0 <= i < k + 1 implies read_answered(
                #[trigger] read_answer(table@.items, all[i]),
                all[i],
                results@[i],
            ) by {
                if i < k {
                    assert(results@[i] == prior[i]);
                }
            }
            k = k + 1;
        }
    }
    proof {
        assert(rest@.len() == all.len() - k);
    }
    results
}

/// One deletion of a batch: of the items of a range, or of a single item.
#[derive(Debug)]
pub struct DeleteBatchQuery {
    pub partition_key: String,
    pub prefix: Option<String>,
    pub start: Option<String>,
    pub end: Option<String>,
    /// Delete the one item whose sort key is `start`.
    pub single_item: bool,
}

/// The answer to one deletion: the query as it was asked, and how many
/// items were deleted.
#[derive(Debug, PartialEq, Eq)]
pub struct DeleteBatchResponse {
    pub partition_key: String,
    pub prefix: Option<String>,
    pub start: Option<String>,
    pub end: Option<String>,
    pub single_item: bool,
    pub deleted_items: usize,
}

/// The filter of a deletion: items that are deleted already are left alone.
pub open spec fn delete_filter() -> ItemFilter {
    ItemFilter { exclude_only_tombstones: true, conflicts_only: false }
}

/// The range of a deletion that is not for a single item: the whole of it,
/// in ascending order.
pub open spec fn delete_range_of(q: DeleteBatchQuery) -> RangeView {
    RangeView {
        partition_key: q.partition_key@,
        prefix: text_view(&q.prefix),
        start: text_view(&q.start),
        end: text_view(&q.end),
        filter: Some(delete_filter()),
        reverse: false,
    }
}

impl DeleteBatchQuery {
    /// Why the deletion is refused, if it is: a deletion of a single item
    /// may name no prefix or end, and must name a start.
    pub open spec fn refusal(self) -> Option<Error> {
        if !self.single_item {
            None
        } else if self.prefix is Some || self.end is Some {
            Some(Error::SingleItemDeleteParameters)
        } else if self.start is None {
            Some(Error::SingleItemWithoutStart)
        } else {
            None
        }
    }

    /// Checks that the parameters of the deletion go together.
    pub fn validate(&self) -> (r: Result<(), Error>)
        ensures
            match r {
                Ok(_) => self.refusal() is None,
                Err(e) => self.refusal() == Some(e),
            },
    {
        if !self.single_item {
            return Ok(());
        }
        if self.prefix.is_some() || self.end.is_some() {
            return Err(Error::SingleItemDeleteParameters);
        }
        if self.start.is_none() {
            return Err(Error::SingleItemWithoutStart);
        }
        Ok(())
    }
}

/// The items that a deletion is aimed at, or why it is refused.
pub open spec fn delete_targets(items: Seq<ItemView>, q: DeleteBatchQuery) -> Result<
    Seq<ItemView>,
    Error,
> {
    match q.refusal() {
        Some(e) => Err(e),
        None => if q.single_item {
            Ok(single_item(items, q.partition_key@, q.start->0@, delete_filter()))
        } else {
            Ok(scan(items, delete_range_of(q)))
        },
    }
}

/// The write that deletes an item: a deletion under the causal context of
/// the item itself, so that it supersedes the values that the item holds
/// now and no others.
pub open spec fn tombstone_op(item: ItemView) -> OpView {
    OpView {
        partition_key: item.partition_key,
        sort_key: item.sort_key,
        context: Some(context_of(item.values)),
        value: None,
    }
}

/// The writes that delete a list of items.
pub open spec fn tombstone_ops(targets: Seq<ItemView>) -> Seq<OpView> {
    Seq::new(targets.len(), |i: int| tombstone_op(targets[i]))
}

/// The items that a deletion deletes, or why it fails. It fails where it is
/// refused, and where the table has not enough counters left.
pub open spec fn delete_outcome(t: TableView, q: DeleteBatchQuery) -> Result<Seq<ItemView>, Error> {
    match delete_targets(t.items, q) {
        Err(e) => Err(e),
        Ok(targets) => if t.issued + targets.len() <= u64::MAX {
            Ok(targets)
        } else {
            Err(Error::CounterExhausted)
        },
    }
}

/// The table after a deletion: as it was where the deletion fails.
pub open spec fn after_delete(t: TableView, q: DeleteBatchQuery) -> TableView {
    match delete_outcome(t, q) {
        Ok(targets) => after_inserts(t, tombstone_ops(targets)),
        Err(_) => t,
    }
}

/// The answer repeats the query and counts the items deleted.
pub open spec fn deleted(resp: DeleteBatchResponse, q: DeleteBatchQuery, targets: Seq<ItemView>) -> bool {
    &&& resp.partition_key == q.partition_key
    &&& resp.prefix == q.prefix
    &&& resp.start == q.start
    &&& resp.end == q.end
    &&& resp.single_item == q.single_item
    &&& resp.deleted_items == targets.len()
}

/// The result is what the deletion has come to: its answer where it
/// succeeds, its error where it fails.
pub open spec fn delete_answered(
    outcome: Result<Seq<ItemView>, Error>,
    query: DeleteBatchQuery,
    result: Result<DeleteBatchResponse, Error>,
) -> bool {
    match outcome {
        Ok(targets) => result matches Ok(resp) && deleted(resp, query, targets),
        Err(e) => result == Err::<DeleteBatchResponse, Error>(e),
    }
}

/// The writes that delete the items found.
pub fn tombstones_for(found: &Vec<&K2VItem>) -> (r: Vec<InsertOp>)
    ensures
        op_views(r@) == tombstone_ops(ref_views(found@)),
{
    let ghost views = ref_views(found@);
    let mut ops: Vec<InsertOp> = Vec::new();
    let mut k: usize = 0;
    proof {
        assert(op_views(ops@) =~= tombstone_ops(views).take(0));
    }
    while k < found.len()
        invariant
            views == ref_views(found@),
            k <= found.len(),
            ops@.len() == k,
            op_views(ops@) == tombstone_ops(views).take(k as int),
        decreases found.len() - k,
    {
        let ghost prior = ops@;
        let item = found[k];
        let op = InsertOp {
            partition_key: item.partition_key.clone(),
            sort_key: item.sort_key.clone(),
            context: Some(item.causal_context()),
            value: DvvsValue::Deleted,
        };
        ops.push(op);
        proof {
            let have = op_views(ops@);
            let want = tombstone_ops(views).take(k + 1);
            assert forall|j: int| 0 <= j < have.len() implies have[j] == want[j] by {
                if j < k {
                    assert(have[j] == op_views(prior)[j]);
                }
            }
            assert(have =~= want);
        }
        k += 1;
    }
    proof {
        assert(tombstone_ops(views).take(k as int) =~= tombstone_ops(views));
    }
    ops
}

/// The writes that carry out one deletion against the table, or why the
/// deletion is refused: one deletion for each item that it is aimed at,
/// under the item's own causal context.
pub fn delete_ops(table: &ItemTable, query: &DeleteBatchQuery) -> (r: Result<Vec<InsertOp>, Error>)
    ensures
        match delete_targets(table@.items, *query) {
            Err(e) => r == Err::<Vec<InsertOp>, Error>(e),
            Ok(targets) => r matches Ok(ops) && op_views(ops@) == tombstone_ops(targets),
        },
{
    let filter = ItemFilter { exclude_only_tombstones: true, conflicts_only: false };
    match query.validate() {
        Ok(_) => {},
        Err(e) => {
            return Err(e);
        },
    }
    if query.single_item {
        let sk = match &query.start {
            Some(sk) => sk,
            None => {
                return Err(Error::SingleItemWithoutStart);
            },
        };
        let mut one: Vec<&K2VItem> = Vec::new();
        match table.get(query.partition_key.as_str(), sk.as_str()) {
            Some(item) => {
                if item.matches_filter(&filter) {
                    one.push(item);
                }
            },
            None => {},
        }
        proof {
            assert(ref_views(one@) =~= single_item(
                table@.items,
                query.partition_key@,
                sk@,
                filter,
            ));
        }
        Ok(tombstones_for(&one))
    } else {
        let (found, more, _next_start) = read_range(
            table,
            query.partition_key.as_str(),
            &query.prefix,
            &query.start,
            &query.end,
            None,
            Some(filter),
            EnumerationOrder::Forward,
        );
        proof {
            let s = scan(table@.items, delete_range_of(*query));
            assert(!more);
            assert(s.take(s.len() as int) =~= s);
        }
        Ok(tombstones_for(&found))
    }
}

impl DeleteBatchQuery {
    /// The answer to the deletion, once `deleted_items` items are deleted.
    pub fn answer(self, deleted_items: usize) -> (r: DeleteBatchResponse)
        ensures
            r.partition_key == self.partition_key,
            r.prefix == self.prefix,
            r.start == self.start,
            r.end == self.end,
            r.single_item == self.single_item,
            r.deleted_items == deleted_items,
    {
        DeleteBatchResponse {
            partition_key: self.partition_key,
            prefix: self.prefix,
            start: self.start,
            end: self.end,
            single_item: self.single_item,
            deleted_items,
        }
    }
}

/// Carries out one deletion against the table: each item that it is aimed
/// at is written a deletion under the item's own causal context. A deletion
/// that fails leaves the table as it was.
pub fn handle_delete_batch_query(table: &mut ItemTable, query: DeleteBatchQuery) -> (r: Result<
    DeleteBatchResponse,
    Error,
>)
    ensures
        final(table).wf(),
        final(table)@ == after_delete(old(table)@, query),
        delete_answered(delete_outcome(old(table)@, query), query, r),
{
    proof {
        use_type_invariant(&*table);
    }
    let ops = match delete_ops(table, &query) {
        Ok(ops) => ops,
        Err(e) => {
            return Err(e);
        },
    };
    let n = ops.len();
    match table.insert_batch(ops) {
        Ok(()) => Ok(query.answer(n)),
        Err(e) => Err(e),
    }
}

/// The table after the deletions of a batch, one after another.
pub open spec fn after_deletes(t: TableView, queries: Seq<DeleteBatchQuery>) -> TableView
    decreases queries.len(),
{
    if queries.len() == 0 {
        t
    } else {
        after_delete(after_deletes(t, queries.drop_last()), queries.last())
    }
}

/// What deletion `i` of a batch comes to, carried out after those before
/// it.
pub open spec fn delete_outcome_at(t: TableView, queries: Seq<DeleteBatchQuery>, i: int) -> Result<
    Seq<ItemView>,
    Error,
> {
    delete_outcome(after_deletes(t, queries.take(i)), queries[i])
}

/// Each of the first `n` results is what the deletion at its place has come
/// to.
pub open spec fn deletes_answered(
    t: TableView,
    queries: Seq<DeleteBatchQuery>,
    results: Seq<Result<DeleteBatchResponse, Error>>,
    n: int,
) -> bool {
    forall|i: int|
        0 <= i < n ==> delete_answered(
            #[trigger] delete_outcome_at(t, queries, i),
            queries[i],
            results[i],
        )
}

/// Carries out a batch of deletions against the table, one after another:
/// one result for each deletion, at the place of the deletion. Every
/// deletion of the batch is carried out, whether or not one before it has
/// failed; a deletion that fails has its error at its place, changes
/// nothing, and touches no other deletion of the batch.
pub fn handle_delete_batch(table: &mut ItemTable, queries: Vec<DeleteBatchQuery>) -> (r: Vec<
    Result<DeleteBatchResponse, Error>,
>)
    ensures
        final(table).wf(),
        final(table)@ == after_deletes(old(table)@, queries@),
        r@.len() == queries@.len(),
        deletes_answered(old(table)@, queries@, r@, queries@.len() as int),
{
    proof {
        use_type_invariant(&*table);
    }
    let ghost before = table@;
    let ghost all = queries@;
    let ghost mut k: int = 0;
    let mut rest = reversed(queries);
    let mut results: Vec<Result<DeleteBatchResponse, Error>> = Vec::new();
    proof {
        assert(all.take(0) =~= Seq::<DeleteBatchQuery>::empty());
    }
    while rest.len() > 0
        invariant
            table.wf(),
            all == queries@,
            0 <= k <= all.len(),
            rest@ == all.skip(k).reverse(),
            table@ == after_deletes(before, all.take(k)),
            results@.len() == k,
            deletes_answered(before, all, results@, k),
        decreases rest@.len(),
    {
        proof {
            assert(rest@.len() == all.len() - k);
            lemma_pop_reversed(all, k);
            assert(all.take(k + 1).drop_last() =~= all.take(k));
            assert(all.take(k + 1).last() == all[k]);
        }
        let query = rest.pop().unwrap();
        proof {
            assert(query == all[k]);
        }
        let ghost prior = results@;
        let result = handle_delete_batch_query(table, query);
        results.push(result);
        proof {
            assert forall|i: int| 0 <= i < k + 1 implies delete_answered(
                #[trigger] delete_outcome_at(before, all, i),
                all[i],
                results@[i],
            ) by {
                if i < k {
                    assert(results@[i] == prior[i]);
                }
            }
            k = k + 1;
        }
    }
    proof {
        assert(rest@.len() == all.len() - k);
        assert(all.take(k) =~= all);
    }
    results
}

/// Deleting an item leaves in its place one value, the mark of the
/// deletion, whatever values of concurrent writes the item held: so a read
/// that leaves out deleted items passes it over.
pub proof fn lemma_delete_resolves(items: Seq<ItemView>, i: int, dot: Dot)
    requires
        sorted_items(items),
        0 <= i < items.len(),
    ensures
        ({
            let op = tombstone_op(items[i]);
            let after = put(items, op.partition_key, op.sort_key, op.context, dot, op.value);
            &&& lookup(after, op.partition_key, op.sort_key) matches Some(item)
            &&& item.values == seq![DottedView { dot, value: None }]
            &&& all_deleted(item.values)
            &&& !passes(item, delete_filter())
        }),
{
    let op = tombstone_op(items[i]);
    crate::table::lemma_lookup_found(items, op.partition_key, op.sort_key, i);
    assert(split_at(items, op.partition_key, op.sort_key, i));
    lemma_put(items, op.partition_key, op.sort_key, op.context, dot, op.value);
    lemma_own_context_supersedes(items[i].values);
    let after = put(items, op.partition_key, op.sort_key, op.context, dot, op.value);
    let item = lookup(after, op.partition_key, op.sort_key)->0;
    assert(item.values =~= seq![DottedView { dot, value: None }]);
}

} // verus!
