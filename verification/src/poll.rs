//! Watching a range for change: what a client has seen is a marker, and a
//! poll answers with the items that hold writes the marker does not cover.

use vstd::prelude::*;
use crate::batch::{
    all_presentable, all_read_back, present_items, presented, response_item_views,
    ReadBatchResponseItem,
};
use crate::causality::{
    clock_bytes, clock_token, counter, covers, join, lemma_join_covers, token_clock,
    CausalContext,
};
use crate::encoding::fits_text;
use crate::error::Error;
use crate::item::{context_of, lemma_context_covers, DottedView, ItemView, K2VItem};
use crate::paging::lemma_select_member;
use crate::range::{
    in_direction, read_range, ref_views, scan, select, text_view, EnumerationOrder, RangeView,
};
use crate::table::{
    after_insert, lemma_put, lemma_split_exists, lookup, sorted_items, stamped, ItemTable,
    TableView,
};

verus! {

/// The wait of a poll that names none, in seconds.
pub const DEFAULT_TIMEOUT_SECS: u64 = 300;

/// The shortest wait of a poll, in seconds.
pub const MIN_TIMEOUT_SECS: u64 = 10;

/// The longest wait of a poll, in seconds.
pub const MAX_TIMEOUT_SECS: u64 = 600;

/// How long a poll waits, in milliseconds: the time asked for, or the
/// default, held between the shortest and the longest wait.
pub open spec fn timeout_msec(timeout: Option<u64>) -> u64 {
    let asked = match timeout {
        Some(t) => t,
        None => DEFAULT_TIMEOUT_SECS,
    };
    let held = if asked < MIN_TIMEOUT_SECS {
        MIN_TIMEOUT_SECS
    } else if asked > MAX_TIMEOUT_SECS {
        MAX_TIMEOUT_SECS
    } else {
        asked
    };
    (held * 1000) as u64
}

/// How long a poll waits, in milliseconds.
pub fn poll_timeout_msec(timeout: Option<u64>) -> (r: u64)
    ensures
        r == timeout_msec(timeout),
        MIN_TIMEOUT_SECS * 1000 <= r <= MAX_TIMEOUT_SECS * 1000,
{
    let asked = match timeout {
        Some(t) => t,
        None => DEFAULT_TIMEOUT_SECS,
    };
    let held = if asked < MIN_TIMEOUT_SECS {
        MIN_TIMEOUT_SECS
    } else if asked > MAX_TIMEOUT_SECS {
        MAX_TIMEOUT_SECS
    } else {
        asked
    };
    held * 1000
}

/// How long a poll that has waited `waited_msec` of its `timeout_msec` has
/// still to wait; `None` where its wait is over.
pub fn remaining_wait(timeout_msec: u64, waited_msec: u64) -> (r: Option<u64>)
    ensures
        r == (if waited_msec >= timeout_msec {
            None
        } else {
            Some((timeout_msec - waited_msec) as u64)
        }),
{
    if waited_msec >= timeout_msec {
        None
    } else {
        Some(timeout_msec - waited_msec)
    }
}

/// A range of one partition to watch.
#[derive(Debug)]
pub struct PollRange {
    pub partition_key: String,
    pub prefix: Option<String>,
    pub start: Option<String>,
    pub end: Option<String>,
}

/// The range that a poll watches: all of it, in ascending order.
pub open spec fn watched(
    partition_key: Seq<char>,
    prefix: Option<Seq<char>>,
    start: Option<Seq<char>>,
    end: Option<Seq<char>>,
) -> RangeView {
    RangeView { partition_key, prefix, start, end, filter: None, reverse: false }
}

/// The item holds a value of a write that `seen` does not cover.
pub open spec fn unseen(item: ItemView, seen: Map<u64, u64>) -> bool {
    exists|i: int|
        0 <= i < item.values.len() && !covers(
            seen,
            (#[trigger] item.values[i]).dot.node,
            item.values[i].dot.counter,
        )
}

/// The items of a list that hold a write that `seen` does not cover.
pub open spec fn changed(items: Seq<ItemView>, seen: Map<u64, u64>) -> Seq<ItemView>
    decreases items.len(),
{
    if items.len() == 0 {
        Seq::<ItemView>::empty()
    } else {
        let rest = changed(items.drop_last(), seen);
        if unseen(items.last(), seen) {
            rest.push(items.last())
        } else {
            rest
        }
    }
}

/// What a poll has to report: without marker every item of the range, with
/// a marker the items that hold a write that it does not cover.
pub open spec fn delta(items: Seq<ItemView>, range: RangeView, seen: Option<Map<u64, u64>>) -> Seq<
    ItemView,
> {
    match seen {
        None => scan(items, range),
        Some(m) => changed(scan(items, range), m),
    }
}

/// What a marker has seen, as a mapping: nothing where there is none.
pub open spec fn seen_clock(seen: Option<Map<u64, u64>>) -> Map<u64, u64> {
    match seen {
        Some(m) => m,
        None => Map::<u64, u64>::empty(),
    }
}

/// A marker joined with the causal contexts of the items reported.
pub open spec fn marker_after(seen: Map<u64, u64>, reported: Seq<ItemView>) -> Map<u64, u64>
    decreases reported.len(),
{
    if reported.len() == 0 {
        seen
    } else {
        join(marker_after(seen, reported.drop_last()), context_of(reported.last().values))
    }
}

/// The marker after a report covers what the marker before it covered.
pub proof fn lemma_marker_grows(seen: Map<u64, u64>, reported: Seq<ItemView>, node: u64, time: u64)
    requires
        covers(seen, node, time),
    ensures
        covers(marker_after(seen, reported), node, time),
    decreases reported.len(),
{
    if reported.len() > 0 {
        lemma_marker_grows(seen, reported.drop_last(), node, time);
        lemma_join_covers(
            marker_after(seen, reported.drop_last()),
            context_of(reported.last().values),
            node,
            time,
        );
    }
}

/// The marker after a report covers every write of every item reported.
pub proof fn lemma_marker_covers_reported(seen: Map<u64, u64>, reported: Seq<ItemView>, i: int)
    requires
        0 <= i < reported.len(),
    ensures
        !unseen(reported[i], marker_after(seen, reported)),
    decreases reported.len(),
{
    let d = reported.drop_last();
    let last = reported.last();
    let m = marker_after(seen, reported);
    assert forall|j: int| 0 <= j < reported[i].values.len() implies covers(
        m,
        (#[trigger] reported[i].values[j]).dot.node,
        reported[i].values[j].dot.counter,
    ) by {
        let dot = reported[i].values[j].dot;
        lemma_join_covers(marker_after(seen, d), context_of(last.values), dot.node, dot.counter);
        if i < d.len() {
            lemma_marker_covers_reported(seen, d, i);
            assert(d[i] == reported[i]);
            assert(covers(marker_after(seen, d), d[i].values[j].dot.node, d[i].values[j].dot.counter));
        } else {
            lemma_context_covers(last.values, j);
        }
    }
}

/// Each item that holds an unseen write is among the changed ones.
pub proof fn lemma_changed_holds(items: Seq<ItemView>, seen: Map<u64, u64>, i: int)
    requires
        0 <= i < items.len(),
        unseen(items[i], seen),
    ensures
        exists|j: int| 0 <= j < changed(items, seen).len() && #[trigger] changed(items, seen)[j] == items[i],
    decreases items.len(),
{
    let d = items.drop_last();
    let c = changed(items, seen);
    if i < d.len() {
        lemma_changed_holds(d, seen, i);
        let j = choose|j: int| 0 <= j < changed(d, seen).len() && #[trigger] changed(d, seen)[j] == d[i];
        assert(c[j] == items[i]);
    } else {
        assert(c[c.len() - 1] == items[i]);
    }
}

/// After a poll has reported, its new marker covers every write in the
/// range: a poll with the new marker against the same table has nothing to
/// report.
pub proof fn lemma_marker_complete(
    items: Seq<ItemView>,
    range: RangeView,
    seen: Option<Map<u64, u64>>,
)
    ensures
        delta(
            items,
            range,
            Some(marker_after(seen_clock(seen), delta(items, range, seen))),
        ) == Seq::<ItemView>::empty(),
{
    let all = scan(items, range);
    let reported = delta(items, range, seen);
    let m = marker_after(seen_clock(seen), reported);
    assert forall|i: int| 0 <= i < all.len() implies !unseen(#[trigger] all[i], m) by {
        if seen is None || unseen(all[i], seen->0) {
            if seen is Some {
                lemma_changed_holds(all, seen->0, i);
            }
            let j = choose|j: int| 0 <= j < reported.len() && #[trigger] reported[j] == all[i];
            lemma_marker_covers_reported(seen_clock(seen), reported, j);
        } else {
            assert forall|k: int| 0 <= k < all[i].values.len() implies covers(
                m,
                (#[trigger] all[i].values[k]).dot.node,
                all[i].values[k].dot.counter,
            ) by {
                lemma_marker_grows(
                    seen->0,
                    reported,
                    all[i].values[k].dot.node,
                    all[i].values[k].dot.counter,
                );
            }
        }
    }
    lemma_changed_none(all, m);
}

/// Where no item holds an unseen write, none has changed.
pub proof fn lemma_changed_none(items: Seq<ItemView>, seen: Map<u64, u64>)
    requires
        forall|i: int| 0 <= i < items.len() ==> !unseen(#[trigger] items[i], seen),
    ensures
        changed(items, seen) == Seq::<ItemView>::empty(),
    decreases items.len(),
{
    if items.len() > 0 {
        let d = items.drop_last();
        assert forall|i: int| 0 <= i < d.len() implies !unseen(#[trigger] d[i], seen) by {
            assert(d[i] == items[i]);
        }
        lemma_changed_none(d, seen);
        assert(!unseen(items[items.len() - 1], seen));
    }
}

/// A write that the table accepts is one that no marker made before it
/// covers: the item written holds an unseen write, so that the next poll
/// that watches it reports it. A marker made before the write holds, for
/// the node of the table, a counter that the table had handed out by then.
pub proof fn lemma_write_noticed(
    t: TableView,
    seen: Map<u64, u64>,
    pk: Seq<char>,
    sk: Seq<char>,
    ctx: Option<Map<u64, u64>>,
    value: Option<Seq<u8>>,
)
    requires
        sorted_items(t.items),
        t.issued < u64::MAX,
        counter(seen, t.node) <= t.issued,
    ensures
        lookup(after_insert(t, pk, sk, ctx, value).items, pk, sk) matches Some(item) && unseen(
            item,
            seen,
        ),
{
    let dot = crate::item::Dot { node: t.node, counter: (t.issued + 1) as u64 };
    lemma_split_exists(t.items, pk, sk);
    lemma_put(t.items, pk, sk, ctx, dot, value);
    let item = lookup(after_insert(t, pk, sk, ctx, value).items, pk, sk)->0;
    let last = item.values.len() - 1;
    assert(item.values[last] == DottedView { dot, value });
    assert(!covers(seen, item.values[last].dot.node, item.values[last].dot.counter));
}

/// The causal context of values holds, for a node, no counter above those
/// of the dots of that node.
pub proof fn lemma_context_bounded(values: Seq<DottedView>, node: u64, issued: u64)
    requires
        forall|j: int|
            0 <= j < values.len() && (#[trigger] values[j]).dot.node == node
                ==> values[j].dot.counter <= issued,
    ensures
        counter(context_of(values), node) <= issued,
    decreases values.len(),
{
    if values.len() > 0 {
        let d = values.drop_last();
        assert forall|j: int| 0 <= j < d.len() && (#[trigger] d[j]).dot.node == node implies d[j].dot.counter
            <= issued by {
            assert(d[j] == values[j]);
        }
        lemma_context_bounded(d, node, issued);
        assert(values[values.len() - 1] == values.last());
    }
}

/// The marker after a report holds, for a node, no counter above those that
/// the marker before it and the items reported hold.
pub proof fn lemma_marker_bounded(
    seen: Map<u64, u64>,
    reported: Seq<ItemView>,
    node: u64,
    issued: u64,
)
    requires
        counter(seen, node) <= issued,
        stamped(reported, node, issued),
    ensures
        counter(marker_after(seen, reported), node) <= issued,
    decreases reported.len(),
{
    if reported.len() > 0 {
        let d = reported.drop_last();
        let last = reported.last();
        assert(stamped(d, node, issued)) by {
            assert forall|i: int, j: int|
                0 <= i < d.len() && 0 <= j < d[i].values.len() && (#[trigger] d[i].values[j]).dot.node
                    == node implies d[i].values[j].dot.counter <= issued by {
                assert(d[i] == reported[i]);
                assert(reported[i].values[j].dot.counter <= issued);
            }
        }
        lemma_marker_bounded(seen, d, node, issued);
        assert forall|j: int|
            0 <= j < last.values.len() && (#[trigger] last.values[j]).dot.node == node implies last.values[j].dot.counter
            <= issued by {
            assert(reported[reported.len() - 1].values[j].dot.counter <= issued);
        }
        lemma_context_bounded(last.values, node, issued);
    }
}

/// Each changed item is one of the items.
pub proof fn lemma_changed_member(items: Seq<ItemView>, seen: Map<u64, u64>, j: int)
    requires
        0 <= j < changed(items, seen).len(),
    ensures
        exists|m: int| 0 <= m < items.len() && #[trigger] items[m] == changed(items, seen)[j],
    decreases items.len(),
{
    let d = items.drop_last();
    if j < changed(d, seen).len() {
        lemma_changed_member(d, seen, j);
        let m = choose|m: int| 0 <= m < d.len() && #[trigger] d[m] == changed(d, seen)[j];
        assert(items[m] == changed(items, seen)[j]);
    } else {
        assert(items[items.len() - 1] == changed(items, seen)[j]);
    }
}

/// What a poll reports are items of the table: they hold only dots that the
/// table has handed out. So the new marker of a poll holds, for the node of
/// the table, no counter that the table has not handed out, where the marker
/// before it held none.
pub proof fn lemma_poll_marker_bounded(
    items: Seq<ItemView>,
    range: RangeView,
    seen: Option<Map<u64, u64>>,
    node: u64,
    issued: u64,
)
    requires
        stamped(items, node, issued),
        counter(seen_clock(seen), node) <= issued,
    ensures
        stamped(delta(items, range, seen), node, issued),
        counter(marker_after(seen_clock(seen), delta(items, range, seen)), node) <= issued,
{
    let t = in_direction(items, range.reverse);
    let all = scan(items, range);
    let reported = delta(items, range, seen);
    assert forall|i: int, j: int|
        0 <= i < reported.len() && 0 <= j < reported[i].values.len() && (
        #[trigger] reported[i].values[j]).dot.node == node implies reported[i].values[j].dot.counter
        <= issued by {
        let a = if seen is Some {
            lemma_changed_member(all, seen->0, i);
            choose|m: int| 0 <= m < all.len() && #[trigger] all[m] == reported[i]
        } else {
            i
        };
        assert(all[a] == reported[i]);
        lemma_select_member(t, range, a);
        let b = choose|m: int| 0 <= m < t.len() && #[trigger] t[m] == select(t, range)[a];
        let c = if range.reverse {
            items.len() - 1 - b
        } else {
            b
        };
        assert(items[c] == reported[i]);
        assert(items[c].values[j].dot.counter <= issued);
    }
    lemma_marker_bounded(seen_clock(seen), reported, node, issued);
}

/// Whether the item holds a value of a write that `seen` does not cover.
pub fn is_unseen(item: &K2VItem, seen: &CausalContext) -> (r: bool)
    ensures
        r == unseen(item@, seen@),
{
    let mut i: usize = 0;
    while i < item.values.len()
        invariant
            i <= item.values.len(),
            forall|j: int|
                0 <= j < i ==> covers(
                    seen@,
                    (#[trigger] item@.values[j]).dot.node,
                    item@.values[j].dot.counter,
                ),
        decreases item.values.len() - i,
    {
        let d = item.values[i].dot;
        if !seen.covers(d) {
            proof {
                assert(item@.values[i as int].dot == d);
            }
            return true;
        }
        i += 1;
    }
    false
}

/// Compares the range with what a client has seen of it. Where there is
/// something to report, gives the items to report and the marker that
/// covers them too; `None` where the client has seen it all.
pub fn poll_range<'a>(table: &'a ItemTable, range: &PollRange, seen: &Option<CausalContext>) -> (r:
    Option<(Vec<&'a K2VItem>, CausalContext)>)
    ensures
        ({
            let q = watched(
                range.partition_key@,
                text_view(&range.prefix),
                text_view(&range.start),
                text_view(&range.end),
            );
            let seen_map = crate::item::context_view(seen);
            let report = delta(table@.items, q, seen_map);
            match r {
                Some((items, marker)) => {
                    &&& report.len() > 0
                    &&& ref_views(items@) == report
                    &&& marker.wf()
                    &&& marker@ == marker_after(seen_clock(seen_map), report)
                },
                None => report.len() == 0,
            }
        }),
{
    let ghost q = watched(
        range.partition_key@,
        text_view(&range.prefix),
        text_view(&range.start),
        text_view(&range.end),
    );
    let ghost seen_map = crate::item::context_view(seen);
    let (found, more, _next) = read_range(
        table,
        range.partition_key.as_str(),
        &range.prefix,
        &range.start,
        &range.end,
        None,
        None,
        EnumerationOrder::Forward,
    );
    let ghost all = scan(table@.items, q);
    proof {
        assert(all.take(all.len() as int) =~= all);
        assert(ref_views(found@) == all);
    }
    let mut marker = match seen {
        Some(c) => c.duplicate(),
        None => CausalContext::new(),
    };
    let mut out: Vec<&'a K2VItem> = Vec::new();
    let mut k: usize = 0;
    proof {
        assert(all.take(0) =~= Seq::<ItemView>::empty());
        assert(ref_views(out@) =~= Seq::<ItemView>::empty());
    }
    while k < found.len()
        invariant
            all == ref_views(found@),
            seen_map == crate::item::context_view(seen),
            k <= found.len(),
            marker.wf(),
            seen_map matches Some(m) ==> ref_views(out@) == changed(all.take(k as int), m),
            seen_map is None ==> ref_views(out@) == all.take(k as int),
            marker@ == marker_after(seen_clock(seen_map), ref_views(out@)),
        decreases found.len() - k,
    {
        let item = found[k];
        proof {
            assert(item@ == all[k as int]);
            assert(all.take(k + 1).drop_last() =~= all.take(k as int));
            assert(all.take(k + 1).last() == all[k as int]);
        }
        let report = match seen {
            Some(c) => is_unseen(item, c),
            None => true,
        };
        if report {
            let ghost prior = out@;
            out.push(item);
            marker = marker.merge(&item.causal_context());
            proof {
                assert(ref_views(out@) =~= ref_views(prior).push(item@));
                assert(ref_views(out@).drop_last() =~= ref_views(prior));
                if seen_map is None {
                    assert(ref_views(out@) =~= all.take(k + 1));
                }
            }
        }
        k += 1;
    }
    proof {
        assert(all.take(k as int) =~= all);
    }
    if out.len() == 0 {
        None
    } else {
        Some((out, marker))
    }
}

/// A poll as a client sends it: the range to watch, how long to wait in
/// seconds, and the marker of what the client has seen.
#[derive(Debug)]
pub struct PollRangeQuery {
    pub prefix: Option<String>,
    pub start: Option<String>,
    pub end: Option<String>,
    pub timeout: Option<u64>,
    pub seen_marker: Option<String>,
}

/// The report of a poll: the items that changed, and the marker to send
/// with the next poll.
#[derive(Debug, PartialEq, Eq)]
pub struct PollRangeResponse {
    pub items: Vec<ReadBatchResponseItem>,
    pub seen_marker: String,
}

/// What a report holds: items, and what the new marker has seen.
pub struct PollReport {
    pub items: Seq<ItemView>,
    pub marker: Map<u64, u64>,
}

/// What the marker of a poll has seen, or that it is no marker.
pub open spec fn parsed_marker(text: Option<Seq<char>>) -> Result<Option<Map<u64, u64>>, Error> {
    match text {
        None => Ok(None),
        Some(t) => match token_clock(t) {
            Some(m) => Ok(Some(m)),
            None => Err(Error::InvalidSeenMarker),
        },
    }
}

/// What a poll comes to against a table: a report, nothing to report, or
/// why it fails. It fails where its marker is no marker, and where an item
/// or the new marker cannot be written into a report.
pub open spec fn poll_answer(
    items: Seq<ItemView>,
    partition_key: Seq<char>,
    query: PollRangeQuery,
) -> Result<Option<PollReport>, Error> {
    match parsed_marker(text_view(&query.seen_marker)) {
        Err(e) => Err(e),
        Ok(seen) => {
            let q = watched(
                partition_key,
                text_view(&query.prefix),
                text_view(&query.start),
                text_view(&query.end),
            );
            let report = delta(items, q, seen);
            let marker = marker_after(seen_clock(seen), report);
            if report.len() == 0 {
                Ok(None)
            } else if !all_presentable(report, report.len() as int) || !fits_text(
                clock_bytes(marker).len(),
            ) {
                Err(Error::TooLarge)
            } else {
                Ok(Some(PollReport { items: report, marker }))
            }
        },
    }
}

/// The response holds the report.
pub open spec fn reports(resp: PollRangeResponse, report: PollReport) -> bool {
    &&& response_item_views(resp.items@) == presented(report.items)
    &&& all_read_back(response_item_views(resp.items@), report.items)
    &&& resp.seen_marker@ == clock_token(report.marker)
    &&& token_clock(resp.seen_marker@) == Some(report.marker)
}

/// The response is the one that the poll has come to.
pub open spec fn poll_answered(
    outcome: Result<Option<PollReport>, Error>,
    r: Result<Option<PollRangeResponse>, Error>,
) -> bool {
    match outcome {
        Err(e) => r == Err::<Option<PollRangeResponse>, Error>(e),
        Ok(None) => r == Ok::<Option<PollRangeResponse>, Error>(None),
        Ok(Some(report)) => r matches Ok(Some(resp)) && reports(resp, report),
    }
}

/// Compares a range of the partition with the marker of a poll, without
/// waiting: the report where there is something to report, `None` where the
/// client has seen it all.
pub fn handle_poll_range(table: &ItemTable, partition_key: &str, query: &PollRangeQuery) -> (r:
    Result<Option<PollRangeResponse>, Error>)
    ensures
        poll_answered(poll_answer(table@.items, partition_key@, *query), r),
{
    let seen = match &query.seen_marker {
        Some(t) => match CausalContext::parse(t.as_str()) {
            Ok(c) => Some(c),
            Err(_) => {
                return Err(Error::InvalidSeenMarker);
            },
        },
        None => None,
    };
    let range = PollRange {
        partition_key: partition_key.to_string(),
        prefix: clone_text(&query.prefix),
        start: clone_text(&query.start),
        end: clone_text(&query.end),
    };
    match poll_range(table, &range, &seen) {
        None => Ok(None),
        Some((found, marker)) => {
            let items = match present_items(&found) {
                Some(items) => items,
                None => {
                    return Err(Error::TooLarge);
                },
            };
            let seen_marker = match marker.try_serialize() {
                Some(t) => t,
                None => {
                    return Err(Error::TooLarge);
                },
            };
            Ok(Some(PollRangeResponse { items, seen_marker }))
        },
    }
}

/// A copy of an optional key.
pub fn clone_text(o: &Option<String>) -> (r: Option<String>)
    ensures
        text_view(&r) == text_view(o),
{
    match o {
        Some(s) => Some(s.clone()),
        None => None,
    }
}

/// What happens to a waiting poll.
#[derive(Clone, Copy, Debug, PartialEq, Eq, Structural)]
pub enum PollEvent {
    /// The poll has come in.
    Started,
    /// A write to the partition has been accepted while the poll waited.
    Notified,
    /// The wait of the poll is over.
    TimedOut,
    /// The client has gone.
    Cancelled,
}

/// What is to be done about a poll.
#[derive(Debug, PartialEq, Eq)]
pub enum PollAction {
    /// Send the report.
    Respond(PollRangeResponse),
    /// Tell the client that nothing has changed.
    NotModified,
    /// Wait for the next write to the partition, until the given time in
    /// milliseconds from the start of the poll is over.
    Wait { timeout_msec: u64 },
    /// Give the poll up and take it off the list of those waiting.
    Release,
    /// Refuse the poll.
    Fail(Error),
}

/// Decides what is to be done about a poll when something happens to it.
/// A poll that has something to report when it comes in, or when a write
/// wakes it, is answered at once; one that has not waits, for the time that
/// it asked for, held between the shortest and the longest wait; one whose
/// wait is over is told that nothing has changed; one whose client has gone
/// is given up.
pub fn poll_step(table: &ItemTable, partition_key: &str, query: &PollRangeQuery, event: PollEvent) -> (r:
    PollAction)
    ensures
        event is Cancelled ==> r is Release,
        event is TimedOut ==> r is NotModified,
        event is Started || event is Notified ==> match poll_answer(
            table@.items,
            partition_key@,
            *query,
        ) {
            Err(e) => r == PollAction::Fail(e),
            Ok(None) => r == (PollAction::Wait { timeout_msec: timeout_msec(query.timeout) }),
            Ok(Some(report)) => r matches PollAction::Respond(resp) && reports(resp, report),
        },
{
    match event {
        PollEvent::Cancelled => PollAction::Release,
        PollEvent::TimedOut => PollAction::NotModified,
        _ => match handle_poll_range(table, partition_key, query) {
            Err(e) => PollAction::Fail(e),
            Ok(None) => PollAction::Wait { timeout_msec: poll_timeout_msec(query.timeout) },
            Ok(Some(resp)) => PollAction::Respond(resp),
        },
    }
}

} // verus!
