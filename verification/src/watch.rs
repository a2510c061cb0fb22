//! The polls that wait for a write: each stands in a registry under a
//! ticket of its own, a write wakes every poll whose range holds its key,
//! and a poll that ends or is given up leaves the registry.

use vstd::prelude::*;
use crate::order::{str_order, KeyOrder};
use crate::poll::{watched, PollRange};
use crate::range::{in_bounds, key_in_bounds, text_view, RangeView};

verus! {

/// A poll that waits.
#[derive(Debug)]
pub struct Waiter {
    /// The ticket under which the poll waits.
    pub ticket: u64,
    /// The range that the poll watches.
    pub range: PollRange,
}

/// A waiting poll as plain data.
pub struct WaiterView {
    pub ticket: u64,
    pub range: RangeView,
}

/// The range of a poll as plain data.
pub open spec fn range_view(range: PollRange) -> RangeView {
    watched(
        range.partition_key@,
        text_view(&range.prefix),
        text_view(&range.start),
        text_view(&range.end),
    )
}

impl View for Waiter {
    type V = WaiterView;

    open spec fn view(&self) -> WaiterView {
        WaiterView { ticket: self.ticket, range: range_view(self.range) }
    }
}

/// The waiting polls of a list as plain data.
pub open spec fn waiter_views(s: Seq<Waiter>) -> Seq<WaiterView> {
    Seq::new(s.len(), |i: int| s[i]@)
}

/// The range holds the key of a write.
pub open spec fn holds(range: RangeView, pk: Seq<char>, sk: Seq<char>) -> bool {
    range.partition_key == pk && in_bounds(sk, range)
}

/// The tickets of the polls that a write under the two keys wakes: every
/// poll whose range holds the key, in the order in which they came.
pub open spec fn woken(waiters: Seq<WaiterView>, pk: Seq<char>, sk: Seq<char>) -> Seq<u64>
    decreases waiters.len(),
{
    if waiters.len() == 0 {
        Seq::<u64>::empty()
    } else {
        let rest = woken(waiters.drop_last(), pk, sk);
        if holds(waiters.last().range, pk, sk) {
            rest.push(waiters.last().ticket)
        } else {
            rest
        }
    }
}

/// The waiting polls without the one that holds `ticket`.
pub open spec fn without(waiters: Seq<WaiterView>, ticket: u64) -> Seq<WaiterView>
    decreases waiters.len(),
{
    if waiters.len() == 0 {
        Seq::<WaiterView>::empty()
    } else {
        let rest = without(waiters.drop_last(), ticket);
        if waiters.last().ticket == ticket {
            rest
        } else {
            rest.push(waiters.last())
        }
    }
}

/// Some waiting poll holds `ticket`.
pub open spec fn waits(waiters: Seq<WaiterView>, ticket: u64) -> bool {
    exists|i: int| 0 <= i < waiters.len() && (#[trigger] waiters[i]).ticket == ticket
}

/// No two waiting polls hold the same ticket, and every ticket has been
/// handed out: it lies below `next`.
pub open spec fn tickets_in_order(waiters: Seq<WaiterView>, next: u64) -> bool {
    &&& forall|i: int| 0 <= i < waiters.len() ==> (#[trigger] waiters[i]).ticket < next
    &&& forall|i: int, j: int|
        0 <= i < j < waiters.len() ==> (#[trigger] waiters[i]).ticket != (#[trigger] waiters[j]).ticket
}

/// Taking a ticket out leaves no poll with it, takes out one poll at most,
/// and leaves the polls with other tickets as they were.
pub proof fn lemma_without(waiters: Seq<WaiterView>, next: u64, ticket: u64)
    requires
        tickets_in_order(waiters, next),
    ensures
        !waits(without(waiters, ticket), ticket),
        tickets_in_order(without(waiters, ticket), next),
        without(waiters, ticket).len() == waiters.len() - if waits(waiters, ticket) {
            1int
        } else {
            0int
        },
        forall|other: u64|
            other != ticket ==> (waits(without(waiters, ticket), other) <==> waits(waiters, other)),
    decreases waiters.len(),
{
    let out = without(waiters, ticket);
    if waiters.len() > 0 {
        let d = waiters.drop_last();
        let last = waiters.last();
        let rest = without(d, ticket);
        assert(tickets_in_order(d, next)) by {
            assert forall|i: int| 0 <= i < d.len() implies (#[trigger] d[i]).ticket < next by {
                assert(d[i] == waiters[i]);
            }
            assert forall|i: int, j: int| 0 <= i < j < d.len() implies (#[trigger] d[i]).ticket != (
            #[trigger] d[j]).ticket by {
                assert(d[i] == waiters[i] && d[j] == waiters[j]);
            }
        }
        lemma_without(d, next, ticket);
        lemma_without_members(waiters, ticket);
        lemma_without_members(d, ticket);
        assert(waits(waiters, ticket) <==> (waits(d, ticket) || last.ticket == ticket)) by {
            if waits(waiters, ticket) {
                let i = choose|i: int| 0 <= i < waiters.len() && (#[trigger] waiters[i]).ticket == ticket;
                if i < d.len() {
                    assert(d[i].ticket == ticket);
                }
            }
            if waits(d, ticket) {
                let i = choose|i: int| 0 <= i < d.len() && (#[trigger] d[i]).ticket == ticket;
                assert(waiters[i].ticket == ticket);
            }
            if last.ticket == ticket {
                assert(waiters[waiters.len() - 1].ticket == ticket);
            }
        }
        if last.ticket == ticket {
            assert(!waits(d, ticket)) by {
                if waits(d, ticket) {
                    let i = choose|i: int| 0 <= i < d.len() && (#[trigger] d[i]).ticket == ticket;
                    assert(waiters[i].ticket != waiters[waiters.len() - 1].ticket);
                }
            }
        }
        assert(tickets_in_order(out, next)) by {
            assert forall|i: int| 0 <= i < out.len() implies (#[trigger] out[i]).ticket < next by {
                let m = choose|m: int| 0 <= m < waiters.len() && waiters[m] == out[i];
            }
            assert forall|i: int, j: int| 0 <= i < j < out.len() implies (#[trigger] out[i]).ticket != (
            #[trigger] out[j]).ticket by {
                if j < rest.len() {
                    assert(out[i] == rest[i] && out[j] == rest[j]);
                } else {
                    assert(out[j] == last);
                    assert(out[i] == rest[i]);
                    let m = choose|m: int| 0 <= m < d.len() && d[m] == rest[i];
                    assert(0 <= m < d.len() && d[m] == rest[i]);
                    assert(waiters[m] == d[m]);
                    assert(waiters[m].ticket != waiters[waiters.len() - 1].ticket);
                }
            }
        }
        assert forall|other: u64| other != ticket implies (waits(out, other) <==> waits(
            waiters,
            other,
        )) by {
            if waits(out, other) {
                let i = choose|i: int| 0 <= i < out.len() && (#[trigger] out[i]).ticket == other;
                let m = choose|m: int| 0 <= m < waiters.len() && waiters[m] == out[i];
                assert(waiters[m].ticket == other);
            }
            if waits(waiters, other) {
                let i = choose|i: int| 0 <= i < waiters.len() && (#[trigger] waiters[i]).ticket == other;
                if i < d.len() {
                    assert(d[i].ticket == other);
                    assert(waits(d, other));
                    let k = choose|k: int| 0 <= k < rest.len() && (#[trigger] rest[k]).ticket == other;
                    assert(out[k].ticket == other);
                } else {
                    assert(out[out.len() - 1].ticket == other);
                }
            }
        }
    }
}

/// What is left after a ticket is taken out are polls that waited before,
/// none of them with that ticket.
pub proof fn lemma_without_members(waiters: Seq<WaiterView>, ticket: u64)
    ensures
        forall|i: int|
            0 <= i < without(waiters, ticket).len() ==> (#[trigger] without(waiters, ticket)[i]).ticket
                != ticket && exists|m: int|
                0 <= m < waiters.len() && waiters[m] == without(waiters, ticket)[i],
    decreases waiters.len(),
{
    let out = without(waiters, ticket);
    if waiters.len() > 0 {
        let d = waiters.drop_last();
        let rest = without(d, ticket);
        lemma_without_members(d, ticket);
        assert forall|i: int| 0 <= i < out.len() implies (#[trigger] out[i]).ticket != ticket
            && exists|m: int| 0 <= m < waiters.len() && waiters[m] == out[i] by {
            if i < rest.len() {
                assert(out[i] == rest[i]);
                let m = choose|m: int| 0 <= m < d.len() && d[m] == rest[i];
                assert(waiters[m] == out[i]);
            } else {
                assert(waiters[waiters.len() - 1] == out[i]);
            }
        }
    }
}

/// The poll that waits under `ticket` watches a range that holds the key.
pub open spec fn wakes(waiters: Seq<WaiterView>, pk: Seq<char>, sk: Seq<char>, ticket: u64) -> bool {
    exists|i: int|
        0 <= i < waiters.len() && holds((#[trigger] waiters[i]).range, pk, sk) && waiters[i].ticket
            == ticket
}

/// A write wakes every poll whose range holds its key, and no other.
pub proof fn lemma_woken(waiters: Seq<WaiterView>, pk: Seq<char>, sk: Seq<char>, ticket: u64)
    ensures
        woken(waiters, pk, sk).contains(ticket) <==> wakes(waiters, pk, sk, ticket),
    decreases waiters.len(),
{
    let out = woken(waiters, pk, sk);
    if waiters.len() > 0 {
        let d = waiters.drop_last();
        let last = waiters.last();
        let rest = woken(d, pk, sk);
        lemma_woken(d, pk, sk, ticket);
        if out.contains(ticket) {
            let k = choose|k: int| 0 <= k < out.len() && out[k] == ticket;
            if k < rest.len() {
                assert(rest[k] == ticket);
                assert(rest.contains(ticket));
                let i = choose|i: int|
                    0 <= i < d.len() && holds((#[trigger] d[i]).range, pk, sk) && d[i].ticket
                        == ticket;
                assert(waiters[i] == d[i]);
            } else {
                assert(holds(waiters[waiters.len() - 1].range, pk, sk));
            }
        }
        if wakes(waiters, pk, sk, ticket) {
            let i = choose|i: int|
                0 <= i < waiters.len() && holds((#[trigger] waiters[i]).range, pk, sk)
                    && waiters[i].ticket == ticket;
            if i < d.len() {
                assert(d[i] == waiters[i]);
                assert(wakes(d, pk, sk, ticket));
                let k = choose|k: int| 0 <= k < rest.len() && rest[k] == ticket;
                assert(out[k] == ticket);
            } else {
                assert(out[out.len() - 1] == ticket);
            }
        }
    }
}

/// Whether the range of a poll holds the key of a write.
pub fn range_holds(range: &PollRange, partition_key: &str, sort_key: &str) -> (r: bool)
    ensures
        r == holds(range_view(*range), partition_key@, sort_key@),
{
    match str_order(range.partition_key.as_str(), partition_key) {
        KeyOrder::Equal => {},
        _ => {
            return false;
        },
    }
    let inside = key_in_bounds(sort_key, &range.prefix, &range.start, &range.end, false);
    proof {
        assert(inside == in_bounds(sort_key@, range_view(*range)));
    }
    inside
}

/// The registry of the polls that wait.
#[derive(Debug)]
pub struct WaiterRegistry {
    next: u64,
    waiters: Vec<Waiter>,
}

impl View for WaiterRegistry {
    type V = Seq<WaiterView>;

    closed spec fn view(&self) -> Seq<WaiterView> {
        waiter_views(self.waiters@)
    }
}

impl WaiterRegistry {
    /// No two waiting polls hold the same ticket.
    #[verifier::type_invariant]
    pub closed spec fn wf(&self) -> bool {
        tickets_in_order(waiter_views(self.waiters@), self.next)
    }

    /// The ticket that the next poll to wait will get.
    pub closed spec fn next_ticket(&self) -> u64 {
        self.next
    }

    /// In a well-formed registry the tickets are distinct and handed out.
    pub proof fn lemma_tickets(&self)
        requires
            self.wf(),
        ensures
            tickets_in_order(self@, self.next_ticket()),
    {
    }

    /// A registry in which no poll waits.
    pub fn new() -> (r: Self)
        ensures
            r.wf(),
            r@ == Seq::<WaiterView>::empty(),
            r.next_ticket() == 0,
    {
        let r = WaiterRegistry { next: 0, waiters: Vec::new() };
        proof {
            assert(waiter_views(r.waiters@) =~= Seq::<WaiterView>::empty());
        }
        r
    }

    /// How many polls wait.
    pub fn len(&self) -> (r: usize)
        ensures
            r == self@.len(),
    {
        self.waiters.len()
    }

    /// Whether a poll waits under `ticket`.
    pub fn is_waiting(&self, ticket: u64) -> (r: bool)
        ensures
            r == waits(self@, ticket),
    {
        let mut i: usize = 0;
        while i < self.waiters.len()
            invariant
                i <= self.waiters.len(),
                forall|k: int| 0 <= k < i ==> (#[trigger] self@[k]).ticket != ticket,
            decreases self.waiters.len() - i,
        {
            if self.waiters[i].ticket == ticket {
                proof {
                    assert(self@[i as int].ticket == ticket);
                }
                return true;
            }
            i += 1;
        }
        false
    }

    /// Lets a poll wait for a write to its range. Gives the ticket under
    /// which it waits, one that no poll has held before; `None`, and no
    /// change, where the tickets have run out.
    pub fn register(&mut self, range: PollRange) -> (r: Option<u64>)
        ensures
            final(self).wf(),
            match r {
                Some(ticket) => {
                    &&& ticket == old(self).next_ticket()
                    &&& ticket < u64::MAX
                    &&& final(self).next_ticket() == ticket + 1
                    &&& !waits(old(self)@, ticket)
                    &&& final(self)@ == old(self)@.push(
                        WaiterView { ticket, range: range_view(range) },
                    )
                },
                None => old(self).next_ticket() == u64::MAX && final(self)@ == old(self)@
                    && final(self).next_ticket() == old(self).next_ticket(),
            },
    {
        proof {
            use_type_invariant(&*self);
        }
        if self.next == u64::MAX {
            return None;
        }
        let ticket = self.next;
        let ghost before = self.waiters@;
        let mut waiters: Vec<Waiter> = Vec::new();
        proof {
            assert(waiter_views(waiters@) =~= Seq::<WaiterView>::empty());
        }
        core::mem::swap(&mut self.waiters, &mut waiters);
        waiters.push(Waiter { ticket, range });
        proof {
            let views = waiter_views(before);
            let now = waiter_views(waiters@);
            assert(now =~= views.push(WaiterView { ticket, range: range_view(range) }));
            assert(!waits(views, ticket)) by {
                if waits(views, ticket) {
                    let i = choose|i: int| 0 <= i < views.len() && (#[trigger] views[i]).ticket == ticket;
                }
            }
            assert forall|i: int, j: int| 0 <= i < j < now.len() implies (#[trigger] now[i]).ticket != (
            #[trigger] now[j]).ticket by {
                if j < views.len() {
                    assert(now[i] == views[i] && now[j] == views[j]);
                } else {
                    assert(now[i] == views[i]);
                }
            }
            assert forall|i: int| 0 <= i < now.len() implies (#[trigger] now[i]).ticket < ticket + 1 by {
                if i < views.len() {
                    assert(now[i] == views[i]);
                }
            }
        }
        self.next = ticket + 1;
        self.waiters = waiters;
        Some(ticket)
    }

    /// Takes the poll that waits under `ticket` off the registry, because it
    /// has been answered, its wait is over, or its client has gone. Tells
    /// whether such a poll waited. No other poll is touched.
    pub fn cancel(&mut self, ticket: u64) -> (r: bool)
        ensures
            final(self).wf(),
            r == waits(old(self)@, ticket),
            final(self)@ == without(old(self)@, ticket),
            !waits(final(self)@, ticket),
            final(self)@.len() == old(self)@.len() - if r {
                1int
            } else {
                0int
            },
            final(self).next_ticket() == old(self).next_ticket(),
    {
        proof {
            use_type_invariant(&*self);
        }
        let ghost before = waiter_views(self.waiters@);
        let mut rest: Vec<Waiter> = Vec::new();
        proof {
            assert(waiter_views(rest@) =~= Seq::<WaiterView>::empty());
        }
        core::mem::swap(&mut self.waiters, &mut rest);
        let ghost owned = rest@;
        let held = rest.len();
        let mut i: usize = 0;
        let ghost mut k: int = 0;
        proof {
            assert(before.take(0) =~= Seq::<WaiterView>::empty());
            assert(waiter_views(rest@) =~= without(before.take(0), ticket) + before.skip(0));
        }
        while i < rest.len()
            invariant
                before == waiter_views(owned),
                0 <= k <= before.len(),
                i == without(before.take(k), ticket).len(),
                rest@.len() == i + before.len() - k,
                waiter_views(rest@) == without(before.take(k), ticket) + before.skip(k),
            decreases before.len() - k,
        {
            let ghost now = rest@;
            let ghost kept = without(before.take(k), ticket);
            proof {
                assert(waiter_views(now)[i as int] == before.skip(k)[0]);
                assert(before.take(k + 1).drop_last() =~= before.take(k));
                assert(before.take(k + 1).last() == before[k]);
            }
            if rest[i].ticket == ticket {
                rest.remove(i);
                proof {
                    let vv = waiter_views(now);
                    let target = kept + before.skip(k + 1);
                    assert(rest@ == now.remove(i as int));
                    assert forall|j: int| 0 <= j < rest@.len() implies waiter_views(rest@)[j]
                        == target[j] by {
                        if j < i {
                            assert(vv[j] == kept[j]);
                        } else {
                            assert(vv[j + 1] == before.skip(k)[j + 1 - i]);
                        }
                    }
                    assert(waiter_views(rest@) =~= target);
                }
            } else {
                i += 1;
                proof {
                    let vv = waiter_views(now);
                    let target = kept.push(before[k]) + before.skip(k + 1);
                    assert forall|j: int| 0 <= j < vv.len() implies vv[j] == target[j] by {
                        if j < kept.len() {
                            assert(vv[j] == kept[j]);
                        } else {
                            assert(vv[j] == before.skip(k)[j - kept.len()]);
                        }
                    }
                    assert(vv =~= target);
                }
            }
            proof {
                k = k + 1;
            }
        }
        proof {
            assert(before.take(k) =~= before);
            assert(waiter_views(rest@) =~= without(before, ticket));
            lemma_without(before, self.next, ticket);
        }
        let found = rest.len() < held;
        self.waiters = rest;
        found
    }

    /// The tickets of the polls that a write under the two keys wakes: every
    /// poll whose range holds the key. The polls go on waiting until each is
    /// taken off the registry.
    pub fn notify(&self, partition_key: &str, sort_key: &str) -> (r: Vec<u64>)
        ensures
            r@ == woken(self@, partition_key@, sort_key@),
    {
        let mut out: Vec<u64> = Vec::new();
        let mut i: usize = 0;
        proof {
            assert(self@.take(0) =~= Seq::<WaiterView>::empty());
        }
        while i < self.waiters.len()
            invariant
                i <= self.waiters.len(),
                out@ == woken(self@.take(i as int), partition_key@, sort_key@),
            decreases self.waiters.len() - i,
        {
            proof {
                assert(self@.take(i + 1).drop_last() =~= self@.take(i as int));
                assert(self@.take(i + 1).last() == self@[i as int]);
            }
            if range_holds(&self.waiters[i].range, partition_key, sort_key) {
                out.push(self.waiters[i].ticket);
            }
            i += 1;
        }
        proof {
            assert(self@.take(i as int) =~= self@);
        }
        out
    }
}

} // verus!
