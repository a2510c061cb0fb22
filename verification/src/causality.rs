//! Causal contexts: for each node, the highest write counter that a client
//! has seen from it.

use vstd::prelude::*;
use crate::encoding::{
    bytes_of_token, bytes_to_token, fits_text, token_to_bytes, unpadded_len, url_text,
};
use crate::order::key_bytes;
use crate::error::Error;
use crate::wire::{be_bytes, be_value, lemma_be_round_trip, push_be, read_be};

verus! {

/// The identity of one write: the node that accepted it and the counter that
/// the node gave it.
#[derive(Clone, Copy, Debug, PartialEq, Eq, Structural)]
pub struct Dot {
    pub node: u64,
    pub counter: u64,
}

/// Entries stand in strictly ascending order of node.
pub open spec fn sorted_clock(s: Seq<(u64, u64)>) -> bool {
    forall|i: int, j: int| 0 <= i < j < s.len() ==> s[i].0 < s[j].0
}

/// Some entry of `s` is for `node`.
pub open spec fn clock_has(s: Seq<(u64, u64)>, node: u64) -> bool {
    exists|i: int| 0 <= i < s.len() && (#[trigger] s[i]).0 == node
}

/// Where the entry for `node` stands in `s`.
pub open spec fn clock_index(s: Seq<(u64, u64)>, node: u64) -> int {
    choose|i: int| 0 <= i < s.len() && (#[trigger] s[i]).0 == node
}

/// The mapping that a list of entries stands for.
pub open spec fn clock_map(s: Seq<(u64, u64)>) -> Map<u64, u64> {
    Map::new(|n: u64| clock_has(s, n), |n: u64| s[clock_index(s, n)].1)
}

/// The counter that a mapping holds for `node`: zero where it has none.
pub open spec fn counter(m: Map<u64, u64>, node: u64) -> u64 {
    if m.contains_key(node) {
        m[node]
    } else {
        0
    }
}

/// The write `(node, time)` is among those that `m` has seen.
pub open spec fn covers(m: Map<u64, u64>, node: u64, time: u64) -> bool {
    counter(m, node) >= time
}

/// The larger of two counters.
pub open spec fn max_counter(a: u64, b: u64) -> u64 {
    if a >= b {
        a
    } else {
        b
    }
}

/// The least mapping above both `a` and `b`: the larger counter for every
/// node that either of them lists.
pub open spec fn join(a: Map<u64, u64>, b: Map<u64, u64>) -> Map<u64, u64> {
    Map::new(
        |n: u64| a.contains_key(n) || b.contains_key(n),
        |n: u64| max_counter(counter(a, n), counter(b, n)),
    )
}

/// `a` has seen a write that `b` has not.
pub open spec fn newer(a: Map<u64, u64>, b: Map<u64, u64>) -> bool {
    exists|n: u64| #[trigger] counter(a, n) > counter(b, n)
}

/// In a sorted list, each entry is what the mapping holds for its node.
pub proof fn lemma_clock_entry(s: Seq<(u64, u64)>, i: int)
    requires
        sorted_clock(s),
        0 <= i < s.len(),
    ensures
        clock_has(s, s[i].0),
        clock_map(s).contains_key(s[i].0),
        clock_map(s)[s[i].0] == s[i].1,
{
    let n = s[i].0;
    assert(clock_has(s, n));
    let j = clock_index(s, n);
    assert(0 <= j < s.len() && s[j].0 == n);
    if j < i {
        assert(s[j].0 < s[i].0);
    } else if i < j {
        assert(s[i].0 < s[j].0);
    }
}

/// A sorted list stands for `m` where each entry is what `m` holds for its
/// node and `m` lists no other node.
pub proof fn lemma_clock_map_is(s: Seq<(u64, u64)>, m: Map<u64, u64>)
    requires
        sorted_clock(s),
        forall|i: int| 0 <= i < s.len() ==> m.contains_key((#[trigger] s[i]).0) && m[s[i].0] == s[i].1,
        forall|n: u64| #[trigger] m.contains_key(n) ==> clock_has(s, n),
    ensures
        clock_map(s) == m,
{
    assert forall|n: u64| clock_map(s).contains_key(n) implies m.contains_key(n) && m[n] == #[trigger] clock_map(s)[n] by {
        let j = clock_index(s, n);
        assert(0 <= j < s.len() && s[j].0 == n);
        lemma_clock_entry(s, j);
    }
    assert(clock_map(s) =~= m);
}

proof fn lemma_set_update(s: Seq<(u64, u64)>, p: int, node: u64, time: u64)
    requires
        sorted_clock(s),
        0 <= p < s.len(),
        s[p].0 == node,
    ensures
        sorted_clock(s.update(p, (node, time))),
        clock_map(s.update(p, (node, time))) == clock_map(s).insert(node, time),
{
    let s2 = s.update(p, (node, time));
    let m = clock_map(s).insert(node, time);
    assert(sorted_clock(s2)) by {
        assert forall|i: int, j: int| 0 <= i < j < s2.len() implies s2[i].0 < s2[j].0 by {
            assert(s[i].0 < s[j].0);
        }
    }
    assert forall|i: int| 0 <= i < s2.len() implies m.contains_key((#[trigger] s2[i]).0) && m[s2[i].0]
        == s2[i].1 by {
        lemma_clock_entry(s, i);
        if i != p {
            assert(s[i].0 != s[p].0) by {
                if i < p {
                    assert(s[i].0 < s[p].0);
                } else {
                    assert(s[p].0 < s[i].0);
                }
            }
        }
    }
    assert forall|n: u64| #[trigger] m.contains_key(n) implies clock_has(s2, n) by {
        if n == node {
            assert(s2[p].0 == n);
        } else {
            let j = clock_index(s, n);
            assert(s2[j].0 == n);
        }
    }
    lemma_clock_map_is(s2, m);
}

proof fn lemma_set_insert(s: Seq<(u64, u64)>, p: int, node: u64, time: u64)
    requires
        sorted_clock(s),
        0 <= p <= s.len(),
        forall|k: int| 0 <= k < p ==> (#[trigger] s[k]).0 < node,
        p == s.len() || s[p].0 > node,
    ensures
        sorted_clock(s.insert(p, (node, time))),
        clock_map(s.insert(p, (node, time))) == clock_map(s).insert(node, time),
{
    let s2 = s.insert(p, (node, time));
    let m = clock_map(s).insert(node, time);
    assert(s2.len() == s.len() + 1);
    assert(forall|k: int| 0 <= k < p ==> s2[k] == s[k]);
    assert(s2[p] == (node, time));
    assert(forall|k: int| p < k < s2.len() ==> s2[k] == s[k - 1]);
    assert forall|k: int| p <= k < s.len() implies (#[trigger] s[k]).0 > node by {
        if p < k {
            assert(s[p].0 < s[k].0);
        }
    }
    assert(sorted_clock(s2)) by {
        assert forall|i: int, j: int| 0 <= i < j < s2.len() implies s2[i].0 < s2[j].0 by {
            if j < p {
                assert(s[i].0 < s[j].0);
            } else if j == p {
                assert(s[i].0 < node);
            } else if i < p {
                assert(s[i].0 < node);
                assert(s[j - 1].0 > node);
            } else if i == p {
                assert(s[j - 1].0 > node);
            } else {
                assert(s[i - 1].0 < s[j - 1].0);
            }
        }
    }
    assert forall|i: int| 0 <= i < s2.len() implies m.contains_key((#[trigger] s2[i]).0) && m[s2[i].0]
        == s2[i].1 by {
        if i < p {
            lemma_clock_entry(s, i);
            assert(s[i].0 < node);
        } else if i > p {
            lemma_clock_entry(s, i - 1);
            assert(s[i - 1].0 > node);
        }
    }
    assert forall|n: u64| #[trigger] m.contains_key(n) implies clock_has(s2, n) by {
        if n == node {
            assert(s2[p].0 == n);
        } else {
            let j = clock_index(s, n);
            if j < p {
                assert(s2[j].0 == n);
            } else {
                assert(s2[j + 1].0 == n);
            }
        }
    }
    lemma_clock_map_is(s2, m);
}

/// The mapping of a sorted list grows by its last entry.
pub proof fn lemma_clock_map_push(s: Seq<(u64, u64)>, k: int)
    requires
        sorted_clock(s),
        0 <= k < s.len(),
    ensures
        sorted_clock(s.take(k)),
        sorted_clock(s.take(k + 1)),
        !clock_map(s.take(k)).contains_key(s[k].0),
        clock_map(s.take(k + 1)) == clock_map(s.take(k)).insert(s[k].0, s[k].1),
{
    let a = s.take(k);
    let b = s.take(k + 1);
    assert(sorted_clock(a)) by {
        assert forall|i: int, j: int| 0 <= i < j < a.len() implies a[i].0 < a[j].0 by {
            assert(s[i].0 < s[j].0);
        }
    }
    assert(!clock_has(a, s[k].0)) by {
        assert forall|i: int| 0 <= i < a.len() implies (#[trigger] a[i]).0 != s[k].0 by {
            assert(s[i].0 < s[k].0);
        }
    }
    assert(b =~= a.insert(k, s[k]));
    assert forall|i: int| 0 <= i < k implies (#[trigger] a[i]).0 < s[k].0 by {
        assert(s[i].0 < s[k].0);
    }
    lemma_set_insert(a, k, s[k].0, s[k].1);
}

/// A copy of the list `s`.
fn copy_entries(s: &Vec<(u64, u64)>) -> (r: Vec<(u64, u64)>)
    ensures
        r@ == s@,
{
    let mut r: Vec<(u64, u64)> = Vec::new();
    let mut i: usize = 0;
    while i < s.len()
        invariant
            i <= s.len(),
            r@ == s@.take(i as int),
        decreases s.len() - i,
    {
        r.push(s[i]);
        proof {
            assert(r@ =~= s@.take(i + 1));
        }
        i += 1;
    }
    proof {
        assert(r@ =~= s@);
    }
    r
}

/// The sorted list `s` with the counter of `node` set to `time`.
fn with_entry(s: &Vec<(u64, u64)>, node: u64, time: u64) -> (r: Vec<(u64, u64)>)
    requires
        sorted_clock(s@),
    ensures
        sorted_clock(r@),
        clock_map(r@) == clock_map(s@).insert(node, time),
{
    let mut r = copy_entries(s);
    let mut p: usize = 0;
    while p < r.len() && r[p].0 < node
        invariant
            r@ == s@,
            p <= r.len(),
            forall|k: int| 0 <= k < p ==> (#[trigger] r@[k]).0 < node,
        decreases r.len() - p,
    {
        p += 1;
    }
    if p < r.len() && r[p].0 == node {
        proof {
            lemma_set_update(s@, p as int, node, time);
        }
        r.set(p, (node, time));
    } else {
        proof {
            lemma_set_insert(s@, p as int, node, time);
        }
        r.insert(p, (node, time));
    }
    r
}

/// A causal context. It lists each node at most once; a node that it does
/// not list counts as zero.
#[derive(Debug, PartialEq, Eq)]
pub struct CausalContext {
    entries: Vec<(u64, u64)>,
}

impl View for CausalContext {
    type V = Map<u64, u64>;

    closed spec fn view(&self) -> Map<u64, u64> {
        clock_map(self.entries@)
    }
}

impl CausalContext {
    /// The entries stand in strictly ascending order of node.
    #[verifier::type_invariant]
    pub closed spec fn wf(&self) -> bool {
        sorted_clock(self.entries@)
    }

    /// The entries, in ascending order of node.
    pub closed spec fn entries(&self) -> Seq<(u64, u64)> {
        self.entries@
    }

    /// The empty context: it has seen nothing.
    pub fn new() -> (r: Self)
        ensures
            r.wf(),
            r@ == Map::<u64, u64>::empty(),
    {
        let r = CausalContext { entries: Vec::new() };
        proof {
            assert(r@ =~= Map::<u64, u64>::empty());
        }
        r
    }

    /// How many nodes the context lists.
    pub fn len(&self) -> (r: usize)
        ensures
            r == self.entries().len(),
    {
        self.entries.len()
    }

    /// The node and counter of the entry at `i`, in ascending order of node.
    pub fn entry(&self, i: usize) -> (r: (u64, u64))
        requires
            i < self.entries().len(),
        ensures
            r == self.entries()[i as int],
    {
        self.entries[i]
    }

    /// The counter held for `node`.
    pub fn get(&self, node: u64) -> (r: u64)
        ensures
            r == counter(self@, node),
    {
        proof {
            use_type_invariant(self);
        }
        let mut i: usize = 0;
        while i < self.entries.len()
            invariant
                sorted_clock(self.entries@),
                i <= self.entries.len(),
                forall|k: int| 0 <= k < i ==> (#[trigger] self.entries@[k]).0 != node,
            decreases self.entries.len() - i,
        {
            if self.entries[i].0 == node {
                proof {
                    lemma_clock_entry(self.entries@, i as int);
                }
                return self.entries[i].1;
            }
            i += 1;
        }
        0
    }

    /// Whether the context lists `node`.
    pub fn lists(&self, node: u64) -> (r: bool)
        ensures
            r == self@.contains_key(node),
    {
        let mut i: usize = 0;
        while i < self.entries.len()
            invariant
                i <= self.entries.len(),
                forall|k: int| 0 <= k < i ==> (#[trigger] self.entries@[k]).0 != node,
            decreases self.entries.len() - i,
        {
            if self.entries[i].0 == node {
                return true;
            }
            i += 1;
        }
        false
    }

    /// Sets the counter held for `node`.
    pub fn set(&mut self, node: u64, time: u64)
        ensures
            final(self).wf(),
            final(self)@ == old(self)@.insert(node, time),
    {
        proof {
            use_type_invariant(&*self);
        }
        let entries = with_entry(&self.entries, node, time);
        self.entries = entries;
    }

    /// Whether the write that `dot` names is among those the context has
    /// seen: the counter held for its node is at least its counter.
    pub fn covers(&self, dot: Dot) -> (r: bool)
        ensures
            r == covers(self@, dot.node, dot.counter),
    {
        self.get(dot.node) >= dot.counter
    }

    /// A copy of the context.
    pub fn duplicate(&self) -> (r: Self)
        ensures
            r.wf(),
            r@ == self@,
            r.entries() == self.entries(),
    {
        proof {
            use_type_invariant(self);
        }
        CausalContext { entries: copy_entries(&self.entries) }
    }

    /// The join of two contexts: what a client has seen that has seen both.
    pub fn merge(&self, other: &Self) -> (r: Self)
        ensures
            r.wf(),
            r@ == join(self@, other@),
    {
        proof {
            use_type_invariant(self);
            use_type_invariant(other);
        }
        let mut out = self.duplicate();
        let mut j: usize = 0;
        proof {
            assert(clock_map(other.entries@.take(0)) =~= Map::<u64, u64>::empty());
            assert(out@ =~= join(self@, clock_map(other.entries@.take(0))));
        }
        while j < other.entries.len()
            invariant
                sorted_clock(other.entries@),
                j <= other.entries.len(),
                out.wf(),
                out@ == join(self@, clock_map(other.entries@.take(j as int))),
            decreases other.entries.len() - j,
        {
            let node = other.entries[j].0;
            let time = other.entries[j].1;
            let have = out.get(node);
            let ghost seen = clock_map(other.entries@.take(j as int));
            proof {
                lemma_clock_map_push(other.entries@, j as int);
            }
            if time > have {
                out.set(node, time);
            } else {
                out.set(node, have);
            }
            proof {
                assert(out@ =~= join(self@, seen.insert(node, time)));
            }
            j += 1;
        }
        proof {
            assert(other.entries@.take(j as int) =~= other.entries@);
        }
        out
    }

    /// Whether this context has seen a write that `other` has not.
    pub fn is_newer_than(&self, other: &Self) -> (r: bool)
        ensures
            r == newer(self@, other@),
    {
        proof {
            use_type_invariant(self);
        }
        let mut i: usize = 0;
        while i < self.entries.len()
            invariant
                sorted_clock(self.entries@),
                i <= self.entries.len(),
                forall|k: int| 0 <= k < i ==> (#[trigger] self.entries@[k]).1 <= counter(other@, self.entries@[k].0),
            decreases self.entries.len() - i,
        {
            if self.entries[i].1 > other.get(self.entries[i].0) {
                proof {
                    lemma_clock_entry(self.entries@, i as int);
                    assert(counter(self@, self.entries@[i as int].0) > counter(other@, self.entries@[i as int].0));
                }
                return true;
            }
            i += 1;
        }
        proof {
            assert forall|n: u64| !(#[trigger] counter(self@, n) > counter(other@, n)) by {
                if self@.contains_key(n) {
                    let k = clock_index(self.entries@, n);
                    lemma_clock_entry(self.entries@, k);
                }
            }
        }
        false
    }

    /// Whether two contexts hold the same mapping.
    pub fn same(&self, other: &Self) -> (r: bool)
        ensures
            r == (self@ == other@),
    {
        proof {
            use_type_invariant(self);
            use_type_invariant(other);
        }
        if self.entries.len() != other.entries.len() {
            proof {
                if self@ == other@ {
                    lemma_sorted_clock_unique(self.entries@, other.entries@);
                }
            }
            return false;
        }
        let mut i: usize = 0;
        while i < self.entries.len()
            invariant
                sorted_clock(self.entries@),
                sorted_clock(other.entries@),
                self.entries.len() == other.entries.len(),
                i <= self.entries.len(),
                forall|k: int| 0 <= k < i ==> self.entries@[k] == other.entries@[k],
            decreases self.entries.len() - i,
        {
            if self.entries[i].0 != other.entries[i].0 || self.entries[i].1 != other.entries[i].1 {
                proof {
                    if self@ == other@ {
                        lemma_sorted_clock_unique(self.entries@, other.entries@);
                    }
                }
                return false;
            }
            i += 1;
        }
        proof {
            assert(self.entries@ =~= other.entries@);
        }
        true
    }
}

/// The mapping of a sorted list without its last entry is the mapping
/// without that entry's node.
proof fn lemma_clock_map_drop_last(s: Seq<(u64, u64)>)
    requires
        sorted_clock(s),
        s.len() > 0,
    ensures
        sorted_clock(s.drop_last()),
        clock_map(s.drop_last()) == clock_map(s).remove(s.last().0),
{
    let k = s.len() - 1;
    lemma_clock_map_push(s, k);
    assert(s.take(k) =~= s.drop_last());
    assert(s.take(k + 1) =~= s);
    assert(clock_map(s).remove(s.last().0) =~= clock_map(s.drop_last()));
}

/// Two sorted lists that stand for the same mapping are the same list.
pub proof fn lemma_sorted_clock_unique(a: Seq<(u64, u64)>, b: Seq<(u64, u64)>)
    requires
        sorted_clock(a),
        sorted_clock(b),
        clock_map(a) == clock_map(b),
    ensures
        a == b,
    decreases a.len(),
{
    if a.len() == 0 {
        if b.len() > 0 {
            lemma_clock_entry(b, 0);
            let i = clock_index(a, b[0].0);
        }
        assert(a =~= b);
    } else {
        let la = a.len() - 1;
        lemma_clock_entry(a, la);
        let jb = clock_index(b, a[la].0);
        assert(0 <= jb < b.len() && b[jb].0 == a[la].0);
        let lb = b.len() - 1;
        lemma_clock_entry(b, lb);
        let ja = clock_index(a, b[lb].0);
        assert(0 <= ja < a.len() && a[ja].0 == b[lb].0);
        if jb < lb {
            assert(b[jb].0 < b[lb].0);
        }
        if ja < la {
            assert(a[ja].0 < a[la].0);
        }
        assert(a[la].0 == b[lb].0);
        assert(a[la] == b[lb]);
        lemma_clock_map_drop_last(a);
        lemma_clock_map_drop_last(b);
        lemma_sorted_clock_unique(a.drop_last(), b.drop_last());
        assert(a =~= a.drop_last().push(a[la]));
        assert(b =~= b.drop_last().push(b[lb]));
    }
}

/// Joining is commutative.
pub proof fn lemma_join_commutative(a: Map<u64, u64>, b: Map<u64, u64>)
    ensures
        join(a, b) == join(b, a),
{
    assert(join(a, b) =~= join(b, a));
}

/// Joining a mapping with itself changes nothing.
pub proof fn lemma_join_idempotent(a: Map<u64, u64>)
    ensures
        join(a, a) == a,
{
    assert(join(a, a) =~= a);
}

/// Joining is associative.
pub proof fn lemma_join_associative(a: Map<u64, u64>, b: Map<u64, u64>, c: Map<u64, u64>)
    ensures
        join(join(a, b), c) == join(a, join(b, c)),
{
    assert(join(join(a, b), c) =~= join(a, join(b, c)));
}

/// The empty mapping is the identity of joining, and covers no write with a
/// counter above zero.
pub proof fn lemma_join_empty(a: Map<u64, u64>)
    ensures
        join(a, Map::<u64, u64>::empty()) == a,
        join(Map::<u64, u64>::empty(), a) == a,
        forall|node: u64, time: u64| time > 0 ==> !covers(Map::<u64, u64>::empty(), node, time),
{
    assert(join(a, Map::<u64, u64>::empty()) =~= a);
    assert(join(Map::<u64, u64>::empty(), a) =~= a);
}

/// The join covers exactly the writes that one of the two covers.
pub proof fn lemma_join_covers(a: Map<u64, u64>, b: Map<u64, u64>, node: u64, time: u64)
    ensures
        covers(join(a, b), node, time) <==> covers(a, node, time) || covers(b, node, time),
{
}

/// The mapping is that of some sorted list: it lists finitely many nodes.
pub open spec fn is_clock(m: Map<u64, u64>) -> bool {
    exists|s: Seq<(u64, u64)>| sorted_clock(s) && #[trigger] clock_map(s) == m
}

/// The entries of a mapping, in ascending order of node.
pub open spec fn entries_of(m: Map<u64, u64>) -> Seq<(u64, u64)> {
    choose|s: Seq<(u64, u64)>| sorted_clock(s) && #[trigger] clock_map(s) == m
}

/// The checksum of a list of entries: all nodes and counters combined by
/// exclusive or.
pub open spec fn checksum(s: Seq<(u64, u64)>) -> u64
    decreases s.len(),
{
    if s.len() == 0 {
        0
    } else {
        checksum(s.drop_last()) ^ s.last().0 ^ s.last().1
    }
}

/// The bytes of a list of entries: node, then counter, of each in turn.
pub open spec fn body_bytes(s: Seq<(u64, u64)>) -> Seq<u8>
    decreases s.len(),
{
    if s.len() == 0 {
        Seq::<u8>::empty()
    } else {
        body_bytes(s.drop_last()) + be_bytes(s.last().0) + be_bytes(s.last().1)
    }
}

/// The bytes of a mapping: the checksum of its entries, then the entries in
/// ascending order of node.
pub open spec fn clock_bytes(m: Map<u64, u64>) -> Seq<u8> {
    be_bytes(checksum(entries_of(m))) + body_bytes(entries_of(m))
}

/// The entry that stands at place `i` behind the checksum.
pub open spec fn entry_at(bytes: Seq<u8>, i: int) -> (u64, u64) {
    (
        be_value(bytes.subrange(8 + 16 * i, 16 + 16 * i)),
        be_value(bytes.subrange(16 + 16 * i, 24 + 16 * i)),
    )
}

/// The mapping that the first `n` entries behind the checksum give, a later
/// entry for a node replacing an earlier one.
pub open spec fn read_clock(bytes: Seq<u8>, n: nat) -> Map<u64, u64>
    decreases n,
{
    if n == 0 {
        Map::<u64, u64>::empty()
    } else {
        let e = entry_at(bytes, n - 1);
        read_clock(bytes, (n - 1) as nat).insert(e.0, e.1)
    }
}

/// The mapping that bytes stand for: they hold a checksum and whole entries,
/// and the checksum is that of the mapping read.
pub open spec fn bytes_clock(bytes: Seq<u8>) -> Option<Map<u64, u64>> {
    if bytes.len() % 16 != 8 {
        None
    } else {
        let m = read_clock(bytes, ((bytes.len() - 8) / 16) as nat);
        if checksum(entries_of(m)) == be_value(bytes.subrange(0, 8)) {
            Some(m)
        } else {
            None
        }
    }
}

/// The mapping that a causality token stands for, if it is one.
pub open spec fn token_clock(text: Seq<char>) -> Option<Map<u64, u64>> {
    match bytes_of_token(text) {
        Some(bytes) => bytes_clock(bytes),
        None => None,
    }
}

/// The text of the causality token of a mapping.
pub open spec fn clock_token(m: Map<u64, u64>) -> Seq<char> {
    url_text(clock_bytes(m))
}

/// A sorted list is the list of entries of its mapping.
pub proof fn lemma_entries_of(s: Seq<(u64, u64)>)
    requires
        sorted_clock(s),
    ensures
        is_clock(clock_map(s)),
        entries_of(clock_map(s)) == s,
{
    let m = clock_map(s);
    assert(sorted_clock(s) && clock_map(s) == m);
    let t = entries_of(m);
    lemma_sorted_clock_unique(t, s);
}

/// The bytes of a list hold sixteen bytes for each entry, node first.
pub proof fn lemma_body_entry(s: Seq<(u64, u64)>, i: int)
    requires
        0 <= i < s.len(),
    ensures
        body_bytes(s).len() == 16 * s.len(),
        body_bytes(s).subrange(16 * i, 16 * i + 8) == be_bytes(s[i].0),
        body_bytes(s).subrange(16 * i + 8, 16 * i + 16) == be_bytes(s[i].1),
    decreases s.len(),
{
    lemma_body_len(s);
    let d = s.drop_last();
    lemma_body_len(d);
    lemma_be_round_trip(s.last().0);
    lemma_be_round_trip(s.last().1);
    let b = body_bytes(s);
    assert(b == body_bytes(d) + be_bytes(s.last().0) + be_bytes(s.last().1));
    if i == s.len() - 1 {
        assert(b.subrange(16 * i, 16 * i + 8) =~= be_bytes(s[i].0));
        assert(b.subrange(16 * i + 8, 16 * i + 16) =~= be_bytes(s[i].1));
    } else {
        lemma_body_entry(d, i);
        assert(d[i] == s[i]);
        assert(b.subrange(16 * i, 16 * i + 8) =~= body_bytes(d).subrange(16 * i, 16 * i + 8));
        assert(b.subrange(16 * i + 8, 16 * i + 16) =~= body_bytes(d).subrange(
            16 * i + 8,
            16 * i + 16,
        ));
    }
}

/// The bytes of a list hold sixteen bytes for each entry.
pub proof fn lemma_body_len(s: Seq<(u64, u64)>)
    ensures
        body_bytes(s).len() == 16 * s.len(),
    decreases s.len(),
{
    if s.len() > 0 {
        lemma_body_len(s.drop_last());
        lemma_be_round_trip(s.last().0);
        lemma_be_round_trip(s.last().1);
    }
}

/// Reading the first `k` entries of the bytes of a sorted list gives the
/// mapping of its first `k` entries.
proof fn lemma_read_written(s: Seq<(u64, u64)>, sum: u64, k: nat)
    requires
        sorted_clock(s),
        k <= s.len(),
    ensures
        read_clock(be_bytes(sum) + body_bytes(s), k) == clock_map(s.take(k as int)),
    decreases k,
{
    let bytes = be_bytes(sum) + body_bytes(s);
    if k == 0 {
        assert(clock_map(s.take(0)) =~= Map::<u64, u64>::empty());
    } else {
        let i = k - 1;
        lemma_read_written(s, sum, i as nat);
        lemma_be_round_trip(sum);
        lemma_body_entry(s, i);
        assert(bytes.subrange(8 + 16 * i, 16 + 16 * i) =~= body_bytes(s).subrange(
            16 * i,
            16 * i + 8,
        ));
        assert(bytes.subrange(16 + 16 * i, 24 + 16 * i) =~= body_bytes(s).subrange(
            16 * i + 8,
            16 * i + 16,
        ));
        lemma_be_round_trip(s[i].0);
        lemma_be_round_trip(s[i].1);
        assert(entry_at(bytes, i) == s[i]);
        lemma_clock_map_push(s, i);
    }
}

/// Reading the bytes of a mapping gives the mapping back.
pub proof fn lemma_bytes_round_trip(m: Map<u64, u64>)
    requires
        is_clock(m),
    ensures
        bytes_clock(clock_bytes(m)) == Some(m),
{
    let s = entries_of(m);
    assert(sorted_clock(s) && clock_map(s) == m);
    let sum = checksum(s);
    let bytes = clock_bytes(m);
    lemma_body_len(s);
    lemma_be_round_trip(sum);
    assert(bytes.len() == 8 + 16 * s.len());
    assert(bytes.subrange(0, 8) =~= be_bytes(sum));
    lemma_read_written(s, sum, s.len());
    assert(s.take(s.len() as int) =~= s);
    assert((bytes.len() - 8) / 16 == s.len());
}

impl CausalContext {
    /// A context's mapping lists finitely many nodes, and its entries are
    /// those of the mapping.
    pub proof fn lemma_is_clock(&self)
        requires
            self.wf(),
        ensures
            is_clock(self@),
            entries_of(self@) == self.entries(),
    {
        lemma_entries_of(self.entries@);
    }

    /// The checksum of the context's entries.
    pub fn checksum(&self) -> (r: u64)
        ensures
            r == checksum(entries_of(self@)),
    {
        proof {
            use_type_invariant(self);
            lemma_entries_of(self.entries@);
        }
        let mut sum: u64 = 0;
        let mut i: usize = 0;
        while i < self.entries.len()
            invariant
                i <= self.entries.len(),
                sum == checksum(self.entries@.take(i as int)),
            decreases self.entries.len() - i,
        {
            proof {
                assert(self.entries@.take(i + 1).drop_last() =~= self.entries@.take(i as int));
            }
            sum = sum ^ self.entries[i].0 ^ self.entries[i].1;
            i += 1;
        }
        proof {
            assert(self.entries@.take(i as int) =~= self.entries@);
        }
        sum
    }

    /// The bytes of the context: its checksum, then its entries in ascending
    /// order of node, every integer as eight bytes, most significant first.
    pub fn to_bytes(&self) -> (r: Vec<u8>)
        ensures
            r@ == clock_bytes(self@),
            bytes_clock(r@) == Some(self@),
    {
        proof {
            use_type_invariant(self);
            lemma_entries_of(self.entries@);
            lemma_bytes_round_trip(self@);
        }
        let sum = self.checksum();
        let mut out: Vec<u8> = Vec::new();
        push_be(&mut out, sum);
        let mut i: usize = 0;
        proof {
            assert(out@ =~= be_bytes(sum) + body_bytes(self.entries@.take(0)));
        }
        while i < self.entries.len()
            invariant
                i <= self.entries.len(),
                out@ == be_bytes(sum) + body_bytes(self.entries@.take(i as int)),
            decreases self.entries.len() - i,
        {
            let ghost before = out@;
            push_be(&mut out, self.entries[i].0);
            push_be(&mut out, self.entries[i].1);
            proof {
                let t = self.entries@.take(i + 1);
                assert(t.drop_last() =~= self.entries@.take(i as int));
                assert(t.last() == self.entries@[i as int]);
                assert(out@ =~= be_bytes(sum) + body_bytes(t));
            }
            i += 1;
        }
        proof {
            assert(self.entries@.take(i as int) =~= self.entries@);
        }
        out
    }

    /// The context that bytes stand for; `None` where they stand for none:
    /// where they do not hold a checksum and whole entries, or the checksum
    /// is not that of the entries read.
    pub fn from_bytes(bytes: &[u8]) -> (r: Option<CausalContext>)
        ensures
            match r {
                Some(c) => c.wf() && bytes_clock(bytes@) == Some(c@),
                None => bytes_clock(bytes@) is None,
            },
    {
        let len = bytes.len();
        if len % 16 != 8 {
            return None;
        }
        let n = (len - 8) / 16;
        let stored = read_be(bytes, 0);
        let mut ctx = CausalContext::new();
        let mut i: usize = 0;
        while i < n
            invariant
                len == bytes@.len(),
                len == 8 + 16 * n,
                i <= n,
                ctx.wf(),
                ctx@ == read_clock(bytes@, i as nat),
            decreases n - i,
        {
            let node = read_be(bytes, 8 + 16 * i);
            let time = read_be(bytes, 16 + 16 * i);
            ctx.set(node, time);
            i += 1;
        }
        let sum = ctx.checksum();
        if sum == stored {
            Some(ctx)
        } else {
            None
        }
    }

    /// Whether the context's token can be written on this machine.
    pub open spec fn fits_token(&self) -> bool {
        fits_text(clock_bytes(self@).len())
    }

    /// The context's causality token; `None` where the context is too large
    /// for a token to be written. Parsing the token gives the context back,
    /// and the token is as long as the unpadded text of the context's bytes.
    pub fn try_serialize(&self) -> (r: Option<String>)
        ensures
            r is Some <==> self.fits_token(),
            r matches Some(s) ==> s@ == clock_token(self@) && token_clock(s@) == Some(self@)
                && key_bytes(s@).len() == unpadded_len(clock_bytes(self@).len()),
    {
        let bytes = self.to_bytes();
        bytes_to_token(bytes.as_slice())
    }

    /// The context's causality token. Parsing the token gives the context
    /// back.
    pub fn serialize(&self) -> (r: String)
        requires
            self.fits_token(),
        ensures
            r@ == clock_token(self@),
            token_clock(r@) == Some(self@),
            key_bytes(r@).len() == unpadded_len(clock_bytes(self@).len()),
    {
        match self.try_serialize() {
            Some(s) => s,
            None => vstd::pervasive::unreached(),
        }
    }

    /// The context that a causality token stands for.
    pub fn parse(text: &str) -> (r: Result<CausalContext, Error>)
        ensures
            match r {
                Ok(c) => c.wf() && token_clock(text@) == Some(c@),
                Err(e) => e == Error::InvalidCausalityToken && token_clock(text@) is None,
            },
    {
        match token_to_bytes(text) {
            None => Err(Error::InvalidCausalityToken),
            Some(bytes) => match CausalContext::from_bytes(bytes.as_slice()) {
                Some(c) => Ok(c),
                None => Err(Error::InvalidCausalityToken),
            },
        }
    }
}

} // verus!
