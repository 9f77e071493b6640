use vstd::prelude::*;

use crate::types::{Address, Notification};

verus! {

/// One queued participant: the address it connected under and the bid it
/// offered at admission. The bid is immutable for the participant's tenure.
#[derive(Clone, Copy, PartialEq, Eq, Debug)]
pub struct Entry {
    pub address: Address,
    pub bid: u128,
}

/// The set of address keys an address list holds.
pub open spec fn addr_set(s: Seq<Address>) -> Set<u64> {
    Set::new(|a: u64| exists|i: int| 0 <= i < s.len() && s[i].id == a)
}

spec fn seq_has(s: Seq<Entry>, a: u64) -> bool {
    exists|i: int| 0 <= i < s.len() && s[i].address.id == a
}

spec fn seq_idx(s: Seq<Entry>, a: u64) -> int {
    choose|i: int| 0 <= i < s.len() && s[i].address.id == a
}

spec fn seq_distinct(s: Seq<Entry>) -> bool {
    forall|i: int, j: int|
        0 <= i < j < s.len() ==> s[i].address.id != s[j].address.id
}

spec fn seq_map(s: Seq<Entry>) -> Map<u64, u128> {
    Map::new(|a: u64| seq_has(s, a), |a: u64| s[seq_idx(s, a)].bid)
}

/// For a duplicate-free entry list, the entry at index `i` is exactly what the
/// map view records under its address.
proof fn lemma_entry_view(s: Seq<Entry>, i: int)
    requires
        seq_distinct(s),
        0 <= i < s.len(),
    ensures
        seq_map(s).dom().contains(s[i].address.id),
        seq_map(s)[s[i].address.id] == s[i].bid,
{
    let a = s[i].address.id;
    assert(seq_has(s, a));
    let j = seq_idx(s, a);
    assert(0 <= j < s.len() && s[j].address.id == a);
    if i < j {
        assert(s[i].address.id != s[j].address.id);
    } else if j < i {
        assert(s[j].address.id != s[i].address.id);
    }
    assert(j == i);
}

/// The in-memory registry of connected, not-yet-contributing participants.
///
/// Its abstract state (the view) is the partial map from address key to bid.
/// The well-formedness invariant is that no address appears twice, so the
/// entry list and the map carry the same information.
pub struct ParticipantQueue {
    entries: Vec<Entry>,
}

impl View for ParticipantQueue {
    type V = Map<u64, u128>;

    closed spec fn view(&self) -> Map<u64, u128> {
        seq_map(self.entries@)
    }
}

impl ParticipantQueue {
    /// A given address appears at most once.
    pub closed spec fn wf(self) -> bool {
        seq_distinct(self.entries@)
    }

    /// How many participants are queued.
    pub closed spec fn count(self) -> nat {
        self.entries@.len()
    }

    /// An empty queue.
    pub fn new() -> (q: ParticipantQueue)
        ensures
            q.wf(),
            q@ == Map::<u64, u128>::empty(),
            q.count() == 0,
    {
        let q = ParticipantQueue { entries: Vec::new() };
        proof {
            assert(q@ =~= Map::<u64, u128>::empty());
        }
        q
    }

    pub fn len(&self) -> (n: usize)
        ensures
            n == self.count(),
    {
        self.entries.len()
    }

    /// Read-only bid lookup.
    pub fn bid(&self, address: &Address) -> (r: Option<u128>)
        requires
            self.wf(),
        ensures
            self@.dom().contains(address.id) ==> r == Some(self@[address.id]),
            !self@.dom().contains(address.id) ==> r == None::<u128>,
    {
        let n = self.entries.len();
        let mut i: usize = 0;
        while i < n
            invariant
                self.wf(),
                n == self.entries@.len(),
                i <= n,
                forall|k: int| 0 <= k < i ==> self.entries@[k].address.id != address.id,
            decreases n - i,
        {
            if self.entries[i].address.id == address.id {
                proof {
                    lemma_entry_view(self.entries@, i as int);
                }
                return Some(self.entries[i].bid);
            }
            i += 1;
        }
        proof {
            assert(!seq_has(self.entries@, address.id));
        }
        None
    }

    /// Inserts or overwrites the entry keyed by the address: the latest bid
    /// wins, and a returning address never makes a second entry.
    pub fn add(&mut self, address: Address, bid: u128)
        requires
            old(self).wf(),
        ensures
            final(self).wf(),
            final(self)@ == old(self)@.insert(address.id, bid),
            old(self)@.dom().contains(address.id) ==> final(self).count() == old(self).count(),
            !old(self)@.dom().contains(address.id) ==> final(self).count() == old(self).count() + 1,
    {
        let ghost pre = self.entries@;
        let n = self.entries.len();
        let mut i: usize = 0;
        while i < n
            invariant
                self.entries@ == pre,
                pre == old(self).entries@,
                seq_distinct(pre),
                n == pre.len(),
                i <= n,
                forall|k: int| 0 <= k < i ==> pre[k].address.id != address.id,
            decreases n - i,
        {
            if self.entries[i].address.id == address.id {
                self.entries.set(i, Entry { address, bid });
                proof {
                    lemma_entry_view(pre, i as int);
                    lemma_view_after_overwrite(pre, self.entries@, i as int, address.id, bid);
                }
                return;
            }
            i += 1;
        }
        self.entries.push(Entry { address, bid });
        proof {
            assert(!seq_has(pre, address.id));
            lemma_view_after_push(pre, self.entries@, address.id, bid);
        }
    }

    /// Removes and returns the bid recorded under the address, if present.
    pub fn remove(&mut self, address: &Address) -> (r: Option<u128>)
        requires
            old(self).wf(),
        ensures
            final(self).wf(),
            old(self)@.dom().contains(address.id) ==> ({
                &&& r == Some(old(self)@[address.id])
                &&& final(self)@ == old(self)@.remove(address.id)
                &&& final(self).count() == old(self).count() - 1
            }),
            !old(self)@.dom().contains(address.id) ==> ({
                &&& r == None::<u128>
                &&& *final(self) == *old(self)
            }),
    {
        let ghost pre = self.entries@;
        let n = self.entries.len();
        let mut i: usize = 0;
        while i < n
            invariant
                self.entries@ == pre,
                pre == old(self).entries@,
                *self == *old(self),
                seq_distinct(pre),
                n == pre.len(),
                i <= n,
                forall|k: int| 0 <= k < i ==> pre[k].address.id != address.id,
            decreases n - i,
        {
            if self.entries[i].address.id == address.id {
                let e = self.entries.remove(i);
                proof {
                    lemma_entry_view(pre, i as int);
                    lemma_view_after_removal(pre, self.entries@, i as int, address.id);
                }
                return Some(e.bid);
            }
            i += 1;
        }
        proof {
            assert(!seq_has(pre, address.id));
        }
        None
    }
}

/// The ranking order: higher bid first; equal bids are broken towards the
/// numerically smaller address, so the order is deterministic.
pub open spec fn ranked_before(bids: Map<u64, u128>, a: u64, b: u64) -> bool {
    bids[a] > bids[b] || (bids[a] == bids[b] && a < b)
}

/// `r` ranks exactly the addresses of `bids`, best first.
pub open spec fn is_ranking(bids: Map<u64, u128>, r: Seq<Address>) -> bool {
    &&& forall|i: int| 0 <= i < r.len() ==> bids.dom().contains(#[trigger] r[i].id)
    &&& forall|a: u64|
        #[trigger] bids.dom().contains(a) ==> exists|i: int| 0 <= i < r.len() && r[i].id == a
    &&& forall|i: int, j: int| 0 <= i < j < r.len() ==> ranked_before(bids, r[i].id, r[j].id)
}

/// Linear membership scan used for liveness and eviction lists.
pub fn contains_address(list: &Vec<Address>, address: Address) -> (r: bool)
    ensures
        r == addr_set(list@).contains(address.id),
{
    let n = list.len();
    let mut i: usize = 0;
    while i < n
        invariant
            n == list@.len(),
            i <= n,
            forall|k: int| 0 <= k < i ==> list@[k].id != address.id,
        decreases n - i,
    {
        if list[i].id == address.id {
            return true;
        }
        i += 1;
    }
    false
}

impl ParticipantQueue {
    /// Removes every entry whose address is not in `live`: the addresses whose
    /// connections passed the liveness check. Everything live is untouched.
    pub fn prune(&mut self, live: &Vec<Address>)
        requires
            old(self).wf(),
        ensures
            final(self).wf(),
            final(self)@ == old(self)@.restrict(addr_set(live@)),
            final(self).count() <= old(self).count(),
    {
        self.retain_listed(live, true);
    }

    /// Drops every entry whose notification failed to send: a failed send is
    /// treated as a dead connection, not as a retryable error.
    pub fn evict(&mut self, failed: &Vec<Address>)
        requires
            old(self).wf(),
        ensures
            final(self).wf(),
            final(self)@ == old(self)@.remove_keys(addr_set(failed@)),
            final(self).count() <= old(self).count(),
    {
        self.retain_listed(failed, false);
    }

    fn retain_listed(&mut self, list: &Vec<Address>, keep_listed: bool)
        requires
            old(self).wf(),
        ensures
            final(self).wf(),
            keep_listed ==> final(self)@ == old(self)@.restrict(addr_set(list@)),
            !keep_listed ==> final(self)@ == old(self)@.remove_keys(addr_set(list@)),
            final(self).count() <= old(self).count(),
    {
        let n = self.entries.len();
        let mut kept: Vec<Entry> = Vec::new();
        let mut i: usize = 0;
        while i < n
            invariant
                *self == *old(self),
                old(self).wf(),
                n == self.entries@.len(),
                i <= n,
                kept@.len() <= i,
                seq_distinct(kept@),
                forall|k: int|
                    0 <= k < kept@.len() ==> self.entries@.take(i as int).contains(
                        #[trigger] kept@[k],
                    ),
                forall|k: int|
                    0 <= k < kept@.len() ==> addr_set(list@).contains(
                        (#[trigger] kept@[k]).address.id,
                    ) == keep_listed,
                forall|m: int|
                    0 <= m < i && addr_set(list@).contains(
                        (#[trigger] self.entries@[m]).address.id,
                    ) == keep_listed ==> seq_has(kept@, self.entries@[m].address.id),
            decreases n - i,
        {
            let e = self.entries[i];
            let hit = contains_address(list, e.address);
            let ghost pre_kept = kept@;
            if hit == keep_listed {
                proof {
                    let prefix = self.entries@.take(i as int);
                    if seq_has(kept@, e.address.id) {
                        let k = choose|k: int|
                            0 <= k < kept@.len() && kept@[k].address.id == e.address.id;
                        assert(prefix.contains(kept@[k]));
                        let m = choose|m: int| 0 <= m < prefix.len() && prefix[m] == kept@[k];
                        assert(self.entries@[m] == kept@[k]);
                        assert(self.entries@[m].address.id == self.entries@[i as int].address.id);
                        assert(false);
                    }
                }
                kept.push(e);
                proof {
                    let prefix = self.entries@.take(i as int);
                    let grown = self.entries@.take(i + 1);
                    assert(kept@[pre_kept.len() as int] == e);
                    assert forall|k: int|
                        0 <= k < kept@.len() implies grown.contains(#[trigger] kept@[k]) by {
                        if k < pre_kept.len() {
                            assert(kept@[k] == pre_kept[k]);
                            assert(prefix.contains(pre_kept[k]));
                            let m = choose|m: int|
                                0 <= m < prefix.len() && prefix[m] == pre_kept[k];
                            assert(grown[m] == prefix[m]);
                        } else {
                            assert(grown[i as int] == e);
                        }
                    }
                    assert forall|m: int|
                        0 <= m < i + 1 && addr_set(list@).contains(
                            (#[trigger] self.entries@[m]).address.id,
                        ) == keep_listed implies seq_has(kept@, self.entries@[m].address.id) by {
                        if m < i {
                            let k = choose|k: int|
                                0 <= k < pre_kept.len() && pre_kept[k].address.id
                                    == self.entries@[m].address.id;
                            assert(kept@[k] == pre_kept[k]);
                        } else {
                            assert(kept@[pre_kept.len() as int].address.id
                                == self.entries@[m].address.id);
                        }
                    }
                }
            } else {
                proof {
                    let prefix = self.entries@.take(i as int);
                    let grown = self.entries@.take(i + 1);
                    assert forall|k: int|
                        0 <= k < kept@.len() implies grown.contains(#[trigger] kept@[k]) by {
                        assert(prefix.contains(kept@[k]));
                        let m = choose|m: int| 0 <= m < prefix.len() && prefix[m] == kept@[k];
                        assert(grown[m] == prefix[m]);
                    }
                    assert forall|m: int|
                        0 <= m < i + 1 && addr_set(list@).contains(
                            (#[trigger] self.entries@[m]).address.id,
                        ) == keep_listed implies seq_has(kept@, self.entries@[m].address.id) by {
                        if m == i {
                            assert(addr_set(list@).contains(self.entries@[m].address.id) == hit);
                        }
                    }
                }
            }
            i += 1;
        }
        proof {
            assert(self.entries@.take(i as int) =~= self.entries@);
            lemma_view_filtered(self.entries@, kept@, addr_set(list@), keep_listed);
        }
        self.entries = kept;
    }

    fn ranked_before_exec(&self, a: Address, b: Address) -> (r: bool)
        requires
            self.wf(),
            self@.dom().contains(a.id),
            self@.dom().contains(b.id),
        ensures
            r == ranked_before(self@, a.id, b.id),
    {
        let ba = match self.bid(&a) {
            Some(x) => x,
            None => {
                proof {
                    assert(false);
                }
                0
            },
        };
        let bb = match self.bid(&b) {
            Some(x) => x,
            None => {
                proof {
                    assert(false);
                }
                0
            },
        };
        ba > bb || (ba == bb && a.id < b.id)
    }

    /// The ranking: all current addresses, best bid first, ties towards the
    /// smaller address. Recomputed from scratch on every call.
    #[verifier::rlimit(100)]
    pub fn score(&self) -> (r: Vec<Address>)
        requires
            self.wf(),
        ensures
            is_ranking(self@, r@),
            r@.len() == self.count(),
            r@.len() == 0 ==> self@.dom() == Set::<u64>::empty(),
    {
        let n = self.entries.len();
        let mut out: Vec<Address> = Vec::new();
        let mut i: usize = 0;
        while i < n
            invariant
                self.wf(),
                n == self.entries@.len(),
                i <= n,
                out@.len() == i,
                forall|k: int|
                    0 <= k < out@.len() ==> self@.dom().contains((#[trigger] out@[k]).id),
                forall|k: int|
                    0 <= k < out@.len() ==> exists|m: int|
                        0 <= m < i && self.entries@[m].address == #[trigger] out@[k],
                forall|m: int|
                    0 <= m < i ==> addr_set(out@).contains(
                        (#[trigger] self.entries@[m]).address.id,
                    ),
                forall|p: int, q: int|
                    0 <= p < q < out@.len() ==> ranked_before(self@, out@[p].id, out@[q].id),
            decreases n - i,
        {
            let a = self.entries[i].address;
            proof {
                lemma_entry_view(self.entries@, i as int);
            }
            let mut j: usize = 0;
            while j < out.len() && self.ranked_before_exec(out[j], a)
                invariant
                    self.wf(),
                    self@.dom().contains(a.id),
                    j <= out@.len(),
                    forall|k: int|
                        0 <= k < out@.len() ==> self@.dom().contains((#[trigger] out@[k]).id),
                    forall|k: int| 0 <= k < j ==> ranked_before(self@, out@[k].id, a.id),
                decreases out@.len() - j,
            {
                j += 1;
            }
            let ghost pre_out = out@;
            out.insert(j, a);
            proof {
                pre_out.insert_ensures(j as int, a);
                assert forall|k: int|
                    0 <= k < out@.len() implies self@.dom().contains((#[trigger] out@[k]).id) by {
                    if k < j {
                        assert(out@[k] == pre_out[k]);
                    } else if k == j {
                        assert(out@[k] == a);
                    } else {
                        assert(out@[k] == pre_out[k - 1]);
                    }
                }
                assert forall|k: int|
                    0 <= k < out@.len() implies exists|m: int|
                    0 <= m < i + 1 && self.entries@[m].address == #[trigger] out@[k] by {
                    if k < j {
                        assert(out@[k] == pre_out[k]);
                    } else if k == j {
                        assert(self.entries@[i as int].address == out@[k]);
                    } else {
                        assert(out@[k] == pre_out[k - 1]);
                    }
                }
                assert forall|m: int|
                    0 <= m < i + 1 implies addr_set(out@).contains(
                    (#[trigger] self.entries@[m]).address.id,
                ) by {
                    if m < i {
                        let k = choose|k: int|
                            0 <= k < pre_out.len() && pre_out[k].id == self.entries@[m].address.id;
                        if k < j {
                            assert(out@[k] == pre_out[k]);
                        } else {
                            assert(out@[k + 1] == pre_out[k]);
                        }
                    } else {
                        assert(out@[j as int] == a);
                    }
                }
                // The new element is strictly ordered against both sides of
                // the insertion point; everything else keeps its old order.
                if j < pre_out.len() {
                    let w = choose|m: int|
                        0 <= m < i && self.entries@[m].address == pre_out[j as int];
                    assert(self.entries@[w].address.id != self.entries@[i as int].address.id);
                    assert(!ranked_before(self@, pre_out[j as int].id, a.id));
                    assert(ranked_before(self@, a.id, pre_out[j as int].id));
                }
                assert forall|p: int, q: int|
                    0 <= p < q < out@.len() implies ranked_before(self@, out@[p].id, out@[q].id) by {
                    if p < j {
                        assert(out@[p] == pre_out[p]);
                        assert(ranked_before(self@, pre_out[p].id, a.id));
                    }
                    if q > j {
                        assert(out@[q] == pre_out[q - 1]);
                    }
                    if p == j {
                        assert(out@[p] == a);
                    }
                    if q == j {
                        assert(out@[q] == a);
                    }
                    if p < j && q > j {
                        assert(p < q - 1 || pre_out[p] == pre_out[q - 1]);
                        if p < q - 1 {
                            assert(ranked_before(self@, pre_out[p].id, pre_out[q - 1].id));
                        }
                    }
                    if p == j && q > j + 1 {
                        assert(ranked_before(self@, pre_out[j as int].id, pre_out[q - 1].id));
                    }
                }
            }
            i += 1;
        }
        proof {
            assert forall|a: u64| #[trigger]
                self@.dom().contains(a) implies exists|k: int|
                0 <= k < out@.len() && out@[k].id == a by {
                let m = seq_idx(self.entries@, a);
                assert(0 <= m < self.entries@.len() && self.entries@[m].address.id == a);
                assert(addr_set(out@).contains(a));
            }
            if out@.len() == 0 {
                assert(self@.dom() =~= Set::<u64>::empty());
            }
        }
        out
    }
}

/// A filtered copy keeps exactly the bindings whose membership in `keys`
/// matches `keep`.
proof fn lemma_view_filtered(pre: Seq<Entry>, post: Seq<Entry>, keys: Set<u64>, keep: bool)
    requires
        seq_distinct(pre),
        seq_distinct(post),
        forall|k: int| 0 <= k < post.len() ==> pre.contains(#[trigger] post[k]),
        forall|k: int|
            0 <= k < post.len() ==> keys.contains((#[trigger] post[k]).address.id) == keep,
        forall|m: int|
            0 <= m < pre.len() && keys.contains((#[trigger] pre[m]).address.id) == keep ==> seq_has(
                post,
                pre[m].address.id,
            ),
    ensures
        keep ==> seq_map(post) == seq_map(pre).restrict(keys),
        !keep ==> seq_map(post) == seq_map(pre).remove_keys(keys),
{
    assert forall|x: u64|
        seq_map(post).dom().contains(x) == (seq_map(pre).dom().contains(x) && keys.contains(x)
            == keep) by {
        if seq_has(post, x) {
            let k = seq_idx(post, x);
            assert(0 <= k < post.len() && post[k].address.id == x);
            assert(pre.contains(post[k]));
            let m = choose|m: int| 0 <= m < pre.len() && pre[m] == post[k];
            assert(pre[m].address.id == x);
            assert(keys.contains(x) == keep);
        }
        if seq_has(pre, x) && keys.contains(x) == keep {
            let m = seq_idx(pre, x);
            assert(0 <= m < pre.len() && pre[m].address.id == x);
            assert(seq_has(post, x));
        }
    }
    assert forall|x: u64| seq_map(post).dom().contains(x) implies seq_map(post)[x] == seq_map(
        pre,
    )[x] by {
        let k = seq_idx(post, x);
        assert(0 <= k < post.len() && post[k].address.id == x);
        lemma_entry_view(post, k);
        let m = choose|m: int| 0 <= m < pre.len() && pre[m] == post[k];
        lemma_entry_view(pre, m);
    }
    if keep {
        assert(seq_map(post) =~= seq_map(pre).restrict(keys));
    } else {
        assert(seq_map(post) =~= seq_map(pre).remove_keys(keys));
    }
}

/// After overwriting the single entry of address `a` in place, the view is the
/// old view with `a` rebound to the new bid.
proof fn lemma_view_after_overwrite(pre: Seq<Entry>, post: Seq<Entry>, i: int, a: u64, b: u128)
    requires
        seq_distinct(pre),
        0 <= i < pre.len(),
        pre[i].address.id == a,
        post == pre.update(i, Entry { address: Address { id: a }, bid: b }),
    ensures
        seq_distinct(post),
        seq_map(post) == seq_map(pre).insert(a, b),
        post.len() == pre.len(),
{
    assert forall|m: int, k: int| 0 <= m < k < post.len() implies post[m].address.id
        != post[k].address.id by {
        assert(pre[m].address.id != pre[k].address.id);
    }
    assert forall|x: u64| seq_map(post).dom().contains(x) == seq_map(pre).insert(
        a,
        b,
    ).dom().contains(x) by {
        if x == a {
            assert(post[i].address.id == a);
            assert(seq_has(post, a));
        } else {
            if seq_has(post, x) {
                let k = seq_idx(post, x);
                assert(pre[k].address.id == x);
            }
            if seq_has(pre, x) {
                let k = seq_idx(pre, x);
                assert(post[k].address.id == x);
            }
        }
    }
    assert forall|x: u64| seq_map(post).dom().contains(x) implies seq_map(post)[x] == seq_map(
        pre,
    ).insert(a, b)[x] by {
        if x == a {
            lemma_entry_view(post, i);
        } else {
            let k = seq_idx(post, x);
            assert(0 <= k < post.len() && post[k].address.id == x);
            lemma_entry_view(post, k);
            assert(k != i);
            assert(pre[k].address.id == x);
            lemma_entry_view(pre, k);
        }
    }
    assert(seq_map(post) =~= seq_map(pre).insert(a, b));
}

/// After appending an entry whose address was absent, the view is the old view
/// extended with the new binding.
proof fn lemma_view_after_push(pre: Seq<Entry>, post: Seq<Entry>, a: u64, b: u128)
    requires
        seq_distinct(pre),
        !seq_has(pre, a),
        post == pre.push(Entry { address: Address { id: a }, bid: b }),
    ensures
        seq_distinct(post),
        seq_map(post) == seq_map(pre).insert(a, b),
        post.len() == pre.len() + 1,
{
    assert forall|m: int, k: int| 0 <= m < k < post.len() implies post[m].address.id
        != post[k].address.id by {
        if k < pre.len() {
            assert(pre[m].address.id != pre[k].address.id);
        } else {
            assert(post[k].address.id == a);
            assert(post[m] == pre[m]);
        }
    }
    assert forall|x: u64| seq_map(post).dom().contains(x) == seq_map(pre).insert(
        a,
        b,
    ).dom().contains(x) by {
        if x == a {
            assert(post[pre.len() as int].address.id == a);
            assert(seq_has(post, a));
        } else {
            if seq_has(post, x) {
                let k = seq_idx(post, x);
                assert(0 <= k < post.len() && post[k].address.id == x);
                assert(k < pre.len());
                assert(pre[k].address.id == x);
            }
            if seq_has(pre, x) {
                let k = seq_idx(pre, x);
                assert(post[k].address.id == x);
            }
        }
    }
    assert forall|x: u64| seq_map(post).dom().contains(x) implies seq_map(post)[x] == seq_map(
        pre,
    ).insert(a, b)[x] by {
        if x == a {
            lemma_entry_view(post, pre.len() as int);
        } else {
            let k = seq_idx(post, x);
            assert(0 <= k < post.len() && post[k].address.id == x);
            lemma_entry_view(post, k);
            assert(k < pre.len());
            assert(pre[k].address.id == x);
            lemma_entry_view(pre, k);
        }
    }
    assert(seq_map(post) =~= seq_map(pre).insert(a, b));
}

/// After removing the single entry of address `a`, the view is the old view
/// without `a`.
proof fn lemma_view_after_removal(pre: Seq<Entry>, post: Seq<Entry>, i: int, a: u64)
    requires
        seq_distinct(pre),
        0 <= i < pre.len(),
        pre[i].address.id == a,
        post == pre.remove(i),
    ensures
        seq_distinct(post),
        seq_map(post) == seq_map(pre).remove(a),
        post.len() == pre.len() - 1,
{
    pre.remove_ensures(i);
    assert forall|m: int, k: int| 0 <= m < k < post.len() implies post[m].address.id
        != post[k].address.id by {
        let m0 = if m < i { m } else { m + 1 };
        let k0 = if k < i { k } else { k + 1 };
        assert(post[m] == pre[m0]);
        assert(post[k] == pre[k0]);
        assert(pre[m0].address.id != pre[k0].address.id);
    }
    assert forall|x: u64| seq_map(post).dom().contains(x) == seq_map(pre).remove(
        a,
    ).dom().contains(x) by {
        if seq_has(post, x) {
            let k = seq_idx(post, x);
            let k0 = if k < i { k } else { k + 1 };
            assert(post[k] == pre[k0]);
            assert(pre[k0].address.id == x);
            if x == a {
                assert(pre[k0].address.id == pre[i].address.id);
                assert(k0 != i);
                assert(false);
            }
        }
        if x != a && seq_has(pre, x) {
            let k0 = seq_idx(pre, x);
            assert(0 <= k0 < pre.len() && pre[k0].address.id == x);
            assert(k0 != i);
            let k = if k0 < i { k0 } else { k0 - 1 };
            assert(post[k] == pre[k0]);
            assert(seq_has(post, x));
        }
    }
    assert forall|x: u64| seq_map(post).dom().contains(x) implies seq_map(post)[x] == seq_map(
        pre,
    ).remove(a)[x] by {
        let k = seq_idx(post, x);
        assert(0 <= k < post.len() && post[k].address.id == x);
        lemma_entry_view(post, k);
        let k0 = if k < i { k } else { k + 1 };
        assert(post[k] == pre[k0]);
        lemma_entry_view(pre, k0);
    }
    assert(seq_map(post) =~= seq_map(pre).remove(a));
}

/// Does the notification filter let this address through?
pub open spec fn passes(filter: Option<Address>, a: Address) -> bool {
    match filter {
        Some(f) => f.id == a.id,
        None => true,
    }
}

/// The notification owed to rank `i` of the ranking `ranked`.
pub open spec fn note_at(bids: Map<u64, u128>, ranked: Seq<Address>, leader_bid: u128, i: int) -> Notification {
    Notification {
        address: ranked[i],
        rank: i as usize,
        total: ranked.len() as usize,
        leader_bid: leader_bid,
        own_bid: bids[ranked[i].id],
    }
}

/// The notifications owed to ranks below `n`, in rank order, restricted by
/// the filter.
pub open spec fn notes_upto(
    bids: Map<u64, u128>,
    ranked: Seq<Address>,
    leader_bid: u128,
    filter: Option<Address>,
    n: int,
) -> Seq<Notification>
    decreases n,
{
    if n <= 0 {
        Seq::empty()
    } else {
        notes_upto(bids, ranked, leader_bid, filter, n - 1) + (if passes(filter, ranked[n - 1]) {
            seq![note_at(bids, ranked, leader_bid, n - 1)]
        } else {
            Seq::empty()
        })
    }
}

impl ParticipantQueue {
    /// Builds the queue-position messages for the given ranking: one for each
    /// ranked address that the filter lets through, carrying its rank, the
    /// ranked total, the leader's bid and its own bid. The caller delivers
    /// them; whoever cannot be reached is then handed to `evict`.
    pub fn inform(&self, ranked: &Vec<Address>, leader_bid: u128, filter: Option<Address>) -> (r:
        Vec<Notification>)
        requires
            self.wf(),
            forall|k: int| 0 <= k < ranked@.len() ==> self@.dom().contains((#[trigger] ranked@[k]).id),
        ensures
            r@ == notes_upto(self@, ranked@, leader_bid, filter, ranked@.len() as int),
    {
        let n = ranked.len();
        let mut out: Vec<Notification> = Vec::new();
        let mut i: usize = 0;
        while i < n
            invariant
                self.wf(),
                n == ranked@.len(),
                i <= n,
                forall|k: int|
                    0 <= k < ranked@.len() ==> self@.dom().contains((#[trigger] ranked@[k]).id),
                out@ == notes_upto(self@, ranked@, leader_bid, filter, i as int),
            decreases n - i,
        {
            let a = ranked[i];
            let included = match filter {
                Some(f) => f.id == a.id,
                None => true,
            };
            let ghost pre_out = out@;
            if included {
                let own = match self.bid(&a) {
                    Some(x) => x,
                    None => {
                        proof {
                            assert(false);
                        }
                        0
                    },
                };
                out.push(
                    Notification {
                        address: a,
                        rank: i,
                        total: n,
                        leader_bid: leader_bid,
                        own_bid: own,
                    },
                );
                proof {
                    assert(out@ =~= pre_out + seq![note_at(self@, ranked@, leader_bid, i as int)]);
                }
            }
            i += 1;
            proof {
                if !included {
                    assert(out@ =~= pre_out + Seq::<Notification>::empty());
                }
                assert(out@ == notes_upto(self@, ranked@, leader_bid, filter, i as int));
            }
        }
        out
    }
}

/// Every notification names an address of the ranking it was built from.
pub open spec fn all_to(notes: Seq<Notification>, f: Address) -> bool {
    forall|k: int| 0 <= k < notes.len() ==> (#[trigger] notes[k]).address.id == f.id
}

/// Anti-amplification, arrival side: when a filter is set, every notification
/// that `inform` builds is addressed to the filtered address and to nobody
/// else.
pub proof fn lemma_inform_only_filtered(
    bids: Map<u64, u128>,
    ranked: Seq<Address>,
    leader_bid: u128,
    f: Address,
    n: int,
)
    ensures
        all_to(notes_upto(bids, ranked, leader_bid, Some(f), n), f),
    decreases n,
{
    if n > 0 {
        lemma_inform_only_filtered(bids, ranked, leader_bid, f, n - 1);
    }
}

/// Anti-amplification, completion side: with no filter, `inform` builds
/// exactly one notification per ranked address, in rank order.
pub proof fn lemma_inform_reaches_everyone(
    bids: Map<u64, u128>,
    ranked: Seq<Address>,
    leader_bid: u128,
    n: int,
)
    requires
        0 <= n,
    ensures
        notes_upto(bids, ranked, leader_bid, None::<Address>, n).len() == n,
        forall|k: int|
            0 <= k < n ==> notes_upto(bids, ranked, leader_bid, None::<Address>, n)[k] == note_at(
                bids,
                ranked,
                leader_bid,
                k,
            ),
    decreases n,
{
    if n > 0 {
        lemma_inform_reaches_everyone(bids, ranked, leader_bid, n - 1);
    }
}

/// No duplicate admission: adding an address a second time leaves a single
/// entry for it, bound to the latest bid, and grows the queue only once.
pub proof fn lemma_no_duplicate_admission(m: Map<u64, u128>, a: u64, b1: u128, b2: u128)
    ensures
        m.insert(a, b1).insert(a, b2) == m.insert(a, b2),
        m.insert(a, b1).insert(a, b2).dom() == m.dom().insert(a),
{
    assert(m.insert(a, b1).insert(a, b2) =~= m.insert(a, b2));
    assert(m.insert(a, b1).insert(a, b2).dom() =~= m.dom().insert(a));
}

/// Prune correctness: after restricting to the live addresses, no dead entry
/// remains, and every live entry keeps its bid.
pub proof fn lemma_prune_correct(m: Map<u64, u128>, live: Set<u64>)
    ensures
        forall|a: u64|
            #[trigger] m.restrict(live).dom().contains(a) <==> m.dom().contains(a)
                && live.contains(a),
        forall|a: u64|
            #[trigger] m.restrict(live).dom().contains(a) ==> m.restrict(live)[a] == m[a],
{
}

/// Ranking determinism: a fixed set of bids admits exactly one ranking, so
/// `score` returns the same order on every call absent mutation.
pub proof fn lemma_ranking_deterministic(bids: Map<u64, u128>, r1: Seq<Address>, r2: Seq<Address>)
    requires
        is_ranking(bids, r1),
        is_ranking(bids, r2),
    ensures
        r1 == r2,
    decreases r1.len(),
{
    if r1.len() == 0 {
        if r2.len() > 0 {
            assert(bids.dom().contains(r2[0].id));
            assert(false);
        }
        assert(r1 =~= r2);
    } else {
        assert(bids.dom().contains(r1[0].id));
        if r2.len() == 0 {
            assert(false);
        }
        let i2 = choose|i: int| 0 <= i < r2.len() && r2[i].id == r1[0].id;
        let i1 = choose|i: int| 0 <= i < r1.len() && r1[i].id == r2[0].id;
        assert(0 <= i2 < r2.len() && r2[i2].id == r1[0].id);
        assert(0 <= i1 < r1.len() && r1[i1].id == r2[0].id);
        if i2 > 0 {
            assert(ranked_before(bids, r2[0].id, r1[0].id));
        }
        if i1 > 0 {
            assert(ranked_before(bids, r1[0].id, r2[0].id));
        }
        assert(r1[0].id == r2[0].id);
        assert(r1[0] == r2[0]);
        let head = r1[0].id;
        let rest = bids.remove(head);
        let t1 = r1.skip(1);
        let t2 = r2.skip(1);
        lemma_tail_ranking(bids, r1);
        lemma_tail_ranking(bids, r2);
        assert(r2.skip(1) == t2);
        lemma_ranking_deterministic(rest, t1, t2);
        assert forall|k: int| 0 <= k < r1.len() implies r1[k] == r2[k] by {
            if k > 0 {
                assert(t1[k - 1] == r1[k]);
                assert(t2[k - 1] == r2[k]);
            }
        }
        assert(r1 =~= r2);
    }
}

/// Dropping the head of a ranking ranks what is left once the head's address
/// is taken out of the bids.
proof fn lemma_tail_ranking(bids: Map<u64, u128>, r: Seq<Address>)
    requires
        is_ranking(bids, r),
        r.len() > 0,
    ensures
        is_ranking(bids.remove(r[0].id), r.skip(1)),
{
    let head = r[0].id;
    let rest = bids.remove(head);
    let t = r.skip(1);
    assert forall|i: int| 0 <= i < t.len() implies rest.dom().contains((#[trigger] t[i]).id) by {
        assert(t[i] == r[i + 1]);
        assert(ranked_before(bids, r[0].id, r[i + 1].id));
        assert(t[i].id != head);
    }
    assert forall|a: u64| #[trigger] rest.dom().contains(a) implies exists|i: int|
        0 <= i < t.len() && t[i].id == a by {
        assert(bids.dom().contains(a));
        let i = choose|i: int| 0 <= i < r.len() && r[i].id == a;
        assert(a != head);
        assert(i > 0);
        assert(t[i - 1] == r[i]);
        assert(t[i - 1].id == a);
    }
    assert forall|i: int, j: int| 0 <= i < j < t.len() implies ranked_before(
        rest,
        t[i].id,
        t[j].id,
    ) by {
        assert(t[i] == r[i + 1]);
        assert(t[j] == r[j + 1]);
        assert(ranked_before(bids, r[i + 1].id, r[j + 1].id));
        assert(ranked_before(bids, r[0].id, r[i + 1].id));
        assert(ranked_before(bids, r[0].id, r[j + 1].id));
        assert(rest[t[i].id] == bids[t[i].id]);
        assert(rest[t[j].id] == bids[t[j].id]);
    }
}

} // verus!
