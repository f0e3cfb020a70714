use std::collections::HashMap;
use std::collections::HashSet;
use vstd::prelude::*;
use vstd::std_specs::hash::obeys_key_model;
use vstd::std_specs::hash::builds_valid_hashers;
use crate::hypergraph::{Hypergraph, is_netlist};
use crate::moveinfo::{MoveInfo, MoveInfoV};
use crate::fm_bi_gain_calc::{pins_except, valid_part, weights_fit, handled_degree, net_weight_upto, net_at, lemma_pins_except};

verus! {

broadcast use vstd::std_specs::hash::group_hash_axioms;

/// The abstract state of a [`BucketQueue`].
///
/// `buckets[i]` holds the entries `(key, node)` pushed with key
/// `offset + i`, oldest first. `keys` is each node's last known key (it
/// persists after the node is popped), `present` the nodes that currently
/// count as queued, `locked` the nodes whose key updates are ignored.
/// An entry is fresh when its node is present and its key is the node's
/// current key; the other entries are stale and are skipped. `cursor` is the
/// bucket where the search for the maximum starts: it only moves down while
/// searching, and up when an entry is queued above it.
#[verifier::reject_recursive_types(Node)]
pub struct BucketQueueView<Node> {
    pub offset: int,
    pub cursor: int,
    pub buckets: Seq<Seq<(i32, Node)>>,
    pub keys: Map<Node, i32>,
    pub present: Set<Node>,
    pub locked: Set<Node>,
}

impl<Node> BucketQueueView<Node> {
    /// Whether an entry is the live entry of a present node.
    pub open spec fn is_fresh(self, e: (i32, Node)) -> bool {
        &&& self.present.contains(e.1)
        &&& self.keys.contains_key(e.1)
        &&& self.keys[e.1] == e.0
    }

    /// Whether bucket `i` holds a fresh entry.
    pub open spec fn has_fresh(self, i: int) -> bool {
        exists|j: int| 0 <= j < self.buckets[i].len() && #[trigger] self.is_fresh(self.buckets[i][j])
    }

    /// The highest bucket at or below `i` that holds a fresh entry, or -1.
    pub open spec fn top_from(self, i: int) -> int
        decreases i + 1,
    {
        if i < 0 {
            -1
        } else if self.has_fresh(i) {
            i
        } else {
            self.top_from(i - 1)
        }
    }

    /// The highest bucket that holds a fresh entry, or -1 when there is none.
    pub open spec fn top(self) -> int {
        self.top_from(self.buckets.len() - 1)
    }

    /// The state after the search for the maximum: the cursor rests on the
    /// highest bucket at or below it that holds a fresh entry (or -1).
    pub open spec fn refreshed(self) -> BucketQueueView<Node> {
        BucketQueueView { cursor: self.top_from(self.cursor), ..self }
    }

    /// The key that the search for the maximum finds: that of the highest
    /// fresh entry at or below the cursor, or `offset - 1`.
    pub open spec fn max_key(self) -> int {
        self.offset + self.top_from(self.cursor)
    }

    /// No bucket above the cursor holds a fresh entry. Then the search for the
    /// maximum finds the largest key of all fresh entries.
    pub open spec fn tidy(self) -> bool {
        forall|i: int| self.cursor < i < self.buckets.len() ==> !(#[trigger] self.has_fresh(i))
    }

    /// The entry that `popleft` takes: the last fresh entry of the bucket
    /// where the search stops.
    pub open spec fn popped_entry(self) -> (i32, Node) {
        let t = self.top_from(self.cursor);
        self.buckets[t][self.last_fresh(t)]
    }

    /// The state after `popleft` found an entry: the bucket loses that entry
    /// and the (stale) entries behind it, the node is no longer present, and
    /// the search for the maximum has run again.
    pub open spec fn after_pop(self) -> BucketQueueView<Node> {
        let t = self.top_from(self.cursor);
        let j = self.last_fresh(t);
        BucketQueueView {
            buckets: self.buckets.update(t, self.buckets[t].take(j)),
            present: self.present.remove(self.buckets[t][j].1),
            cursor: t,
            ..self
        }.refreshed()
    }

    /// The position of the last fresh entry of `b` before position `j`, or -1.
    pub open spec fn last_fresh_before(self, b: Seq<(i32, Node)>, j: int) -> int
        decreases j,
    {
        if j <= 0 {
            -1
        } else if self.is_fresh(b[j - 1]) {
            j - 1
        } else {
            self.last_fresh_before(b, j - 1)
        }
    }

    /// The position of the last fresh entry of bucket `i`, or -1.
    pub open spec fn last_fresh(self, i: int) -> int {
        self.last_fresh_before(self.buckets[i], self.buckets[i].len() as int)
    }

    /// The key that `modify_key` adds to: the node's key, 0 when it has none.
    pub open spec fn base_key(self, node: Node) -> int {
        if self.keys.contains_key(node) {
            self.keys[node] as int
        } else {
            0
        }
    }

    /// Adding `delta` to the node's key fits in `i32` (or the node is locked
    /// and nothing is added).
    pub open spec fn key_fits(self, delta: int, node: Node) -> bool {
        self.locked.contains(node) || i32::MIN <= self.base_key(node) + delta <= i32::MAX
    }

    /// The state after `modify_key(delta, node)`.
    pub open spec fn modified(self, delta: i32, node: Node) -> BucketQueueView<Node> {
        if self.locked.contains(node) {
            self
        } else {
            self.with_entry((self.base_key(node) + delta) as i32, node)
        }
    }

    /// The state after `clear`: same buckets, all empty, nothing queued,
    /// known or locked.
    pub open spec fn cleared(self) -> BucketQueueView<Node> {
        BucketQueueView {
            offset: self.offset,
            cursor: -1,
            buckets: Seq::new(self.buckets.len(), |i: int| Seq::<(i32, Node)>::empty()),
            keys: Map::<Node, i32>::empty(),
            present: Set::<Node>::empty(),
            locked: Set::<Node>::empty(),
        }
    }

    /// Whether `key` lies in the range of keys the queue was made for.
    pub open spec fn in_range(self, key: int) -> bool {
        self.offset <= key < self.offset + self.buckets.len()
    }

    /// The state after writing `key` for `node` and, when the key lies in
    /// range, queueing the entry `(key, node)`.
    pub open spec fn with_entry(self, key: i32, node: Node) -> BucketQueueView<Node> {
        if self.in_range(key as int) {
            BucketQueueView {
                keys: self.keys.insert(node, key),
                present: self.present.insert(node),
                buckets: self.buckets.update(
                    key - self.offset,
                    self.buckets[key - self.offset].push((key, node)),
                ),
                cursor: if key - self.offset > self.cursor {
                    key - self.offset
                } else {
                    self.cursor
                },
                ..self
            }
        } else {
            BucketQueueView { keys: self.keys.insert(node, key), ..self }
        }
    }
}

impl<Node> BucketQueueView<Node> {
    /// Every entry of bucket `i` carries the key `offset + i`.
    pub open spec fn keyed(self) -> bool {
        forall|i: int, j: int|
            0 <= i < self.buckets.len() && 0 <= j < self.buckets[i].len() ==> (
            #[trigger] self.buckets[i][j]).0 == self.offset + i
    }

    /// No bucket in `lo < i <= hi` holds a fresh entry.
    pub open spec fn none_fresh_between(self, lo: int, hi: int) -> bool {
        forall|i: int| lo < i <= hi ==> !(#[trigger] self.has_fresh(i))
    }

    /// The search from `hi` stops at the first bucket with a fresh entry,
    /// so none lies above it up to `hi`.
    pub proof fn lemma_top_from(self, hi: int)
        requires
            -1 <= hi < self.buckets.len(),
        ensures
            -1 <= self.top_from(hi) <= hi,
            self.top_from(hi) >= 0 ==> self.has_fresh(self.top_from(hi)),
            self.none_fresh_between(self.top_from(hi), hi),
        decreases hi + 1,
    {
        if hi >= 0 && !self.has_fresh(hi) {
            self.lemma_top_from(hi - 1);
        }
    }

    /// Buckets without a fresh entry between `lo` and `hi` do not change
    /// where the search stops.
    pub proof fn lemma_top_from_skips(self, lo: int, hi: int)
        requires
            -1 <= lo <= hi < self.buckets.len(),
            self.none_fresh_between(lo, hi),
        ensures
            self.top_from(hi) == self.top_from(lo),
        decreases hi - lo,
    {
        if hi > lo {
            assert(!self.has_fresh(hi));
            self.lemma_top_from_skips(lo, hi - 1);
        }
    }

    /// On a tidy queue the search for the maximum stops at the highest bucket
    /// that holds a fresh entry: `get_max` answers the largest key of a live
    /// entry and `popleft` takes an entry of that key. The queue stays tidy
    /// after the search.
    pub proof fn law_tidy_search_finds_top(self)
        requires
            self.tidy(),
            -1 <= self.cursor < self.buckets.len(),
        ensures
            self.top_from(self.cursor) == self.top(),
            self.refreshed().tidy(),
    {
        self.lemma_top_from_skips(self.cursor, self.buckets.len() - 1);
        self.lemma_top_from(self.cursor);
        let r = self.refreshed();
        assert forall|i: int| r.cursor < i < r.buckets.len() implies !(#[trigger] r.has_fresh(i)) by {
            if r.has_fresh(i) {
                let j = choose|j: int| 0 <= j < r.buckets[i].len() && #[trigger] r.is_fresh(r.buckets[i][j]);
                assert(self.is_fresh(self.buckets[i][j]));
                assert(self.has_fresh(i));
                if i <= self.cursor {
                    assert(self.none_fresh_between(r.cursor, self.cursor));
                }
            }
        }
    }

    /// Queueing an entry (`push`, `modify_key`) keeps a tidy queue tidy.
    pub proof fn law_with_entry_keeps_tidy(self, key: i32, node: Node)
        requires
            self.tidy(),
            self.keyed(),
            -1 <= self.cursor < self.buckets.len(),
        ensures
            self.with_entry(key, node).tidy(),
    {
        let w = self.with_entry(key, node);
        assert forall|i: int| w.cursor < i < w.buckets.len() implies !(#[trigger] w.has_fresh(i)) by {
            if w.has_fresh(i) {
                let j = choose|j: int| 0 <= j < w.buckets[i].len() && #[trigger] w.is_fresh(w.buckets[i][j]);
                let e = w.buckets[i][j];
                assert(w.buckets[i] == self.buckets[i]);
                assert(e.0 == self.offset + i);
                if e.1 == node {
                    assert(w.keys[node] == key);
                    if self.in_range(key as int) {
                        assert(key - self.offset <= w.cursor);
                    }
                    assert(false);
                } else {
                    assert(self.is_fresh(e));
                    assert(self.has_fresh(i));
                }
            }
        }
    }

    /// Every present node has its live entry queued.
    pub open spec fn synced(self) -> bool {
        forall|n: Node|
            #[trigger] self.present.contains(n) ==> exists|i: int, j: int|
                0 <= i < self.buckets.len() && 0 <= j < self.buckets[i].len() && self.buckets[i][j].1 == n
                    && #[trigger] self.is_fresh(self.buckets[i][j])
    }

    /// A bucket at or below `hi` that holds a fresh entry is found by the
    /// search from `hi`.
    pub proof fn lemma_top_from_reaches(self, hi: int, i: int)
        requires
            0 <= i <= hi < self.buckets.len(),
            self.has_fresh(i),
        ensures
            self.top_from(hi) >= i,
        decreases hi - i,
    {
        if hi > i && !self.has_fresh(hi) {
            self.lemma_top_from_reaches(hi - 1, i);
        }
    }

    /// Without a fresh entry at or below `hi` the search finds none.
    pub proof fn lemma_top_from_none(self, hi: int)
        requires
            -1 <= hi < self.buckets.len(),
            forall|i: int| 0 <= i <= hi ==> !(#[trigger] self.has_fresh(i)),
        ensures
            self.top_from(hi) == -1,
        decreases hi + 1,
    {
        if hi >= 0 {
            assert(!self.has_fresh(hi));
            self.lemma_top_from_none(hi - 1);
        }
    }

    /// On a tidy queue whose present nodes all have their entry queued, the
    /// queue is empty (`is_empty`) exactly when `popleft` finds nothing.
    pub proof fn law_empty_iff_nothing_to_pop(self)
        requires
            self.tidy(),
            self.synced(),
            -1 <= self.cursor < self.buckets.len(),
        ensures
            self.present.is_empty() <==> self.refreshed().cursor < 0,
    {
        self.law_tidy_search_finds_top();
        if self.present.is_empty() {
            assert forall|i: int| 0 <= i <= self.buckets.len() - 1 implies !(#[trigger] self.has_fresh(i)) by {
                if self.has_fresh(i) {
                    let j = choose|j: int| 0 <= j < self.buckets[i].len() && #[trigger] self.is_fresh(self.buckets[i][j]);
                    assert(self.present.contains(self.buckets[i][j].1));
                }
            }
            self.lemma_top_from_none(self.buckets.len() - 1);
        } else {
            let n = self.present.choose();
            assert(self.present.contains(n));
            let (i, j) = choose|i: int, j: int|
                0 <= i < self.buckets.len() && 0 <= j < self.buckets[i].len() && self.buckets[i][j].1 == n
                    && #[trigger] self.is_fresh(self.buckets[i][j]);
            assert(self.has_fresh(i));
            self.lemma_top_from_reaches(self.buckets.len() - 1, i);
        }
    }

    /// Queueing an entry keeps every present node's entry queued, unless a
    /// present node gets a key out of range (that entry is not queued).
    pub proof fn law_with_entry_keeps_synced(self, key: i32, node: Node)
        requires
            self.synced(),
            self.keyed(),
            self.in_range(key as int) || !self.present.contains(node),
        ensures
            self.with_entry(key, node).synced(),
    {
        let w = self.with_entry(key, node);
        assert forall|n: Node| #[trigger] w.present.contains(n) implies exists|i: int, j: int|
            0 <= i < w.buckets.len() && 0 <= j < w.buckets[i].len() && w.buckets[i][j].1 == n
                && #[trigger] w.is_fresh(w.buckets[i][j]) by {
            if n == node && self.in_range(key as int) {
                let b = key - self.offset;
                let k = self.buckets[b].len() as int;
                assert(w.buckets[b][k] == (key, node));
                assert(w.is_fresh(w.buckets[b][k]));
            } else {
                assert(self.present.contains(n));
                assert(n != node);
                let (i, j) = choose|i: int, j: int|
                    0 <= i < self.buckets.len() && 0 <= j < self.buckets[i].len() && self.buckets[i][j].1 == n
                        && #[trigger] self.is_fresh(self.buckets[i][j]);
                if self.in_range(key as int) && i == key - self.offset {
                    assert(w.buckets[i][j] == self.buckets[i][j]);
                } else {
                    assert(w.buckets[i] == self.buckets[i]);
                }
                assert(w.is_fresh(w.buckets[i][j]));
            }
        }
    }

    /// Popping an entry keeps a tidy queue tidy.
    pub proof fn law_after_pop_keeps_tidy(self)
        requires
            self.tidy(),
            -1 <= self.cursor < self.buckets.len(),
            self.refreshed().cursor >= 0,
        ensures
            self.after_pop().tidy(),
    {
        self.lemma_top_from(self.cursor);
        let t = self.top_from(self.cursor);
        let j = self.last_fresh(t);
        let x = BucketQueueView {
            buckets: self.buckets.update(t, self.buckets[t].take(j)),
            present: self.present.remove(self.buckets[t][j].1),
            cursor: t,
            ..self
        };
        assert forall|i: int| x.cursor < i < x.buckets.len() implies !(#[trigger] x.has_fresh(i)) by {
            if x.has_fresh(i) {
                let k = choose|k: int| 0 <= k < x.buckets[i].len() && #[trigger] x.is_fresh(x.buckets[i][k]);
                assert(x.buckets[i] == self.buckets[i]);
                assert(self.is_fresh(x.buckets[i][k]));
                assert(self.has_fresh(i));
            }
        }
        x.law_tidy_search_finds_top();
    }
}

/// A bounded priority queue with integer keys that supports O(1) operations.
///
/// Uses a bucket array where each bucket is a `Vec<(key, node)>`. The node's
/// last known key is kept in `node_key` and persists after the node is popped,
/// while `present` tracks whether the node currently has a live entry.
/// `locked` models the per-link lock bit.
///
/// Deletion is lazy: updating a key pushes a new entry and leaves the old one
/// stale; [`BucketQueue::popleft_with_key`] and `refresh_max` skip entries
/// that are not present or whose stored key no longer matches `node_key`.
#[verifier::reject_recursive_types(Node)]
pub struct BucketQueue<Node> {
    buckets: Vec<Vec<(i32, Node)>>,
    offset: i32,
    node_key: HashMap<Node, i32>,
    present: HashSet<Node>,
    locked: HashSet<Node>,
    current_max: i32,
    key_bound: u32,
}

impl<Node> View for BucketQueue<Node> {
    type V = BucketQueueView<Node>;

    closed spec fn view(&self) -> BucketQueueView<Node> {
        BucketQueueView {
            offset: self.offset as int,
            cursor: self.current_max - self.offset,
            buckets: self.buckets@.map_values(|b: Vec<(i32, Node)>| b@),
            keys: self.node_key@,
            present: self.present@,
            locked: self.locked@,
        }
    }
}

impl<Node: Copy + Eq + std::hash::Hash> BucketQueue<Node> {
    /// The queue's invariant.
    pub closed spec fn wf(&self) -> bool {
        &&& obeys_key_model::<Node>()
        &&& builds_valid_hashers::<std::collections::hash_map::RandomState>()
        &&& 1 <= self.buckets@.len() <= i32::MAX
        &&& i32::MIN < self.offset
        &&& self.offset + self.buckets@.len() - 1 <= i32::MAX
        &&& forall|i: int, j: int|
            0 <= i < self.buckets@.len() && 0 <= j < self.buckets@[i]@.len() ==> (
            #[trigger] self.buckets@[i]@[j]).0 == self.offset + i
        &&& self.offset - 1 <= self.current_max < self.offset + self.buckets@.len()
        &&& forall|n: Node|
            #[trigger] self.node_key@.contains_key(n) ==> -self.key_bound <= self.node_key@[n] <= self.key_bound
    }

    /// Facts about the abstract state that follow from the invariant.
    pub proof fn lemma_wf(&self)
        requires
            self.wf(),
        ensures
            1 <= self@.buckets.len() <= i32::MAX,
            i32::MIN < self@.offset,
            self@.offset + self@.buckets.len() - 1 <= i32::MAX,
            -1 <= self@.cursor < self@.buckets.len(),
            forall|i: int, j: int|
                0 <= i < self@.buckets.len() && 0 <= j < self@.buckets[i].len() ==> (
                #[trigger] self@.buckets[i][j]).0 == self@.offset + i,
    {
        assert forall|i: int, j: int|
            0 <= i < self@.buckets.len() && 0 <= j < self@.buckets[i].len() implies (
            #[trigger] self@.buckets[i][j]).0 == self@.offset + i by {
            assert(self@.buckets[i] == self.buckets@[i]@);
        }
    }

    /// A queue for the keys `pmin ..= pmax` (one bucket when the range is empty).
    pub fn new(pmin: i32, pmax: i32) -> (bq: Self)
        requires
            obeys_key_model::<Node>(),
            i32::MIN < pmin,
            i32::MIN <= pmax - pmin,
            pmax - pmin + 1 <= i32::MAX,
        ensures
            bq.wf(),
            bq@.offset == pmin,
            bq@.cursor == -1,
            bq@.buckets == Seq::new(
                (if pmax - pmin + 1 >= 1 {
                    pmax - pmin + 1
                } else {
                    1
                }) as nat,
                |i: int| Seq::<(i32, Node)>::empty(),
            ),
            bq@.keys == Map::<Node, i32>::empty(),
            bq@.present == Set::<Node>::empty(),
            bq@.locked == Set::<Node>::empty(),
            bq@.tidy(),
            bq@.synced(),
    {
        let span = pmax - pmin + 1;
        let size: usize = if span >= 1 {
            span as usize
        } else {
            1
        };
        let mut buckets: Vec<Vec<(i32, Node)>> = Vec::with_capacity(size);
        let mut i: usize = 0;
        while i < size
            invariant
                i <= size,
                buckets@.len() == i,
                forall|k: int| 0 <= k < i ==> (#[trigger] buckets@[k])@.len() == 0,
            decreases size - i,
        {
            buckets.push(Vec::new());
            i = i + 1;
        }
        let bq = BucketQueue {
            buckets,
            offset: pmin,
            node_key: HashMap::new(),
            present: HashSet::new(),
            locked: HashSet::new(),
            current_max: pmin - 1,
            key_bound: 0,
        };
        assert forall|k: int| 0 <= k < size implies bq@.buckets[k] == Seq::<(i32, Node)>::empty() by {
            assert(bq@.buckets[k] == bq.buckets@[k]@);
        }
        assert(bq@.buckets =~= Seq::new(size as nat, |i: int| Seq::<(i32, Node)>::empty()));
        assert forall|i: int| bq@.cursor < i < bq@.buckets.len() implies !(#[trigger] bq@.has_fresh(i)) by {
            assert(bq@.buckets[i].len() == 0);
        }
        bq
    }

    /// Whether no node is queued.
    pub fn is_empty(&self) -> (r: bool)
        requires
            self.wf(),
        ensures
            r == self@.present.is_empty(),
    {
        self.present.is_empty()
    }

    /// The largest key of a live entry (`offset - 1` when there is none).
    pub fn get_max(&mut self) -> (r: i32)
        requires
            old(self).wf(),
        ensures
            final(self).wf(),
            final(self)@ == old(self)@.refreshed(),
            r == old(self)@.max_key(),
    {
        self.refresh_max();
        self.current_max
    }

    /// Whether a live entry is queued; runs the search for the maximum.
    pub fn has_entry(&mut self) -> (r: bool)
        requires
            old(self).wf(),
        ensures
            final(self).wf(),
            final(self)@ == old(self)@.refreshed(),
            r == (old(self)@.refreshed().cursor >= 0),
    {
        self.refresh_max();
        self.current_max >= self.offset
    }

    /// The node's last known key (persists even when the node is not present).
    pub fn get_key(&self, node: &Node) -> (r: Option<i32>)
        requires
            self.wf(),
        ensures
            r == (if self@.keys.contains_key(*node) {
                Some(self@.keys[*node])
            } else {
                None::<i32>
            }),
    {
        match self.node_key.get(node) {
            Some(k) => Some(*k),
            None => None,
        }
    }

    /// Whether the node is locked in this queue.
    pub fn is_locked(&self, node: &Node) -> (r: bool)
        requires
            self.wf(),
        ensures
            r == self@.locked.contains(*node),
    {
        self.locked.contains(node)
    }

    fn bucket_index(&self, key: i32) -> (r: Option<usize>)
        requires
            self.wf(),
        ensures
            r == (if self@.in_range(key as int) {
                Some((key - self@.offset) as usize)
            } else {
                None::<usize>
            }),
    {
        let idx: i64 = key as i64 - self.offset as i64;
        if idx >= 0 && (idx as usize) < self.buckets.len() {
            Some(idx as usize)
        } else {
            None
        }
    }

    /// Queue the entry `(key, node)` when the key lies in range; a key out of
    /// range is not queued (the bucket array has no room for it).
    fn insert_raw(&mut self, key: i32, node: Node)
        requires
            old(self).wf(),
        ensures
            final(self).wf(),
            final(self)@ == (if old(self)@.in_range(key as int) {
                BucketQueueView {
                    present: old(self)@.present.insert(node),
                    buckets: old(self)@.buckets.update(
                        key - old(self)@.offset,
                        old(self)@.buckets[key - old(self)@.offset].push((key, node)),
                    ),
                    cursor: if key - old(self)@.offset > old(self)@.cursor {
                        key - old(self)@.offset
                    } else {
                        old(self)@.cursor
                    },
                    ..old(self)@
                }
            } else {
                old(self)@
            }),
    {
        if let Some(idx) = self.bucket_index(key) {
            self.present.insert(node);
            self.buckets[idx].push((key, node));
            if key > self.current_max {
                self.current_max = key;
            }
            proof {
                let v = self@;
                let o = old(self)@;
                assert(v.buckets =~= o.buckets.update(idx as int, o.buckets[idx as int].push((key, node))));
                assert forall|i: int, j: int|
                    0 <= i < self.buckets@.len() && 0 <= j < self.buckets@[i]@.len() implies (
                    #[trigger] self.buckets@[i]@[j]).0 == self.offset + i by {
                    if i != idx {
                        assert(self.buckets@[i] == old(self).buckets@[i]);
                    }
                }
            }
        }
    }

    /// Write the node's key and widen the recorded bound on the keys'
    /// magnitude to cover it.
    fn record_key(&mut self, node: Node, key: i32)
        requires
            old(self).wf(),
        ensures
            final(self).wf(),
            final(self)@ == (BucketQueueView { keys: old(self)@.keys.insert(node, key), ..old(self)@ }),
    {
        let a: u32 = if key < 0 {
            (-(key as i64)) as u32
        } else {
            key as u32
        };
        self.node_key.insert(node, key);
        if a > self.key_bound {
            self.key_bound = a;
        }
    }

    /// A bound on the magnitude of every key the queue knows.
    pub fn max_abs_key(&self) -> (r: u32)
        requires
            self.wf(),
        ensures
            forall|n: Node| #[trigger] self@.keys.contains_key(n) ==> -r <= self@.keys[n] <= r,
    {
        self.key_bound
    }

    /// Push a node with the given absolute key (used at initialization).
    pub fn push(&mut self, key: i32, node: Node)
        requires
            old(self).wf(),
        ensures
            final(self).wf(),
            final(self)@ == old(self)@.with_entry(key, node),
    {
        self.record_key(node, key);
        self.insert_raw(key, node);
    }

    /// ADD `delta` to the node's current key and re-insert it.
    ///
    /// No-op if the node is locked in this queue. If the node has no stored key
    /// yet, the base key is 0.
    pub fn modify_key(&mut self, delta: i32, node: Node)
        requires
            old(self).wf(),
            old(self)@.key_fits(delta as int, node),
        ensures
            final(self).wf(),
            final(self)@ == old(self)@.modified(delta, node),
    {
        if self.locked.contains(&node) {
            return;
        }
        let base = match self.node_key.get(&node) {
            Some(k) => *k,
            None => 0,
        };
        let new_key = base + delta;
        self.record_key(node, new_key);
        self.insert_raw(new_key, node);
    }

    /// Write the node's key **without** making it present or inserting it.
    ///
    /// The stored key is used as the base for a later [`BucketQueue::modify_key`].
    /// Writing back an older key can make a stale entry above the cursor
    /// live again, so the queue need not stay tidy.
    pub fn set_key(&mut self, key: i32, node: Node)
        requires
            old(self).wf(),
        ensures
            final(self).wf(),
            final(self)@ == (BucketQueueView { keys: old(self)@.keys.insert(node, key), ..old(self)@ }),
    {
        self.record_key(node, key);
    }

    /// Pop the node with the highest key, skipping stale entries.
    pub fn popleft(&mut self) -> (r: Option<Node>)
        requires
            old(self).wf(),
        ensures
            final(self).wf(),
            old(self)@.refreshed().cursor < 0 ==> r == None::<Node> && final(self)@ == old(
                self,
            )@.refreshed(),
            old(self)@.refreshed().cursor >= 0 ==> r == Some(old(self)@.popped_entry().1)
                && final(self)@ == old(self)@.after_pop(),
    {
        match self.popleft_with_key() {
            Some((node, _)) => Some(node),
            None => None,
        }
    }

    /// Pop the highest-key fresh entry, returning the node and its true key.
    ///
    /// The returned key is the gain that must be reported for the move: stale
    /// entries can leave `current_max` too high, so callers must not use a
    /// separately cached maximum as the gain.
    pub fn popleft_with_key(&mut self) -> (r: Option<(Node, i32)>)
        requires
            old(self).wf(),
        ensures
            final(self).wf(),
            old(self)@.refreshed().cursor < 0 ==> r == None::<(Node, i32)> && final(self)@ == old(
                self,
            )@.refreshed(),
            old(self)@.refreshed().cursor >= 0 ==> r == Some(
                (old(self)@.popped_entry().1, old(self)@.popped_entry().0),
            ) && final(self)@ == old(self)@.after_pop(),
    {
        self.refresh_max();
        let ghost s = self@;
        let ghost t = s.cursor;
        proof {
            lemma_refreshed_cursor(old(self)@);
            if t >= 0 {
                lemma_same_freshness(s, old(self)@, t);
                lemma_last_fresh(s, t);
            }
        }
        while self.current_max >= self.offset
            invariant
                self.wf(),
                self@ == s,
                s == old(self)@.refreshed(),
                s.cursor == t,
                t >= 0 ==> s.last_fresh(t) == old(self)@.last_fresh(t),
                t >= 0 ==> s.has_fresh(t) && 0 <= s.last_fresh(t) < s.buckets[t].len() && s.is_fresh(
                    s.buckets[t][s.last_fresh(t)],
                ),
            decreases self.current_max as int - self.offset as int + 1,
        {
            let idx = (self.current_max - self.offset) as usize;
            let ghost b = s.buckets[idx as int];
            let ghost jf = s.last_fresh(idx as int);
            proof {
                assert(s.buckets.update(idx as int, s.buckets[idx as int]) =~= s.buckets);
            }
            loop
                invariant_except_break
                    self.wf(),
                    idx < self.buckets@.len(),
                    idx < s.buckets.len(),
                    b == s.buckets[idx as int],
                    jf == s.last_fresh(idx as int),
                    s == old(self)@.refreshed(),
                    s.cursor == t,
                    s.last_fresh(t) == old(self)@.last_fresh(t),
                    self@ == (BucketQueueView {
                        buckets: s.buckets.update(idx as int, self@.buckets[idx as int]),
                        ..s
                    }),
                    idx == t,
                    0 <= jf < b.len(),
                    self@.buckets[idx as int].len() <= b.len(),
                    self@.buckets[idx as int] == b.take(self@.buckets[idx as int].len() as int),
                    jf < self@.buckets[idx as int].len(),
                    s.is_fresh(b[jf]),
                    s.last_fresh_before(b, self@.buckets[idx as int].len() as int) == jf,
                ensures
                    0 <= jf,
                    s.last_fresh_before(b, 0) == jf,
                decreases self@.buckets[idx as int].len(),
            {
                let ghost before = self.buckets@[idx as int]@;
                let ghost pre_vec = self.buckets@;
                proof {
                    assert(self@.buckets[idx as int] == self.buckets@[idx as int]@);
                    assert(before == b.take(before.len() as int));
                    assert(self@.buckets.len() == pre_vec.len());
                    assert(s.buckets.len() == pre_vec.len());
                    assert forall|i: int| 0 <= i < pre_vec.len() && i != idx implies s.buckets[i] == pre_vec[i]@ by {
                        assert(self@.buckets[i] == pre_vec[i]@);
                    }
                }
                let popped = self.buckets[idx].pop();
                proof {
                    assert(self@.buckets[idx as int] == self.buckets@[idx as int]@);
                    assert(self.buckets@.len() == pre_vec.len());
                    assert forall|i: int| 0 <= i < self.buckets@.len() && i != idx implies #[trigger] self@.buckets[i] == s.buckets[i] by {
                        assert(self.buckets@[i] == pre_vec[i]);
                        assert(self@.buckets[i] == self.buckets@[i]@);
                    }
                    assert(self@.buckets =~= s.buckets.update(idx as int, self@.buckets[idx as int]));
                    assert forall|i: int, j: int|
                        0 <= i < self.buckets@.len() && 0 <= j < self.buckets@[i]@.len() implies (
                        #[trigger] self.buckets@[i]@[j]).0 == self.offset + i by {
                        if i == idx {
                            assert(self.buckets@[i]@[j] == pre_vec[i]@[j]);
                        } else {
                            assert(self.buckets@[i] == pre_vec[i]);
                        }
                        assert((pre_vec[i]@[j]).0 == self.offset + i);
                    }
                }
                match popped {
                    Some((stored_key, node)) => {
                        let fresh = self.entry_is_fresh(stored_key, &node);
                        let ghost cur = self@.buckets[idx as int];
                        proof {
                            let len = self@.buckets[idx as int].len();
                            assert(before.len() == len + 1);
                            assert(self@.buckets[idx as int] == before.drop_last());
                            assert((stored_key, node) == before.last());
                            assert(before[len as int] == b[len as int]);
                            assert(before.drop_last() =~= b.take(len as int));
                            assert(self@.buckets[idx as int] =~= b.take(len as int));
                            assert((stored_key, node) == b[len as int]);
                            assert(s.is_fresh(b[len as int]) == fresh);
                        }
                        if fresh {
                            proof {
                                let len = cur.len();
                                assert(len == jf);
                                assert(cur =~= b.take(len as int));
                                assert(b == s.buckets[t]);
                                assert(cur =~= s.buckets[t].take(jf));
                                assert(self@.buckets =~= s.buckets.update(t, s.buckets[t].take(jf)));
                                assert((stored_key, node) == s.buckets[t][jf]);
                                assert(old(self)@.popped_entry() == s.buckets[t][jf]);
                            }
                            self.present.remove(&node);
                            self.refresh_max();
                            return Some((node, stored_key));
                        }
                        proof {
                            let len = self@.buckets[idx as int].len();
                            assert(s.last_fresh_before(b, len as int + 1) == s.last_fresh_before(b, len as int));
                        }
                    },
                    None => {
                        proof {
                            assert(self@.buckets[idx as int] == self.buckets@[idx as int]@);
                        }
                        break;
                    },
                }
            }
            proof {
                assert(s.last_fresh_before(b, 0) == -1);
            }
            self.current_max = self.current_max - 1;
        }
        None
    }

    /// Remove all entries, keys and locks.
    pub fn clear(&mut self)
        requires
            old(self).wf(),
        ensures
            final(self).wf(),
            final(self)@ == old(self)@.cleared(),
    {
        let n = self.buckets.len();
        let mut i: usize = 0;
        while i < n
            invariant
                self.wf(),
                n == self.buckets@.len(),
                i <= n,
                self.offset == old(self).offset,
                self.current_max == old(self).current_max,
                forall|k: int| 0 <= k < i ==> (#[trigger] self.buckets@[k])@.len() == 0,
            decreases n - i,
        {
            self.buckets[i].clear();
            proof {
                assert forall|i2: int, j: int|
                    0 <= i2 < self.buckets@.len() && 0 <= j < self.buckets@[i2]@.len() implies (
                    #[trigger] self.buckets@[i2]@[j]).0 == self.offset + i2 by {
                }
            }
            i = i + 1;
        }
        self.node_key.clear();
        self.key_bound = 0;
        self.present.clear();
        self.locked.clear();
        self.current_max = self.offset - 1;
        proof {
            assert forall|k: int| 0 <= k < n implies self@.buckets[k] == Seq::<(i32, Node)>::empty() by {
                assert(self@.buckets[k] == self.buckets@[k]@);
            }
            assert(self@.buckets =~= Seq::new(n as nat, |i: int| Seq::<(i32, Node)>::empty()));
        }
    }

    /// The node no longer counts as queued (its entries become stale).
    pub fn remove_node(&mut self, node: &Node)
        requires
            old(self).wf(),
        ensures
            final(self).wf(),
            final(self)@ == (BucketQueueView { present: old(self)@.present.remove(*node), ..old(self)@ }),
    {
        self.present.remove(node);
    }

    /// Lock the node: it is no longer queued and later key updates skip it.
    pub fn lock(&mut self, node: &Node)
        requires
            old(self).wf(),
        ensures
            final(self).wf(),
            final(self)@ == (BucketQueueView {
                present: old(self)@.present.remove(*node),
                locked: old(self)@.locked.insert(*node),
                ..old(self)@
            }),
    {
        self.present.remove(node);
        self.locked.insert(*node);
    }

    /// Whether `(key, node)` is a fresh entry.
    fn entry_is_fresh(&self, key: i32, node: &Node) -> (r: bool)
        requires
            self.wf(),
        ensures
            r == self@.is_fresh((key, *node)),
    {
        self.present.contains(node) && match self.node_key.get(node) {
            Some(k) => *k == key,
            None => false,
        }
    }

    /// Whether bucket `idx` holds a fresh entry.
    fn bucket_has_fresh(&self, idx: usize) -> (r: bool)
        requires
            self.wf(),
            idx < self@.buckets.len(),
        ensures
            r == self@.has_fresh(idx as int),
    {
        let ghost v = self@;
        assert(v.buckets[idx as int] == self.buckets@[idx as int]@);
        let bucket = &self.buckets[idx];
        let mut j: usize = 0;
        while j < bucket.len()
            invariant
                self.wf(),
                v == self@,
                bucket@ == v.buckets[idx as int],
                j <= bucket@.len(),
                forall|k: int| 0 <= k < j ==> !v.is_fresh(#[trigger] v.buckets[idx as int][k]),
            decreases bucket@.len() - j,
        {
            let (key, node) = bucket[j];
            if self.entry_is_fresh(key, &node) {
                assert(v.is_fresh(v.buckets[idx as int][j as int]));
                return true;
            }
            j = j + 1;
        }
        false
    }

    /// Move `current_max` down to the highest bucket at or below it with a
    /// fresh entry.
    fn refresh_max(&mut self)
        requires
            old(self).wf(),
        ensures
            final(self).wf(),
            final(self)@ == old(self)@.refreshed(),
            final(self).current_max == old(self)@.max_key(),
    {
        while self.current_max >= self.offset
            invariant
                self.wf(),
                self@ == (BucketQueueView { cursor: self@.cursor, ..old(self)@ }),
                old(self)@.cursor >= self@.cursor,
                forall|k: int| self@.cursor < k <= old(self)@.cursor ==> !(#[trigger] old(self)@.has_fresh(k)),
            decreases self.current_max as int - self.offset as int + 1,
        {
            let idx = (self.current_max - self.offset) as usize;
            let fresh = if idx < self.buckets.len() {
                self.bucket_has_fresh(idx)
            } else {
                false
            };
            proof {
                lemma_same_freshness(self@, old(self)@, idx as int);
            }
            if fresh {
                proof {
                    lemma_top_from(old(self)@, old(self)@.cursor, idx as int);
                }
                return;
            }
            self.current_max = self.current_max - 1;
        }
        proof {
            lemma_top_from(old(self)@, old(self)@.cursor, -1);
        }
    }
}

/// Freshness depends only on the buckets, keys and presence.
pub proof fn lemma_same_freshness<Node>(v: BucketQueueView<Node>, w: BucketQueueView<Node>, i: int)
    requires
        v.buckets == w.buckets,
        v.keys == w.keys,
        v.present == w.present,
    ensures
        v.has_fresh(i) == w.has_fresh(i),
        v.last_fresh(i) == w.last_fresh(i),
{
    if v.has_fresh(i) {
        let j = choose|j: int| 0 <= j < v.buckets[i].len() && #[trigger] v.is_fresh(v.buckets[i][j]);
        assert(w.is_fresh(w.buckets[i][j]));
    }
    if w.has_fresh(i) {
        let j = choose|j: int| 0 <= j < w.buckets[i].len() && #[trigger] w.is_fresh(w.buckets[i][j]);
        assert(v.is_fresh(v.buckets[i][j]));
    }
    lemma_same_last_fresh(v, w, v.buckets[i], v.buckets[i].len() as int);
}

/// The last fresh position depends only on the keys and presence.
pub proof fn lemma_same_last_fresh<Node>(
    v: BucketQueueView<Node>,
    w: BucketQueueView<Node>,
    b: Seq<(i32, Node)>,
    j: int,
)
    requires
        v.keys == w.keys,
        v.present == w.present,
    ensures
        v.last_fresh_before(b, j) == w.last_fresh_before(b, j),
    decreases j,
{
    if j > 0 {
        lemma_same_last_fresh(v, w, b, j - 1);
    }
}

/// Every queued entry of the queue names a node below `n`.
pub open spec fn nodes_below(v: BucketQueueView<usize>, n: int) -> bool {
    forall|i: int, j: int|
        0 <= i < v.buckets.len() && 0 <= j < v.buckets[i].len() ==> (#[trigger] v.buckets[i][j]).1 < n
}

/// Per-neighbour gain delta emitted by a [`GainCalcTrait`] update method.
///
/// Binary FM uses a single scalar: the delta is applied to the bucket of the
/// opposite partition (`1 - part_w`). K-way FM emits one entry per target
/// partition: `deltas[k]` is applied to bucket `k` for every `k != part_w`.
#[derive(Debug, Clone, PartialEq, Eq)]
pub enum GainDelta {
    /// Binary FM: a scalar delta applied to bucket `1 - part_w`.
    Scalar(i32),
    /// K-way FM: per-partition deltas, `deltas[k]` applied to bucket `k`.
    PerPart(Vec<i32>),
}

/// The delta a [`GainDelta`] holds for bucket `k` (a scalar holds the same
/// delta for every bucket; a missing per-part entry is 0).
pub open spec fn delta_for(d: GainDelta, k: int) -> int {
    match d {
        GainDelta::Scalar(x) => x as int,
        GainDelta::PerPart(v) => if 0 <= k < v@.len() {
            v@[k] as int
        } else {
            0
        },
    }
}

/// Every delta a [`GainDelta`] holds lies within `-b ..= b`.
pub open spec fn delta_bounded(d: GainDelta, b: int) -> bool {
    match d {
        GainDelta::Scalar(x) => -b <= x <= b,
        GainDelta::PerPart(v) => forall|k: int| 0 <= k < v@.len() ==> -b <= #[trigger] v@[k] <= b,
    }
}

/// Two hypergraphs that agree in every respect the algorithms read.
pub open spec fn same_graph<G: Hypergraph>(a: &G, b: &G) -> bool {
    &&& a.spec_num_modules() == b.spec_num_modules()
    &&& a.spec_num_nodes() == b.spec_num_nodes()
    &&& a.spec_max_degree() == b.spec_max_degree()
    &&& forall|x: usize| #[trigger] a.spec_neighbors(x) == b.spec_neighbors(x)
    &&& forall|x: usize| #[trigger] a.spec_net_weight(x) == b.spec_net_weight(x)
    &&& forall|x: usize| #[trigger] a.spec_module_weight(x) == b.spec_module_weight(x)
}

/// Trait for gain calculators to be used with FMGainMgr.
///
/// Each calculator states what its methods do through the relations
/// `*_post` between the state before a call, the state after it, the
/// arguments and the result.
pub trait GainCalcTrait<Gnl: Hypergraph>: Sized {
    /// The calculator's invariant.
    spec fn calc_wf(&self) -> bool;

    /// The hypergraph the calculator reads.
    spec fn calc_graph(&self) -> Gnl;

    /// The number of parts the calculator handles.
    spec fn calc_num_parts(&self) -> nat;

    /// The pins collected by the last `init_idx_vec`.
    spec fn spec_idx_vec(&self) -> Seq<usize>;

    /// The moved vertex's per-part gain deltas (empty for binary FM).
    spec fn spec_delta_gain_v(&self) -> Seq<i32>;

    /// The moved vertex's deltas are ready for the updates of a move and lie
    /// within `-lim ..= lim`.
    spec fn dv_within(&self, lim: int) -> bool;

    /// A wider bound holds where a narrower one does.
    proof fn lemma_dv_within_mono(&self, a: int, b: int)
        requires
            a <= b,
            self.dv_within(a),
        ensures
            self.dv_within(b),
    ;

    /// Queueing the initial gains leaves every bucket's locked nodes as they
    /// were.
    proof fn lemma_populate_locks(
        self,
        part: Seq<u8>,
        modules: Seq<usize>,
        old_b: Seq<BucketQueueView<usize>>,
        new_b: Seq<BucketQueueView<usize>>,
    )
        requires
            self.populate_post(part, modules, old_b, new_b),
        ensures
            new_b.len() == old_b.len(),
            forall|k: int| 0 <= k < old_b.len() ==> (#[trigger] new_b[k]).locked == old_b[k].locked,
    ;

    /// Under the bound, every delta of the moved vertex lies within it.
    proof fn lemma_dv_within_bound(&self, lim: int)
        requires
            self.dv_within(lim),
        ensures
            forall|k: int|
                0 <= k < self.spec_delta_gain_v().len() ==> -lim <= #[trigger] self.spec_delta_gain_v()[k]
                    <= lim,
    ;

    /// What `init` does.
    spec fn init_post(self, new: Self, part: Seq<u8>, cost: i32) -> bool;

    /// What `update_move_init` does.
    spec fn update_move_init_post(self, new: Self) -> bool;

    /// What `init_idx_vec` does.
    spec fn init_idx_vec_post(self, new: Self, v: usize, net: usize) -> bool;

    /// What `update_move_2pin_net` does.
    spec fn update_2pin_post(
        self,
        new: Self,
        part: Seq<u8>,
        mi: MoveInfo<usize>,
        r: (usize, GainDelta),
    ) -> bool;

    /// What `update_move_3pin_net` does.
    spec fn update_3pin_post(self, new: Self, part: Seq<u8>, mi: MoveInfo<usize>, r: Seq<GainDelta>) -> bool;

    /// What `update_move_general_net` does.
    spec fn update_general_post(
        self,
        new: Self,
        part: Seq<u8>,
        mi: MoveInfo<usize>,
        r: Seq<GainDelta>,
    ) -> bool;

    /// What `populate_buckets` does to the buckets.
    spec fn populate_post(
        self,
        part: Seq<u8>,
        modules: Seq<usize>,
        old_b: Seq<BucketQueueView<usize>>,
        new_b: Seq<BucketQueueView<usize>>,
    ) -> bool;

    /// Compute the initial gains of `part`; returns the cut cost.
    fn init(&mut self, part: &[u8]) -> (r: i32)
        requires
            old(self).calc_wf(),
            part@.len() == old(self).calc_graph().spec_num_modules(),
            valid_part(part@, old(self).calc_num_parts() as int),
            weights_fit(&old(self).calc_graph()),
        ensures
            final(self).calc_wf(),
            final(self).calc_graph() == old(self).calc_graph(),
            final(self).calc_num_parts() == old(self).calc_num_parts(),
            old(self).init_post(*final(self), part@, r),
    ;

    /// Prepare for the updates of one move.
    fn update_move_init(&mut self)
        requires
            old(self).calc_wf(),
        ensures
            final(self).calc_wf(),
            final(self).calc_graph() == old(self).calc_graph(),
            final(self).calc_num_parts() == old(self).calc_num_parts(),
            final(self).spec_idx_vec() == old(self).spec_idx_vec(),
            forall|k: int|
                0 <= k < final(self).spec_delta_gain_v().len() ==> #[trigger] final(self).spec_delta_gain_v()[k] == 0,
            final(self).dv_within(0),
            old(self).update_move_init_post(*final(self)),
    ;

    /// Collect the pins of `net` other than `v`.
    fn init_idx_vec(&mut self, v: usize, net: usize)
        requires
            old(self).calc_wf(),
            net < old(self).calc_graph().spec_num_nodes(),
            old(self).calc_graph().spec_neighbors(net).len() >= 1,
        ensures
            final(self).calc_wf(),
            final(self).calc_graph() == old(self).calc_graph(),
            final(self).calc_num_parts() == old(self).calc_num_parts(),
            final(self).spec_delta_gain_v() == old(self).spec_delta_gain_v(),
            forall|l: int| #[trigger] old(self).dv_within(l) ==> final(self).dv_within(l),
            final(self).spec_idx_vec() == pins_except(
                old(self).calc_graph().spec_neighbors(net),
                v,
                old(self).calc_graph().spec_neighbors(net).len() as int,
            ),
            old(self).init_idx_vec_post(*final(self), v, net),
    ;

    /// The pins collected by the last `init_idx_vec`.
    fn idx_vec(&self) -> (r: &Vec<usize>)
        ensures
            r@ == self.spec_idx_vec(),
    ;

    /// 2-pin update: returns the other endpoint and its gain delta.
    fn update_move_2pin_net(&mut self, part: &[u8], move_info: &MoveInfo<usize>) -> (r: (usize, GainDelta))
        requires
            old(self).calc_wf(),
            old(self).calc_graph().spec_num_modules() <= move_info.net < old(self).calc_graph().spec_num_nodes(),
            old(self).calc_graph().spec_neighbors(move_info.net).len() == 2,
            part@.len() == old(self).calc_graph().spec_num_modules(),
            valid_part(part@, old(self).calc_num_parts() as int),
            move_info.from_part < old(self).calc_num_parts(),
            move_info.to_part < old(self).calc_num_parts(),
            weights_fit(&old(self).calc_graph()),
            old(self).dv_within(i32::MAX - 2 * old(self).calc_graph().spec_net_weight(move_info.net)),
        ensures
            final(self).calc_wf(),
            final(self).calc_graph() == old(self).calc_graph(),
            final(self).calc_num_parts() == old(self).calc_num_parts(),
            final(self).spec_idx_vec() == old(self).spec_idx_vec(),
            forall|l: int|
                #[trigger] old(self).dv_within(l) ==> final(self).dv_within(
                    l + 2 * old(self).calc_graph().spec_net_weight(move_info.net),
                ),
            r.0 < old(self).calc_graph().spec_num_modules(),
            delta_bounded(r.1, 2 * old(self).calc_graph().spec_net_weight(move_info.net)),
            r.1 is Scalar ==> old(self).calc_num_parts() == 2,
            old(self).update_2pin_post(*final(self), part@, *move_info, r),
    ;

    /// 3-pin update: one gain delta per remaining endpoint (aligned with `idx_vec`).
    fn update_move_3pin_net(&mut self, part: &[u8], move_info: &MoveInfo<usize>) -> (r: Vec<GainDelta>)
        requires
            old(self).calc_wf(),
            old(self).spec_idx_vec().len() == 2,
            forall|i: int|
                0 <= i < old(self).spec_idx_vec().len() ==> (#[trigger] old(self).spec_idx_vec()[i])
                    < part@.len(),
            part@.len() == old(self).calc_graph().spec_num_modules(),
            valid_part(part@, old(self).calc_num_parts() as int),
            move_info.from_part < old(self).calc_num_parts(),
            move_info.to_part < old(self).calc_num_parts(),
            weights_fit(&old(self).calc_graph()),
            old(self).calc_graph().spec_num_modules() <= move_info.net < old(self).calc_graph().spec_num_nodes(),
            old(self).dv_within(i32::MAX - 2 * old(self).calc_graph().spec_net_weight(move_info.net)),
        ensures
            final(self).calc_wf(),
            final(self).calc_graph() == old(self).calc_graph(),
            final(self).calc_num_parts() == old(self).calc_num_parts(),
            final(self).spec_idx_vec() == old(self).spec_idx_vec(),
            forall|l: int|
                #[trigger] old(self).dv_within(l) ==> final(self).dv_within(
                    l + 2 * old(self).calc_graph().spec_net_weight(move_info.net),
                ),
            forall|i: int|
                0 <= i < r@.len() ==> delta_bounded(
                    #[trigger] r@[i],
                    2 * old(self).calc_graph().spec_net_weight(move_info.net),
                ) && (r@[i] is Scalar ==> old(self).calc_num_parts() == 2),
            old(self).update_3pin_post(*final(self), part@, *move_info, r@),
    ;

    /// General-net update: one gain delta per remaining endpoint.
    fn update_move_general_net(&mut self, part: &[u8], move_info: &MoveInfo<usize>) -> (r: Vec<GainDelta>)
        requires
            old(self).calc_wf(),
            forall|i: int|
                0 <= i < old(self).spec_idx_vec().len() ==> (#[trigger] old(self).spec_idx_vec()[i])
                    < part@.len(),
            part@.len() == old(self).calc_graph().spec_num_modules(),
            valid_part(part@, old(self).calc_num_parts() as int),
            move_info.from_part < old(self).calc_num_parts(),
            move_info.to_part < old(self).calc_num_parts(),
            weights_fit(&old(self).calc_graph()),
            old(self).calc_graph().spec_num_modules() <= move_info.net < old(self).calc_graph().spec_num_nodes(),
            old(self).dv_within(i32::MAX - 2 * old(self).calc_graph().spec_net_weight(move_info.net)),
        ensures
            final(self).calc_wf(),
            final(self).calc_graph() == old(self).calc_graph(),
            final(self).calc_num_parts() == old(self).calc_num_parts(),
            final(self).spec_idx_vec() == old(self).spec_idx_vec(),
            forall|l: int|
                #[trigger] old(self).dv_within(l) ==> final(self).dv_within(
                    l + 2 * old(self).calc_graph().spec_net_weight(move_info.net),
                ),
            forall|i: int|
                0 <= i < r@.len() ==> delta_bounded(
                    #[trigger] r@[i],
                    2 * old(self).calc_graph().spec_net_weight(move_info.net),
                ) && (r@[i] is Scalar ==> old(self).calc_num_parts() == 2),
            old(self).update_general_post(*final(self), part@, *move_info, r@),
    ;

    /// K-way per-part deltas for the moved vertex; empty for binary FM.
    fn delta_gain_v(&self) -> (r: Vec<i32>)
        ensures
            r@ == self.spec_delta_gain_v(),
    ;

    /// Populate gain buckets from initial gain values after init().
    fn populate_buckets(&self, part: &[u8], modules: &[usize], gain_bucket: &mut Vec<BucketQueue<usize>>)
        requires
            self.calc_wf(),
            part@.len() == self.calc_graph().spec_num_modules(),
            valid_part(part@, self.calc_num_parts() as int),
            modules@.len() == self.calc_graph().spec_num_modules(),
            forall|i: int| 0 <= i < modules@.len() ==> modules@[i] == i,
            forall|k: int| 0 <= k < old(gain_bucket)@.len() ==> (#[trigger] old(gain_bucket)@[k]).wf(),
            forall|k: int|
                0 <= k < old(gain_bucket)@.len() ==> nodes_below(
                    (#[trigger] old(gain_bucket)@[k])@,
                    self.calc_graph().spec_num_modules() as int,
                ),
        ensures
            final(gain_bucket)@.len() == old(gain_bucket)@.len(),
            forall|k: int| 0 <= k < final(gain_bucket)@.len() ==> (#[trigger] final(gain_bucket)@[k]).wf(),
            forall|k: int|
                0 <= k < final(gain_bucket)@.len() ==> nodes_below(
                    (#[trigger] final(gain_bucket)@[k])@,
                    self.calc_graph().spec_num_modules() as int,
                ),
            self.populate_post(
                part@,
                modules@,
                old(gain_bucket)@.map_values(|b: BucketQueue<usize>| b@),
                final(gain_bucket)@.map_values(|b: BucketQueue<usize>| b@),
            ),
    ;
}

/// Fiduccia-Mattheyses Gain Manager
///
/// Base class for managing gain calculation and bucket structure: one
/// bucket queue per part, keyed by the gain of moving a module there.
pub struct FMGainMgr<Gnl: Hypergraph, GainCalc> {
    pub gain_calc: GainCalc,
    pub waiting_list: Vec<usize>,
    pub hyprgraph: Gnl,
    pub gain_bucket: Vec<BucketQueue<usize>>,
    pub num_parts: u8,
    pub nbrs_buf: Vec<usize>,
}

/// The bucket views after adding the gain delta `delta` for a neighbour `w`
/// currently in `part_w`: a scalar goes to bucket `1 - part_w`, a per-part
/// delta `deltas[k]` to every bucket `k != part_w` (zero deltas are skipped).
pub open spec fn apply_delta(
    bqs: Seq<BucketQueueView<usize>>,
    num_parts: int,
    w: usize,
    part_w: u8,
    delta: GainDelta,
) -> Seq<BucketQueueView<usize>> {
    match delta {
        GainDelta::Scalar(d) => if d != 0 {
            let dest = 1 - part_w as int;
            bqs.update(dest, bqs[dest].modified(d, w))
        } else {
            bqs
        },
        GainDelta::PerPart(ds) => Seq::new(
            bqs.len(),
            |k: int|
                if k < num_parts && k != part_w && k < ds@.len() && ds@[k] != 0 {
                    bqs[k].modified(ds@[k], w)
                } else {
                    bqs[k]
                },
        ),
    }
}

/// No node that the queue holds is locked in it.
pub open spec fn bucket_ok(b: BucketQueueView<usize>) -> bool {
    forall|x: usize| #[trigger] b.present.contains(x) ==> !b.locked.contains(x)
}

/// `b` has the buckets of `a` with the same locked nodes, and each bucket of
/// `b` holds no locked node where that bucket of `a` held none.
pub open spec fn locks_kept(a: Seq<BucketQueueView<usize>>, b: Seq<BucketQueueView<usize>>) -> bool {
    &&& b.len() == a.len()
    &&& forall|k: int| 0 <= k < a.len() ==> (#[trigger] b[k]).locked == a[k].locked
    &&& forall|k: int| 0 <= k < a.len() && bucket_ok(a[k]) ==> #[trigger] bucket_ok(b[k])
}

/// Keeping the locks is transitive.
pub proof fn lemma_locks_kept_trans(
    a: Seq<BucketQueueView<usize>>,
    b: Seq<BucketQueueView<usize>>,
    c: Seq<BucketQueueView<usize>>,
)
    requires
        locks_kept(a, b),
        locks_kept(b, c),
    ensures
        locks_kept(a, c),
{
    assert forall|k: int| 0 <= k < a.len() && bucket_ok(a[k]) implies #[trigger] bucket_ok(c[k]) by {
        assert(bucket_ok(b[k]));
    }
}

/// A key update leaves the locks, and queues no locked node.
pub proof fn lemma_modified_locks(b: BucketQueueView<usize>, d: i32, w: usize)
    ensures
        b.modified(d, w).locked == b.locked,
        bucket_ok(b) ==> bucket_ok(b.modified(d, w)),
{
    if bucket_ok(b) {
        let m = b.modified(d, w);
        assert forall|x: usize| #[trigger] m.present.contains(x) implies !m.locked.contains(x) by {
            if x != w {
                assert(b.present.contains(x));
            }
        }
    }
}

/// Applying a gain delta that fits keeps the locks.
pub proof fn lemma_apply_delta_locks(
    bqs: Seq<BucketQueueView<usize>>,
    num_parts: int,
    w: usize,
    part_w: u8,
    delta: GainDelta,
)
    requires
        delta_fits(bqs, num_parts, w, part_w, delta),
    ensures
        locks_kept(bqs, apply_delta(bqs, num_parts, w, part_w, delta)),
{
    let r = apply_delta(bqs, num_parts, w, part_w, delta);
    match delta {
        GainDelta::Scalar(d) => {
            if d != 0 {
                let dest = 1 - part_w as int;
                lemma_modified_locks(bqs[dest], d, w);
                assert forall|k: int| 0 <= k < bqs.len() && bucket_ok(bqs[k]) implies #[trigger] bucket_ok(r[k]) by {
                    if k != dest {
                        assert(r[k] == bqs[k]);
                    }
                }
            }
        },
        GainDelta::PerPart(ds) => {
            assert forall|k: int| 0 <= k < bqs.len() implies (#[trigger] r[k]).locked == bqs[k].locked && (bucket_ok(
                bqs[k],
            ) ==> bucket_ok(r[k])) by {
                if k < num_parts && k != part_w && k < ds@.len() && ds@[k] != 0 {
                    lemma_modified_locks(bqs[k], ds@[k], w);
                }
            }
        },
    }
}

/// Adding `delta` for `w` in `part_w` keeps every touched key in `i32`, and a
/// scalar delta names a bucket that exists.
pub open spec fn delta_fits(
    bqs: Seq<BucketQueueView<usize>>,
    num_parts: int,
    w: usize,
    part_w: u8,
    delta: GainDelta,
) -> bool {
    match delta {
        GainDelta::Scalar(d) => d != 0 ==> {
            &&& part_w <= 1
            &&& 1 - part_w < bqs.len()
            &&& bqs[1 - part_w as int].key_fits(d as int, w)
        },
        GainDelta::PerPart(ds) => forall|k: int|
            0 <= k < num_parts && k != part_w && k < ds@.len() && ds@[k] != 0 ==> (
            #[trigger] bqs[k]).key_fits(ds@[k] as int, w),
    }
}

/// The first bucket among `0 .. n` whose maximum key is the largest.
pub open spec fn best_bucket(bqs: Seq<BucketQueueView<usize>>, n: int) -> int
    decreases n,
{
    if n <= 1 {
        0
    } else {
        let prev = best_bucket(bqs, n - 1);
        if bqs[n - 1].max_key() > bqs[prev].max_key() {
            n - 1
        } else {
            prev
        }
    }
}

/// The gain reported by `select` when no bucket has an entry.
pub open spec fn sentinel_gain() -> i32 {
    (-i32::MAX + 1) as i32
}

/// The bucket key range for `num_parts` parts and maximum degree `max_deg`:
/// `-range ..= range` with `range = (num_parts - 1) * max_deg`.
pub open spec fn bucket_range(num_parts: int, max_deg: int) -> int {
    (num_parts - 1) * max_deg
}

/// The entry that `popleft` takes lies in the queue, so it names a node
/// below any bound the queue's nodes respect.
pub proof fn lemma_popped_entry_below(v: BucketQueueView<usize>, n: int)
    requires
        nodes_below(v, n),
        -1 <= v.cursor < v.buckets.len(),
        v.refreshed().cursor >= 0,
    ensures
        v.popped_entry().1 < n,
        v.top_from(v.cursor) < v.buckets.len(),
        0 <= v.last_fresh(v.top_from(v.cursor)) < v.buckets[v.top_from(v.cursor)].len(),
{
    lemma_top_from_props(v, v.cursor);
    let t = v.top_from(v.cursor);
    lemma_last_fresh(v, t);
}

/// Searching again from where a search stopped changes nothing.
pub proof fn lemma_refreshed_idempotent<Node>(v: BucketQueueView<Node>)
    requires
        -1 <= v.cursor,
    ensures
        v.refreshed().refreshed() == v.refreshed(),
        v.refreshed().max_key() == v.max_key(),
{
    lemma_top_from_props(v, v.cursor);
    let t = v.top_from(v.cursor);
    lemma_same_freshness(v, v.refreshed(), t);
}

impl<Gnl: Hypergraph, GainCalc: GainCalcTrait<Gnl>> FMGainMgr<Gnl, GainCalc> {
    /// The abstract states of the buckets, one per part.
    pub open spec fn buckets(&self) -> Seq<BucketQueueView<usize>> {
        self.gain_bucket@.map_values(|b: BucketQueue<usize>| b@)
    }

    /// The manager's invariant.
    pub open spec fn wf(&self) -> bool {
        &&& self.hyprgraph.wf()
        &&& is_netlist(&self.hyprgraph)
        &&& self.gain_calc.calc_wf()
        &&& same_graph(&self.gain_calc.calc_graph(), &self.hyprgraph)
        &&& self.gain_calc.calc_num_parts() == self.num_parts as nat
        &&& self.gain_bucket@.len() == self.num_parts
        &&& forall|k: int| 0 <= k < self.gain_bucket@.len() ==> (#[trigger] self.gain_bucket@[k]).wf()
        &&& forall|k: int|
            0 <= k < self.gain_bucket@.len() ==> nodes_below(
                (#[trigger] self.gain_bucket@[k])@,
                self.hyprgraph.spec_num_modules() as int,
            )
    }

    /// A manager with one empty bucket queue per part, keyed from `-range`
    /// to `range` where `range = (num_parts - 1) * max_degree`.
    pub fn new(hyprgraph: Gnl, gain_calc: GainCalc, num_parts: u8) -> (r: Self)
        requires
            hyprgraph.wf(),
            is_netlist(&hyprgraph),
            gain_calc.calc_wf(),
            same_graph(&gain_calc.calc_graph(), &hyprgraph),
            gain_calc.calc_num_parts() == num_parts as nat,
            hyprgraph.spec_max_degree() <= i32::MAX,
            2 * hyprgraph.spec_max_degree() <= i32::MAX,
            -(i32::MAX - 1) / 2 <= bucket_range(num_parts as int, hyprgraph.spec_max_degree() as int)
                <= (i32::MAX - 1) / 2,
        ensures
            r.wf(),
            r.gain_calc == gain_calc,
            r.hyprgraph == hyprgraph,
            r.num_parts == num_parts,
            r.waiting_list@ == Seq::<usize>::empty(),
            r.nbrs_buf@ == Seq::<usize>::empty(),
            r.buckets().len() == num_parts,
            forall|k: int|
                0 <= k < num_parts ==> {
                    let range = bucket_range(num_parts as int, hyprgraph.spec_max_degree() as int);
                    &&& (#[trigger] r.buckets()[k]).offset == -range
                    &&& r.buckets()[k].cursor == -1
                    &&& r.buckets()[k].buckets == Seq::new(
                        (if 2 * range + 1 >= 1 {
                            2 * range + 1
                        } else {
                            1
                        }) as nat,
                        |i: int| Seq::<(i32, usize)>::empty(),
                    )
                    &&& r.buckets()[k].keys == Map::<usize, i32>::empty()
                    &&& r.buckets()[k].present == Set::<usize>::empty()
                    &&& r.buckets()[k].locked == Set::<usize>::empty()
                },
    {
        let max_deg = hyprgraph.get_max_degree() as i32;
        let range = (num_parts as i32 - 1) * max_deg;
        let mut gain_bucket: Vec<BucketQueue<usize>> = Vec::with_capacity(num_parts as usize);
        let mut i: u8 = 0;
        while i < num_parts
            invariant
                i <= num_parts,
                gain_bucket@.len() == i,
                range == bucket_range(num_parts as int, hyprgraph.spec_max_degree() as int),
                -(i32::MAX - 1) / 2 <= range <= (i32::MAX - 1) / 2,
                forall|k: int| 0 <= k < i ==> (#[trigger] gain_bucket@[k]).wf(),
                forall|k: int|
                    0 <= k < i ==> {
                        &&& (#[trigger] gain_bucket@[k])@.offset == -range
                        &&& gain_bucket@[k]@.cursor == -1
                        &&& gain_bucket@[k]@.buckets == Seq::new(
                            (if 2 * range + 1 >= 1 {
                                2 * range + 1
                            } else {
                                1
                            }) as nat,
                            |i: int| Seq::<(i32, usize)>::empty(),
                        )
                        &&& gain_bucket@[k]@.keys == Map::<usize, i32>::empty()
                        &&& gain_bucket@[k]@.present == Set::<usize>::empty()
                        &&& gain_bucket@[k]@.locked == Set::<usize>::empty()
                    },
            decreases num_parts - i,
        {
            gain_bucket.push(BucketQueue::new(-range, range));
            i = i + 1;
        }
        let r = FMGainMgr {
            gain_calc,
            waiting_list: Vec::new(),
            hyprgraph,
            gain_bucket,
            num_parts,
            nbrs_buf: Vec::new(),
        };
        proof {
            assert forall|k: int| 0 <= k < r.gain_bucket@.len() implies nodes_below(
                (#[trigger] r.gain_bucket@[k])@,
                r.hyprgraph.spec_num_modules() as int,
            ) by {
                let v = r.gain_bucket@[k]@;
                assert forall|i: int, j: int|
                    0 <= i < v.buckets.len() && 0 <= j < v.buckets[i].len() implies (
                    #[trigger] v.buckets[i][j]).1 < r.hyprgraph.spec_num_modules() as int by {
                    assert(v.buckets[i].len() == 0);
                }
            }
        }
        r
    }

    /// Whether the bucket of part `to_part` has no queued node.
    pub fn is_empty_togo(&self, to_part: u8) -> (r: bool)
        requires
            self.wf(),
            to_part < self.num_parts,
        ensures
            r == self.buckets()[to_part as int].present.is_empty(),
    {
        self.gain_bucket[to_part as usize].is_empty()
    }

    /// Whether no bucket has a queued node.
    pub fn is_empty(&self) -> (r: bool)
        requires
            self.wf(),
        ensures
            r == (forall|k: int| 0 <= k < self.num_parts ==> (#[trigger] self.buckets()[k]).present.is_empty()),
    {
        let mut k: usize = 0;
        while k < self.gain_bucket.len()
            invariant
                self.wf(),
                k <= self.gain_bucket@.len(),
                forall|j: int| 0 <= j < k ==> (#[trigger] self.buckets()[j]).present.is_empty(),
            decreases self.gain_bucket@.len() - k,
        {
            if !self.gain_bucket[k].is_empty() {
                proof {
                    assert(self.buckets()[k as int] == self.gain_bucket@[k as int]@);
                    assert(!self.buckets()[k as int].present.is_empty());
                }
                return false;
            }
            proof {
                assert(self.buckets()[k as int] == self.gain_bucket@[k as int]@);
            }
            k = k + 1;
        }
        true
    }
}

/// Hypergraphs that agree have the same prefix weights.
pub proof fn lemma_same_weight_upto<G: Hypergraph>(a: &G, b: &G, k: int)
    requires
        same_graph(a, b),
    ensures
        net_weight_upto(a, k) == net_weight_upto(b, k),
    decreases k,
{
    if k > 0 {
        lemma_same_weight_upto(a, b, k - 1);
        assert(a.spec_net_weight(net_at(a, k - 1)) == b.spec_net_weight(net_at(b, k - 1)));
    }
}

/// Hypergraphs that agree have the same weight bound.
pub proof fn lemma_same_weights_fit<G: Hypergraph>(a: &G, b: &G)
    requires
        same_graph(a, b),
    ensures
        weights_fit(a) == weights_fit(b),
{
    lemma_same_weight_upto(a, b, a.spec_num_nodes() - a.spec_num_modules());
}

impl<Gnl: Hypergraph, GainCalc: GainCalcTrait<Gnl>> FMGainMgr<Gnl, GainCalc> {
    /// Compute the initial gains of `part` and fill the buckets afresh (all
    /// locks are dropped); returns the cut cost.
    pub fn init(&mut self, part: &[u8]) -> (r: i32)
        requires
            old(self).wf(),
            part@.len() == old(self).hyprgraph.spec_num_modules(),
            valid_part(part@, old(self).num_parts as int),
            weights_fit(&old(self).hyprgraph),
        ensures
            final(self).wf(),
            final(self).hyprgraph == old(self).hyprgraph,
            final(self).num_parts == old(self).num_parts,
            final(self).nbrs_buf == old(self).nbrs_buf,
            final(self).waiting_list@ == Seq::<usize>::empty(),
            old(self).gain_calc.init_post(final(self).gain_calc, part@, r),
            final(self).gain_calc.populate_post(
                part@,
                Seq::new(old(self).hyprgraph.spec_num_modules(), |i: int| i as usize),
                Seq::new(old(self).buckets().len(), |k: int| old(self).buckets()[k].cleared()),
                final(self).buckets(),
            ),
    {
        proof {
            lemma_same_weights_fit(&self.gain_calc.calc_graph(), &self.hyprgraph);
        }
        let total_cost = self.gain_calc.init(part);
        self.waiting_list.clear();
        let ghost calc = self.gain_calc;
        let n = self.gain_bucket.len();
        let mut k: usize = 0;
        while k < n
            invariant
                self.hyprgraph == old(self).hyprgraph,
                self.num_parts == old(self).num_parts,
                self.nbrs_buf == old(self).nbrs_buf,
                self.waiting_list@ == Seq::<usize>::empty(),
                self.gain_calc == calc,
                n == self.gain_bucket@.len(),
                n == old(self).gain_bucket@.len(),
                k <= n,
                forall|j: int| 0 <= j < n ==> (#[trigger] self.gain_bucket@[j]).wf(),
                forall|j: int| 0 <= j < k ==> (#[trigger] self.gain_bucket@[j])@ == old(self).gain_bucket@[j]@.cleared(),
                forall|j: int| k <= j < n ==> (#[trigger] self.gain_bucket@[j]) == old(self).gain_bucket@[j],
            decreases n - k,
        {
            self.gain_bucket[k].clear();
            k = k + 1;
        }
        let ghost cleared = self.buckets();
        proof {
            assert(cleared =~= Seq::new(old(self).buckets().len(), |k: int| old(self).buckets()[k].cleared()));
            assert forall|j: int| 0 <= j < n implies nodes_below(
                (#[trigger] self.gain_bucket@[j])@,
                self.gain_calc.calc_graph().spec_num_modules() as int,
            ) by {
                let v = self.gain_bucket@[j]@;
                assert forall|i: int, jj: int|
                    0 <= i < v.buckets.len() && 0 <= jj < v.buckets[i].len() implies (
                    #[trigger] v.buckets[i][jj]).1 < self.gain_calc.calc_graph().spec_num_modules() as int by {
                    assert(v.buckets[i].len() == 0);
                }
            }
        }
        let modules = self.hyprgraph.modules();
        proof {
            assert(modules@ =~= Seq::new(old(self).hyprgraph.spec_num_modules(), |i: int| i as usize));
        }
        self.gain_calc.populate_buckets(part, modules.as_slice(), &mut self.gain_bucket);
        total_cost
    }
}

impl<Gnl: Hypergraph, GainCalc: GainCalcTrait<Gnl>> FMGainMgr<Gnl, GainCalc> {
    /// The bucket views after running the search for the maximum in each.
    pub open spec fn refreshed_buckets(&self) -> Seq<BucketQueueView<usize>> {
        Seq::new(self.buckets().len(), |k: int| self.buckets()[k].refreshed())
    }

    /// Select the best move: pop the highest-gain node from the bucket with
    /// the largest maximum (the first such bucket on ties). When every bucket
    /// is empty, report module 0 with gain `-i32::MAX + 1`.
    pub fn select(&mut self, part: &[u8]) -> (r: (MoveInfoV<usize>, i32))
        requires
            old(self).wf(),
            part@.len() == old(self).hyprgraph.spec_num_modules(),
            old(self).num_parts >= 1,
            old(self).hyprgraph.spec_num_modules() >= 1,
        ensures
            final(self).wf(),
            final(self).hyprgraph == old(self).hyprgraph,
            final(self).gain_calc == old(self).gain_calc,
            final(self).num_parts == old(self).num_parts,
            final(self).nbrs_buf == old(self).nbrs_buf,
            final(self).waiting_list == old(self).waiting_list,
            ({
                let rb = old(self).refreshed_buckets();
                let best = best_bucket(rb, rb.len() as int);
                &&& r.0.to_part == best
                &&& if rb[best].cursor >= 0 {
                    let e = rb[best].popped_entry();
                    &&& r.0.v == e.1
                    &&& r.1 == e.0
                    &&& final(self).buckets() == rb.update(best, rb[best].after_pop())
                } else {
                    &&& r.0.v == 0
                    &&& r.1 == sentinel_gain()
                    &&& final(self).buckets() == rb
                }
                &&& r.0.from_part == part@[r.0.v as int]
            }),
    {
        let ghost rb = old(self).refreshed_buckets();
        let n = self.gain_bucket.len();
        let mut best_idx: usize = 0;
        let mut best_max = self.gain_bucket[0].get_max();
        proof {
            assert(self.gain_bucket@[0]@ == old(self).buckets()[0].refreshed());
            old(self).gain_bucket@[0].lemma_wf();
            assert(old(self).buckets()[0] == old(self).gain_bucket@[0]@);
            lemma_refreshed_idempotent(old(self).buckets()[0]);
        }
        let mut i: usize = 1;
        while i < n
            invariant
                self.hyprgraph == old(self).hyprgraph,
                self.gain_calc == old(self).gain_calc,
                self.num_parts == old(self).num_parts,
                self.nbrs_buf == old(self).nbrs_buf,
                self.waiting_list == old(self).waiting_list,
                n == self.gain_bucket@.len(),
                n == old(self).gain_bucket@.len(),
                n >= 1,
                1 <= i <= n,
                rb == old(self).refreshed_buckets(),
                forall|j: int| 0 <= j < n ==> (#[trigger] self.gain_bucket@[j]).wf(),
                forall|j: int| 0 <= j < n ==> (#[trigger] old(self).gain_bucket@[j]).wf(),
                forall|j: int| 0 <= j < i ==> (#[trigger] self.gain_bucket@[j])@ == rb[j],
                forall|j: int| i <= j < n ==> (#[trigger] self.gain_bucket@[j]) == old(self).gain_bucket@[j],
                best_idx == best_bucket(rb, i as int),
                0 <= best_idx < i,
                best_max == rb[best_idx as int].max_key(),
            decreases n - i,
        {
            let m = self.gain_bucket[i].get_max();
            proof {
                assert(old(self).buckets()[i as int] == old(self).gain_bucket@[i as int]@);
                lemma_refreshed_idempotent(old(self).buckets()[i as int]);
                old(self).gain_bucket@[i as int].lemma_wf();
                old(self).gain_bucket@[best_idx as int].lemma_wf();
                assert(old(self).buckets()[best_idx as int] == old(self).gain_bucket@[best_idx as int]@);
                lemma_refreshed_idempotent(old(self).buckets()[best_idx as int]);
            }
            if m > best_max {
                best_max = m;
                best_idx = i;
            }
            i = i + 1;
        }
        let to_part = best_idx as u8;
        proof {
            assert(self.buckets() =~= rb);
            assert(self.gain_bucket@[best_idx as int]@ == rb[best_idx as int]);
            old(self).gain_bucket@[best_idx as int].lemma_wf();
            assert(old(self).buckets()[best_idx as int] == old(self).gain_bucket@[best_idx as int]@);
            lemma_refreshed_idempotent(old(self).buckets()[best_idx as int]);
        }
        let ghost pre = self.gain_bucket@;
        let popped = self.gain_bucket[best_idx].popleft_with_key();
        proof {
            assert forall|j: int| 0 <= j < n implies (#[trigger] self.gain_bucket@[j]).wf() by {
                if j != best_idx {
                    assert(self.gain_bucket@[j] == pre[j]);
                }
            }
            assert forall|j: int| 0 <= j < n && j != best_idx implies #[trigger] self.buckets()[j] == rb[j] by {
                assert(self.gain_bucket@[j] == pre[j]);
            }
        }
        if let Some((v, key)) = popped {
            proof {
                pre[best_idx as int].lemma_wf();
                lemma_popped_entry_below(pre[best_idx as int]@, self.hyprgraph.spec_num_modules() as int);
            }
            let from_part = part[self.hyprgraph.module_index(v)];
            proof {
                self.lemma_pop_nodes_below(pre, best_idx as int, rb);
            }
            return (MoveInfoV { v, from_part, to_part }, key);
        }
        proof {
            assert(self.buckets() =~= rb);
            self.lemma_pop_nodes_below(pre, best_idx as int, rb);
        }
        let sentinel_gain = -i32::MAX + 1;
        let modules = self.hyprgraph.modules();
        let v = modules[0];
        let from_part = part[self.hyprgraph.module_index(v)];
        (MoveInfoV { v, from_part, to_part }, sentinel_gain)
    }

    /// After popping from bucket `b`, the buckets still name only modules.
    proof fn lemma_pop_nodes_below(&self, pre: Seq<BucketQueue<usize>>, b: int, rb: Seq<BucketQueueView<usize>>)
        requires
            0 <= b < pre.len(),
            pre.len() == self.gain_bucket@.len(),
            forall|j: int| 0 <= j < pre.len() && j != b ==> #[trigger] self.gain_bucket@[j] == pre[j],
            forall|j: int| 0 <= j < pre.len() ==> nodes_below((#[trigger] pre[j])@, self.hyprgraph.spec_num_modules() as int),
            pre[b]@.refreshed().cursor >= 0 ==> self.gain_bucket@[b]@ == pre[b]@.after_pop(),
            pre[b]@.refreshed().cursor < 0 ==> self.gain_bucket@[b]@ == pre[b]@.refreshed(),
            pre[b].wf(),
        ensures
            forall|j: int| 0 <= j < pre.len() ==> nodes_below((#[trigger] self.gain_bucket@[j])@, self.hyprgraph.spec_num_modules() as int),
    {
        let nm = self.hyprgraph.spec_num_modules() as int;
        pre[b].lemma_wf();
        if pre[b]@.refreshed().cursor >= 0 {
            lemma_popped_entry_below(pre[b]@, nm);
        }
        assert forall|j: int| 0 <= j < pre.len() implies nodes_below((#[trigger] self.gain_bucket@[j])@, nm) by {
            if j == b {
                let v = self.gain_bucket@[j]@;
                let o = pre[j]@;
                assert forall|i: int, k: int|
                    0 <= i < v.buckets.len() && 0 <= k < v.buckets[i].len() implies (
                    #[trigger] v.buckets[i][k]).1 < nm by {
                    if o.refreshed().cursor >= 0 {
                        let t = o.top_from(o.cursor);
                        if i == t {
                            assert(v.buckets[i][k] == o.buckets[i][k]);
                        } else {
                            assert(v.buckets[i] == o.buckets[i]);
                        }
                    } else {
                        assert(v.buckets[i] == o.buckets[i]);
                    }
                }
            }
        }
    }
}

/// A queue state reached by adding an entry for a node below `n` still names
/// only nodes below `n`.
pub proof fn lemma_nodes_below_modified(v: BucketQueueView<usize>, d: i32, w: usize, n: int)
    requires
        nodes_below(v, n),
        w < n,
    ensures
        nodes_below(v.modified(d, w), n),
        nodes_below(v.with_entry(d, w), n),
{
    let key = (v.base_key(w) + d) as i32;
    assert forall|i: int, j: int|
        0 <= i < v.with_entry(d, w).buckets.len() && 0 <= j < v.with_entry(d, w).buckets[i].len() implies (
        #[trigger] v.with_entry(d, w).buckets[i][j]).1 < n by {
        if v.in_range(d as int) && i == d - v.offset {
            if j < v.buckets[i].len() {
                assert(v.with_entry(d, w).buckets[i][j] == v.buckets[i][j]);
            }
        } else {
            assert(v.with_entry(d, w).buckets[i] == v.buckets[i]);
        }
    }
    if !v.locked.contains(w) {
        assert forall|i: int, j: int|
            0 <= i < v.with_entry(key, w).buckets.len() && 0 <= j < v.with_entry(key, w).buckets[i].len() implies (
            #[trigger] v.with_entry(key, w).buckets[i][j]).1 < n by {
            if v.in_range(key as int) && i == key - v.offset {
                if j < v.buckets[i].len() {
                    assert(v.with_entry(key, w).buckets[i][j] == v.buckets[i][j]);
                }
            } else {
                assert(v.with_entry(key, w).buckets[i] == v.buckets[i]);
            }
        }
    }
}

impl<Gnl: Hypergraph, GainCalc: GainCalcTrait<Gnl>> FMGainMgr<Gnl, GainCalc> {
    /// Whether the bucket of part `to_part` holds a live entry, so that
    /// [`FMGainMgr::select_togo`] finds a node; runs that bucket's search for
    /// the maximum.
    pub fn has_move_togo(&mut self, to_part: u8) -> (r: bool)
        requires
            old(self).wf(),
            to_part < old(self).num_parts,
        ensures
            final(self).wf(),
            final(self).hyprgraph == old(self).hyprgraph,
            final(self).gain_calc == old(self).gain_calc,
            final(self).num_parts == old(self).num_parts,
            final(self).nbrs_buf == old(self).nbrs_buf,
            final(self).waiting_list == old(self).waiting_list,
            r == (old(self).buckets()[to_part as int].refreshed().cursor >= 0),
            final(self).buckets() == old(self).buckets().update(
                to_part as int,
                old(self).buckets()[to_part as int].refreshed(),
            ),
    {
        let ghost pre = self.gain_bucket@;
        proof {
            assert(old(self).buckets()[to_part as int] == pre[to_part as int]@);
        }
        let r = self.gain_bucket[to_part as usize].has_entry();
        proof {
            assert forall|j: int| 0 <= j < pre.len() implies (#[trigger] self.gain_bucket@[j]).wf() && nodes_below(
                self.gain_bucket@[j]@,
                self.hyprgraph.spec_num_modules() as int,
            ) by {
                if j != to_part {
                    assert(self.gain_bucket@[j] == pre[j]);
                } else {
                    assert(self.gain_bucket@[j]@.buckets == pre[j]@.buckets);
                }
            }
            assert(self.buckets() =~= old(self).buckets().update(
                to_part as int,
                old(self).buckets()[to_part as int].refreshed(),
            ));
        }
        r
    }

    /// A bound on the magnitude of every key of every bucket.
    pub fn max_abs_key(&self) -> (r: u32)
        requires
            self.wf(),
        ensures
            keys_within(self.buckets(), r as int),
    {
        let mut m: u32 = 0;
        let mut k: usize = 0;
        while k < self.gain_bucket.len()
            invariant
                self.wf(),
                k <= self.gain_bucket@.len(),
                forall|j: int, n: usize|
                    0 <= j < k && #[trigger] self.buckets()[j].keys.contains_key(n) ==> -m
                        <= self.buckets()[j].keys[n] <= m,
            decreases self.gain_bucket@.len() - k,
        {
            let b = self.gain_bucket[k].max_abs_key();
            proof {
                assert(self.buckets()[k as int] == self.gain_bucket@[k as int]@);
            }
            if b > m {
                m = b;
            }
            k = k + 1;
        }
        m
    }

    /// Pop the highest-gain node from the bucket of part `to_part`.
    pub fn select_togo(&mut self, to_part: u8) -> (r: (usize, i32))
        requires
            old(self).wf(),
            to_part < old(self).num_parts,
            old(self).buckets()[to_part as int].refreshed().cursor >= 0,
        ensures
            final(self).wf(),
            final(self).hyprgraph == old(self).hyprgraph,
            final(self).gain_calc == old(self).gain_calc,
            final(self).num_parts == old(self).num_parts,
            final(self).nbrs_buf == old(self).nbrs_buf,
            final(self).waiting_list == old(self).waiting_list,
            r.0 == old(self).buckets()[to_part as int].popped_entry().1,
            r.1 == old(self).buckets()[to_part as int].popped_entry().0,
            final(self).buckets() == old(self).buckets().update(
                to_part as int,
                old(self).buckets()[to_part as int].after_pop(),
            ),
    {
        let ghost pre = self.gain_bucket@;
        proof {
            assert(old(self).buckets()[to_part as int] == pre[to_part as int]@);
        }
        let popped = self.gain_bucket[to_part as usize].popleft_with_key();
        proof {
            assert forall|j: int| 0 <= j < pre.len() implies (#[trigger] self.gain_bucket@[j]).wf() by {
                if j != to_part {
                    assert(self.gain_bucket@[j] == pre[j]);
                }
            }
            self.lemma_pop_nodes_below(pre, to_part as int, old(self).refreshed_buckets());
            assert(self.buckets() =~= old(self).buckets().update(
                to_part as int,
                old(self).buckets()[to_part as int].after_pop(),
            ));
        }
        match popped {
            Some((v, key)) => (v, key),
            None => (0, 0),
        }
    }

    /// Lock a moved node.
    ///
    /// Binary FM has a single link per module, so locking it is global (all
    /// buckets). K-way FM locks only the `which_part` link; a vertex may still
    /// be re-selected from the other buckets.
    pub fn lock(&mut self, which_part: u8, v: usize)
        requires
            old(self).wf(),
            old(self).num_parts != 2 ==> which_part < old(self).num_parts,
        ensures
            final(self).wf(),
            final(self).hyprgraph == old(self).hyprgraph,
            final(self).gain_calc == old(self).gain_calc,
            final(self).num_parts == old(self).num_parts,
            final(self).nbrs_buf == old(self).nbrs_buf,
            final(self).waiting_list == old(self).waiting_list,
            final(self).buckets() == Seq::new(
                old(self).buckets().len(),
                |k: int|
                    if old(self).num_parts == 2 || k == which_part {
                        BucketQueueView {
                            present: old(self).buckets()[k].present.remove(v),
                            locked: old(self).buckets()[k].locked.insert(v),
                            ..old(self).buckets()[k]
                        }
                    } else {
                        old(self).buckets()[k]
                    },
            ),
    {
        if self.num_parts == 2 {
            self.lock_all(which_part, v);
        } else {
            let ghost pre = self.gain_bucket@;
            self.gain_bucket[which_part as usize].lock(&v);
            proof {
                assert forall|j: int| 0 <= j < pre.len() implies (#[trigger] self.gain_bucket@[j]).wf()
                    && nodes_below(self.gain_bucket@[j]@, self.hyprgraph.spec_num_modules() as int) by {
                    if j != which_part {
                        assert(self.gain_bucket@[j] == pre[j]);
                    } else {
                        assert(self.gain_bucket@[j]@.buckets == pre[j]@.buckets);
                    }
                }
                assert(self.buckets() =~= Seq::new(
                    old(self).buckets().len(),
                    |k: int|
                        if old(self).num_parts == 2 || k == which_part {
                            BucketQueueView {
                                present: old(self).buckets()[k].present.remove(v),
                                locked: old(self).buckets()[k].locked.insert(v),
                                ..old(self).buckets()[k]
                            }
                        } else {
                            old(self).buckets()[k]
                        },
                ));
            }
        }
    }

    /// Lock `v` in every bucket.
    pub fn lock_all(&mut self, _which_part: u8, v: usize)
        requires
            old(self).wf(),
        ensures
            final(self).wf(),
            final(self).hyprgraph == old(self).hyprgraph,
            final(self).gain_calc == old(self).gain_calc,
            final(self).num_parts == old(self).num_parts,
            final(self).nbrs_buf == old(self).nbrs_buf,
            final(self).waiting_list == old(self).waiting_list,
            final(self).buckets() == Seq::new(
                old(self).buckets().len(),
                |k: int|
                    BucketQueueView {
                        present: old(self).buckets()[k].present.remove(v),
                        locked: old(self).buckets()[k].locked.insert(v),
                        ..old(self).buckets()[k]
                    },
            ),
    {
        let n = self.gain_bucket.len();
        let mut k: usize = 0;
        while k < n
            invariant
                self.hyprgraph == old(self).hyprgraph,
                self.gain_calc == old(self).gain_calc,
                self.num_parts == old(self).num_parts,
                self.nbrs_buf == old(self).nbrs_buf,
                self.waiting_list == old(self).waiting_list,
                n == self.gain_bucket@.len(),
                n == old(self).gain_bucket@.len(),
                k <= n,
                forall|j: int| 0 <= j < n ==> (#[trigger] self.gain_bucket@[j]).wf(),
                forall|j: int| 0 <= j < n ==> (#[trigger] old(self).gain_bucket@[j]).wf(),
                forall|j: int| 0 <= j < n ==> nodes_below((#[trigger] old(self).gain_bucket@[j])@, self.hyprgraph.spec_num_modules() as int),
                forall|j: int|
                    0 <= j < k ==> (#[trigger] self.gain_bucket@[j])@ == (BucketQueueView {
                        present: old(self).gain_bucket@[j]@.present.remove(v),
                        locked: old(self).gain_bucket@[j]@.locked.insert(v),
                        ..old(self).gain_bucket@[j]@
                    }),
                forall|j: int| k <= j < n ==> (#[trigger] self.gain_bucket@[j]) == old(self).gain_bucket@[j],
            decreases n - k,
        {
            self.gain_bucket[k].lock(&v);
            k = k + 1;
        }
        proof {
            assert forall|j: int| 0 <= j < n implies nodes_below(
                (#[trigger] self.gain_bucket@[j])@,
                self.hyprgraph.spec_num_modules() as int,
            ) by {
                assert(self.gain_bucket@[j]@.buckets == old(self).gain_bucket@[j]@.buckets);
            }
            assert(self.buckets() =~= Seq::new(
                old(self).buckets().len(),
                |k: int|
                    BucketQueueView {
                        present: old(self).buckets()[k].present.remove(v),
                        locked: old(self).buckets()[k].locked.insert(v),
                        ..old(self).buckets()[k]
                    },
            ));
        }
    }
}

impl<Gnl: Hypergraph, GainCalc: GainCalcTrait<Gnl>> FMGainMgr<Gnl, GainCalc> {
    /// Add `d` to the key of `w` in bucket `k`.
    fn bucket_modify_key(&mut self, k: usize, d: i32, w: usize)
        requires
            old(self).wf(),
            k < old(self).num_parts,
            w < old(self).hyprgraph.spec_num_modules(),
            old(self).buckets()[k as int].key_fits(d as int, w),
        ensures
            final(self).wf(),
            final(self).hyprgraph == old(self).hyprgraph,
            final(self).gain_calc == old(self).gain_calc,
            final(self).num_parts == old(self).num_parts,
            final(self).nbrs_buf == old(self).nbrs_buf,
            final(self).waiting_list == old(self).waiting_list,
            final(self).buckets() == old(self).buckets().update(
                k as int,
                old(self).buckets()[k as int].modified(d, w),
            ),
    {
        let ghost pre = self.gain_bucket@;
        proof {
            assert(old(self).buckets()[k as int] == pre[k as int]@);
        }
        self.gain_bucket[k].modify_key(d, w);
        proof {
            assert forall|j: int| 0 <= j < pre.len() implies (#[trigger] self.gain_bucket@[j]).wf()
                && nodes_below(self.gain_bucket@[j]@, self.hyprgraph.spec_num_modules() as int) by {
                if j != k {
                    assert(self.gain_bucket@[j] == pre[j]);
                } else {
                    lemma_nodes_below_modified(pre[j]@, d, w, self.hyprgraph.spec_num_modules() as int);
                }
            }
            assert(self.buckets() =~= old(self).buckets().update(
                k as int,
                old(self).buckets()[k as int].modified(d, w),
            ));
        }
    }

    /// Write `key` as the key of `w` in bucket `k` without queueing it.
    fn bucket_set_key(&mut self, k: usize, key: i32, w: usize)
        requires
            old(self).wf(),
            k < old(self).num_parts,
        ensures
            final(self).wf(),
            final(self).hyprgraph == old(self).hyprgraph,
            final(self).gain_calc == old(self).gain_calc,
            final(self).num_parts == old(self).num_parts,
            final(self).nbrs_buf == old(self).nbrs_buf,
            final(self).waiting_list == old(self).waiting_list,
            final(self).buckets() == old(self).buckets().update(
                k as int,
                BucketQueueView { keys: old(self).buckets()[k as int].keys.insert(w, key), ..old(self).buckets()[k as int] },
            ),
    {
        let ghost pre = self.gain_bucket@;
        proof {
            assert(old(self).buckets()[k as int] == pre[k as int]@);
        }
        self.gain_bucket[k].set_key(key, w);
        proof {
            assert forall|j: int| 0 <= j < pre.len() implies (#[trigger] self.gain_bucket@[j]).wf()
                && nodes_below(self.gain_bucket@[j]@, self.hyprgraph.spec_num_modules() as int) by {
                if j != k {
                    assert(self.gain_bucket@[j] == pre[j]);
                } else {
                    assert(self.gain_bucket@[j]@.buckets == pre[j]@.buckets);
                }
            }
            assert(self.buckets() =~= old(self).buckets().update(
                k as int,
                BucketQueueView { keys: old(self).buckets()[k as int].keys.insert(w, key), ..old(self).buckets()[k as int] },
            ));
        }
    }

    /// Apply a gain delta for a neighbour `w` currently in `part_w`.
    ///
    /// * `Scalar(d)` targets bucket `1 - part_w` (binary FM).
    /// * `PerPart(deltas)` targets every bucket `k != part_w` with `deltas[k]`.
    pub fn modify_key(&mut self, w: usize, part_w: u8, delta: GainDelta)
        requires
            old(self).wf(),
            w < old(self).hyprgraph.spec_num_modules(),
            delta_fits(old(self).buckets(), old(self).num_parts as int, w, part_w, delta),
        ensures
            final(self).wf(),
            final(self).hyprgraph == old(self).hyprgraph,
            final(self).gain_calc == old(self).gain_calc,
            final(self).num_parts == old(self).num_parts,
            final(self).nbrs_buf == old(self).nbrs_buf,
            final(self).waiting_list == old(self).waiting_list,
            final(self).buckets() == apply_delta(old(self).buckets(), old(self).num_parts as int, w, part_w, delta),
    {
        self.apply_gain_delta(w, part_w, &delta);
    }

    /// Applies the gain delta `delta` of the neighbour `w` in `part_w`.
    fn apply_gain_delta(&mut self, w: usize, part_w: u8, delta: &GainDelta)
        requires
            old(self).wf(),
            w < old(self).hyprgraph.spec_num_modules(),
            delta_fits(old(self).buckets(), old(self).num_parts as int, w, part_w, *delta),
        ensures
            final(self).wf(),
            final(self).hyprgraph == old(self).hyprgraph,
            final(self).gain_calc == old(self).gain_calc,
            final(self).num_parts == old(self).num_parts,
            final(self).nbrs_buf == old(self).nbrs_buf,
            final(self).waiting_list == old(self).waiting_list,
            final(self).buckets() == apply_delta(old(self).buckets(), old(self).num_parts as int, w, part_w, *delta),
    {
        match delta {
            GainDelta::Scalar(d) => {
                if *d != 0 {
                    let dest = (1 - part_w) as usize;
                    self.bucket_modify_key(dest, *d, w);
                }
            },
            GainDelta::PerPart(deltas) => {
                let ghost ob = old(self).buckets();
                let np = self.num_parts as usize;
                let mut k: usize = 0;
                while k < np
                    invariant
                        self.wf(),
                        self.hyprgraph == old(self).hyprgraph,
                        self.gain_calc == old(self).gain_calc,
                        self.num_parts == old(self).num_parts,
                        self.nbrs_buf == old(self).nbrs_buf,
                        self.waiting_list == old(self).waiting_list,
                        np == self.num_parts,
                        k <= np,
                        ob == old(self).buckets(),
                        ob.len() == np,
                        w < self.hyprgraph.spec_num_modules(),
                        forall|j: int|
                            0 <= j < np && j != part_w && j < deltas@.len() && deltas@[j] != 0 ==> (
                            #[trigger] ob[j]).key_fits(deltas@[j] as int, w),
                        self.buckets().len() == np,
                        forall|j: int|
                            0 <= j < np ==> #[trigger] self.buckets()[j] == (if j < k && j != part_w && j
                                < deltas@.len() && deltas@[j] != 0 {
                                ob[j].modified(deltas@[j], w)
                            } else {
                                ob[j]
                            }),
                    decreases np - k,
                {
                    if k != part_w as usize {
                        let d = if k < deltas.len() {
                            deltas[k]
                        } else {
                            0
                        };
                        if d != 0 {
                            self.bucket_modify_key(k, d, w);
                        }
                    }
                    k = k + 1;
                }
                proof {
                    assert(self.buckets() =~= apply_delta(ob, np as int, w, part_w, GainDelta::PerPart(*deltas)));
                }
            },
        }
    }

    /// Record the reverse gain of a moved node: binary FM only writes its
    /// key in the source bucket; k-way FM first adds the calculator's
    /// per-part deltas to the node's key in every other bucket.
    pub fn update_move_v(&mut self, move_info_v: &MoveInfoV<usize>, gain: i32)
        requires
            old(self).wf(),
            move_info_v.from_part < old(self).num_parts,
            move_info_v.v < old(self).hyprgraph.spec_num_modules(),
            gain > i32::MIN,
            old(self).num_parts != 2 ==> forall|k: int|
                0 <= k < old(self).num_parts && k != move_info_v.from_part && k != move_info_v.to_part
                    && k < old(self).gain_calc.spec_delta_gain_v().len()
                    && old(self).gain_calc.spec_delta_gain_v()[k] != 0 ==> (#[trigger] old(
                    self,
                ).buckets()[k]).key_fits(old(self).gain_calc.spec_delta_gain_v()[k] as int, move_info_v.v),
        ensures
            final(self).wf(),
            final(self).hyprgraph == old(self).hyprgraph,
            final(self).gain_calc == old(self).gain_calc,
            final(self).num_parts == old(self).num_parts,
            final(self).nbrs_buf == old(self).nbrs_buf,
            final(self).waiting_list == old(self).waiting_list,
            ({
                let dv = old(self).gain_calc.spec_delta_gain_v();
                let from = move_info_v.from_part as int;
                let mid = if old(self).num_parts == 2 {
                    old(self).buckets()
                } else {
                    Seq::new(
                        old(self).buckets().len(),
                        |k: int|
                            if k != from && k != move_info_v.to_part && k < dv.len() && dv[k] != 0 {
                                old(self).buckets()[k].modified(dv[k], move_info_v.v)
                            } else {
                                old(self).buckets()[k]
                            },
                    )
                };
                final(self).buckets() == mid.update(
                    from,
                    BucketQueueView { keys: mid[from].keys.insert(move_info_v.v, (-gain) as i32), ..mid[from] },
                )
            }),
    {
        let v = move_info_v.v;
        let from_part = move_info_v.from_part;
        let to_part = move_info_v.to_part;
        if self.num_parts == 2 {
            self.bucket_set_key(from_part as usize, -gain, v);
            return;
        }
        let deltas = self.gain_calc.delta_gain_v();
        let ghost ob = old(self).buckets();
        let np = self.num_parts as usize;
        let mut k: usize = 0;
        while k < np
            invariant
                self.wf(),
                self.hyprgraph == old(self).hyprgraph,
                self.gain_calc == old(self).gain_calc,
                self.num_parts == old(self).num_parts,
                self.nbrs_buf == old(self).nbrs_buf,
                self.waiting_list == old(self).waiting_list,
                np == self.num_parts,
                k <= np,
                ob == old(self).buckets(),
                ob.len() == np,
                deltas@ == old(self).gain_calc.spec_delta_gain_v(),
                v < self.hyprgraph.spec_num_modules(),
                forall|j: int|
                    0 <= j < np && j != from_part && j != to_part && j < deltas@.len() && deltas@[j] != 0 ==> (
                    #[trigger] ob[j]).key_fits(deltas@[j] as int, v),
                self.buckets().len() == np,
                forall|j: int|
                    0 <= j < np ==> #[trigger] self.buckets()[j] == (if j < k && j != from_part && j != to_part
                        && j < deltas@.len() && deltas@[j] != 0 {
                        ob[j].modified(deltas@[j], v)
                    } else {
                        ob[j]
                    }),
            decreases np - k,
        {
            if k != from_part as usize && k != to_part as usize {
                let d = if k < deltas.len() {
                    deltas[k]
                } else {
                    0
                };
                if d != 0 {
                    self.bucket_modify_key(k, d, v);
                }
            }
            k = k + 1;
        }
        let ghost mid = self.buckets();
        self.bucket_set_key(from_part as usize, -gain, v);
        proof {
            assert(mid =~= Seq::new(
                ob.len(),
                |k: int|
                    if k != from_part && k != to_part && k < deltas@.len() && deltas@[k] != 0 {
                        ob[k].modified(deltas@[k], v)
                    } else {
                        ob[k]
                    },
            ));
        }
    }
}

/// The bucket views after applying `deltas[i]` to the pin `iv[i]` for each of
/// the first `k` deltas (deltas beyond the pins are ignored).
pub open spec fn apply_deltas(
    bqs: Seq<BucketQueueView<usize>>,
    num_parts: int,
    iv: Seq<usize>,
    part: Seq<u8>,
    deltas: Seq<GainDelta>,
    k: int,
) -> Seq<BucketQueueView<usize>>
    decreases k,
{
    if k <= 0 {
        bqs
    } else {
        let prev = apply_deltas(bqs, num_parts, iv, part, deltas, k - 1);
        if k - 1 < iv.len() {
            apply_delta(prev, num_parts, iv[k - 1], part[iv[k - 1] as int], deltas[k - 1])
        } else {
            prev
        }
    }
}

/// Every key of every bucket lies within `-lim ..= lim`.
pub open spec fn keys_within(bqs: Seq<BucketQueueView<usize>>, lim: int) -> bool {
    forall|k: int, n: usize|
        0 <= k < bqs.len() && #[trigger] bqs[k].keys.contains_key(n) ==> -lim <= bqs[k].keys[n] <= lim
}

/// What processing one net of the moved vertex `v` does to the calculator
/// state (`c0` to `c1`) and the buckets (`b0` to `b1`): nets of unhandled
/// degree are skipped; a 2-pin net updates its other pin; larger nets first
/// collect the other pins, then update each of them.
pub open spec fn net_update<Gnl: Hypergraph, C: GainCalcTrait<Gnl>>(
    g: Gnl,
    num_parts: int,
    part: Seq<u8>,
    mv: MoveInfoV<usize>,
    net: usize,
    c0: C,
    b0: Seq<BucketQueueView<usize>>,
    c1: C,
    b1: Seq<BucketQueueView<usize>>,
) -> bool {
    let d = g.spec_neighbors(net).len();
    let mi = MoveInfo { net, v: mv.v, from_part: mv.from_part, to_part: mv.to_part };
    if !handled_degree(d) {
        c1 == c0 && b1 == b0
    } else if d == 2 {
        exists|r: (usize, GainDelta)|
            #[trigger] c0.update_2pin_post(c1, part, mi, r) && b1 == apply_delta(
                b0,
                num_parts,
                r.0,
                part[r.0 as int],
                r.1,
            )
    } else {
        exists|ci: C, r: Seq<GainDelta>|
            #![trigger c0.init_idx_vec_post(ci, mv.v, net), apply_deltas(b0, num_parts, ci.spec_idx_vec(), part, r, r.len() as int)]
            c0.init_idx_vec_post(ci, mv.v, net) && (if d == 3 {
                ci.update_3pin_post(c1, part, mi, r)
            } else {
                ci.update_general_post(c1, part, mi, r)
            }) && b1 == apply_deltas(b0, num_parts, ci.spec_idx_vec(), part, r, r.len() as int)
    }
}

/// After the search, the cursor is -1 or a bucket with a fresh entry.
pub proof fn lemma_refreshed_cursor<Node>(v: BucketQueueView<Node>)
    requires
        -1 <= v.cursor,
    ensures
        -1 <= v.top_from(v.cursor) <= v.cursor,
        v.top_from(v.cursor) >= 0 ==> v.has_fresh(v.top_from(v.cursor)),
        forall|k: int| v.top_from(v.cursor) < k <= v.cursor ==> !(#[trigger] v.has_fresh(k)),
{
    lemma_top_from_props(v, v.cursor);
}

/// The search from `i` stops at -1 or at a bucket with a fresh entry, and
/// passes only buckets without one.
pub proof fn lemma_top_from_props<Node>(v: BucketQueueView<Node>, i: int)
    requires
        -1 <= i,
    ensures
        -1 <= v.top_from(i) <= i,
        v.top_from(i) >= 0 ==> v.has_fresh(v.top_from(i)),
        forall|k: int| v.top_from(i) < k <= i ==> !(#[trigger] v.has_fresh(k)),
    decreases i + 1,
{
    if i >= 0 && !v.has_fresh(i) {
        lemma_top_from_props(v, i - 1);
    }
}

/// A bucket with a fresh entry has a last fresh entry, and it is fresh.
pub proof fn lemma_last_fresh<Node>(v: BucketQueueView<Node>, i: int)
    requires
        v.has_fresh(i),
    ensures
        0 <= v.last_fresh(i) < v.buckets[i].len(),
        v.is_fresh(v.buckets[i][v.last_fresh(i)]),
{
    let j = choose|j: int| 0 <= j < v.buckets[i].len() && #[trigger] v.is_fresh(v.buckets[i][j]);
    lemma_last_fresh_before(v, v.buckets[i], v.buckets[i].len() as int, j);
}

/// The last fresh position before `n` is at least any fresh position before
/// `n`, and it is fresh.
pub proof fn lemma_last_fresh_before<Node>(v: BucketQueueView<Node>, b: Seq<(i32, Node)>, n: int, j: int)
    requires
        0 <= j < n <= b.len(),
        v.is_fresh(b[j]),
    ensures
        j <= v.last_fresh_before(b, n) < n,
        v.is_fresh(b[v.last_fresh_before(b, n)]),
    decreases n,
{
    if n - 1 > j && !v.is_fresh(b[n - 1]) {
        lemma_last_fresh_before(v, b, n - 1, j);
    }
}

/// When no bucket in `c + 1 ..= i` holds a fresh entry and bucket `c` does
/// (or `c` is -1), the search from `i` stops at `c`.
pub proof fn lemma_top_from<Node>(v: BucketQueueView<Node>, i: int, c: int)
    requires
        -1 <= c <= i,
        forall|k: int| c < k <= i ==> !(#[trigger] v.has_fresh(k)),
        c == -1 || v.has_fresh(c),
    ensures
        v.top_from(i) == c,
    decreases i - c,
{
    if i > c {
        lemma_top_from(v, i - 1, c);
    }
}

/// Every key of bucket `v` lies within `e` of the key that `v0` holds for the
/// node (0 when it holds none), and within `e + x` for a node of `t`; `v`
/// knows every node that `v0` knows.
pub open spec fn bucket_near(
    v: BucketQueueView<usize>,
    v0: BucketQueueView<usize>,
    e: int,
    t: Set<usize>,
    x: int,
) -> bool {
    &&& forall|n: usize| #[trigger] v0.keys.contains_key(n) ==> v.keys.contains_key(n)
    &&& forall|n: usize|
        #[trigger] v.keys.contains_key(n) ==> -(e + if t.contains(n) {
            x
        } else {
            0
        }) <= v.keys[n] - v0.base_key(n) <= e + if t.contains(n) {
            x
        } else {
            0
        }
}

/// Bucket by bucket, the keys of `b` lie near those of `b0` (see
/// [`bucket_near`]).
pub open spec fn keys_near(
    b: Seq<BucketQueueView<usize>>,
    b0: Seq<BucketQueueView<usize>>,
    e: int,
    t: Set<usize>,
    x: int,
) -> bool {
    &&& b.len() == b0.len()
    &&& forall|k: int| 0 <= k < b.len() ==> bucket_near(#[trigger] b[k], b0[k], e, t, x)
}

/// The total weight of the first `i` nets of module `v`.
pub open spec fn nbr_weight_upto<G: Hypergraph>(g: &G, v: usize, i: int) -> int
    decreases i,
{
    if i <= 0 {
        0
    } else {
        nbr_weight_upto(g, v, i - 1) + g.spec_net_weight(g.spec_neighbors(v)[i - 1]) as int
    }
}

/// The total weight of the nets of module `v`.
pub open spec fn nbr_weight<G: Hypergraph>(g: &G, v: usize) -> int {
    nbr_weight_upto(g, v, g.spec_neighbors(v).len() as int)
}

/// Keys that lie near keys within `lim` lie within `lim + e`.
pub proof fn lemma_keys_near_within(
    b: Seq<BucketQueueView<usize>>,
    b0: Seq<BucketQueueView<usize>>,
    e: int,
    lim: int,
)
    requires
        keys_near(b, b0, e, Set::empty(), 0),
        keys_within(b0, lim),
        0 <= lim,
        0 <= e,
    ensures
        keys_within(b, lim + e),
{
    assert forall|k: int, n: usize|
        0 <= k < b.len() && #[trigger] b[k].keys.contains_key(n) implies -(lim + e) <= b[k].keys[n] <= lim
        + e by {
        assert(bucket_near(b[k], b0[k], e, Set::empty(), 0));
        if b0[k].keys.contains_key(n) {
            assert(-lim <= b0[k].keys[n] <= lim);
        }
    }
}

/// Keys within a bound lie within any wider bound.
pub proof fn lemma_keys_within_mono(b: Seq<BucketQueueView<usize>>, a: int, c: int)
    requires
        keys_within(b, a),
        a <= c,
    ensures
        keys_within(b, c),
{
}

/// The total weight of the nets of module `v`.
pub fn nbr_weight_of<G: Hypergraph>(g: &G, v: usize) -> (r: u128)
    requires
        g.wf(),
        v < g.spec_num_nodes(),
    ensures
        r == nbr_weight(g, v),
{
    let nets = g.neighbors(v);
    let mut total: u128 = 0;
    let mut i: usize = 0;
    while i < nets.len()
        invariant
            g.wf(),
            nets@ == g.spec_neighbors(v),
            i <= nets@.len(),
            total == nbr_weight_upto(g, v, i as int),
            total <= i * 4294967295,
        decreases nets@.len() - i,
    {
        let w = g.get_net_weight(nets[i]);
        total = total + w as u128;
        i = i + 1;
    }
    total
}

/// The calculator states `cs` and bucket states `bs` that a move of `mv.v`
/// runs through: `cs[0]` is the calculator prepared for the move, `bs[0]`
/// the buckets before it, and each net `i` of the moved vertex takes
/// `(cs[i], bs[i])` to `(cs[i + 1], bs[i + 1])`.
pub open spec fn move_trace<Gnl: Hypergraph, C: GainCalcTrait<Gnl>>(
    g: Gnl,
    num_parts: int,
    part: Seq<u8>,
    mv: MoveInfoV<usize>,
    c: C,
    b: Seq<BucketQueueView<usize>>,
    cs: Seq<C>,
    bs: Seq<Seq<BucketQueueView<usize>>>,
    n: int,
) -> bool {
    let nets = g.spec_neighbors(mv.v);
    &&& cs.len() == n + 1
    &&& bs.len() == n + 1
    &&& c.update_move_init_post(cs[0])
    &&& bs[0] == b
    &&& forall|i: int|
        #![trigger nets[i]]
        0 <= i < n ==> net_update(g, num_parts, part, mv, nets[i], cs[i], bs[i], cs[i + 1], bs[i + 1])
}

/// Adding a delta of at most `x` to a node of no earlier change keeps the
/// keys near, now with the node among the changed ones.
pub proof fn lemma_modified_near(
    v: BucketQueueView<usize>,
    v0: BucketQueueView<usize>,
    e: int,
    t: Set<usize>,
    x: int,
    d: i32,
    w: usize,
    lim: int,
)
    requires
        bucket_near(v, v0, e, t, x),
        forall|n: usize| #[trigger] v0.keys.contains_key(n) ==> -lim <= v0.keys[n] <= lim,
        !t.contains(w),
        -x <= d <= x,
        0 <= e,
        0 <= x,
        0 <= lim,
        lim + e + x <= i32::MAX,
    ensures
        v.key_fits(d as int, w),
        bucket_near(v.modified(d, w), v0, e, t.insert(w), x),
{
    if v.keys.contains_key(w) {
        if v0.keys.contains_key(w) {
            assert(-lim <= v0.keys[w] <= lim);
        }
    } else {
        assert(!v0.keys.contains_key(w));
    }
    let m = v.modified(d, w);
    assert forall|n: usize| #[trigger] m.keys.contains_key(n) implies -(e + if t.insert(w).contains(n) {
        x
    } else {
        0
    }) <= m.keys[n] - v0.base_key(n) <= e + if t.insert(w).contains(n) {
        x
    } else {
        0
    } by {
        if n != w {
            assert(v.keys.contains_key(n));
        }
    }
}

/// Applying a delta of at most `x` for a node of no earlier change keeps the
/// keys near, and the keys it touches fit.
pub proof fn lemma_delta_near(
    b: Seq<BucketQueueView<usize>>,
    b0: Seq<BucketQueueView<usize>>,
    e: int,
    t: Set<usize>,
    x: int,
    np: int,
    w: usize,
    part_w: u8,
    delta: GainDelta,
    lim: int,
)
    requires
        keys_near(b, b0, e, t, x),
        keys_within(b0, lim),
        !t.contains(w),
        delta_bounded(delta, x),
        delta is Scalar ==> part_w <= 1 && b.len() == 2,
        b.len() == np,
        0 <= e,
        0 <= x,
        0 <= lim,
        lim + e + x <= i32::MAX,
    ensures
        delta_fits(b, np, w, part_w, delta),
        keys_near(apply_delta(b, np, w, part_w, delta), b0, e, t.insert(w), x),
{
    let nb = apply_delta(b, np, w, part_w, delta);
    assert forall|k: int| 0 <= k < b.len() implies bucket_near(#[trigger] b[k], b0[k], e, t.insert(w), x) by {
        assert(bucket_near(b[k], b0[k], e, t, x));
    }
    match delta {
        GainDelta::Scalar(d) => {
            if d != 0 {
                let dest = 1 - part_w as int;
                assert(bucket_near(b[dest], b0[dest], e, t, x));
                lemma_modified_near(b[dest], b0[dest], e, t, x, d, w, lim);
                assert forall|k: int| 0 <= k < nb.len() implies bucket_near(#[trigger] nb[k], b0[k], e, t.insert(w), x) by {
                    if k != dest {
                        assert(nb[k] == b[k]);
                    }
                }
            }
        },
        GainDelta::PerPart(ds) => {
            assert forall|k: int| 0 <= k < np && k != part_w && k < ds@.len() && ds@[k] != 0 implies (
            #[trigger] b[k]).key_fits(ds@[k] as int, w) by {
                assert(-x <= ds@[k] <= x);
                if k < b.len() {
                    assert(bucket_near(b[k], b0[k], e, t, x));
                    lemma_modified_near(b[k], b0[k], e, t, x, ds@[k], w, lim);
                }
            }
            assert forall|k: int| 0 <= k < nb.len() implies bucket_near(#[trigger] nb[k], b0[k], e, t.insert(w), x) by {
                if k < np && k != part_w && k < ds@.len() && ds@[k] != 0 {
                    assert(-x <= ds@[k] <= x);
                    assert(bucket_near(b[k], b0[k], e, t, x));
                    lemma_modified_near(b[k], b0[k], e, t, x, ds@[k], w, lim);
                } else {
                    assert(nb[k] == b[k]);
                }
            }
        },
    }
}

impl<Gnl: Hypergraph, GainCalc: GainCalcTrait<Gnl>> FMGainMgr<Gnl, GainCalc> {
    /// The pins of a net are distinct modules, and a net of a module lists
    /// the module among its pins.
    proof fn lemma_move_net(&self, v: usize, net: usize)
        requires
            self.wf(),
            v < self.hyprgraph.spec_num_modules(),
            self.hyprgraph.spec_neighbors(v).contains(net),
        ensures
            self.hyprgraph.spec_num_modules() <= net < self.hyprgraph.spec_num_nodes(),
            self.hyprgraph.spec_neighbors(net).contains(v),
            self.hyprgraph.spec_neighbors(net).no_duplicates(),
            forall|j: int|
                0 <= j < self.hyprgraph.spec_neighbors(net).len() ==> (
                #[trigger] self.hyprgraph.spec_neighbors(net)[j]) < self.hyprgraph.spec_num_modules(),
    {
        let g = self.hyprgraph;
        g.lemma_node_counts();
        let j = choose|j: int| 0 <= j < g.spec_neighbors(v).len() && g.spec_neighbors(v)[j] == net;
        assert(g.spec_neighbors(v)[j] < g.spec_num_nodes());
        assert(g.spec_neighbors(net).contains(v) <==> g.spec_neighbors(v).contains(net));
        assert forall|i: int| 0 <= i < g.spec_neighbors(net).len() implies (#[trigger] g.spec_neighbors(
            net,
        )[i]) < g.spec_num_modules() by {
            assert(g.spec_neighbors(net)[i] < g.spec_num_nodes());
        }
    }

    /// The 2-pin update for the net of `move_info`.
    fn update_move_2pin_net(
        &mut self,
        part: &[u8],
        move_info: &MoveInfo<usize>,
        Ghost(b0): Ghost<Seq<BucketQueueView<usize>>>,
        Ghost(e): Ghost<int>,
        Ghost(lim): Ghost<int>,
    )
        requires
            old(self).wf(),
            part@.len() == old(self).hyprgraph.spec_num_modules(),
            valid_part(part@, old(self).num_parts as int),
            old(self).hyprgraph.spec_num_modules() <= move_info.net < old(self).hyprgraph.spec_num_nodes(),
            old(self).hyprgraph.spec_neighbors(move_info.net).len() == 2,
            move_info.from_part < old(self).num_parts,
            move_info.to_part < old(self).num_parts,
            weights_fit(&old(self).hyprgraph),
            old(self).gain_calc.dv_within(i32::MAX - 2 * old(self).hyprgraph.spec_net_weight(move_info.net)),
            keys_near(old(self).buckets(), b0, e, Set::empty(), 0),
            keys_within(b0, lim),
            0 <= e,
            0 <= lim,
            lim + e + 2 * old(self).hyprgraph.spec_net_weight(move_info.net) <= i32::MAX,
        ensures
            final(self).wf(),
            final(self).hyprgraph == old(self).hyprgraph,
            final(self).num_parts == old(self).num_parts,
            final(self).nbrs_buf == old(self).nbrs_buf,
            final(self).waiting_list == old(self).waiting_list,
            exists|r: (usize, GainDelta)|
                #[trigger] old(self).gain_calc.update_2pin_post(final(self).gain_calc, part@, *move_info, r)
                    && final(self).buckets() == apply_delta(
                    old(self).buckets(),
                    old(self).num_parts as int,
                    r.0,
                    part@[r.0 as int],
                    r.1,
                ),
            keys_near(
                final(self).buckets(),
                b0,
                e + 2 * old(self).hyprgraph.spec_net_weight(move_info.net),
                Set::empty(),
                0,
            ),
            forall|l: int|
                #[trigger] old(self).gain_calc.dv_within(l) ==> final(self).gain_calc.dv_within(
                    l + 2 * old(self).hyprgraph.spec_net_weight(move_info.net),
                ),
            locks_kept(old(self).buckets(), final(self).buckets()),
    {
        let ghost x = 2 * self.hyprgraph.spec_net_weight(move_info.net) as int;
        proof {
            lemma_same_weights_fit(&self.gain_calc.calc_graph(), &self.hyprgraph);
        }
        let (w, delta) = self.gain_calc.update_move_2pin_net(part, move_info);
        let part_w = part[self.hyprgraph.module_index(w)];
        proof {
            assert(keys_near(self.buckets(), b0, e, Set::empty(), x));
            lemma_delta_near(self.buckets(), b0, e, Set::empty(), x, self.num_parts as int, w, part_w, delta, lim);
        }
        let ghost r = (w, delta);
        let ghost pre = self.buckets();
        self.modify_key(w, part_w, delta);
        proof {
            lemma_apply_delta_locks(pre, self.num_parts as int, w, part_w, delta);
        }
        proof {
            assert(old(self).gain_calc.update_2pin_post(self.gain_calc, part@, *move_info, r));
            let nb = self.buckets();
            assert forall|k: int| 0 <= k < nb.len() implies bucket_near(#[trigger] nb[k], b0[k], e + x, Set::empty(), 0) by {
                assert(bucket_near(nb[k], b0[k], e, Set::empty().insert(w), x));
            }
        }
    }

    /// Applies the gain deltas `deltas` to the pins collected in the
    /// calculator's `idx_vec`, in order (deltas without a pin are dropped).
    fn apply_neighbor_deltas(
        &mut self,
        part: &[u8],
        deltas: &Vec<GainDelta>,
        Ghost(b0): Ghost<Seq<BucketQueueView<usize>>>,
        Ghost(e): Ghost<int>,
        Ghost(lim): Ghost<int>,
        Ghost(x): Ghost<int>,
    )
        requires
            old(self).wf(),
            part@.len() == old(self).hyprgraph.spec_num_modules(),
            valid_part(part@, old(self).num_parts as int),
            old(self).gain_calc.spec_idx_vec().no_duplicates(),
            forall|i: int|
                0 <= i < old(self).gain_calc.spec_idx_vec().len() ==> (#[trigger] old(
                    self,
                ).gain_calc.spec_idx_vec()[i]) < old(self).hyprgraph.spec_num_modules(),
            forall|i: int|
                0 <= i < deltas@.len() ==> delta_bounded(#[trigger] deltas@[i], x) && (deltas@[i] is Scalar
                    ==> old(self).num_parts == 2),
            keys_near(old(self).buckets(), b0, e, Set::empty(), 0),
            keys_within(b0, lim),
            0 <= e,
            0 <= x,
            0 <= lim,
            lim + e + x <= i32::MAX,
        ensures
            final(self).wf(),
            final(self).hyprgraph == old(self).hyprgraph,
            final(self).gain_calc == old(self).gain_calc,
            final(self).num_parts == old(self).num_parts,
            final(self).nbrs_buf == old(self).nbrs_buf,
            final(self).waiting_list == old(self).waiting_list,
            final(self).buckets() == apply_deltas(
                old(self).buckets(),
                old(self).num_parts as int,
                old(self).gain_calc.spec_idx_vec(),
                part@,
                deltas@,
                deltas@.len() as int,
            ),
            keys_near(final(self).buckets(), b0, e + x, Set::empty(), 0),
            locks_kept(old(self).buckets(), final(self).buckets()),
    {
        let ghost iv = self.gain_calc.spec_idx_vec();
        let ghost bstart = self.buckets();
        let ghost np = self.num_parts as int;
        let n = deltas.len();
        let mut i: usize = 0;
        while i < n
            invariant
                self.wf(),
                self.hyprgraph == old(self).hyprgraph,
                self.gain_calc == old(self).gain_calc,
                self.num_parts == old(self).num_parts,
                self.nbrs_buf == old(self).nbrs_buf,
                self.waiting_list == old(self).waiting_list,
                iv == self.gain_calc.spec_idx_vec(),
                iv.no_duplicates(),
                forall|q: int| 0 <= q < iv.len() ==> (#[trigger] iv[q]) < self.hyprgraph.spec_num_modules(),
                part@.len() == self.hyprgraph.spec_num_modules(),
                valid_part(part@, np),
                np == self.num_parts,
                n == deltas@.len(),
                i <= n,
                forall|q: int|
                    0 <= q < deltas@.len() ==> delta_bounded(#[trigger] deltas@[q], x) && (deltas@[q] is Scalar
                        ==> np == 2),
                bstart == old(self).buckets(),
                self.buckets() == apply_deltas(bstart, np, iv, part@, deltas@, i as int),
                locks_kept(bstart, self.buckets()),
                keys_near(
                    self.buckets(),
                    b0,
                    e,
                    Set::new(|n: usize| exists|q: int| 0 <= q < i && q < iv.len() && iv[q] == n),
                    x,
                ),
                keys_within(b0, lim),
                0 <= e,
                0 <= x,
                0 <= lim,
                lim + e + x <= i32::MAX,
            decreases n - i,
        {
            let ghost t = Set::new(|m: usize| exists|q: int| 0 <= q < i && q < iv.len() && iv[q] == m);
            let ghost t2 = Set::new(|m: usize| exists|q: int| 0 <= q < i + 1 && q < iv.len() && iv[q] == m);
            let len = self.gain_calc.idx_vec().len();
            if i < len {
                let w = self.gain_calc.idx_vec()[i];
                let part_w = part[self.hyprgraph.module_index(w)];
                proof {
                    assert(!t.contains(w)) by {
                        if t.contains(w) {
                            let q = choose|q: int| 0 <= q < i && q < iv.len() && iv[q] == w;
                            assert(iv[q] == iv[i as int]);
                        }
                    }
                    assert(part_w < np);
                    lemma_delta_near(self.buckets(), b0, e, t, x, np, w, part_w, deltas@[i as int], lim);
                    assert(t.insert(w) =~= t2);
                }
                let ghost pre = self.buckets();
                self.apply_gain_delta(w, part_w, &deltas[i]);
                proof {
                    lemma_apply_delta_locks(pre, np, w, part_w, deltas@[i as int]);
                    lemma_locks_kept_trans(bstart, pre, self.buckets());
                }
            } else {
                proof {
                    assert(t =~= t2);
                }
            }
            i = i + 1;
        }
        proof {
            let t = Set::new(|m: usize| exists|q: int| 0 <= q < n && q < iv.len() && iv[q] == m);
            let nb = self.buckets();
            assert forall|k: int| 0 <= k < nb.len() implies bucket_near(#[trigger] nb[k], b0[k], e + x, Set::empty(), 0) by {
                assert(bucket_near(nb[k], b0[k], e, t, x));
            }
        }
    }
}

/// The weight of the nets of a module grows along them.
pub proof fn lemma_nbr_weight_mono<G: Hypergraph>(g: &G, v: usize, i: int, n: int)
    requires
        0 <= i <= n,
    ensures
        0 <= nbr_weight_upto(g, v, i) <= nbr_weight_upto(g, v, n),
    decreases n,
{
    if n > i {
        lemma_nbr_weight_mono(g, v, i, n - 1);
    } else if i > 0 {
        lemma_nbr_weight_mono(g, v, i - 1, i - 1);
    }
}

impl<Gnl: Hypergraph, GainCalc: GainCalcTrait<Gnl>> FMGainMgr<Gnl, GainCalc> {
    /// The 3-pin update for the net of `move_info`, whose other pins the
    /// calculator has collected.
    fn update_move_3pin_net(
        &mut self,
        part: &[u8],
        move_info: &MoveInfo<usize>,
        Ghost(b0): Ghost<Seq<BucketQueueView<usize>>>,
        Ghost(e): Ghost<int>,
        Ghost(lim): Ghost<int>,
    )
        requires
            old(self).wf(),
            part@.len() == old(self).hyprgraph.spec_num_modules(),
            valid_part(part@, old(self).num_parts as int),
            old(self).hyprgraph.spec_num_modules() <= move_info.net < old(self).hyprgraph.spec_num_nodes(),
            old(self).gain_calc.spec_idx_vec().len() == 2,
            old(self).gain_calc.spec_idx_vec().no_duplicates(),
            forall|i: int|
                0 <= i < old(self).gain_calc.spec_idx_vec().len() ==> (#[trigger] old(
                    self,
                ).gain_calc.spec_idx_vec()[i]) < old(self).hyprgraph.spec_num_modules(),
            move_info.from_part < old(self).num_parts,
            move_info.to_part < old(self).num_parts,
            weights_fit(&old(self).hyprgraph),
            old(self).gain_calc.dv_within(i32::MAX - 2 * old(self).hyprgraph.spec_net_weight(move_info.net)),
            keys_near(old(self).buckets(), b0, e, Set::empty(), 0),
            keys_within(b0, lim),
            0 <= e,
            0 <= lim,
            lim + e + 2 * old(self).hyprgraph.spec_net_weight(move_info.net) <= i32::MAX,
        ensures
            final(self).wf(),
            final(self).hyprgraph == old(self).hyprgraph,
            final(self).num_parts == old(self).num_parts,
            final(self).nbrs_buf == old(self).nbrs_buf,
            final(self).waiting_list == old(self).waiting_list,
            exists|r: Seq<GainDelta>|
                #[trigger] old(self).gain_calc.update_3pin_post(final(self).gain_calc, part@, *move_info, r)
                    && final(self).buckets() == apply_deltas(
                    old(self).buckets(),
                    old(self).num_parts as int,
                    old(self).gain_calc.spec_idx_vec(),
                    part@,
                    r,
                    r.len() as int,
                ),
            keys_near(
                final(self).buckets(),
                b0,
                e + 2 * old(self).hyprgraph.spec_net_weight(move_info.net),
                Set::empty(),
                0,
            ),
            forall|l: int|
                #[trigger] old(self).gain_calc.dv_within(l) ==> final(self).gain_calc.dv_within(
                    l + 2 * old(self).hyprgraph.spec_net_weight(move_info.net),
                ),
            locks_kept(old(self).buckets(), final(self).buckets()),
    {
        proof {
            lemma_same_weights_fit(&self.gain_calc.calc_graph(), &self.hyprgraph);
        }
        let ghost c0 = self.gain_calc;
        let deltas = self.gain_calc.update_move_3pin_net(part, move_info);
        self.apply_neighbor_deltas(
            part,
            &deltas,
            Ghost(b0),
            Ghost(e),
            Ghost(lim),
            Ghost(2 * self.hyprgraph.spec_net_weight(move_info.net) as int),
        );
        proof {
            assert(c0.update_3pin_post(self.gain_calc, part@, *move_info, deltas@));
        }
    }

    /// The general-net update for the net of `move_info`, whose other pins the
    /// calculator has collected.
    fn update_move_general_net(
        &mut self,
        part: &[u8],
        move_info: &MoveInfo<usize>,
        Ghost(b0): Ghost<Seq<BucketQueueView<usize>>>,
        Ghost(e): Ghost<int>,
        Ghost(lim): Ghost<int>,
    )
        requires
            old(self).wf(),
            part@.len() == old(self).hyprgraph.spec_num_modules(),
            valid_part(part@, old(self).num_parts as int),
            old(self).hyprgraph.spec_num_modules() <= move_info.net < old(self).hyprgraph.spec_num_nodes(),
            old(self).gain_calc.spec_idx_vec().no_duplicates(),
            forall|i: int|
                0 <= i < old(self).gain_calc.spec_idx_vec().len() ==> (#[trigger] old(
                    self,
                ).gain_calc.spec_idx_vec()[i]) < old(self).hyprgraph.spec_num_modules(),
            move_info.from_part < old(self).num_parts,
            move_info.to_part < old(self).num_parts,
            weights_fit(&old(self).hyprgraph),
            old(self).gain_calc.dv_within(i32::MAX - 2 * old(self).hyprgraph.spec_net_weight(move_info.net)),
            keys_near(old(self).buckets(), b0, e, Set::empty(), 0),
            keys_within(b0, lim),
            0 <= e,
            0 <= lim,
            lim + e + 2 * old(self).hyprgraph.spec_net_weight(move_info.net) <= i32::MAX,
        ensures
            final(self).wf(),
            final(self).hyprgraph == old(self).hyprgraph,
            final(self).num_parts == old(self).num_parts,
            final(self).nbrs_buf == old(self).nbrs_buf,
            final(self).waiting_list == old(self).waiting_list,
            exists|r: Seq<GainDelta>|
                #[trigger] old(self).gain_calc.update_general_post(final(self).gain_calc, part@, *move_info, r)
                    && final(self).buckets() == apply_deltas(
                    old(self).buckets(),
                    old(self).num_parts as int,
                    old(self).gain_calc.spec_idx_vec(),
                    part@,
                    r,
                    r.len() as int,
                ),
            keys_near(
                final(self).buckets(),
                b0,
                e + 2 * old(self).hyprgraph.spec_net_weight(move_info.net),
                Set::empty(),
                0,
            ),
            forall|l: int|
                #[trigger] old(self).gain_calc.dv_within(l) ==> final(self).gain_calc.dv_within(
                    l + 2 * old(self).hyprgraph.spec_net_weight(move_info.net),
                ),
            locks_kept(old(self).buckets(), final(self).buckets()),
    {
        proof {
            lemma_same_weights_fit(&self.gain_calc.calc_graph(), &self.hyprgraph);
        }
        let ghost c0 = self.gain_calc;
        let deltas = self.gain_calc.update_move_general_net(part, move_info);
        self.apply_neighbor_deltas(
            part,
            &deltas,
            Ghost(b0),
            Ghost(e),
            Ghost(lim),
            Ghost(2 * self.hyprgraph.spec_net_weight(move_info.net) as int),
        );
        proof {
            assert(c0.update_general_post(self.gain_calc, part@, *move_info, deltas@));
        }
    }

    /// Updates the gains of the neighbours of `move_info_v.v` for its move
    /// from `from_part` to `to_part`: net by net, the calculator works out
    /// each pin's gain delta and the buckets take it. The buckets' keys must
    /// leave room for twice the weight of the moved vertex's nets.
    pub fn update_move(&mut self, part: &[u8], move_info_v: &MoveInfoV<usize>)
        requires
            old(self).wf(),
            part@.len() == old(self).hyprgraph.spec_num_modules(),
            valid_part(part@, old(self).num_parts as int),
            move_info_v.v < old(self).hyprgraph.spec_num_modules(),
            move_info_v.from_part < old(self).num_parts,
            move_info_v.to_part < old(self).num_parts,
            weights_fit(&old(self).hyprgraph),
            2 * nbr_weight(&old(self).hyprgraph, move_info_v.v) <= i32::MAX,
            keys_within(old(self).buckets(), i32::MAX - 2 * nbr_weight(&old(self).hyprgraph, move_info_v.v)),
        ensures
            final(self).wf(),
            final(self).hyprgraph == old(self).hyprgraph,
            final(self).num_parts == old(self).num_parts,
            final(self).waiting_list == old(self).waiting_list,
            final(self).nbrs_buf@ == old(self).hyprgraph.spec_neighbors(move_info_v.v),
            keys_near(
                final(self).buckets(),
                old(self).buckets(),
                2 * nbr_weight(&old(self).hyprgraph, move_info_v.v),
                Set::empty(),
                0,
            ),
            final(self).gain_calc.dv_within(2 * nbr_weight(&old(self).hyprgraph, move_info_v.v)),
            locks_kept(old(self).buckets(), final(self).buckets()),
            exists|cs: Seq<GainCalc>, bs: Seq<Seq<BucketQueueView<usize>>>|
                #[trigger] move_trace(
                    old(self).hyprgraph,
                    old(self).num_parts as int,
                    part@,
                    *move_info_v,
                    old(self).gain_calc,
                    old(self).buckets(),
                    cs,
                    bs,
                    old(self).hyprgraph.spec_neighbors(move_info_v.v).len() as int,
                ) && final(self).gain_calc == cs.last() && final(self).buckets() == bs.last(),
    {
        let ghost g = self.hyprgraph;
        let ghost np = self.num_parts as int;
        let ghost mv = *move_info_v;
        let ghost c_init = self.gain_calc;
        let ghost b0 = self.buckets();
        let ghost lim = i32::MAX - 2 * nbr_weight(&g, move_info_v.v);
        let ghost nets = g.spec_neighbors(move_info_v.v);
        self.gain_calc.update_move_init();
        let v = move_info_v.v;
        self.nbrs_buf = self.hyprgraph.neighbors(v);
        let num_nbrs = self.nbrs_buf.len();
        let ghost mut cs: Seq<GainCalc> = seq![self.gain_calc];
        let ghost mut bs: Seq<Seq<BucketQueueView<usize>>> = seq![self.buckets()];
        proof {
            lemma_nbr_weight_mono(&g, v, 0, nets.len() as int);
            assert forall|k: int| 0 <= k < b0.len() implies bucket_near(#[trigger] b0[k], b0[k], 0, Set::empty(), 0) by {}
        }
        let mut i: usize = 0;
        while i < num_nbrs
            invariant
                self.wf(),
                self.hyprgraph == g,
                self.num_parts == np,
                self.waiting_list == old(self).waiting_list,
                self.nbrs_buf@ == nets,
                nets == g.spec_neighbors(v),
                v == mv.v,
                mv == *move_info_v,
                v < g.spec_num_modules(),
                mv.from_part < np,
                mv.to_part < np,
                part@.len() == g.spec_num_modules(),
                valid_part(part@, np),
                weights_fit(&g),
                num_nbrs == nets.len(),
                i <= num_nbrs,
                lim == i32::MAX - 2 * nbr_weight(&g, v),
                0 <= lim,
                keys_within(b0, lim),
                b0 == old(self).buckets(),
                c_init == old(self).gain_calc,
                move_trace(g, np, part@, mv, c_init, b0, cs, bs, i as int),
                self.gain_calc == cs.last(),
                self.buckets() == bs.last(),
                keys_near(self.buckets(), b0, 2 * nbr_weight_upto(&g, v, i as int), Set::empty(), 0),
                self.gain_calc.dv_within(2 * nbr_weight_upto(&g, v, i as int)),
                locks_kept(b0, self.buckets()),
            decreases num_nbrs - i,
        {
            let net = self.nbrs_buf[i];
            let ghost w = g.spec_net_weight(net) as int;
            let ghost s = nbr_weight_upto(&g, v, i as int);
            let ghost c_pre = self.gain_calc;
            let ghost b_pre = self.buckets();
            proof {
                assert(nets.contains(net)) by {
                    assert(nets[i as int] == net);
                }
                self.lemma_move_net(v, net);
                lemma_nbr_weight_mono(&g, v, i as int + 1, nets.len() as int);
                lemma_nbr_weight_mono(&g, v, i as int, i as int + 1);
                assert(nbr_weight_upto(&g, v, i as int + 1) == s + w);
                self.gain_calc.lemma_dv_within_mono(2 * s, i32::MAX - 2 * w);
            }
            let degree = self.hyprgraph.degree(net);
            if 2 <= degree && degree <= 65536 {
                let move_info = MoveInfo { net, v, from_part: move_info_v.from_part, to_part: move_info_v.to_part };
                if degree == 2 {
                    self.update_move_2pin_net(part, &move_info, Ghost(b0), Ghost(2 * s), Ghost(lim));
                } else {
                    self.gain_calc.init_idx_vec(v, net);
                    let ghost ci = self.gain_calc;
                    proof {
                        let nb = g.spec_neighbors(net);
                        lemma_pins_except(nb, v, nb.len() as int);
                        assert(nb.subrange(0, nb.len() as int) =~= nb);
                        assert forall|q: int| 0 <= q < ci.spec_idx_vec().len() implies (
                        #[trigger] ci.spec_idx_vec()[q]) < g.spec_num_modules() by {
                            let y = ci.spec_idx_vec()[q];
                            assert(nb.contains(y));
                            let j = choose|j: int| 0 <= j < nb.len() && nb[j] == y;
                            assert(nb[j] < g.spec_num_modules());
                        }
                        self.gain_calc.lemma_dv_within_mono(2 * s, i32::MAX - 2 * w);
                    }
                    if degree == 3 {
                        self.update_move_3pin_net(part, &move_info, Ghost(b0), Ghost(2 * s), Ghost(lim));
                    } else {
                        self.update_move_general_net(part, &move_info, Ghost(b0), Ghost(2 * s), Ghost(lim));
                    }
                    proof {
                        let mi = MoveInfo { net, v: mv.v, from_part: mv.from_part, to_part: mv.to_part };
                        if degree == 3 {
                            let r = choose|r: Seq<GainDelta>|
                                #[trigger] ci.update_3pin_post(self.gain_calc, part@, mi, r) && self.buckets()
                                    == apply_deltas(b_pre, np, ci.spec_idx_vec(), part@, r, r.len() as int);
                            assert(c_pre.init_idx_vec_post(ci, mv.v, net));
                            assert(net_update(g, np, part@, mv, net, c_pre, b_pre, self.gain_calc, self.buckets()));
                        } else {
                            let r = choose|r: Seq<GainDelta>|
                                #[trigger] ci.update_general_post(self.gain_calc, part@, mi, r) && self.buckets()
                                    == apply_deltas(b_pre, np, ci.spec_idx_vec(), part@, r, r.len() as int);
                            assert(c_pre.init_idx_vec_post(ci, mv.v, net));
                            assert(net_update(g, np, part@, mv, net, c_pre, b_pre, self.gain_calc, self.buckets()));
                        }
                    }
                }
            } else {
                proof {
                    assert(keys_near(self.buckets(), b0, 2 * (s + w), Set::empty(), 0)) by {
                        let nb = self.buckets();
                        assert forall|k: int| 0 <= k < nb.len() implies bucket_near(#[trigger] nb[k], b0[k], 2 * (s + w), Set::empty(), 0) by {
                            assert(bucket_near(nb[k], b0[k], 2 * s, Set::empty(), 0));
                        }
                    }
                    self.gain_calc.lemma_dv_within_mono(2 * s, 2 * (s + w));
                }
            }
            proof {
                lemma_locks_kept_trans(b0, b_pre, self.buckets());
                assert(net_update(g, np, part@, mv, net, c_pre, b_pre, self.gain_calc, self.buckets()));
                let cs2 = cs.push(self.gain_calc);
                let bs2 = bs.push(self.buckets());
                assert forall|q: int| #![trigger nets[q]] 0 <= q < i + 1 implies net_update(
                    g,
                    np,
                    part@,
                    mv,
                    nets[q],
                    cs2[q],
                    bs2[q],
                    cs2[q + 1],
                    bs2[q + 1],
                ) by {
                    if q < i {
                        assert(cs2[q] == cs[q] && cs2[q + 1] == cs[q + 1]);
                        assert(bs2[q] == bs[q] && bs2[q + 1] == bs[q + 1]);
                    }
                }
                cs = cs2;
                bs = bs2;
            }
            i = i + 1;
        }
    }
}

/// The keys of the entries match their buckets.
pub open spec fn keys_match<Node>(v: BucketQueueView<Node>) -> bool {
    forall|i: int, j: int|
        0 <= i < v.buckets.len() && 0 <= j < v.buckets[i].len() ==> (#[trigger] v.buckets[i][j]).0 == v.offset
            + i
}

/// In a tidy queue the search for the maximum finds the highest bucket that
/// holds a fresh entry: no fresh entry has a larger key than the one found.
pub proof fn law_tidy_max<Node>(v: BucketQueueView<Node>)
    requires
        v.tidy(),
        -1 <= v.cursor < v.buckets.len(),
    ensures
        v.top_from(v.cursor) == v.top(),
        forall|i: int, j: int|
            0 <= i < v.buckets.len() && 0 <= j < v.buckets[i].len() && #[trigger] v.is_fresh(v.buckets[i][j])
                ==> i <= v.top_from(v.cursor),
{
    let c = v.top_from(v.cursor);
    lemma_top_from_props(v, v.cursor);
    assert forall|k: int| c < k <= v.buckets.len() - 1 implies !(#[trigger] v.has_fresh(k)) by {}
    lemma_top_from(v, v.buckets.len() - 1, c);
    assert forall|i: int, j: int|
        0 <= i < v.buckets.len() && 0 <= j < v.buckets[i].len() && #[trigger] v.is_fresh(v.buckets[i][j])
            implies i <= c by {
        assert(v.has_fresh(i));
    }
}

/// Queueing an entry (`push`, `modify_key`) keeps a queue tidy.
pub proof fn law_tidy_with_entry<Node>(v: BucketQueueView<Node>, key: i32, node: Node)
    requires
        v.tidy(),
        keys_match(v),
        -1 <= v.cursor < v.buckets.len(),
    ensures
        v.with_entry(key, node).tidy(),
{
    let w = v.with_entry(key, node);
    assert forall|i: int| w.cursor < i < w.buckets.len() implies !(#[trigger] w.has_fresh(i)) by {
        if w.has_fresh(i) {
            let j = choose|j: int| 0 <= j < w.buckets[i].len() && #[trigger] w.is_fresh(w.buckets[i][j]);
            let e = w.buckets[i][j];
            if v.in_range(key as int) {
                assert(i != key - v.offset);
            }
            assert(e == v.buckets[i][j]);
            assert(e.0 == v.offset + i);
            if e.1 == node {
                assert(w.keys[node] == key);
            } else {
                assert(v.is_fresh(e));
                assert(v.has_fresh(i));
            }
        }
    }
}

/// Locking or removing a node keeps a queue tidy.
pub proof fn law_tidy_remove<Node>(v: BucketQueueView<Node>, node: Node)
    requires
        v.tidy(),
    ensures
        (BucketQueueView { present: v.present.remove(node), locked: v.locked.insert(node), ..v }).tidy(),
        (BucketQueueView { present: v.present.remove(node), ..v }).tidy(),
{
    let w1 = BucketQueueView { present: v.present.remove(node), locked: v.locked.insert(node), ..v };
    let w2 = BucketQueueView { present: v.present.remove(node), ..v };
    assert forall|i: int| w1.cursor < i < w1.buckets.len() implies !(#[trigger] w1.has_fresh(i)) by {
        if w1.has_fresh(i) {
            let j = choose|j: int| 0 <= j < w1.buckets[i].len() && #[trigger] w1.is_fresh(w1.buckets[i][j]);
            assert(v.is_fresh(v.buckets[i][j]));
            assert(v.has_fresh(i));
        }
    }
    assert forall|i: int| w2.cursor < i < w2.buckets.len() implies !(#[trigger] w2.has_fresh(i)) by {
        if w2.has_fresh(i) {
            let j = choose|j: int| 0 <= j < w2.buckets[i].len() && #[trigger] w2.is_fresh(w2.buckets[i][j]);
            assert(v.is_fresh(v.buckets[i][j]));
            assert(v.has_fresh(i));
        }
    }
}

/// The search for the maximum keeps a queue tidy.
pub proof fn law_tidy_refreshed<Node>(v: BucketQueueView<Node>)
    requires
        v.tidy(),
        -1 <= v.cursor < v.buckets.len(),
    ensures
        v.refreshed().tidy(),
{
    lemma_top_from_props(v, v.cursor);
    let w = v.refreshed();
    assert forall|i: int| w.cursor < i < w.buckets.len() implies !(#[trigger] w.has_fresh(i)) by {
        if w.has_fresh(i) {
            let j = choose|j: int| 0 <= j < w.buckets[i].len() && #[trigger] w.is_fresh(w.buckets[i][j]);
            assert(v.is_fresh(v.buckets[i][j]));
            assert(v.has_fresh(i));
        }
    }
}

/// Taking the maximum (`popleft`) keeps a tidy queue tidy.
pub proof fn law_tidy_after_pop<Node>(v: BucketQueueView<Node>)
    requires
        v.tidy(),
        -1 <= v.cursor < v.buckets.len(),
        v.top_from(v.cursor) >= 0,
    ensures
        v.after_pop().tidy(),
{
    let t = v.top_from(v.cursor);
    let j = v.last_fresh(t);
    law_tidy_max(v);
    lemma_top_from_props(v, v.cursor);
    let m = BucketQueueView {
        buckets: v.buckets.update(t, v.buckets[t].take(j)),
        present: v.present.remove(v.buckets[t][j].1),
        cursor: t,
        ..v
    };
    assert forall|i: int| m.cursor < i < m.buckets.len() implies !(#[trigger] m.has_fresh(i)) by {
        if m.has_fresh(i) {
            let k = choose|k: int| 0 <= k < m.buckets[i].len() && #[trigger] m.is_fresh(m.buckets[i][k]);
            assert(m.buckets[i] == v.buckets[i]);
            assert(v.is_fresh(v.buckets[i][k]));
        }
    }
    law_tidy_refreshed(m);
}

/// An emptied queue is tidy.
pub proof fn law_tidy_cleared<Node>(v: BucketQueueView<Node>)
    ensures
        v.cleared().tidy(),
{
    let w = v.cleared();
    assert forall|i: int| w.cursor < i < w.buckets.len() implies !(#[trigger] w.has_fresh(i)) by {
        assert(w.buckets[i].len() == 0);
    }
}

/// The interface through which a partition manager drives a gain manager.
///
/// Each `*_ready` function says when the corresponding call is allowed; the
/// implementations state the exact effect of each call.
pub trait GainMgrInterface<Gnl: Hypergraph>: Sized {
    /// The manager's invariant.
    spec fn mgr_wf(&self) -> bool;

    /// The number of parts the manager keeps buckets for.
    spec fn mgr_num_parts(&self) -> nat;

    /// `init` may be called with `part`.
    spec fn init_ready(&self, part: Seq<u8>) -> bool;

    /// `select` may be called with `part`.
    spec fn select_ready(&self, part: Seq<u8>) -> bool;

    /// `select_togo` may be called for `to_part`.
    spec fn select_togo_ready(&self, to_part: u8) -> bool;

    /// `update_move` may be called for this move.
    spec fn update_move_ready(&self, part: Seq<u8>, move_info_v: MoveInfoV<usize>) -> bool;

    /// `update_move_v` may be called for this move and gain.
    spec fn update_move_v_ready(&self, move_info_v: MoveInfoV<usize>, gain: i32) -> bool;

    /// `lock` may be called for `v` in `which_part`.
    spec fn lock_ready(&self, which_part: u8, v: usize) -> bool;

    /// Compute the initial gains of `part` and fill the buckets; returns the
    /// cut cost.
    fn init(&mut self, part: &[u8]) -> (r: i32)
        requires
            old(self).init_ready(part@),
        ensures
            final(self).mgr_wf(),
            final(self).mgr_num_parts() == old(self).mgr_num_parts(),
    ;

    /// Whether every bucket is empty.
    fn is_empty(&self) -> (r: bool)
        requires
            self.mgr_wf(),
    ;

    /// Whether the bucket of moves towards `to_part` is empty.
    fn is_empty_togo(&self, to_part: u8) -> (r: bool)
        requires
            self.mgr_wf(),
            to_part < self.mgr_num_parts(),
    ;

    /// Take the move with the largest gain.
    fn select(&mut self, part: &[u8]) -> (r: (MoveInfoV<usize>, i32))
        requires
            old(self).select_ready(part@),
        ensures
            final(self).mgr_wf(),
            final(self).mgr_num_parts() == old(self).mgr_num_parts(),
    ;

    /// Take the best move towards `to_part`.
    fn select_togo(&mut self, to_part: u8) -> (r: (usize, i32))
        requires
            old(self).select_togo_ready(to_part),
        ensures
            final(self).mgr_wf(),
            final(self).mgr_num_parts() == old(self).mgr_num_parts(),
    ;

    /// Update the gains of the neighbours of a moved vertex.
    fn update_move(&mut self, part: &[u8], move_info_v: &MoveInfoV<usize>)
        requires
            old(self).update_move_ready(part@, *move_info_v),
        ensures
            final(self).mgr_wf(),
            final(self).mgr_num_parts() == old(self).mgr_num_parts(),
    ;

    /// Update the gains of the moved vertex itself.
    fn update_move_v(&mut self, move_info_v: &MoveInfoV<usize>, gain: i32)
        requires
            old(self).update_move_v_ready(*move_info_v, gain),
        ensures
            final(self).mgr_wf(),
            final(self).mgr_num_parts() == old(self).mgr_num_parts(),
    ;

    /// Lock a moved vertex.
    fn lock(&mut self, which_part: u8, v: usize)
        requires
            old(self).lock_ready(which_part, v),
        ensures
            final(self).mgr_wf(),
            final(self).mgr_num_parts() == old(self).mgr_num_parts(),
    ;
}

impl<Gnl: Hypergraph, GainCalc: GainCalcTrait<Gnl>> GainMgrInterface<Gnl> for FMGainMgr<Gnl, GainCalc> {
    open spec fn mgr_wf(&self) -> bool {
        self.wf()
    }

    open spec fn mgr_num_parts(&self) -> nat {
        self.num_parts as nat
    }

    open spec fn init_ready(&self, part: Seq<u8>) -> bool {
        &&& self.wf()
        &&& part.len() == self.hyprgraph.spec_num_modules()
        &&& valid_part(part, self.num_parts as int)
        &&& weights_fit(&self.hyprgraph)
    }

    open spec fn select_ready(&self, part: Seq<u8>) -> bool {
        &&& self.wf()
        &&& part.len() == self.hyprgraph.spec_num_modules()
        &&& self.num_parts >= 1
        &&& self.hyprgraph.spec_num_modules() >= 1
    }

    open spec fn select_togo_ready(&self, to_part: u8) -> bool {
        &&& self.wf()
        &&& to_part < self.num_parts
        &&& self.buckets()[to_part as int].refreshed().cursor >= 0
    }

    open spec fn update_move_ready(&self, part: Seq<u8>, move_info_v: MoveInfoV<usize>) -> bool {
        &&& self.wf()
        &&& part.len() == self.hyprgraph.spec_num_modules()
        &&& valid_part(part, self.num_parts as int)
        &&& move_info_v.v < self.hyprgraph.spec_num_modules()
        &&& move_info_v.from_part < self.num_parts
        &&& move_info_v.to_part < self.num_parts
        &&& weights_fit(&self.hyprgraph)
        &&& 2 * nbr_weight(&self.hyprgraph, move_info_v.v) <= i32::MAX
        &&& keys_within(self.buckets(), i32::MAX - 2 * nbr_weight(&self.hyprgraph, move_info_v.v))
    }

    open spec fn update_move_v_ready(&self, move_info_v: MoveInfoV<usize>, gain: i32) -> bool {
        &&& self.wf()
        &&& move_info_v.from_part < self.num_parts
        &&& move_info_v.v < self.hyprgraph.spec_num_modules()
        &&& gain > i32::MIN
        &&& self.num_parts != 2 ==> forall|k: int|
            0 <= k < self.num_parts && k != move_info_v.from_part && k != move_info_v.to_part
                && k < self.gain_calc.spec_delta_gain_v().len()
                && self.gain_calc.spec_delta_gain_v()[k] != 0 ==> (#[trigger] self.buckets()[k]).key_fits(
                self.gain_calc.spec_delta_gain_v()[k] as int,
                move_info_v.v,
            )
    }

    open spec fn lock_ready(&self, which_part: u8, v: usize) -> bool {
        &&& self.wf()
        &&& self.num_parts != 2 ==> which_part < self.num_parts
    }

    fn init(&mut self, part: &[u8]) -> (r: i32)
        ensures
            final(self).wf(),
            final(self).hyprgraph == old(self).hyprgraph,
            final(self).num_parts == old(self).num_parts,
            final(self).nbrs_buf == old(self).nbrs_buf,
            final(self).waiting_list@ == Seq::<usize>::empty(),
            old(self).gain_calc.init_post(final(self).gain_calc, part@, r),
            final(self).gain_calc.populate_post(
                part@,
                Seq::new(old(self).hyprgraph.spec_num_modules(), |i: int| i as usize),
                Seq::new(old(self).buckets().len(), |k: int| old(self).buckets()[k].cleared()),
                final(self).buckets(),
            ),
    {
        FMGainMgr::<Gnl, GainCalc>::init(self, part)
    }

    fn is_empty(&self) -> (r: bool)
        ensures
            r == (forall|k: int| 0 <= k < self.num_parts ==> (#[trigger] self.buckets()[k]).present.is_empty()),
    {
        FMGainMgr::<Gnl, GainCalc>::is_empty(self)
    }

    fn is_empty_togo(&self, to_part: u8) -> (r: bool)
        ensures
            r == self.buckets()[to_part as int].present.is_empty(),
    {
        FMGainMgr::<Gnl, GainCalc>::is_empty_togo(self, to_part)
    }

    fn select(&mut self, part: &[u8]) -> (r: (MoveInfoV<usize>, i32))
        ensures
            final(self).wf(),
            final(self).hyprgraph == old(self).hyprgraph,
            final(self).gain_calc == old(self).gain_calc,
            final(self).num_parts == old(self).num_parts,
            final(self).nbrs_buf == old(self).nbrs_buf,
            final(self).waiting_list == old(self).waiting_list,
            ({
                let rb = old(self).refreshed_buckets();
                let best = best_bucket(rb, rb.len() as int);
                &&& r.0.to_part == best
                &&& if rb[best].cursor >= 0 {
                    let e = rb[best].popped_entry();
                    &&& r.0.v == e.1
                    &&& r.1 == e.0
                    &&& final(self).buckets() == rb.update(best, rb[best].after_pop())
                } else {
                    &&& r.0.v == 0
                    &&& r.1 == sentinel_gain()
                    &&& final(self).buckets() == rb
                }
                &&& r.0.from_part == part@[r.0.v as int]
            }),
    {
        FMGainMgr::<Gnl, GainCalc>::select(self, part)
    }

    fn select_togo(&mut self, to_part: u8) -> (r: (usize, i32))
        ensures
            final(self).wf(),
            final(self).hyprgraph == old(self).hyprgraph,
            final(self).gain_calc == old(self).gain_calc,
            final(self).num_parts == old(self).num_parts,
            final(self).nbrs_buf == old(self).nbrs_buf,
            final(self).waiting_list == old(self).waiting_list,
            r.0 == old(self).buckets()[to_part as int].popped_entry().1,
            r.1 == old(self).buckets()[to_part as int].popped_entry().0,
            final(self).buckets() == old(self).buckets().update(
                to_part as int,
                old(self).buckets()[to_part as int].after_pop(),
            ),
    {
        FMGainMgr::<Gnl, GainCalc>::select_togo(self, to_part)
    }

    fn update_move(&mut self, part: &[u8], move_info_v: &MoveInfoV<usize>)
        ensures
            final(self).wf(),
            final(self).hyprgraph == old(self).hyprgraph,
            final(self).num_parts == old(self).num_parts,
            final(self).waiting_list == old(self).waiting_list,
            final(self).nbrs_buf@ == old(self).hyprgraph.spec_neighbors(move_info_v.v),
            exists|cs: Seq<GainCalc>, bs: Seq<Seq<BucketQueueView<usize>>>|
                #[trigger] move_trace(
                    old(self).hyprgraph,
                    old(self).num_parts as int,
                    part@,
                    *move_info_v,
                    old(self).gain_calc,
                    old(self).buckets(),
                    cs,
                    bs,
                    old(self).hyprgraph.spec_neighbors(move_info_v.v).len() as int,
                ) && final(self).gain_calc == cs.last() && final(self).buckets() == bs.last(),
    {
        FMGainMgr::<Gnl, GainCalc>::update_move(self, part, move_info_v)
    }

    fn update_move_v(&mut self, move_info_v: &MoveInfoV<usize>, gain: i32)
        ensures
            final(self).wf(),
            final(self).hyprgraph == old(self).hyprgraph,
            final(self).gain_calc == old(self).gain_calc,
            final(self).num_parts == old(self).num_parts,
            final(self).nbrs_buf == old(self).nbrs_buf,
            final(self).waiting_list == old(self).waiting_list,
            ({
                let dv = old(self).gain_calc.spec_delta_gain_v();
                let from = move_info_v.from_part as int;
                let mid = if old(self).num_parts == 2 {
                    old(self).buckets()
                } else {
                    Seq::new(
                        old(self).buckets().len(),
                        |k: int|
                            if k != from && k != move_info_v.to_part && k < dv.len() && dv[k] != 0 {
                                old(self).buckets()[k].modified(dv[k], move_info_v.v)
                            } else {
                                old(self).buckets()[k]
                            },
                    )
                };
                final(self).buckets() == mid.update(
                    from,
                    BucketQueueView { keys: mid[from].keys.insert(move_info_v.v, (-gain) as i32), ..mid[from] },
                )
            }),
    {
        FMGainMgr::<Gnl, GainCalc>::update_move_v(self, move_info_v, gain)
    }

    fn lock(&mut self, which_part: u8, v: usize)
        ensures
            final(self).wf(),
            final(self).hyprgraph == old(self).hyprgraph,
            final(self).gain_calc == old(self).gain_calc,
            final(self).num_parts == old(self).num_parts,
            final(self).nbrs_buf == old(self).nbrs_buf,
            final(self).waiting_list == old(self).waiting_list,
            final(self).buckets() == Seq::new(
                old(self).buckets().len(),
                |k: int|
                    if old(self).num_parts == 2 || k == which_part {
                        BucketQueueView {
                            present: old(self).buckets()[k].present.remove(v),
                            locked: old(self).buckets()[k].locked.insert(v),
                            ..old(self).buckets()[k]
                        }
                    } else {
                        old(self).buckets()[k]
                    },
            ),
    {
        FMGainMgr::<Gnl, GainCalc>::lock(self, which_part, v)
    }
}

/// The no-nonsense gain manager: the FM gain manager driven without its
/// waiting list. Its `select` is only called while a bucket holds a move.
pub type NNGainMgr<Gnl, GainCalc> = FMGainMgr<Gnl, GainCalc>;

} // verus!
