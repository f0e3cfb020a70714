//! Bounded priority queue with integer keys in `a ..= b`, kept as an array of
//! doubly linked bucket lists, one per key.
//!
//! The queue keeps its links in one arena: the heads of the buckets
//! `0 ..= high` come first, then one link per item. Bucket `k` holds the
//! items whose internal key is `k`, that is whose key is `k + offset`;
//! bucket 0 stays empty. `max` is the highest nonempty bucket (0 when the
//! queue is empty), so the maximum is found in constant time.
use vstd::prelude::*;
use crate::dllist::{
    Dllink,
    list_ok,
    lemma_list_linked,
    lemma_list_frame,
    law_appendleft,
    law_append,
    law_popleft,
    law_detach,
    pos_slot,
    lemma_pos_slot,
    slots_ok,
    next_of,
};

verus! {

/// The highest nonempty list among `lists[1 ..= b]`, 0 when there is none.
pub open spec fn top_nonempty(lists: Seq<Seq<usize>>, b: int) -> int
    decreases b,
{
    if b <= 0 {
        0
    } else if lists[b].len() > 0 {
        b
    } else {
        top_nonempty(lists, b - 1)
    }
}

/// The position of `j` in `s`.
pub open spec fn index_in(s: Seq<usize>, j: usize) -> int {
    choose|i: int| 0 <= i < s.len() && s[i] == j
}

/// The items of `lists[b]`, `lists[b - 1]`, ..., `lists[1]`, each list from
/// front to back.
pub open spec fn items_from(lists: Seq<Seq<usize>>, b: int) -> Seq<usize>
    decreases b,
{
    if b <= 0 {
        Seq::empty()
    } else {
        lists[b] + items_from(lists, b - 1)
    }
}

/// The abstract state of a [`BPQueue`].
///
/// `lists[k]` holds the items of bucket `k` from front to back; `keys[j]` is
/// the internal key of item `j` (its key minus `offset`); `locked` the items
/// that are locked.
pub struct BPQueueView {
    pub max: int,
    pub offset: int,
    pub high: int,
    pub lists: Seq<Seq<usize>>,
    pub keys: Seq<i32>,
    pub locked: Set<usize>,
}

impl BPQueueView {
    /// The number of items the queue has links for.
    pub open spec fn num_items(self) -> nat {
        self.keys.len()
    }

    /// Item `j` is in a bucket (the one of its internal key).
    pub open spec fn queued(self, j: usize) -> bool {
        &&& j < self.keys.len()
        &&& 1 <= self.keys[j as int] <= self.high
        &&& self.lists[self.keys[j as int] as int].contains(j)
    }

    /// The lists with item `j` taken out of bucket `b`.
    pub open spec fn without(self, b: int, j: usize) -> Seq<Seq<usize>> {
        self.lists.update(b, self.lists[b].remove(index_in(self.lists[b], j)))
    }

    /// The state after queueing `items` one after the other, each at the back
    /// of the bucket of its stored key read as a key (`max` left as it is).
    pub open spec fn appended(self, items: Seq<usize>) -> BPQueueView
        decreases items.len(),
    {
        if items.len() == 0 {
            self
        } else {
            let v = self.appended(items.drop_last());
            let x = items.last();
            let d = v.keys[x as int] - v.offset;
            BPQueueView {
                lists: v.lists.update(d, v.lists[d].push(x)),
                keys: v.keys.update(x as int, d as i32),
                locked: v.locked.remove(x),
                ..v
            }
        }
    }

    /// The lists with the queued item `j` moved to the back of bucket `d`.
    pub open spec fn moved_back(self, j: usize, d: int) -> Seq<Seq<usize>> {
        let l = self.without(self.keys[j as int] as int, j);
        l.update(d, l[d].push(j))
    }

    /// The lists with the queued item `j` moved to the front of bucket `d`.
    pub open spec fn moved_front(self, j: usize, d: int) -> Seq<Seq<usize>> {
        let l = self.without(self.keys[j as int] as int, j);
        l.update(d, seq![j] + l[d])
    }
}

/// Bounded priority queue over the items `0 .. n` with keys in `a ..= b`.
pub struct BPQueue {
    max: usize,
    offset: i32,
    high: usize,
    bucket: Vec<Dllink<i32>>,
    lists: Ghost<Seq<Seq<usize>>>,
}

impl View for BPQueue {
    type V = BPQueueView;

    closed spec fn view(&self) -> BPQueueView {
        BPQueueView {
            max: self.max as int,
            offset: self.offset as int,
            high: self.high as int,
            lists: self.lists@,
            keys: Seq::new(
                (self.bucket@.len() - self.high - 1) as nat,
                |j: int| self.bucket@[self.high + 1 + j].data,
            ),
            locked: Set::new(
                |j: usize| j < self.bucket@.len() - self.high - 1 && self.bucket@[self.high + 1 + j].next is None,
            ),
        }
    }
}

impl BPQueue {
    /// The queue's invariant.
    pub closed spec fn wf(&self) -> bool {
        &&& self.wf_links()
        &&& self.max == top_nonempty(self.lists@, self.high as int)
    }

    /// The invariant of the links and the lists, `max` aside.
    closed spec fn wf_links(&self) -> bool {
        let h = self.high as int;
        let links = self.bucket@;
        let lists = self.lists@;
        &&& 1 <= h <= i32::MAX
        &&& h + 1 <= links.len() <= usize::MAX
        &&& self.offset + h <= i32::MAX
        &&& slots_ok(links)
        &&& lists.len() == h + 1
        &&& lists[0].len() == 0
        &&& forall|b: int| 0 <= b <= h ==> list_ok(links, b, #[trigger] lists[b], h + 1)
        &&& forall|b: int, i: int|
            0 <= b <= h && 0 <= i < lists[b].len() ==> links[h + 1 + #[trigger] lists[b][i]].data == b
    }

    /// The slot of item `j` in the arena.
    #[verifier::inline]
    closed spec fn item_slot(&self, j: int) -> int {
        self.high + 1 + j
    }

    /// A queue for keys `a ..= b` over the items `0 .. n`, all empty; every
    /// item has internal key 0 and is neither queued nor locked.
    pub fn new(a: i32, b: i32, n: usize) -> (r: Self)
        requires
            i32::MIN < a <= b,
            b - a < i32::MAX,
            (b - a + 2) + n <= usize::MAX,
        ensures
            r.wf(),
            r@.max == 0,
            r@.offset == a - 1,
            r@.high == b - a + 1,
            r@.lists == Seq::new((b - a + 2) as nat, |k: int| Seq::<usize>::empty()),
            r@.keys == Seq::new(n as nat, |j: int| 0i32),
            r@.locked == Set::<usize>::empty(),
    {
        let offset = a - 1;
        let high = (b - offset) as usize;
        let total = high + 1 + n;
        let mut bucket: Vec<Dllink<i32>> = Vec::new();
        let mut i: usize = 0;
        while i < total
            invariant
                i <= total,
                bucket@.len() == i,
                forall|k: int|
                    0 <= k < i ==> (#[trigger] bucket@[k]) == (Dllink {
                        next: Some(k as usize),
                        prev: Some(k as usize),
                        slot: k as usize,
                        data: 0i32,
                    }),
            decreases total - i,
        {
            bucket.push(Dllink::new(i, 0));
            i = i + 1;
        }
        let ghost lists = Seq::new((high + 1) as nat, |k: int| Seq::<usize>::empty());
        let r = BPQueue { max: 0, offset, high, bucket, lists: Ghost(lists) };
        proof {
            reveal(pos_slot);
            assert forall|b: int| 0 <= b <= high implies list_ok(r.bucket@, b, #[trigger] r.lists@[b], high + 1) by {
                assert(r.lists@[b] == Seq::<usize>::empty());
            }
            lemma_top_empty(lists, high as int);
            assert(r@.keys =~= Seq::new(n as nat, |j: int| 0i32));
            assert(r@.locked =~= Set::<usize>::empty());
        }
        r
    }

    /// Whether the queue is empty.
    pub fn is_empty(&self) -> (r: bool)
        requires
            self.wf(),
        ensures
            r == (self@.max == 0),
            r == (forall|k: int| 0 <= k <= self@.high ==> (#[trigger] self@.lists[k]).len() == 0),
    {
        proof {
            reveal(pos_slot);
            if self.max == 0 {
                assert forall|k: int| 0 <= k <= self@.high implies (#[trigger] self@.lists[k]).len() == 0 by {
                    if k > 0 {
                        lemma_top_zero(self.lists@, self.high as int, k);
                    }
                }
            } else {
                lemma_top_props(self.lists@, self.high as int);
                assert(self@.lists[self.max as int].len() > 0);
            }
        }
        self.max == 0
    }

    /// The largest key in the queue; `offset` when it is empty.
    pub fn get_max(&self) -> (r: i32)
        requires
            self.wf(),
        ensures
            r == self@.max + self@.offset,
    {
        proof {
            reveal(pos_slot);
            lemma_top_props(self.lists@, self.high as int);
        }
        self.max as i32 + self.offset
    }
    /// The bucket lists other than bucket `d` are kept when only the head of
    /// `d`, the items of bucket `d` and the unqueued item `x` change.
    proof fn lemma_other_lists(&self, new_links: Seq<Dllink<i32>>, d: int, x: usize)
        requires
            self.wf_links(),
            0 <= d <= self.high,
            new_links.len() == self.bucket@.len(),
            !self@.queued(x) || self@.keys[x as int] == d,
            forall|k: int|
                0 <= k <= self.high && k != d ==> new_links[k] == #[trigger] self.bucket@[k],
            forall|j: int|
                0 <= j < self@.num_items() && j != x && !self.lists@[d].contains(j as usize) ==> new_links[self.high
                    + 1 + j] == #[trigger] self.bucket@[self.high + 1 + j],
        ensures
            forall|k: int|
                0 <= k <= self.high && k != d ==> list_ok(new_links, k, #[trigger] self.lists@[k], self.high + 1),
    {
        reveal(pos_slot);
        let h = self.high as int;
        assert forall|k: int| 0 <= k <= h && k != d implies list_ok(new_links, k, #[trigger] self.lists@[k], h + 1) by {
            let s = self.lists@[k];
            assert(list_ok(self.bucket@, k, s, h + 1));
            assert forall|i: int| #![trigger s[i]] 0 <= i < s.len() implies new_links[h + 1 + s[i]]
                == self.bucket@[h + 1 + s[i]] by {
                let j = s[i];
                assert(self.bucket@[h + 1 + j].data == k);
                if self.lists@[d].contains(j) {
                    let i2 = choose|i2: int| 0 <= i2 < self.lists@[d].len() && self.lists@[d][i2] == j;
                    assert(self.bucket@[h + 1 + self.lists@[d][i2]].data == d);
                }
                if j == x {
                    assert(self@.keys[x as int] == k);
                    assert(self@.lists[k].contains(x));
                    assert(self@.queued(x));
                }
            }
            lemma_list_frame(self.bucket@, new_links, k, s, h + 1);
        }
    }

    /// Empty the queue.
    pub fn clear(&mut self)
        requires
            old(self).wf(),
        ensures
            final(self).wf(),
            final(self)@ == (BPQueueView {
                max: 0,
                lists: Seq::new(old(self)@.lists.len(), |k: int| Seq::<usize>::empty()),
                ..old(self)@
            }),
    {
        let ghost h = self.high as int;
        proof {
            reveal(pos_slot);
            lemma_top_props(self.lists@, h);
        }
        let mut b = self.max;
        while b > 0
            invariant
                self.wf_links(),
                b <= self.high,
                self.high == old(self).high,
                self.offset == old(self).offset,
                self.bucket@.len() == old(self).bucket@.len(),
                forall|j: int|
                    self.high < j < self.bucket@.len() ==> #[trigger] self.bucket@[j] == old(self).bucket@[j],
                self.lists@.len() == old(self).lists@.len(),
                forall|k: int| 0 <= k <= b ==> #[trigger] self.lists@[k] == old(self).lists@[k],
                forall|k: int| b < k <= self.high ==> (#[trigger] self.lists@[k]).len() == 0,
            decreases b,
        {
            let mut l = self.bucket[b];
            l.clear();
            let ghost pre = *self;
            self.bucket.set(b, l);
            self.lists = Ghost(self.lists@.update(b as int, Seq::empty()));
            proof {
                reveal(pos_slot);
                let h = self.high as int;
                assert(pre.lists@[0].len() == 0);
                assert forall|k: int| 0 <= k <= h && k != b implies list_ok(
                    self.bucket@,
                    k,
                    #[trigger] self.lists@[k],
                    h + 1,
                ) by {
                    let s = pre.lists@[k];
                    assert(list_ok(pre.bucket@, k, s, h + 1));
                    assert forall|i: int| #![trigger s[i]] 0 <= i < s.len() implies self.bucket@[h + 1 + s[i]]
                        == pre.bucket@[h + 1 + s[i]] by {}
                    lemma_list_frame(pre.bucket@, self.bucket@, k, s, h + 1);
                }
                assert(list_ok(self.bucket@, b as int, self.lists@[b as int], h + 1));
            }
            b = b - 1;
        }
        self.max = 0;
        proof {
            reveal(pos_slot);
            lemma_top_empty(self.lists@, h);
            assert forall|k: int| 0 <= k < self.lists@.len() implies #[trigger] self.lists@[k] =~= Seq::<
                usize,
            >::empty() by {
                if k == 0 {
                    assert(self.lists@[0] == old(self).lists@[0]);
                }
            }
            assert(self.lists@ =~= Seq::new(old(self)@.lists.len(), |k: int| Seq::<usize>::empty()));
            assert(self@.keys =~= old(self)@.keys);
            assert(self@.locked =~= old(self)@.locked);
        }
    }

    /// Write the key of item `it` without queueing it.
    pub fn set_key(&mut self, it: usize, gain: i32)
        requires
            old(self).wf(),
            it < old(self)@.num_items(),
            !old(self)@.queued(it),
            i32::MIN <= gain - old(self)@.offset <= i32::MAX,
        ensures
            final(self).wf(),
            final(self)@ == (BPQueueView {
                keys: old(self)@.keys.update(it as int, (gain - old(self)@.offset) as i32),
                ..old(self)@
            }),
    {
        let slot = self.high + 1 + it;
        let mut l = self.bucket[slot];
        l.data = gain - self.offset;
        let ghost pre = *self;
        self.bucket.set(slot, l);
        proof {
            reveal(pos_slot);
            let h = self.high as int;
            pre.lemma_other_lists(self.bucket@, 0, it);
            assert(list_ok(self.bucket@, 0, self.lists@[0], h + 1)) by {
                assert(self.lists@[0].len() == 0);
            }
            assert forall|b: int, i: int|
                0 <= b <= h && 0 <= i < self.lists@[b].len() implies self.bucket@[h + 1
                    + #[trigger] self.lists@[b][i]].data == b by {
                assert(pre.bucket@[h + 1 + pre.lists@[b][i]].data == b);
                if self.lists@[b][i] == it {
                    assert(pre@.keys[it as int] == b);
                    assert(pre@.lists[b].contains(it));
                }
            }
            assert(self@.keys =~= old(self)@.keys.update(it as int, (gain - old(self)@.offset) as i32));
            assert(self@.locked =~= old(self)@.locked);
        }
    }

    /// The queue after writing internal key `d` into item `x` and linking it
    /// at the back of bucket `d` keeps its invariant.
    proof fn lemma_after_append(pre: &BPQueue, post: &BPQueue, x: usize, d: int)
        requires
            pre.wf_links(),
            x < pre@.num_items(),
            !pre@.queued(x),
            1 <= d <= pre.high,
            post.high == pre.high,
            post.offset == pre.offset,
            post.bucket@ == crate::dllist::append_links(
                pre.bucket@.update(
                    pre.high + 1 + x,
                    Dllink { data: d as i32, ..pre.bucket@[pre.high + 1 + x] },
                ),
                d,
                pre.high + 1 + x,
            ),
            post.lists@ == pre.lists@.update(d, pre.lists@[d].push(x)),
        ensures
            post.wf_links(),
            post@.keys == pre@.keys.update(x as int, d as i32),
            post@.locked == pre@.locked.remove(x),
    {
        reveal(pos_slot);
        let h = pre.high as int;
        let slot = h + 1 + x;
        let mid = pre.bucket@.update(slot, Dllink { data: d as i32, ..pre.bucket@[slot] });
        assert(!pre.lists@[d].contains(x)) by {
            if pre.lists@[d].contains(x) {
                let i2 = choose|i2: int| 0 <= i2 < pre.lists@[d].len() && pre.lists@[d][i2] == x;
                assert(pre.bucket@[h + 1 + pre.lists@[d][i2]].data == d);
            }
        }
        lemma_list_frame(pre.bucket@, mid, d, pre.lists@[d], h + 1);
        law_append(mid, d, pre.lists@[d], h + 1, x);
        pre.lemma_other_lists(post.bucket@, d, x);
        assert forall|b: int, i: int|
            0 <= b <= h && 0 <= i < post.lists@[b].len() implies post.bucket@[h + 1
                + #[trigger] post.lists@[b][i]].data == b by {
            if b == d {
                if i < pre.lists@[b].len() {
                    assert(post.lists@[b][i] == pre.lists@[b][i]);
                    assert(pre.bucket@[h + 1 + pre.lists@[b][i]].data == b);
                }
            } else {
                assert(pre.bucket@[h + 1 + pre.lists@[b][i]].data == b);
                assert(pre.lists@[b][i] != x) by {
                    if pre.lists@[b][i] == x {
                        assert(pre@.queued(x));
                    }
                }
            }
        }
        assert(post.lists@[0] == pre.lists@[0]);
        assert(post@.keys =~= pre@.keys.update(x as int, d as i32));
        assert(post@.locked =~= pre@.locked.remove(x));
    }

    /// Queue item `it` at the back of the bucket of key `k`.
    pub fn append(&mut self, it: usize, k: i32)
        requires
            old(self).wf(),
            it < old(self)@.num_items(),
            !old(self)@.queued(it),
            old(self)@.offset < k,
            k - old(self)@.offset <= old(self)@.high,
        ensures
            final(self).wf(),
            ({
                let d = k - old(self)@.offset;
                let lists = old(self)@.lists.update(d, old(self)@.lists[d].push(it));
                final(self)@ == (BPQueueView {
                    max: top_nonempty(lists, old(self)@.high),
                    lists,
                    keys: old(self)@.keys.update(it as int, d as i32),
                    locked: old(self)@.locked.remove(it),
                    ..old(self)@
                })
            }),
            final(self)@.max == (if old(self)@.max < k - old(self)@.offset {
                k - old(self)@.offset
            } else {
                old(self)@.max
            }),
    {
        let d = k - self.offset;
        let slot = self.high + 1 + it;
        let mut l = self.bucket[slot];
        l.data = d;
        let ghost pre = *self;
        self.bucket.set(slot, l);
        proof {
            reveal(pos_slot);
            let h = self.high as int;
            assert(!pre.lists@[d as int].contains(it)) by {
                if pre.lists@[d as int].contains(it) {
                    let i2 = choose|i2: int| 0 <= i2 < pre.lists@[d as int].len() && pre.lists@[d as int][i2] == it;
                    assert(pre.bucket@[h + 1 + pre.lists@[d as int][i2]].data == d);
                }
            }
            lemma_list_frame(pre.bucket@, self.bucket@, d as int, pre.lists@[d as int], h + 1);
            lemma_list_linked(self.bucket@, d as int, pre.lists@[d as int], h + 1);
        }
        Dllink::append(&mut self.bucket, d as usize, slot);
        self.lists = Ghost(self.lists@.update(d as int, self.lists@[d as int].push(it)));
        if self.max < d as usize {
            self.max = d as usize;
        }
        proof {
            reveal(pos_slot);
            BPQueue::lemma_after_append(&pre, self, it, d as int);
            lemma_top_after_grow(pre.lists@, self.lists@, d as int, pre.max as int, self.high as int);
        }
    }

    /// Queue item `it` with its stored key `keys[it]`, read as a key.
    pub fn append_direct(&mut self, it: usize)
        requires
            old(self).wf(),
            it < old(self)@.num_items(),
            !old(self)@.queued(it),
            old(self)@.offset < old(self)@.keys[it as int],
            old(self)@.keys[it as int] - old(self)@.offset <= old(self)@.high,
        ensures
            final(self).wf(),
            ({
                let k = old(self)@.keys[it as int];
                let d = k - old(self)@.offset;
                let lists = old(self)@.lists.update(d, old(self)@.lists[d].push(it));
                final(self)@ == (BPQueueView {
                    max: top_nonempty(lists, old(self)@.high),
                    lists,
                    keys: old(self)@.keys.update(it as int, d as i32),
                    locked: old(self)@.locked.remove(it),
                    ..old(self)@
                })
            }),
    {
        let k = self.bucket[self.high + 1 + it].data;
        self.append(it, k);
    }
    /// Item `x` sits at position `index_in(lists[keys[x]], x)` of its bucket.
    proof fn lemma_queued_index(&self, x: usize)
        requires
            self.wf_links(),
            self@.queued(x),
        ensures
            ({
                let b = self@.keys[x as int] as int;
                let i = index_in(self.lists@[b], x);
                &&& 0 <= i < self.lists@[b].len()
                &&& self.lists@[b][i] == x
                &&& crate::dllist::linked(self.bucket@, self.high + 1 + x)
            }),
    {
        reveal(pos_slot);
        let b = self@.keys[x as int] as int;
        assert(list_ok(self.bucket@, b, self.lists@[b], self.high + 1));
        lemma_list_linked(self.bucket@, b, self.lists@[b], self.high + 1);
    }

    /// The queue after detaching the queued item `x` keeps the invariant of
    /// its links, with `x` out of its bucket.
    #[verifier::spinoff_prover]
    #[verifier::rlimit(40)]
    proof fn lemma_after_detach(pre: &BPQueue, post: &BPQueue, x: usize)
        requires
            pre.wf_links(),
            pre@.queued(x),
            post.high == pre.high,
            post.offset == pre.offset,
            post.bucket@ == crate::dllist::detach_links(pre.bucket@, pre.high + 1 + x),
            post.lists@ == pre@.without(pre@.keys[x as int] as int, x),
        ensures
            post.wf_links(),
            post@.keys == pre@.keys,
            post@.locked == pre@.locked,
            !post@.queued(x),
    {
        reveal(pos_slot);
        let h = pre.high as int;
        let b = pre@.keys[x as int] as int;
        pre.lemma_queued_index(x);
        let i = index_in(pre.lists@[b], x);
        law_detach(pre.bucket@, b, pre.lists@[b], h + 1, i);
        let s = pre.lists@[b];
        let me = h + 1 + x;
        let n = crate::dllist::next_of(pre.bucket@, me);
        let p = crate::dllist::prev_of(pre.bucket@, me);
        assert(n == pos_slot(b, s, h + 1, i + 1));
        assert(p == pos_slot(b, s, h + 1, i - 1));
        assert forall|k: int| 0 <= k <= h && k != b implies post.bucket@[k] == #[trigger] pre.bucket@[k] by {
            if i + 1 < s.len() {
                assert(h + 1 + s[i + 1] > h);
            }
            if i > 0 {
                assert(h + 1 + s[i - 1] > h);
            }
        }
        assert forall|j: int|
            0 <= j < pre@.num_items() && j != x && !pre.lists@[b].contains(j as usize) implies post.bucket@[h + 1
                + j] == #[trigger] pre.bucket@[h + 1 + j] by {
            if i + 1 < s.len() {
                assert(s.contains(s[i + 1]));
            }
            if i > 0 {
                assert(s.contains(s[i - 1]));
            }
        }
        pre.lemma_other_lists(post.bucket@, b, x);
        assert forall|c: int, k: int|
            0 <= c <= h && 0 <= k < post.lists@[c].len() implies post.bucket@[h + 1
                + #[trigger] post.lists@[c][k]].data == c by {
            if c == b {
                let k2 = if k < i { k } else { k + 1 };
                assert(post.lists@[c][k] == s[k2]);
                assert(pre.bucket@[h + 1 + s[k2]].data == c);
            } else {
                assert(pre.bucket@[h + 1 + pre.lists@[c][k]].data == c);
            }
        }
        assert(post.lists@[0] == pre.lists@[0]) by {
            if b == 0 {
                assert(pre.lists@[0].len() == 0);
            }
        }
        assert(post@.keys =~= pre@.keys);
        assert(post@.locked =~= pre@.locked);
        assert(!post.lists@[b].contains(x)) by {
            if post.lists@[b].contains(x) {
                let k = choose|k: int| 0 <= k < post.lists@[b].len() && post.lists@[b][k] == x;
                let k2 = if k < i { k } else { k + 1 };
                assert(s[k2] == x && k2 != i);
            }
        }
    }

    /// Whether bucket `b` is empty.
    fn bucket_is_empty(&self, b: usize) -> (r: bool)
        requires
            self.wf_links(),
            b <= self.high,
        ensures
            r == (self.lists@[b as int].len() == 0),
    {
        proof {
            reveal(pos_slot);
            assert(list_ok(self.bucket@, b as int, self.lists@[b as int], self.high + 1));
            lemma_pos_slot(b as int, self.lists@[b as int], self.high + 1, 0);
            if self.lists@[b as int].len() > 0 {
                assert(self.high + 1 + self.lists@[b as int][0] != b);
            }
        }
        self.bucket[b].is_empty()
    }

    /// Move `max` down to the highest nonempty bucket.
    fn lower_max(&mut self)
        requires
            old(self).wf_links(),
            old(self).max <= old(self).high,
            top_nonempty(old(self).lists@, old(self).high as int) == top_nonempty(
                old(self).lists@,
                old(self).max as int,
            ),
        ensures
            final(self).wf(),
            *final(self) == (BPQueue { max: final(self).max, ..*old(self) }),
    {
        while self.max > 0 && self.bucket_is_empty(self.max)
            invariant
                self.wf_links(),
                self.max <= self.high,
                *self == (BPQueue { max: self.max, ..*old(self) }),
                top_nonempty(self.lists@, self.high as int) == top_nonempty(self.lists@, self.max as int),
            decreases self.max,
        {
            self.max = self.max - 1;
        }
    }

    /// Take item `it` out of its bucket.
    pub fn detach(&mut self, it: usize)
        requires
            old(self).wf(),
            old(self)@.queued(it),
        ensures
            final(self).wf(),
            ({
                let lists = old(self)@.without(old(self)@.keys[it as int] as int, it);
                final(self)@ == (BPQueueView { max: top_nonempty(lists, old(self)@.high), lists, ..old(self)@ })
            }),
    {
        let ghost pre = *self;
        proof {
            reveal(pos_slot);
            self.lemma_queued_index(it);
        }
        let slot = self.high + 1 + it;
        Dllink::detach(&mut self.bucket, slot);
        self.lists = Ghost(pre@.without(pre@.keys[it as int] as int, it));
        proof {
            reveal(pos_slot);
            BPQueue::lemma_after_detach(&pre, self, it);
            lemma_top_props(pre.lists@, pre.high as int);
            lemma_top_shrink(pre.lists@, self.lists@, pre@.keys[it as int] as int, pre.max as int, pre.high as int);
        }
        self.lower_max();
    }

    /// Take the first item of the highest nonempty bucket.
    pub fn popleft(&mut self) -> (r: usize)
        requires
            old(self).wf(),
            old(self)@.max > 0,
        ensures
            final(self).wf(),
            r == old(self)@.lists[old(self)@.max][0],
            ({
                let m = old(self)@.max;
                let lists = old(self)@.lists.update(m, old(self)@.lists[m].drop_first());
                final(self)@ == (BPQueueView { max: top_nonempty(lists, m), lists, ..old(self)@ })
            }),
    {
        let ghost pre = *self;
        let m = self.max;
        proof {
            reveal(pos_slot);
            lemma_top_props(self.lists@, self.high as int);
            law_popleft(self.bucket@, m as int, self.lists@[m as int], self.high + 1);
            lemma_list_linked(self.bucket@, m as int, self.lists@[m as int], self.high + 1);
        }
        let res = Dllink::popleft(&mut self.bucket, m);
        self.lists = Ghost(self.lists@.update(m as int, self.lists@[m as int].drop_first()));
        let r = res - (self.high + 1);
        proof {
            reveal(pos_slot);
            let h = self.high as int;
            let s = pre.lists@[m as int];
            let x = s[0];
            assert(r == x);
            pre.lemma_other_lists(self.bucket@, m as int, x);
            assert forall|c: int, k: int|
                0 <= c <= h && 0 <= k < self.lists@[c].len() implies self.bucket@[h + 1
                    + #[trigger] self.lists@[c][k]].data == c by {
                if c == m {
                    assert(self.lists@[c][k] == s[k + 1]);
                    assert(pre.bucket@[h + 1 + s[k + 1]].data == c);
                } else {
                    assert(pre.bucket@[h + 1 + pre.lists@[c][k]].data == c);
                }
            }
            assert(self.lists@[0] == pre.lists@[0]);
            assert(self@.keys =~= pre@.keys);
            assert(self@.locked =~= pre@.locked);
            lemma_top_skip(self.lists@, m as int, h);
        }
        self.lower_max();
        r
    }
    /// The queue after writing internal key `d` into item `x` and linking it
    /// at the front of bucket `d` keeps its invariant.
    #[verifier::spinoff_prover]
    #[verifier::rlimit(40)]
    proof fn lemma_after_appendleft(pre: &BPQueue, post: &BPQueue, x: usize, d: int)
        requires
            pre.wf_links(),
            x < pre@.num_items(),
            !pre@.queued(x),
            1 <= d <= pre.high,
            post.high == pre.high,
            post.offset == pre.offset,
            post.bucket@ == crate::dllist::appendleft_links(
                pre.bucket@.update(
                    pre.high + 1 + x,
                    Dllink { data: d as i32, ..pre.bucket@[pre.high + 1 + x] },
                ),
                d,
                pre.high + 1 + x,
            ),
            post.lists@ == pre.lists@.update(d, seq![x] + pre.lists@[d]),
        ensures
            post.wf_links(),
            post@.keys == pre@.keys.update(x as int, d as i32),
            post@.locked == pre@.locked.remove(x),
    {
        reveal(pos_slot);
        let h = pre.high as int;
        let slot = h + 1 + x;
        let mid = pre.bucket@.update(slot, Dllink { data: d as i32, ..pre.bucket@[slot] });
        assert(!pre.lists@[d].contains(x)) by {
            if pre.lists@[d].contains(x) {
                let i2 = choose|i2: int| 0 <= i2 < pre.lists@[d].len() && pre.lists@[d][i2] == x;
                assert(pre.bucket@[h + 1 + pre.lists@[d][i2]].data == d);
            }
        }
        lemma_list_frame(pre.bucket@, mid, d, pre.lists@[d], h + 1);
        law_appendleft(mid, d, pre.lists@[d], h + 1, x);
        pre.lemma_other_lists(post.bucket@, d, x);
        assert forall|b: int, i: int|
            0 <= b <= h && 0 <= i < post.lists@[b].len() implies post.bucket@[h + 1
                + #[trigger] post.lists@[b][i]].data == b by {
            if b == d {
                if i > 0 {
                    assert(post.lists@[b][i] == pre.lists@[b][i - 1]);
                    assert(pre.bucket@[h + 1 + pre.lists@[b][i - 1]].data == b);
                }
            } else {
                assert(pre.bucket@[h + 1 + pre.lists@[b][i]].data == b);
                assert(pre.lists@[b][i] != x) by {
                    if pre.lists@[b][i] == x {
                        assert(pre@.queued(x));
                    }
                }
            }
        }
        assert(post.lists@[0] == pre.lists@[0]);
        assert(post@.keys =~= pre@.keys.update(x as int, d as i32));
        assert(post@.locked =~= pre@.locked.remove(x));
    }

    /// Take the queued item `it` out of its bucket, keeping `max`.
    fn unlink(&mut self, it: usize)
        requires
            old(self).wf_links(),
            old(self)@.queued(it),
        ensures
            final(self).wf_links(),
            *final(self) == (BPQueue {
                bucket: final(self).bucket,
                lists: Ghost(old(self)@.without(old(self)@.keys[it as int] as int, it)),
                ..*old(self)
            }),
            final(self)@.keys == old(self)@.keys,
            final(self)@.locked == old(self)@.locked,
            !final(self)@.queued(it),
    {
        let ghost pre = *self;
        proof {
            reveal(pos_slot);
            self.lemma_queued_index(it);
        }
        let slot = self.high + 1 + it;
        Dllink::detach(&mut self.bucket, slot);
        self.lists = Ghost(pre@.without(pre@.keys[it as int] as int, it));
        proof {
            reveal(pos_slot);
            BPQueue::lemma_after_detach(&pre, self, it);
        }
    }

    /// Write internal key `d` into the unqueued item `it` and link it at the
    /// back (`front == false`) or the front of bucket `d`, keeping `max`.
    fn relink(&mut self, it: usize, d: i32, front: bool)
        requires
            old(self).wf_links(),
            it < old(self)@.num_items(),
            !old(self)@.queued(it),
            1 <= d <= old(self).high,
        ensures
            final(self).wf_links(),
            *final(self) == (BPQueue {
                bucket: final(self).bucket,
                lists: Ghost(
                    if front {
                        old(self).lists@.update(d as int, seq![it] + old(self).lists@[d as int])
                    } else {
                        old(self).lists@.update(d as int, old(self).lists@[d as int].push(it))
                    },
                ),
                ..*old(self)
            }),
            final(self)@.keys == old(self)@.keys.update(it as int, d),
            final(self)@.locked == old(self)@.locked.remove(it),
    {
        let slot = self.high + 1 + it;
        let mut l = self.bucket[slot];
        l.data = d;
        let ghost pre = *self;
        self.bucket.set(slot, l);
        proof {
            reveal(pos_slot);
            let h = self.high as int;
            assert(!pre.lists@[d as int].contains(it)) by {
                if pre.lists@[d as int].contains(it) {
                    let i2 = choose|i2: int| 0 <= i2 < pre.lists@[d as int].len() && pre.lists@[d as int][i2] == it;
                    assert(pre.bucket@[h + 1 + pre.lists@[d as int][i2]].data == d);
                }
            }
            lemma_list_frame(pre.bucket@, self.bucket@, d as int, pre.lists@[d as int], h + 1);
            lemma_list_linked(self.bucket@, d as int, pre.lists@[d as int], h + 1);
        }
        if front {
            Dllink::appendleft(&mut self.bucket, d as usize, slot);
            self.lists = Ghost(self.lists@.update(d as int, seq![it] + self.lists@[d as int]));
            proof {
                reveal(pos_slot);
                BPQueue::lemma_after_appendleft(&pre, self, it, d as int);
            }
        } else {
            Dllink::append(&mut self.bucket, d as usize, slot);
            self.lists = Ghost(self.lists@.update(d as int, self.lists@[d as int].push(it)));
            proof {
                reveal(pos_slot);
                BPQueue::lemma_after_append(&pre, self, it, d as int);
            }
        }
    }

    /// Move the queued item `it` by `delta` to the back of its new bucket.
    pub fn decrease_key(&mut self, it: usize, delta: i32)
        requires
            old(self).wf(),
            old(self)@.queued(it),
            1 <= old(self)@.keys[it as int] + delta <= old(self)@.high,
        ensures
            final(self).wf(),
            ({
                let d = old(self)@.keys[it as int] + delta;
                let lists = old(self)@.moved_back(it, d);
                final(self)@ == (BPQueueView {
                    max: top_nonempty(lists, old(self)@.high),
                    lists,
                    keys: old(self)@.keys.update(it as int, d as i32),
                    ..old(self)@
                })
            }),
    {
        let ghost pre = *self;
        let ghost h = self.high as int;
        let slot = self.high + 1 + it;
        let d = self.bucket[slot].data + delta;
        proof {
            reveal(pos_slot);
            lemma_top_props(pre.lists@, h);
        }
        self.unlink(it);
        let ghost mid = *self;
        proof {
            reveal(pos_slot);
            lemma_top_shrink(pre.lists@, mid.lists@, pre@.keys[it as int] as int, pre.max as int, h);
            lemma_top_props(mid.lists@, pre.max as int);
        }
        self.relink(it, d, false);
        proof {
            reveal(pos_slot);
            assert(!pre@.locked.contains(it)) by {
                pre.lemma_queued_index(it);
            }
            assert(self@.locked =~= pre@.locked);
            lemma_top_props(mid.lists@, h);
            lemma_top_after_grow(mid.lists@, self.lists@, d as int, top_nonempty(mid.lists@, h), h);
        }
        if self.max < d as usize {
            self.max = d as usize;
            return;
        }
        proof {
            reveal(pos_slot);
            lemma_top_skip(self.lists@, self.max as int, h);
        }
        self.lower_max();
    }

    /// Move the queued item `it` up by `delta > 0` to the front of its new
    /// bucket.
    pub fn increase_key(&mut self, it: usize, delta: i32)
        requires
            old(self).wf(),
            old(self)@.queued(it),
            delta > 0,
            old(self)@.keys[it as int] + delta <= old(self)@.high,
        ensures
            final(self).wf(),
            ({
                let d = old(self)@.keys[it as int] + delta;
                let lists = old(self)@.moved_front(it, d);
                final(self)@ == (BPQueueView {
                    max: if old(self)@.max < d {
                        d
                    } else {
                        old(self)@.max
                    },
                    lists,
                    keys: old(self)@.keys.update(it as int, d as i32),
                    ..old(self)@
                })
            }),
            final(self)@.max == top_nonempty(final(self)@.lists, old(self)@.high),
    {
        let ghost pre = *self;
        let ghost h = self.high as int;
        let slot = self.high + 1 + it;
        let d = self.bucket[slot].data + delta;
        proof {
            reveal(pos_slot);
            lemma_top_props(pre.lists@, h);
            pre.lemma_queued_index(it);
        }
        self.unlink(it);
        let ghost mid = *self;
        self.relink(it, d, true);
        if self.max < d as usize {
            self.max = d as usize;
        }
        proof {
            reveal(pos_slot);
            assert(self@.locked =~= pre@.locked);
            let b = pre@.keys[it as int] as int;
            let m = pre.max as int;
            assert(pre.lists@[b].len() > 0);
            assert(b <= m);
            if m < d {
                lemma_top_skip(self.lists@, d as int, h);
            } else {
                assert(self.lists@[m].len() > 0) by {
                    if m != d {
                        assert(m != b);
                        assert(self.lists@[m] == pre.lists@[m]);
                    }
                }
                lemma_top_skip(self.lists@, m, h);
            }
        }
    }

    /// Change the key of item `it` by `delta`, unless it is locked: up to the
    /// front of its new bucket, down to the back of it.
    pub fn modify_key(&mut self, it: usize, delta: i32)
        requires
            old(self).wf(),
            it < old(self)@.num_items(),
            old(self)@.locked.contains(it) || old(self)@.queued(it),
            !old(self)@.locked.contains(it) && delta != 0 ==> 1 <= old(self)@.keys[it as int] + delta
                <= old(self)@.high,
        ensures
            final(self).wf(),
            ({
                let d = old(self)@.keys[it as int] + delta;
                if old(self)@.locked.contains(it) || delta == 0 {
                    final(self)@ == old(self)@
                } else {
                    let lists = if delta > 0 {
                        old(self)@.moved_front(it, d)
                    } else {
                        old(self)@.moved_back(it, d)
                    };
                    final(self)@ == (BPQueueView {
                        max: top_nonempty(lists, old(self)@.high),
                        lists,
                        keys: old(self)@.keys.update(it as int, d as i32),
                        ..old(self)@
                    })
                }
            }),
    {
        if self.bucket[self.high + 1 + it].next.is_none() {
            return;
        }
        if delta > 0 {
            self.increase_key(it, delta);
        } else if delta < 0 {
            self.decrease_key(it, delta);
        }
    }
    /// Queue all of `items`, each at the back of the bucket of its stored
    /// key read as a key; then `max` is the highest nonempty bucket.
    pub fn appendfrom(&mut self, items: &[usize])
        requires
            old(self).wf(),
            items@.no_duplicates(),
            forall|k: int|
                0 <= k < items@.len() ==> {
                    &&& #[trigger] items@[k] < old(self)@.num_items()
                    &&& !old(self)@.queued(items@[k])
                    &&& 1 <= old(self)@.keys[items@[k] as int] - old(self)@.offset <= old(self)@.high
                },
        ensures
            final(self).wf(),
            ({
                let v = old(self)@.appended(items@);
                final(self)@ == (BPQueueView { max: top_nonempty(v.lists, v.high), ..v })
            }),
    {
        let mut i: usize = 0;
        while i < items.len()
            invariant
                self.wf_links(),
                i <= items@.len(),
                self.high == old(self).high,
                self.offset == old(self).offset,
                self.max == old(self).max,
                self@ == old(self)@.appended(items@.take(i as int)),
                items@.no_duplicates(),
                forall|k: int|
                    i <= k < items@.len() ==> {
                        &&& #[trigger] items@[k] < self@.num_items()
                        &&& !self@.queued(items@[k])
                        &&& self@.keys[items@[k] as int] == old(self)@.keys[items@[k] as int]
                        &&& 1 <= old(self)@.keys[items@[k] as int] - old(self)@.offset <= old(self)@.high
                    },
            decreases items@.len() - i,
        {
            let x = items[i];
            let k = self.bucket[self.high + 1 + x].data;
            let d = k - self.offset;
            let ghost pre = *self;
            self.relink(x, d, false);
            proof {
                reveal(pos_slot);
                let t = items@.take(i + 1);
                assert(t.drop_last() =~= items@.take(i as int));
                assert(t.last() == x);
                assert(self@ =~= old(self)@.appended(t)) by {
                    assert(self@.lists =~= pre@.lists.update(d as int, pre@.lists[d as int].push(x)));
                }
                assert forall|k2: int| i + 1 <= k2 < items@.len() implies {
                    &&& #[trigger] items@[k2] < self@.num_items()
                    &&& !self@.queued(items@[k2])
                    &&& self@.keys[items@[k2] as int] == old(self)@.keys[items@[k2] as int]
                    &&& 1 <= old(self)@.keys[items@[k2] as int] - old(self)@.offset <= old(self)@.high
                } by {
                    let y = items@[k2];
                    assert(y != x);
                    assert(!pre@.queued(y));
                    if self@.queued(y) {
                        let b = self@.keys[y as int] as int;
                        assert(pre@.keys[y as int] == b);
                        if b == d {
                            assert(self@.lists[b].contains(y));
                            let j = choose|j: int| 0 <= j < self@.lists[b].len() && self@.lists[b][j] == y;
                            assert(j < pre@.lists[b].len());
                            assert(pre@.lists[b][j] == y);
                        } else {
                            assert(self@.lists[b] == pre@.lists[b]);
                        }
                    }
                }
            }
            i = i + 1;
        }
        proof {
            reveal(pos_slot);
            assert(items@.take(items@.len() as int) =~= items@);
        }
        self.max = self.high;
        self.lower_max();
    }

    /// The queue's laws: every queued item sits in the bucket of its key, no
    /// queued key exceeds `max`, and `max`, when positive, is the key of the
    /// items at the front of the queue.
    pub proof fn law_max_key(&self)
        requires
            self.wf(),
        ensures
            forall|b: int, i: int|
                1 <= b <= self@.high && 0 <= i < self@.lists[b].len() ==> self@.queued(
                    #[trigger] self@.lists[b][i],
                ) && self@.keys[self@.lists[b][i] as int] == b,
            forall|j: usize| #[trigger] self@.queued(j) ==> self@.keys[j as int] <= self@.max,
            0 <= self@.max <= self@.high,
            self@.max > 0 ==> self@.lists[self@.max].len() > 0,
    {
        reveal(pos_slot);
        let h = self.high as int;
        lemma_top_props(self.lists@, h);
        assert forall|b: int, i: int|
            1 <= b <= self@.high && 0 <= i < self@.lists[b].len() implies self@.queued(
                #[trigger] self@.lists[b][i],
            ) && self@.keys[self@.lists[b][i] as int] == b by {
            let j = self.lists@[b][i];
            assert(list_ok(self.bucket@, b, self.lists@[b], h + 1));
            assert(self.bucket@[h + 1 + j].data == b);
            assert(self@.lists[b].contains(j));
        }
        assert forall|j: usize| #[trigger] self@.queued(j) implies self@.keys[j as int] <= self@.max by {
            let b = self@.keys[j as int] as int;
            if b > self.max {
                assert(self.lists@[b].contains(j));
            }
        }
    }

    /// Push the items of bucket `b` onto `r`, front to back.
    fn walk_bucket(&self, b: usize, r: &mut Vec<usize>)
        requires
            1 <= b <= self.high,
            list_ok(self.bucket@, b as int, self.lists@[b as int], self.high + 1),
        ensures
            final(r)@ == old(r)@ + self.lists@[b as int],
    {
        let h = self.high;
        let ghost s = self.lists@[b as int];
        let ghost r0 = r@;
        let mut cur = self.bucket[b].next.unwrap();
        let ghost mut i: int = 0;
        while cur != b
            invariant
                h == self.high,
                1 <= b <= h,
                s == self.lists@[b as int],
                list_ok(self.bucket@, b as int, s, h + 1),
                0 <= i <= s.len(),
                cur == pos_slot(b as int, s, h + 1, i),
                r@ == r0 + s.take(i),
            decreases s.len() - i,
        {
            proof {
                lemma_pos_slot(b as int, s, h + 1, i);
                lemma_pos_slot(b as int, s, h + 1, i + 1);
                if i >= s.len() {
                    assert(cur == b);
                }
                let j = s[i];
                assert(0 <= h + 1 + j < self.bucket@.len());
                assert(next_of(self.bucket@, h + 1 + j) == pos_slot(b as int, s, h + 1, i + 1));
            }
            r.push(cur - (h + 1));
            cur = self.bucket[cur].next.unwrap();
            proof {
                i = i + 1;
                assert(r@ =~= r0 + s.take(i));
            }
        }
        proof {
            lemma_pos_slot(b as int, s, h + 1, i);
            assert(i == s.len()) by {
                if i < s.len() {
                    assert(h + 1 + s[i] != b);
                    assert(cur == h + 1 + s[i]);
                }
            }
            assert(s.take(i) =~= s);
        }
    }

    /// The items from the highest nonempty bucket down to bucket 1, each
    /// bucket from front to back.
    pub fn iter(&self) -> (r: Vec<usize>)
        requires
            self.wf(),
        ensures
            r@ == items_from(self@.lists, self@.max),
    {
        let h = self.high;
        let mut r: Vec<usize> = Vec::new();
        let mut b = self.max;
        proof {
            lemma_top_props(self.lists@, h as int);
        }
        while b > 0
            invariant
                self.wf(),
                h == self.high,
                b <= h,
                r@ + items_from(self.lists@, b as int) == items_from(self.lists@, self.max as int),
            decreases b,
        {
            let ghost s = self.lists@[b as int];
            let ghost r0 = r@;
            proof {
                assert(list_ok(self.bucket@, b as int, s, h + 1));
            }
            self.walk_bucket(b, &mut r);
            proof {
                assert(items_from(self.lists@, b as int) == s + items_from(self.lists@, b - 1));
                assert(r@ + items_from(self.lists@, b - 1) =~= r0 + items_from(self.lists@, b as int));
            }
            b = b - 1;
        }
        proof {
            assert(items_from(self.lists@, 0) == Seq::<usize>::empty());
            assert(r@ + Seq::<usize>::empty() =~= r@);
        }
        r
    }
}

/// Emptying or shrinking list `d` and changing no other list keeps the top
/// at or below the old top.
proof fn lemma_top_shrink(l1: Seq<Seq<usize>>, l2: Seq<Seq<usize>>, d: int, m: int, h: int)
    requires
        1 <= d <= h,
        m == top_nonempty(l1, h),
        l1.len() == l2.len(),
        forall|k: int| 0 <= k <= h && k != d ==> #[trigger] l2[k] == l1[k],
        d <= m,
    ensures
        top_nonempty(l2, h) == top_nonempty(l2, m),
{
    reveal(pos_slot);
    lemma_top_props(l1, h);
    lemma_top_skip(l2, m, h);
}

/// Making list `d` nonempty and changing no other list moves the top to `d`
/// when `d` is above it.
proof fn lemma_top_after_grow(l1: Seq<Seq<usize>>, l2: Seq<Seq<usize>>, d: int, m: int, h: int)
    requires
        1 <= d <= h,
        m == top_nonempty(l1, h),
        l1.len() == l2.len(),
        l2[d].len() > 0,
        forall|k: int| 0 <= k <= h && k != d ==> #[trigger] l2[k] == l1[k],
    ensures
        top_nonempty(l2, h) == (if m < d { d } else { m }),
{
    reveal(pos_slot);
    lemma_top_props(l1, h);
    if m < d {
        lemma_top_skip(l2, d, h);
    } else {
        lemma_top_skip(l2, m, h);
    }
}

/// Where no list is nonempty, the top is 0.
proof fn lemma_top_empty(lists: Seq<Seq<usize>>, b: int)
    requires
        forall|k: int| 0 <= k <= b ==> (#[trigger] lists[k]).len() == 0,
    ensures
        top_nonempty(lists, b) == 0,
    decreases b,
{
    reveal(pos_slot);
    if b > 0 {
        lemma_top_empty(lists, b - 1);
    }
}

/// A top of 0 means that the lists `1 ..= b` are empty.
proof fn lemma_top_zero(lists: Seq<Seq<usize>>, b: int, k: int)
    requires
        top_nonempty(lists, b) == 0,
        1 <= k <= b,
    ensures
        lists[k].len() == 0,
    decreases b,
{
    reveal(pos_slot);
    if b > k {
        lemma_top_zero(lists, b - 1, k);
    }
}

/// The top is a nonempty list (or 0) with only empty lists above it.
proof fn lemma_top_props(lists: Seq<Seq<usize>>, b: int)
    ensures
        0 <= top_nonempty(lists, b) <= (if b < 0 { 0 } else { b }),
        top_nonempty(lists, b) > 0 ==> lists[top_nonempty(lists, b)].len() > 0,
        forall|k: int| top_nonempty(lists, b) < k <= b ==> (#[trigger] lists[k]).len() == 0,
    decreases b,
{
    reveal(pos_slot);
    if b > 0 {
        lemma_top_props(lists, b - 1);
    }
}

/// The top below `m` equals the top below `b` when the lists `m + 1 ..= b`
/// are empty.
proof fn lemma_top_skip(lists: Seq<Seq<usize>>, m: int, b: int)
    requires
        0 <= m <= b,
        forall|k: int| m < k <= b ==> (#[trigger] lists[k]).len() == 0,
    ensures
        top_nonempty(lists, b) == top_nonempty(lists, m),
    decreases b - m,
{
    reveal(pos_slot);
    if b > m {
        lemma_top_skip(lists, m, b - 1);
    }
}

/// Changing the lists above the top to other empty lists, or lists at or
/// below some `m` with only empty lists between, keeps the top where the
/// lists agree.
proof fn lemma_top_same(l1: Seq<Seq<usize>>, l2: Seq<Seq<usize>>, b: int)
    requires
        forall|k: int| 1 <= k <= b ==> (#[trigger] l1[k]).len() == l2[k].len(),
    ensures
        top_nonempty(l1, b) == top_nonempty(l2, b),
    decreases b,
{
    reveal(pos_slot);
    if b > 0 {
        lemma_top_same(l1, l2, b - 1);
    }
}

} // verus!
