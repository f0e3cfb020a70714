//! Doubly linked lists threaded through an arena of links.
//!
//! A link names its neighbours by their slots in the arena (a `Vec` of
//! links), and knows its own slot. A list is a head link (the sentinel) and
//! the links reachable from it: an empty list is a head that points to
//! itself. The list does not own its nodes and keeps no length, so detaching
//! a node takes constant time. A node whose `next` is `None` is locked: it
//! belongs to no list and is not to be appended.
use vstd::prelude::*;

verus! {

/// A doubly linked node, which may also be the head of a list.
#[derive(Clone, Copy, Debug)]
pub struct Dllink<T> {
    /// The slot of the next node, `None` when the node is locked.
    pub next: Option<usize>,
    /// The slot of the previous node.
    pub prev: Option<usize>,
    /// The slot of this node in its arena.
    pub slot: usize,
    /// The payload.
    pub data: T,
}

/// `links[i]` with `next` replaced.
pub open spec fn with_next<T>(links: Seq<Dllink<T>>, i: int, n: int) -> Seq<Dllink<T>> {
    links.update(i, Dllink { next: Some(n as usize), ..links[i] })
}

/// `links[i]` with `prev` replaced.
pub open spec fn with_prev<T>(links: Seq<Dllink<T>>, i: int, p: int) -> Seq<Dllink<T>> {
    links.update(i, Dllink { prev: Some(p as usize), ..links[i] })
}

/// The slot that `next` of `links[i]` names.
#[verifier::inline]
pub open spec fn next_of<T>(links: Seq<Dllink<T>>, i: int) -> int {
    links[i].next->0 as int
}

/// The slot that `prev` of `links[i]` names.
#[verifier::inline]
pub open spec fn prev_of<T>(links: Seq<Dllink<T>>, i: int) -> int {
    links[i].prev->0 as int
}

/// The arena after `detach` of the node in slot `me`: its neighbours are
/// linked to each other; the node itself keeps its pointers.
pub open spec fn detach_links<T>(links: Seq<Dllink<T>>, me: int) -> Seq<Dllink<T>> {
    let n = next_of(links, me);
    let p = prev_of(links, me);
    with_prev(with_next(links, p, n), n, p)
}

/// The arena after `appendleft` of `node` to the list headed at `head`.
pub open spec fn appendleft_links<T>(links: Seq<Dllink<T>>, head: int, node: int) -> Seq<Dllink<T>> {
    let n = next_of(links, head);
    let l1 = with_next(links, node, n);
    let l2 = with_prev(l1, n, node);
    let l3 = with_next(l2, head, node);
    with_prev(l3, node, head)
}

/// The arena after `append` of `node` to the list headed at `head`.
pub open spec fn append_links<T>(links: Seq<Dllink<T>>, head: int, node: int) -> Seq<Dllink<T>> {
    let p = prev_of(links, head);
    let l1 = with_prev(links, node, p);
    let l2 = with_next(l1, p, node);
    let l3 = with_prev(l2, head, node);
    with_next(l3, node, head)
}

/// The arena after `popleft` from the list headed at `head`.
pub open spec fn popleft_links<T>(links: Seq<Dllink<T>>, head: int) -> Seq<Dllink<T>> {
    let res = next_of(links, head);
    let l1 = with_next(links, head, next_of(links, res));
    with_prev(l1, next_of(l1, head), head)
}

/// The arena after `pop` from the list headed at `head`.
pub open spec fn pop_links<T>(links: Seq<Dllink<T>>, head: int) -> Seq<Dllink<T>> {
    let res = prev_of(links, head);
    let l1 = with_prev(links, head, prev_of(links, res));
    with_next(l1, prev_of(l1, head), head)
}

/// Every link of the arena knows its slot.
pub open spec fn slots_ok<T>(links: Seq<Dllink<T>>) -> bool {
    forall|i: int| 0 <= i < links.len() ==> (#[trigger] links[i]).slot == i
}

/// The link in slot `i` is not locked and its neighbours are slots of the
/// arena.
pub open spec fn linked<T>(links: Seq<Dllink<T>>, i: int) -> bool {
    &&& 0 <= i < links.len()
    &&& links[i].next is Some
    &&& links[i].prev is Some
    &&& next_of(links, i) < links.len()
    &&& prev_of(links, i) < links.len()
}

/// The slot of the `i`-th node of the list `s` headed at `h` whose node slots
/// are `base + s[k]`, where position `-1` and position `s.len()` are the head.
#[verifier::opaque]
pub open spec fn pos_slot(h: int, s: Seq<usize>, base: int, i: int) -> int {
    if 0 <= i < s.len() {
        base + s[i]
    } else {
        h
    }
}

/// The links of the arena form the list headed at slot `h` whose nodes, in
/// order, are in slots `base + s[0]`, `base + s[1]`, ...
pub open spec fn list_ok<T>(links: Seq<Dllink<T>>, h: int, s: Seq<usize>, base: int) -> bool {
    &&& links.len() <= usize::MAX
    &&& 0 <= h < links.len()
    &&& s.no_duplicates()
    &&& links[h].next is Some
    &&& links[h].prev is Some
    &&& next_of(links, h) == pos_slot(h, s, base, 0)
    &&& prev_of(links, h) == pos_slot(h, s, base, s.len() - 1)
    &&& forall|i: int|
        #![trigger s[i]]
        0 <= i < s.len() ==> {
            &&& 0 <= base + s[i] < links.len()
            &&& base + s[i] != h
            &&& links[base + s[i]].next is Some
            &&& links[base + s[i]].prev is Some
            &&& next_of(links, base + s[i]) == pos_slot(h, s, base, i + 1)
            &&& prev_of(links, base + s[i]) == pos_slot(h, s, base, i - 1)
        }
}

impl<T: Copy> Dllink<T> {
    /// A node in slot `slot` holding `data`, cleared: an empty list when it
    /// is a head.
    pub fn new(slot: usize, data: T) -> (r: Self)
        ensures
            r.next == Some(slot),
            r.prev == Some(slot),
            r.slot == slot,
            r.data == data,
    {
        Dllink { next: Some(slot), prev: Some(slot), slot, data }
    }

    /// Lock the node: it is not to be appended to any list.
    pub fn lock(&mut self)
        ensures
            *final(self) == (Dllink { next: None, ..*old(self) }),
    {
        self.next = None;
    }

    /// Whether the node is locked.
    pub fn is_locked(&self) -> (r: bool)
        ensures
            r == (self.next is None),
    {
        self.next.is_none()
    }

    /// Whether the list headed by this node is empty.
    pub fn is_empty(&self) -> (r: bool)
        ensures
            r == (self.next == Some(self.slot)),
    {
        match self.next {
            Some(n) => n == self.slot,
            None => false,
        }
    }

    /// Reset the list headed by this node to the empty list.
    pub fn clear(&mut self)
        ensures
            *final(self) == (Dllink { next: Some(old(self).slot), prev: Some(old(self).slot), ..*old(self) }),
    {
        self.next = Some(self.slot);
        self.prev = Some(self.slot);
    }

    /// Point `next` of the node in slot `i` to slot `n`.
    fn set_next(links: &mut Vec<Dllink<T>>, i: usize, n: usize)
        requires
            i < old(links)@.len(),
        ensures
            final(links)@ == with_next(old(links)@, i as int, n as int),
    {
        let mut l = links[i];
        l.next = Some(n);
        links.set(i, l);
    }

    /// Point `prev` of the node in slot `i` to slot `p`.
    fn set_prev(links: &mut Vec<Dllink<T>>, i: usize, p: usize)
        requires
            i < old(links)@.len(),
        ensures
            final(links)@ == with_prev(old(links)@, i as int, p as int),
    {
        let mut l = links[i];
        l.prev = Some(p);
        links.set(i, l);
    }

    /// Detach the node in slot `me` from its list: its neighbours are linked
    /// to each other. The node must not be locked.
    pub fn detach(links: &mut Vec<Dllink<T>>, me: usize)
        requires
            linked(old(links)@, me as int),
        ensures
            final(links)@ == detach_links(old(links)@, me as int),
    {
        let n = links[me].next.unwrap();
        let p = links[me].prev.unwrap();
        Self::set_next(links, p, n);
        Self::set_prev(links, n, p);
    }

    /// Put the node in slot `node` at the front of the list headed at `head`.
    pub fn appendleft(links: &mut Vec<Dllink<T>>, head: usize, node: usize)
        requires
            linked(old(links)@, head as int),
            node < old(links)@.len(),
        ensures
            final(links)@ == appendleft_links(old(links)@, head as int, node as int),
    {
        let n = links[head].next.unwrap();
        Self::set_next(links, node, n);
        Self::set_prev(links, n, node);
        Self::set_next(links, head, node);
        Self::set_prev(links, node, head);
    }

    /// Put the node in slot `node` at the back of the list headed at `head`.
    pub fn append(links: &mut Vec<Dllink<T>>, head: usize, node: usize)
        requires
            linked(old(links)@, head as int),
            node < old(links)@.len(),
        ensures
            final(links)@ == append_links(old(links)@, head as int, node as int),
    {
        let p = links[head].prev.unwrap();
        Self::set_prev(links, node, p);
        Self::set_next(links, p, node);
        Self::set_prev(links, head, node);
        Self::set_next(links, node, head);
    }

    /// Take the node at the front of the list headed at `head`; returns its
    /// slot. The node keeps its pointers.
    pub fn popleft(links: &mut Vec<Dllink<T>>, head: usize) -> (r: usize)
        requires
            linked(old(links)@, head as int),
            linked(old(links)@, next_of(old(links)@, head as int)),
        ensures
            r == next_of(old(links)@, head as int),
            final(links)@ == popleft_links(old(links)@, head as int),
    {
        let res = links[head].next.unwrap();
        let n = links[res].next.unwrap();
        Self::set_next(links, head, n);
        let n2 = links[head].next.unwrap();
        Self::set_prev(links, n2, head);
        res
    }

    /// Take the node at the back of the list headed at `head`; returns its
    /// slot. The node keeps its pointers.
    pub fn pop(links: &mut Vec<Dllink<T>>, head: usize) -> (r: usize)
        requires
            linked(old(links)@, head as int),
            linked(old(links)@, prev_of(old(links)@, head as int)),
        ensures
            r == prev_of(old(links)@, head as int),
            final(links)@ == pop_links(old(links)@, head as int),
    {
        let res = links[head].prev.unwrap();
        let p = links[res].prev.unwrap();
        Self::set_prev(links, head, p);
        let p2 = links[head].prev.unwrap();
        Self::set_next(links, p2, head);
        res
    }
}

/// The slot at position `i` of a list.
pub proof fn lemma_pos_slot(h: int, s: Seq<usize>, base: int, i: int)
    ensures
        pos_slot(h, s, base, i) == (if 0 <= i < s.len() {
            base + s[i]
        } else {
            h
        }),
{
    reveal(pos_slot);
}

/// A list's head and nodes are linked.
pub proof fn lemma_list_linked<T>(links: Seq<Dllink<T>>, h: int, s: Seq<usize>, base: int)
    requires
        list_ok(links, h, s, base),
    ensures
        linked(links, h),
        forall|i: int| #![trigger s[i]] 0 <= i < s.len() ==> linked(links, base + s[i]),
{
    reveal(pos_slot);
    assert forall|i: int| #![trigger s[i]] 0 <= i < s.len() implies linked(links, base + s[i]) by {
        if i + 1 < s.len() {
            assert(0 <= base + s[i + 1] < links.len());
        }
        if i > 0 {
            assert(0 <= base + s[i - 1] < links.len());
        }
    }
    if s.len() > 0 {
        assert(0 <= base + s[0] < links.len());
        assert(0 <= base + s[s.len() - 1] < links.len());
    }
}

/// Links that a change leaves alone keep every list they form.
pub proof fn lemma_list_frame<T>(
    links: Seq<Dllink<T>>,
    new_links: Seq<Dllink<T>>,
    h: int,
    s: Seq<usize>,
    base: int,
)
    requires
        list_ok(links, h, s, base),
        new_links.len() == links.len(),
        new_links[h] == links[h],
        forall|i: int| #![trigger s[i]] 0 <= i < s.len() ==> new_links[base + s[i]] == links[base + s[i]],
    ensures
        list_ok(new_links, h, s, base),
{
    reveal(pos_slot);
    assert forall|i: int| #![trigger s[i]] 0 <= i < s.len() implies {
        &&& 0 <= base + s[i] < new_links.len()
        &&& base + s[i] != h
        &&& new_links[base + s[i]].next is Some
        &&& new_links[base + s[i]].prev is Some
        &&& next_of(new_links, base + s[i]) == pos_slot(h, s, base, i + 1)
        &&& prev_of(new_links, base + s[i]) == pos_slot(h, s, base, i - 1)
    } by {}
}

/// `appendleft` puts the node first in the list.
pub proof fn law_appendleft<T>(links: Seq<Dllink<T>>, h: int, s: Seq<usize>, base: int, x: usize)
    requires
        list_ok(links, h, s, base),
        !s.contains(x),
        0 <= base + x < links.len(),
        base + x != h,
    ensures
        list_ok(appendleft_links(links, h, base + x), h, seq![x] + s, base),
{
    reveal(pos_slot);
    let node = base + x;
    let t = seq![x] + s;
    let nl = appendleft_links(links, h, node);
    assert(t[0] == x);
    assert forall|i: int| 0 <= i < s.len() implies t[i + 1] == s[i] by {}
    assert(t.no_duplicates()) by {
        assert forall|i: int, j: int| 0 <= i < t.len() && 0 <= j < t.len() && i != j implies t[i] != t[j] by {
            if i == 0 {
                assert(t[j] == s[j - 1]);
            } else if j == 0 {
                assert(t[i] == s[i - 1]);
            } else {
                assert(t[i] == s[i - 1] && t[j] == s[j - 1]);
            }
        }
    }
    assert forall|i: int| #![trigger t[i]] 0 <= i < t.len() implies {
        &&& 0 <= base + t[i] < nl.len()
        &&& base + t[i] != h
        &&& nl[base + t[i]].next is Some
        &&& nl[base + t[i]].prev is Some
        &&& next_of(nl, base + t[i]) == pos_slot(h, t, base, i + 1)
        &&& prev_of(nl, base + t[i]) == pos_slot(h, t, base, i - 1)
    } by {
        if i == 0 {
            if s.len() > 0 {
                assert(base + s[0] != node);
            }
        } else {
            assert(t[i] == s[i - 1]);
            assert(base + s[i - 1] != node);
            if i - 1 == 0 {
            } else {
                assert(t[i - 1] == s[i - 2]);
            }
            if i < s.len() {
                assert(t[i + 1] == s[i]);
            }
        }
    }
    if s.len() > 0 {
        assert(base + s[s.len() - 1] != node);
    }
}

/// `append` puts the node last in the list.
pub proof fn law_append<T>(links: Seq<Dllink<T>>, h: int, s: Seq<usize>, base: int, x: usize)
    requires
        list_ok(links, h, s, base),
        !s.contains(x),
        0 <= base + x < links.len(),
        base + x != h,
    ensures
        list_ok(append_links(links, h, base + x), h, s.push(x), base),
{
    reveal(pos_slot);
    let node = base + x;
    let t = s.push(x);
    let nl = append_links(links, h, node);
    let n = s.len();
    assert(t.no_duplicates()) by {
        assert forall|i: int, j: int| 0 <= i < t.len() && 0 <= j < t.len() && i != j implies t[i] != t[j] by {
            if i == n {
                assert(s[j] != x);
            } else if j == n {
                assert(s[i] != x);
            }
        }
    }
    assert forall|i: int| #![trigger t[i]] 0 <= i < t.len() implies {
        &&& 0 <= base + t[i] < nl.len()
        &&& base + t[i] != h
        &&& nl[base + t[i]].next is Some
        &&& nl[base + t[i]].prev is Some
        &&& next_of(nl, base + t[i]) == pos_slot(h, t, base, i + 1)
        &&& prev_of(nl, base + t[i]) == pos_slot(h, t, base, i - 1)
    } by {
        if i == n {
            if n > 0 {
                assert(base + s[n - 1] != node);
                assert(t[n - 1] == s[n - 1]);
            }
        } else {
            assert(t[i] == s[i]);
            assert(base + s[i] != node);
            if i > 0 {
                assert(t[i - 1] == s[i - 1]);
            }
            if i + 1 < n {
                assert(t[i + 1] == s[i + 1]);
            }
        }
    }
    if n > 0 {
        assert(base + s[0] != node);
        assert(t[0] == s[0]);
    }
}

/// `popleft` takes the first node of a nonempty list.
pub proof fn law_popleft<T>(links: Seq<Dllink<T>>, h: int, s: Seq<usize>, base: int)
    requires
        list_ok(links, h, s, base),
        s.len() > 0,
    ensures
        next_of(links, h) == base + s[0],
        linked(links, next_of(links, h)),
        list_ok(popleft_links(links, h), h, s.drop_first(), base),
{
    reveal(pos_slot);
    lemma_list_linked(links, h, s, base);
    assert(linked(links, base + s[0]));
    let t = s.drop_first();
    let nl = popleft_links(links, h);
    let n = s.len();
    assert forall|i: int| 0 <= i < t.len() implies t[i] == s[i + 1] by {}
    assert forall|i: int| #![trigger t[i]] 0 <= i < t.len() implies {
        &&& 0 <= base + t[i] < nl.len()
        &&& base + t[i] != h
        &&& nl[base + t[i]].next is Some
        &&& nl[base + t[i]].prev is Some
        &&& next_of(nl, base + t[i]) == pos_slot(h, t, base, i + 1)
        &&& prev_of(nl, base + t[i]) == pos_slot(h, t, base, i - 1)
    } by {
        assert(t[i] == s[i + 1]);
        if i + 1 < t.len() {
            assert(t[i + 1] == s[i + 2]);
        }
        if i > 0 {
            assert(t[i - 1] == s[i]);
        }
    }
    if n > 1 {
        assert(t[0] == s[1]);
        assert(t[t.len() - 1] == s[n - 1]);
    }
}

/// `pop` takes the last node of a nonempty list.
pub proof fn law_pop<T>(links: Seq<Dllink<T>>, h: int, s: Seq<usize>, base: int)
    requires
        list_ok(links, h, s, base),
        s.len() > 0,
    ensures
        prev_of(links, h) == base + s.last(),
        linked(links, prev_of(links, h)),
        list_ok(pop_links(links, h), h, s.drop_last(), base),
{
    reveal(pos_slot);
    lemma_list_linked(links, h, s, base);
    let n = s.len();
    assert(linked(links, base + s[n - 1]));
    let t = s.drop_last();
    let nl = pop_links(links, h);
    assert forall|i: int| #![trigger t[i]] 0 <= i < t.len() implies {
        &&& 0 <= base + t[i] < nl.len()
        &&& base + t[i] != h
        &&& nl[base + t[i]].next is Some
        &&& nl[base + t[i]].prev is Some
        &&& next_of(nl, base + t[i]) == pos_slot(h, t, base, i + 1)
        &&& prev_of(nl, base + t[i]) == pos_slot(h, t, base, i - 1)
    } by {
        assert(t[i] == s[i]);
        if i + 1 < t.len() {
            assert(t[i + 1] == s[i + 1]);
        }
        if i > 0 {
            assert(t[i - 1] == s[i - 1]);
        }
    }
    if n > 1 {
        assert(t[0] == s[0]);
        assert(t[t.len() - 1] == s[n - 2]);
    }
}

/// `detach` removes the node from its list.
#[verifier::spinoff_prover]
#[verifier::rlimit(40)]
pub proof fn law_detach<T>(links: Seq<Dllink<T>>, h: int, s: Seq<usize>, base: int, i: int)
    requires
        list_ok(links, h, s, base),
        0 <= i < s.len(),
    ensures
        linked(links, base + s[i]),
        list_ok(detach_links(links, base + s[i]), h, s.remove(i), base),
{
    reveal(pos_slot);
    lemma_list_linked(links, h, s, base);
    let t = s.remove(i);
    let me = base + s[i];
    let nl = detach_links(links, me);
    let n = s.len();
    assert forall|k: int| 0 <= k < t.len() implies t[k] == (if k < i { s[k] } else { s[k + 1] }) by {}
    assert(t.no_duplicates()) by {
        assert forall|a: int, b: int| 0 <= a < t.len() && 0 <= b < t.len() && a != b implies t[a] != t[b] by {
            let a2 = if a < i { a } else { a + 1 };
            let b2 = if b < i { b } else { b + 1 };
            assert(t[a] == s[a2] && t[b] == s[b2]);
        }
    }
    assert forall|k: int| #![trigger t[k]] 0 <= k < t.len() implies {
        &&& 0 <= base + t[k] < nl.len()
        &&& base + t[k] != h
        &&& nl[base + t[k]].next is Some
        &&& nl[base + t[k]].prev is Some
        &&& next_of(nl, base + t[k]) == pos_slot(h, t, base, k + 1)
        &&& prev_of(nl, base + t[k]) == pos_slot(h, t, base, k - 1)
    } by {
        let k2 = if k < i { k } else { k + 1 };
        assert(t[k] == s[k2]);
        assert(s[k2] != s[i]);
        if k + 1 < t.len() {
            let k3 = if k + 1 < i { k + 1 } else { k + 2 };
            assert(t[k + 1] == s[k3]);
        }
        if k > 0 {
            let k4 = if k - 1 < i { k - 1 } else { k };
            assert(t[k - 1] == s[k4]);
        }
        if k + 1 == i && i + 1 < n {
            assert(s[i + 1] == t[i]);
        }
        if k == i && i > 0 {
            assert(s[i - 1] == t[i - 1]);
        }
    }
    if t.len() > 0 {
        if i == 0 {
            assert(t[0] == s[1]);
        } else {
            assert(t[0] == s[0]);
        }
        if i == n - 1 {
            assert(t[t.len() - 1] == s[n - 2]);
        } else {
            assert(t[t.len() - 1] == s[n - 1]);
        }
    }
}

} // verus!
