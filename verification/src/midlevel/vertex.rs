//! Bitstring vertices of the middle-levels graph.
//!
//! A vertex is an odd-length bitstring `x` of length `2n + 1`. Its first `2n`
//! bits are read as a lattice path: a 1 steps up, a 0 steps down. The last bit
//! tells on which of the two middle levels the vertex lies.
use vstd::prelude::*;

verus! {

/// Every entry of `s` is 0 or 1.
pub open spec fn is_bitstring(s: Seq<i32>) -> bool {
    forall|i: int| 0 <= i < s.len() ==> (#[trigger] s[i] == 0 || s[i] == 1)
}

/// A vertex: an odd number (at least 3) of bits. The length stays below 2^29,
/// so that path heights and move counts, and sums of a few, fit in an `i32`.
pub open spec fn valid_vertex(s: Seq<i32>) -> bool {
    &&& s.len() % 2 == 1
    &&& 3 <= s.len() < 0x2000_0000
    &&& is_bitstring(s)
}

/// Height of the lattice path after the steps `a..i` of `s` (up for 1, down
/// for 0).
pub open spec fn height(s: Seq<i32>, a: int, i: int) -> int
    decreases i - a,
{
    if i <= a {
        0
    } else {
        height(s, a, i - 1) + 2 * s[i - 1] - 1
    }
}

/// Number of ones among the first `n` bits.
pub open spec fn ones_upto(s: Seq<i32>, n: int) -> nat
    decreases n,
{
    if n <= 0 {
        0
    } else {
        ones_upto(s, n - 1) + if s[n - 1] == 1 { 1nat } else { 0nat }
    }
}

/// Number of flaws among the first `n` steps: down-steps that start at height
/// zero or below.
pub open spec fn flaws_upto(s: Seq<i32>, n: int) -> nat
    decreases n,
{
    if n <= 0 {
        0
    } else {
        flaws_upto(s, n - 1) + if height(s, 0, n - 1) <= 0 && s[n - 1] == 0 {
            1nat
        } else {
            0nat
        }
    }
}

/// The path of a vertex (its first `len - 1` bits) has no flaw and as many
/// ones as zeros.
pub open spec fn is_first(s: Seq<i32>) -> bool {
    flaws_upto(s, s.len() - 1) == 0 && ones_upto(s, s.len() - 1) == s.len() / 2
}

/// The path has exactly one flaw and as many ones as zeros.
pub open spec fn is_last(s: Seq<i32>) -> bool {
    flaws_upto(s, s.len() - 1) == 1 && ones_upto(s, s.len() - 1) == s.len() / 2
}

/// The heights of a path of bits move by one per step.
pub proof fn lemma_height_step(s: Seq<i32>, a: int, i: int)
    requires
        is_bitstring(s),
        0 <= a <= i < s.len(),
    ensures
        height(s, a, i + 1) == height(s, a, i) + 1 || height(s, a, i + 1) == height(s, a, i) - 1,
        s[i] == 1 ==> height(s, a, i + 1) == height(s, a, i) + 1,
        s[i] == 0 ==> height(s, a, i + 1) == height(s, a, i) - 1,
{
}

/// A height after `i - a` steps is at most `i - a` in size.
pub proof fn lemma_height_bound(s: Seq<i32>, a: int, i: int)
    requires
        is_bitstring(s),
        0 <= a,
        i <= s.len(),
    ensures
        -(i - a) <= height(s, a, i) <= i - a || i < a,
    decreases i - a,
{
    if i > a {
        lemma_height_bound(s, a, i - 1);
    }
}

/// The reversal of `s[left..=right]` with every bit in it inverted.
pub open spec fn rev_inv_spec(s: Seq<i32>, left: int, right: int) -> Seq<i32> {
    Seq::new(s.len(), |i: int| if left <= i <= right { (1 - s[left + right - i]) as i32 } else { s[i] })
}

/// The level of the step at position `i` of the path: taken after an up-step
/// on the negative side and after a down-step on the positive side, before the
/// step otherwise.
pub open spec fn step_level(s: Seq<i32>, i: int, up: bool, neg: bool) -> int {
    if up == neg {
        height(s, 0, i + 1)
    } else {
        height(s, 0, i)
    }
}

/// Position `i` holds an up-step (`up`) or a down-step on the negative
/// (`neg`) or positive side of the path, at level `h` (counted away from
/// zero).
pub open spec fn is_step(s: Seq<i32>, i: int, up: bool, neg: bool, h: int) -> bool {
    &&& s[i] == (if up { 1i32 } else { 0i32 })
    &&& (if neg { -step_level(s, i, up, neg) } else { step_level(s, i, up, neg) }) == h
}

/// The positions `i < n` of the steps of one kind at level `h`, in order.
pub open spec fn steps(s: Seq<i32>, n: int, up: bool, neg: bool, h: int) -> Seq<usize>
    decreases n,
{
    if n <= 0 {
        Seq::empty()
    } else if is_step(s, n - 1, up, neg, h) {
        steps(s, n - 1, up, neg, h).push((n - 1) as usize)
    } else {
        steps(s, n - 1, up, neg, h)
    }
}

/// The lowest height the path reaches within its first `n` steps (at most 0).
pub open spec fn min_height(s: Seq<i32>, n: int) -> int
    decreases n,
{
    if n <= 0 {
        0
    } else if height(s, 0, n) < min_height(s, n - 1) {
        height(s, 0, n)
    } else {
        min_height(s, n - 1)
    }
}

/// The highest height the path reaches within its first `n` steps (at least
/// 0).
pub open spec fn max_height(s: Seq<i32>, n: int) -> int
    decreases n,
{
    if n <= 0 {
        0
    } else if height(s, 0, n) > max_height(s, n - 1) {
        height(s, 0, n)
    } else {
        max_height(s, n - 1)
    }
}

/// `v` lists, level by level, the steps of one kind among the first `n`
/// steps; there is one list per level that the path reaches on that side.
pub open spec fn holds_steps(v: Seq<Vec<usize>>, s: Seq<i32>, n: int, up: bool, neg: bool) -> bool {
    &&& v.len() == (if neg { -min_height(s, n) } else { max_height(s, n) })
    &&& forall|h: int| 0 <= h < v.len() ==> #[trigger] v[h]@ == steps(s, n, up, neg, h)
}

/// Every height within the first `n` steps lies between the lowest and the
/// highest.
pub proof fn lemma_min_max(s: Seq<i32>, n: int, j: int)
    requires
        0 <= j <= n,
    ensures
        min_height(s, n) <= height(s, 0, j) <= max_height(s, n),
        min_height(s, n) <= 0 <= max_height(s, n),
    decreases n,
{
    if n > 0 && j < n {
        lemma_min_max(s, n - 1, j);
    }
    if n > 0 && j == n {
        lemma_min_max(s, n - 1, 0);
    }
}

/// No step of a kind lies beyond the levels that the path has reached.
pub proof fn lemma_steps_beyond(s: Seq<i32>, n: int, up: bool, neg: bool, h: int)
    requires
        is_bitstring(s),
        0 <= n <= s.len(),
        neg ==> h >= -min_height(s, n),
        !neg ==> h >= max_height(s, n),
    ensures
        steps(s, n, up, neg, h) == Seq::<usize>::empty(),
    decreases n,
{
    if n > 0 {
        lemma_min_max(s, n, n - 1);
        lemma_min_max(s, n, n);
        lemma_min_max(s, n - 1, n - 1);
        lemma_height_step(s, 0, n - 1);
        assert(min_height(s, n) <= min_height(s, n - 1));
        assert(max_height(s, n) >= max_height(s, n - 1));
        lemma_steps_beyond(s, n - 1, up, neg, h);
    }
}

/// The last vertex of the path that `s` lies on, reached through the first
/// vertex of that path, and the signed number of flips: back to the first
/// vertex (negative), then forward to the last.
pub open spec fn to_last_spec(s: Seq<i32>) -> (Seq<i32>, int) {
    let f = if is_first(s) {
        (s, 0int)
    } else {
        (to_first_spec(s).0, -to_first_spec(s).1)
    };
    let l = first_to_last_spec(f.0);
    (l.0, f.1 + l.1)
}

/// The path of a first vertex comes back to height zero, not before its
/// second step.
pub proof fn lemma_first_touches_down(s: Seq<i32>)
    requires
        valid_vertex(s),
        is_first(s),
    ensures
        height(s, 0, s.len() - 1) == 0,
        height(s, 0, 1) != 0,
{
    lemma_height_ones(s, s.len() - 1);
    lemma_height_step(s, 0, 0);
}

/// Heights add up along consecutive stretches of the path.
pub proof fn lemma_height_split(s: Seq<i32>, a: int, l: int, k: int)
    requires
        a <= l <= k,
    ensures
        height(s, a, k) == height(s, a, l) + height(s, l, k),
    decreases k - l,
{
    if k > l {
        lemma_height_split(s, a, l, k - 1);
    }
}

/// The steps `l..=r` form a balanced stretch: the path never drops below its
/// starting height and ends there.
pub open spec fn balanced(s: Seq<i32>, l: int, r: int) -> bool {
    &&& forall|k: int| l <= k <= r + 1 ==> #[trigger] height(s, l, k) >= 0
    &&& height(s, l, r + 1) == 0
}

/// The down-step at `m` is the one that brings the path back to the height it
/// had just before the up-step at `l`.
pub open spec fn matches(s: Seq<i32>, l: int, m: int) -> bool {
    &&& l < m
    &&& s[l] == 1
    &&& s[m] == 0
    &&& height(s, l, m + 1) == 0
    &&& forall|k: int| l < k <= m ==> #[trigger] height(s, l, k) > 0
}

/// Every up-step in `l..=r` points at its matching down-step.
pub open spec fn pointers_ok(s: Seq<i32>, ns: Seq<i32>, l: int, r: int) -> bool {
    forall|j: int| l <= j <= r && s[j] == 1 ==> #[trigger] matches(s, j, ns[j] as int)
}

/// An up-step has at most one matching down-step, and a down-step at most
/// one matching up-step.
pub proof fn lemma_match_unique(s: Seq<i32>, l1: int, m1: int, l2: int, m2: int)
    requires
        matches(s, l1, m1),
        matches(s, l2, m2),
        l1 == l2 || m1 == m2,
    ensures
        l1 == l2 && m1 == m2,
{
    if l1 == l2 {
        if m1 < m2 {
            assert(height(s, l1, m1 + 1) > 0);
        }
        if m2 < m1 {
            assert(height(s, l1, m2 + 1) > 0);
        }
    } else {
        if l1 < l2 {
            lemma_height_split(s, l1, l2, m1 + 1);
            lemma_height_split(s, l1, l2 + 1, m1 + 1);
            lemma_height_split(s, l1, l2, l2 + 1);
            assert(height(s, l1, l2 + 1) > 0);
            assert(height(s, l1, l2) > 0);
        } else {
            lemma_height_split(s, l2, l1, m1 + 1);
            lemma_height_split(s, l2, l1, l1 + 1);
            assert(height(s, l2, l1 + 1) > 0);
            assert(height(s, l2, l1) > 0);
        }
    }
}

/// Every up-step of a balanced stretch has its matching down-step inside it.
pub proof fn lemma_up_step_matched(s: Seq<i32>, a: int, b: int, j: int)
    requires
        is_bitstring(s),
        0 <= a <= j <= b < s.len(),
        balanced(s, a, b),
        s[j] == 1,
    ensures
        exists|m: int| j < m <= b && matches(s, j, m),
{
    lemma_height_split(s, a, j, b + 1);
    lemma_height_split(s, a, j, j + 1);
    lemma_height_step(s, j, j);
    assert(height(s, j, b + 1) <= 0);
    lemma_first_return(s, j, j + 1, b + 1);
}

/// Walking on from an up-step at `j` while above its level, the path comes
/// back to that level by step `e` when it is there or below at `e`.
pub proof fn lemma_first_return(s: Seq<i32>, j: int, k: int, e: int)
    requires
        is_bitstring(s),
        0 <= j < k <= e <= s.len(),
        s[j] == 1,
        forall|q: int| j < q <= k ==> #[trigger] height(s, j, q) > 0,
        height(s, j, e) <= 0,
    ensures
        exists|m: int| j < m < e && matches(s, j, m),
    decreases e - k,
{
    lemma_height_step(s, j, k);
    if height(s, j, k + 1) == 0 {
        assert(matches(s, j, k));
    } else {
        assert(forall|q: int| j < q <= k + 1 ==> #[trigger] height(s, j, q) > 0);
        lemma_first_return(s, j, k + 1, e);
    }
}

/// The flips that walk a balanced stretch `left..=right`: for its first
/// up-step and the matching down-step `m`, flip `m` and `left`, walk the
/// inside, flip `left - 1` and `m`, then walk the rest.
pub open spec fn flip_rec(s: Seq<i32>, left: int, right: int) -> Seq<usize>
    decreases right - left + 1,
{
    if right < left || left < 1 {
        Seq::empty()
    } else {
        let m = choose|m: int| matches(s, left, m);
        if left < m <= right {
            seq![m as usize, left as usize] + flip_rec(s, left + 1, m - 1) + seq![
                (left - 1) as usize,
                m as usize,
            ] + flip_rec(s, m + 1, right)
        } else {
            Seq::empty()
        }
    }
}

/// The number of flaws never shrinks as the path goes on.
pub proof fn lemma_flaws_mono(s: Seq<i32>, i: int, j: int)
    requires
        0 <= i <= j,
    ensures
        flaws_upto(s, i) <= flaws_upto(s, j),
    decreases j - i,
{
    if j > i {
        lemma_flaws_mono(s, i, j - 1);
    }
}

/// A path without flaws never goes below zero; in particular it starts with
/// an up-step.
pub proof fn lemma_no_flaw_nonneg(s: Seq<i32>, n: int)
    requires
        is_bitstring(s),
        0 <= n <= s.len(),
        flaws_upto(s, n) == 0,
    ensures
        forall|k: int| 0 <= k <= n ==> #[trigger] height(s, 0, k) >= 0,
        n > 0 ==> s[0] == 1,
    decreases n,
{
    if n > 0 {
        lemma_flaws_mono(s, n - 1, n);
        lemma_no_flaw_nonneg(s, n - 1);
        lemma_height_step(s, 0, n - 1);
    }
}

/// After its first dive, the path of a last vertex steps straight back up to
/// zero and then stays balanced up to its end.
pub proof fn lemma_last_after_dive(s: Seq<i32>, b: int)
    requires
        valid_vertex(s),
        is_last(s),
        first_dive_at(s, b),
    ensures
        b + 2 <= s.len() - 1,
        s[b + 1] == 1,
        balanced(s, b + 2, s.len() - 2),
{
    let n = s.len() - 1;
    if height(s, 0, b) < 0 {
        lemma_reach_below(s, b, -1);
        let j = choose|j: int| 0 < j <= b && #[trigger] height(s, 0, j) == -1;
        assert(height(s, 0, j) == -1);
    }
    lemma_height_step(s, 0, b);
    assert(flaws_upto(s, b + 1) >= 1);
    lemma_height_ones(s, n);
    if b + 1 == n {
        assert(height(s, 0, n) == -1);
    }
    lemma_height_step(s, 0, b + 1);
    if s[b + 1] == 0 {
        assert(flaws_upto(s, b + 2) >= 2);
        lemma_flaws_mono(s, b + 2, n);
    }
    lemma_last_tail_nonneg(s, b, n);
    assert forall|k: int| b + 2 <= k <= n implies #[trigger] height(s, b + 2, k) >= 0 by {
        lemma_height_split(s, 0, b + 2, k);
    }
    lemma_height_split(s, 0, b + 2, n);
}

/// Past the flaw at `b`, the path of a last vertex stays at or above zero.
pub proof fn lemma_last_tail_nonneg(s: Seq<i32>, b: int, k: int)
    requires
        valid_vertex(s),
        is_last(s),
        0 <= b,
        b + 2 <= k <= s.len() - 1,
        flaws_upto(s, b + 1) >= 1,
        height(s, 0, b + 2) == 0,
    ensures
        forall|q: int| b + 2 <= q <= k ==> #[trigger] height(s, 0, q) >= 0,
    decreases k,
{
    if k > b + 2 {
        lemma_last_tail_nonneg(s, b, k - 1);
        lemma_height_step(s, 0, k - 1);
        if s[k - 1] == 0 && height(s, 0, k - 1) <= 0 {
            lemma_flaws_mono(s, b + 1, k - 1);
            assert(flaws_upto(s, k) >= 2);
            lemma_flaws_mono(s, k, s.len() - 1);
        }
    }
}

/// Exchanging a `0 1` at positions 1 and 2 into `1 0` (after a leading 1)
/// lifts the path by two after its second step and leaves it unchanged from
/// its third step on.
pub proof fn lemma_swap_heights(s: Seq<i32>, t: Seq<i32>, k: int)
    requires
        is_bitstring(s),
        3 <= k <= s.len(),
        s[0] == 1,
        s[1] == 0,
        s[2] == 1,
        t == s.update(1, 1i32).update(2, 0i32),
    ensures
        forall|q: int| 3 <= q <= k ==> #[trigger] height(t, 0, q) == height(s, 0, q),
        is_bitstring(t),
        t.len() == s.len(),
        ones_upto(t, 3) == ones_upto(s, 3),
        forall|q: int| 3 <= q <= k ==> #[trigger] ones_upto(t, q) == ones_upto(s, q),
    decreases k,
{
    assert(height(t, 0, 0) == 0 && height(s, 0, 0) == 0);
    assert(height(t, 0, 1) == 1 && height(s, 0, 1) == 1);
    assert(height(t, 0, 2) == 2 && height(s, 0, 2) == 0);
    assert(height(t, 0, 3) == 1 && height(s, 0, 3) == 1);
    assert(ones_upto(t, 0) == 0 && ones_upto(s, 0) == 0);
    assert(ones_upto(t, 1) == 1 && ones_upto(s, 1) == 1);
    assert(ones_upto(t, 2) == 2 && ones_upto(s, 2) == 1);
    assert(ones_upto(t, 3) == 2 && ones_upto(s, 3) == 2);
    if k > 3 {
        lemma_swap_heights(s, t, k - 1);
        assert(t[k - 1] == s[k - 1]);
        assert(height(t, 0, k - 1) == height(s, 0, k - 1));
        assert(height(t, 0, k) == height(s, 0, k));
        assert(ones_upto(t, k - 1) == ones_upto(s, k - 1));
        assert(ones_upto(t, k) == ones_upto(s, k));
    }
}

/// The flips from the first vertex `s` along its path: with `flip`, the
/// variant that starts by exchanging the second and third bits.
pub open spec fn flip_seq0_spec(s: Seq<i32>, flip: bool) -> Seq<usize> {
    if !flip {
        let b = choose|b: int| first_touchdown_at(s, b);
        seq![b as usize, 0usize] + flip_rec(s, 1, b - 1)
    } else if s[1] == 1 {
        seq![2usize, 0usize]
    } else {
        let t = s.update(1, 1i32).update(2, 0i32);
        let b = choose|b: int| first_touchdown_at(t, b);
        let q = seq![b as usize, 0usize] + flip_rec(t, 1, b - 1);
        seq![b as usize, 0usize, 1usize, 2usize, 0usize, 1usize] + q.subrange(6, q.len() as int)
    }
}

/// The flips from the last vertex `s` along its path.
pub open spec fn flip_seq1_spec(s: Seq<i32>) -> Seq<usize> {
    let b = choose|b: int| first_dive_at(s, b);
    seq![(b + 1) as usize] + flip_rec(s, b + 2, s.len() - 2) + seq![b as usize]
}

/// The flips of a balanced stretch `left..=right` stay within
/// `left - 1..=right`.
pub proof fn lemma_flip_rec_range(s: Seq<i32>, left: int, right: int)
    requires
        right < 0x4000_0000,
    ensures
        forall|k: int|
            0 <= k < flip_rec(s, left, right).len() ==> left - 1 <= #[trigger] flip_rec(
                s,
                left,
                right,
            )[k] <= right,
    decreases right - left + 1,
{
    if !(right < left || left < 1) {
        let m = choose|m: int| matches(s, left, m);
        if left < m <= right {
            lemma_flip_rec_range(s, left + 1, m - 1);
            lemma_flip_rec_range(s, m + 1, right);
            let a = seq![m as usize, left as usize];
            let b = flip_rec(s, left + 1, m - 1);
            let c = seq![(left - 1) as usize, m as usize];
            let d = flip_rec(s, m + 1, right);
            assert forall|k: int|
                0 <= k < flip_rec(s, left, right).len() implies left - 1 <= #[trigger] flip_rec(
                s,
                left,
                right,
            )[k] <= right by {
                assert(flip_rec(s, left, right) == a + b + c + d);
                if k < 2 {
                } else if k < 2 + b.len() {
                    assert(flip_rec(s, left, right)[k] == b[k - 2]);
                } else if k < 4 + b.len() {
                } else {
                    assert(flip_rec(s, left, right)[k] == d[k - 4 - b.len()]);
                }
            }
        }
    }
}

/// Every listed step of a kind lies among the first `n` steps.
pub proof fn lemma_steps_bounded(s: Seq<i32>, n: int, up: bool, neg: bool, h: int)
    ensures
        forall|k: int|
            0 <= k < steps(s, n, up, neg, h).len() ==> #[trigger] steps(s, n, up, neg, h)[k] < n,
        n >= 0 ==> steps(s, n, up, neg, h).len() <= n,
    decreases n,
{
    if n > 0 {
        lemma_steps_bounded(s, n - 1, up, neg, h);
    }
}

/// The height after `n` steps is twice the number of ones less `n`.
pub proof fn lemma_height_ones(s: Seq<i32>, n: int)
    requires
        is_bitstring(s),
        0 <= n <= s.len(),
    ensures
        height(s, 0, n) == 2 * ones_upto(s, n) - n,
    decreases n,
{
    if n > 0 {
        lemma_height_ones(s, n - 1);
    }
}

/// A path that gets below height `t < 0` reaches `t` on the way.
pub proof fn lemma_reach_below(s: Seq<i32>, k: int, t: int)
    requires
        is_bitstring(s),
        0 <= k <= s.len(),
        t < 0,
        height(s, 0, k) <= t,
    ensures
        exists|j: int| 0 < j <= k && #[trigger] height(s, 0, j) == t,
    decreases k,
{
    if height(s, 0, k) != t {
        lemma_height_step(s, 0, k - 1);
        lemma_reach_below(s, k - 1, t);
        let j = choose|j: int| 0 < j <= k - 1 && #[trigger] height(s, 0, j) == t;
        assert(height(s, 0, j) == t);
    }
}

/// A path with a flaw goes below zero.
pub proof fn lemma_flaw_dives(s: Seq<i32>, n: int)
    requires
        is_bitstring(s),
        0 <= n <= s.len(),
        flaws_upto(s, n) > 0,
    ensures
        exists|j: int| 0 < j <= n && #[trigger] height(s, 0, j) == -1,
    decreases n,
{
    if flaws_upto(s, n - 1) > 0 {
        lemma_flaw_dives(s, n - 1);
        let j = choose|j: int| 0 < j <= n - 1 && #[trigger] height(s, 0, j) == -1;
        assert(height(s, 0, j) == -1);
    } else {
        lemma_height_step(s, 0, n - 1);
        lemma_reach_below(s, n, -1);
    }
}

/// Position `b` holds the first step of the path that ends at height -1.
pub open spec fn first_dive_at(s: Seq<i32>, b: int) -> bool {
    &&& 0 <= b < s.len() - 1
    &&& height(s, 0, b + 1) == -1
    &&& forall|k: int| 0 < k <= b ==> #[trigger] height(s, 0, k) != -1
}

/// Position `b` holds the first step of the path that ends back at height 0.
pub open spec fn first_touchdown_at(s: Seq<i32>, b: int) -> bool {
    &&& 0 <= b < s.len() - 1
    &&& height(s, 0, b + 1) == 0
    &&& forall|k: int| 0 < k <= b ==> #[trigger] height(s, 0, k) != 0
}

/// There is only one first dive.
pub proof fn lemma_first_dive_unique(s: Seq<i32>, b1: int, b2: int)
    requires
        first_dive_at(s, b1),
        first_dive_at(s, b2),
    ensures
        b1 == b2,
{
    if b1 < b2 {
        assert(height(s, 0, b1 + 1) != -1);
    }
    if b2 < b1 {
        assert(height(s, 0, b2 + 1) != -1);
    }
}

/// There is only one first touchdown.
pub proof fn lemma_first_touchdown_unique(s: Seq<i32>, b1: int, b2: int)
    requires
        first_touchdown_at(s, b1),
        first_touchdown_at(s, b2),
    ensures
        b1 == b2,
{
    if b1 < b2 {
        assert(height(s, 0, b1 + 1) != 0);
    }
    if b2 < b1 {
        assert(height(s, 0, b2 + 1) != 0);
    }
}

/// `s` with a 1 pushed in at the front: the bits `0..t` move one place right
/// and the bit at `t` is lost.
pub open spec fn shift_in_one(s: Seq<i32>, t: int) -> Seq<i32> {
    Seq::new(s.len(), |k: int| if k == 0 { 1i32 } else if k <= t { s[k - 1] } else { s[k] })
}

/// `t` with a 1 written just after the first negative-side down-step of each
/// of the levels `0..k` of the path of `s`.
pub open spec fn raise_after_first_down(s: Seq<i32>, t: Seq<i32>, k: int) -> Seq<i32>
    decreases k,
{
    if k <= 0 {
        t
    } else {
        let prev = raise_after_first_down(s, t, k - 1);
        let l = steps(s, s.len() - 1, false, true, k - 1);
        if l.len() > 0 {
            prev.update(l[0] + 1, 1i32)
        } else {
            prev
        }
    }
}

/// `t` with a 0 written at the last up-step of each of the levels `lo..k` on
/// one side of the path of `s`.
pub open spec fn lower_last_up(s: Seq<i32>, t: Seq<i32>, lo: int, k: int, neg: bool) -> Seq<i32>
    decreases k - lo,
{
    if k <= lo {
        t
    } else {
        let prev = lower_last_up(s, t, lo, k - 1, neg);
        let l = steps(s, s.len() - 1, true, neg, k - 1);
        if l.len() > 0 {
            prev.update(l.last() as int, 0i32)
        } else {
            prev
        }
    }
}

/// The step of the path chosen to start the move to the first vertex: the
/// first or last up-step at the lowest level reached.
pub open spec fn first_move_target(s: Seq<i32>) -> int {
    let n = s.len() - 1;
    let nneg = -min_height(s, n);
    let npos = max_height(s, n);
    let min_zero = nneg == 0;
    let low = if min_zero {
        if npos > 0 {
            steps(s, n, true, false, 0)
        } else {
            Seq::empty()
        }
    } else {
        steps(s, n, true, true, nneg - 1)
    };
    let unique_min = low.len() == 1;
    let middle = 2 * ones_upto(s, n) + 1 == s.len();
    if low.len() == 0 {
        0
    } else if unique_min != middle {
        low[0] as int
    } else {
        low.last() as int
    }
}

/// The lowest level of the path is reached by a single up-step.
pub open spec fn has_unique_min(s: Seq<i32>) -> bool {
    let n = s.len() - 1;
    let nneg = -min_height(s, n);
    if nneg == 0 {
        max_height(s, n) > 0 && steps(s, n, true, false, 0).len() == 1
    } else {
        steps(s, n, true, true, nneg - 1).len() == 1
    }
}

/// The path has as many ones as zeros.
pub open spec fn is_middle(s: Seq<i32>) -> bool {
    2 * ones_upto(s, s.len() - 1) + 1 == s.len()
}

/// The first vertex of the path that `s` lies on, and the number of flips from
/// it back to `s` (a first vertex stays, 0 flips from itself).
pub open spec fn to_first_spec(s: Seq<i32>) -> (Seq<i32>, int) {
    if is_first(s) {
        (s, 0)
    } else if is_last(s) {
        let b = choose|b: int| first_dive_at(s, b);
        (shift_in_one(s, b).update(b + 1, 0i32), 2 * b + 2)
    } else {
        let n = s.len() - 1;
        let nneg = -min_height(s, n);
        let npos = max_height(s, n);
        let um = has_unique_min(s);
        let middle = is_middle(s);
        let to = first_move_target(s);
        let to_val = if to > 0 { to - 1 } else { 0 };
        let t1 = shift_in_one(s, to_val + 1);
        let t2 = raise_after_first_down(s, t1, nneg - if um && middle { 1int } else { 0int });
        let t3 = lower_last_up(s, t2, 0, nneg - if um && !middle { 1int } else { 0int }, true);
        let t4 = if !middle {
            lower_last_up(
                s,
                t3,
                if nneg == 0 && um { 1int } else { 0int },
                if npos < 2 { npos } else { 2 },
                false,
            )
        } else {
            t3
        };
        (t4, 2 * (to_val + 1) + if middle { 0int } else { 1int })
    }
}

/// The last vertex of the path that a first vertex `s` starts, and the number
/// of flips to it.
pub open spec fn first_to_last_spec(s: Seq<i32>) -> (Seq<i32>, int) {
    let b = choose|b: int| first_touchdown_at(s, b);
    (
        Seq::new(
            s.len(),
            |k: int|
                if k < b - 1 {
                    s[k + 1]
                } else if k == b - 1 {
                    0i32
                } else if k == b {
                    1i32
                } else {
                    s[k]
                },
        ),
        2 * b,
    )
}

/// Bitstring vertex of the middle-levels graph, used by the Gray code that
/// walks a Hamiltonian cycle through it.
pub struct MidVertex {
    bits: Vec<i32>,
}

impl View for MidVertex {
    type V = Seq<i32>;

    closed spec fn view(&self) -> Seq<i32> {
        self.bits@
    }
}

impl MidVertex {
    /// A vertex from its bits. The length must be odd and at least 3.
    pub fn new(x: Vec<i32>) -> (r: Self)
        requires
            valid_vertex(x@),
        ensures
            r@ == x@,
    {
        MidVertex { bits: x }
    }

    /// The bits of the vertex.
    pub fn get_bits(&self) -> (r: &Vec<i32>)
        ensures
            r@ == self@,
    {
        &self.bits
    }

    /// The number of bits.
    pub fn size(&self) -> (r: usize)
        ensures
            r == self@.len(),
    {
        self.bits.len()
    }

    /// The bit at position `i`.
    pub fn get(&self, i: usize) -> (r: i32)
        requires
            i < self@.len(),
        ensures
            r == self@[i as int],
    {
        self.bits[i]
    }

    /// Sets the bit at position `i` to `b`.
    pub fn set(&mut self, i: usize, b: i32)
        requires
            i < old(self)@.len(),
        ensures
            final(self)@ == old(self)@.update(i as int, b),
    {
        self.bits.set(i, b);
    }

    /// Reverses and inverts the first `len - 1` bits.
    pub fn rev_inv(&mut self)
        requires
            valid_vertex(old(self)@),
        ensures
            final(self)@ == rev_inv_spec(old(self)@, 0, old(self)@.len() - 2),
            valid_vertex(final(self)@),
    {
        let right = self.bits.len() - 2;
        self.rev_inv_range(0, right);
    }

    /// The first position `i >= a` (before the last bit) at which the path
    /// that starts at `a` is back at height zero, or -1 when there is none.
    pub fn first_touchdown(&self, a: usize) -> (r: isize)
        requires
            valid_vertex(self@),
        ensures
            r == -1 || (a <= r < self@.len() - 1 && height(self@, a as int, r + 1) == 0),
            forall|k: int|
                a < k <= (if r == -1 { self@.len() - 1 } else { r as int }) ==> #[trigger] height(
                    self@,
                    a as int,
                    k,
                ) != 0,
    {
        let mut h: i32 = 0;
        let n = self.bits.len() - 1;
        let mut i = a;
        while i < n
            invariant
                valid_vertex(self@),
                n == self@.len() - 1,
                a <= i,
                i <= n || i == a,
                h == height(self@, a as int, i as int),
                forall|k: int| a < k <= i ==> #[trigger] height(self@, a as int, k) != 0,
            decreases n - i,
        {
            proof {
                lemma_height_bound(self@, a as int, i as int);
            }
            h = h + 2 * self.bits[i] - 1;
            if h == 0 {
                return i as isize;
            }
            i = i + 1;
        }
        -1
    }

    /// The first position at which the path goes below zero, or -1 when it
    /// never does (the last bit is not part of the path).
    pub fn first_dive(&self) -> (r: isize)
        requires
            valid_vertex(self@),
        ensures
            r == -1 || (0 <= r < self@.len() - 1 && height(self@, 0, r + 1) == -1),
            forall|k: int|
                0 < k <= (if r == -1 { self@.len() - 1 } else { r as int }) ==> #[trigger] height(
                    self@,
                    0,
                    k,
                ) != -1,
    {
        let mut h: i32 = 0;
        let n = self.bits.len() - 1;
        let mut i: usize = 0;
        while i < n
            invariant
                valid_vertex(self@),
                n == self@.len() - 1,
                i <= n,
                h == height(self@, 0, i as int),
                forall|k: int| 0 < k <= i ==> #[trigger] height(self@, 0, k) != -1,
            decreases n - i,
        {
            proof {
                lemma_height_bound(self@, 0, i as int);
            }
            h = h + 2 * self.bits[i] - 1;
            if h == -1 {
                return i as isize;
            }
            i = i + 1;
        }
        -1
    }

    /// The number of flaws of the path.
    pub fn count_flaws(&self) -> (r: usize)
        requires
            valid_vertex(self@),
        ensures
            r == flaws_upto(self@, self@.len() - 1),
    {
        let mut c: usize = 0;
        let mut h: i32 = 0;
        let n = self.bits.len() - 1;
        let mut i: usize = 0;
        while i < n
            invariant
                valid_vertex(self@),
                n == self@.len() - 1,
                i <= n,
                h == height(self@, 0, i as int),
                c == flaws_upto(self@, i as int),
                c <= i,
            decreases n - i,
        {
            proof {
                lemma_height_bound(self@, 0, i as int);
            }
            if h <= 0 && self.bits[i] == 0 {
                c = c + 1;
            }
            h = h + 2 * self.bits[i] - 1;
            i = i + 1;
        }
        c
    }

    /// The number of ones among the first `len - 1` bits.
    pub fn count_ones(&self) -> (r: usize)
        requires
            valid_vertex(self@),
        ensures
            r == ones_upto(self@, self@.len() - 1),
            r < self@.len(),
    {
        let mut c: usize = 0;
        let n = self.bits.len() - 1;
        let mut i: usize = 0;
        while i < n
            invariant
                n == self@.len() - 1,
                i <= n,
                c == ones_upto(self@, i as int),
                c <= i,
            decreases n - i,
        {
            if self.bits[i] == 1 {
                c = c + 1;
            }
            i = i + 1;
        }
        c
    }

    /// Whether the vertex starts a path of the cycle: no flaw, and the ones
    /// and zeros of the path balance.
    pub fn is_first_vertex(&self) -> (r: bool)
        requires
            valid_vertex(self@),
        ensures
            r == is_first(self@),
    {
        self.count_flaws() == 0 && self.count_ones() == self.bits.len() / 2
    }

    /// Whether the vertex ends a path of the cycle: exactly one flaw, and the
    /// ones and zeros of the path balance.
    pub fn is_last_vertex(&self) -> (r: bool)
        requires
            valid_vertex(self@),
        ensures
            r == is_last(self@),
    {
        self.count_flaws() == 1 && self.count_ones() == self.bits.len() / 2
    }

    /// Sorts the steps of the path (its first `len - 1` bits) by kind and level:
    /// up- and down-steps on the negative side of the path and on its positive
    /// side, each as one list of positions per level reached.
    pub fn steps_height(
        &self,
        usteps_neg: &mut Vec<Vec<usize>>,
        usteps_pos: &mut Vec<Vec<usize>>,
        dsteps_neg: &mut Vec<Vec<usize>>,
        dsteps_pos: &mut Vec<Vec<usize>>,
    )
        requires
            valid_vertex(self@),
        ensures
            holds_steps(final(usteps_neg)@, self@, self@.len() - 1, true, true),
            holds_steps(final(usteps_pos)@, self@, self@.len() - 1, true, false),
            holds_steps(final(dsteps_neg)@, self@, self@.len() - 1, false, true),
            holds_steps(final(dsteps_pos)@, self@, self@.len() - 1, false, false),
    {
        usteps_neg.clear();
        usteps_pos.clear();
        dsteps_neg.clear();
        dsteps_pos.clear();
        let ghost s = self@;
        let mut h: i32 = 0;
        let mut min_h: i32 = 0;
        let mut max_h: i32 = 0;
        let n = self.bits.len() - 1;
        let mut i: usize = 0;
        while i < n
            invariant
                valid_vertex(s),
                s == self@,
                n == s.len() - 1,
                i <= n,
                h == height(s, 0, i as int),
                min_h == min_height(s, i as int),
                max_h == max_height(s, i as int),
                holds_steps(usteps_neg@, s, i as int, true, true),
                holds_steps(usteps_pos@, s, i as int, true, false),
                holds_steps(dsteps_neg@, s, i as int, false, true),
                holds_steps(dsteps_pos@, s, i as int, false, false),
            decreases n - i,
        {
            proof {
                lemma_height_bound(s, 0, i as int);
                lemma_height_bound(s, 0, i as int + 1);
                lemma_height_step(s, 0, i as int);
                lemma_min_max(s, i as int, i as int);
                lemma_min_max(s, i as int + 1, i as int + 1);
            }
            let ghost ii = i as int;
            let b = self.bits[i];
            if b == 0 && h <= 0 {
                if h == min_h {
                    proof {
                        lemma_steps_beyond(s, ii, true, true, -min_h as int);
                        lemma_steps_beyond(s, ii, false, true, -min_h as int);
                    }
                    usteps_neg.push(Vec::new());
                    dsteps_neg.push(Vec::new());
                }
                let idx = (-h) as usize;
                dsteps_neg[idx].push(i);
            }
            if b == 1 && h >= 0 {
                if h == max_h {
                    proof {
                        lemma_steps_beyond(s, ii, true, false, max_h as int);
                        lemma_steps_beyond(s, ii, false, false, max_h as int);
                    }
                    usteps_pos.push(Vec::new());
                    dsteps_pos.push(Vec::new());
                }
                let idx = h as usize;
                usteps_pos[idx].push(i);
            }
            h = h + 2 * b - 1;
            if h < min_h {
                min_h = h;
            }
            if h > max_h {
                max_h = h;
            }
            if b == 0 && h >= 0 {
                let idx = h as usize;
                dsteps_pos[idx].push(i);
            }
            if b == 1 && h <= 0 {
                let idx = (-h) as usize;
                usteps_neg[idx].push(i);
            }
            proof {
                assert forall|hh: int| 0 <= hh < usteps_neg@.len() implies #[trigger] usteps_neg@[hh]@
                    == steps(s, ii + 1, true, true, hh) by {}
                assert forall|hh: int| 0 <= hh < usteps_pos@.len() implies #[trigger] usteps_pos@[hh]@
                    == steps(s, ii + 1, true, false, hh) by {}
                assert forall|hh: int| 0 <= hh < dsteps_neg@.len() implies #[trigger] dsteps_neg@[hh]@
                    == steps(s, ii + 1, false, true, hh) by {}
                assert forall|hh: int| 0 <= hh < dsteps_pos@.len() implies #[trigger] dsteps_pos@[hh]@
                    == steps(s, ii + 1, false, false, hh) by {}
            }
            i = i + 1;
        }
    }

    /// Moves the vertex back to the first vertex of its path and returns the
    /// number of flips from there to the vertex.
    pub fn to_first_vertex(&mut self) -> (r: usize)
        requires
            valid_vertex(old(self)@),
        ensures
            valid_vertex(final(self)@),
            (final(self)@, r as int) == to_first_spec(old(self)@),
            final(self)@.len() == old(self)@.len(),
            r <= 2 * old(self)@.len(),
    {
        let ghost s = self@;
        if self.is_first_vertex() {
            return 0;
        }
        if self.is_last_vertex() {
            proof {
                lemma_flaw_dives(s, s.len() - 1);
            }
            let bd = self.first_dive();
            let b = bd as usize;
            proof {
                assert(first_dive_at(s, b as int));
                let b2 = choose|b2: int| first_dive_at(s, b2);
                lemma_first_dive_unique(s, b as int, b2);
            }
            let mut j = b;
            while j > 0
                invariant
                    j <= b,
                    b < s.len() - 1,
                    self@.len() == s.len(),
                    forall|k: int|
                        0 <= k < s.len() ==> #[trigger] self@[k] == (if j < k <= b {
                            s[k - 1]
                        } else {
                            s[k]
                        }),
                decreases j,
            {
                j = j - 1;
                let v = self.bits[j];
                self.bits.set(j + 1, v);
            }
            self.bits.set(0, 1);
            self.bits.set(b + 1, 0);
            assert(self@ =~= shift_in_one(s, b as int).update(b + 1, 0i32));
            return 2 * b + 2;
        }
        let mut usteps_neg: Vec<Vec<usize>> = Vec::new();
        let mut dsteps_neg: Vec<Vec<usize>> = Vec::new();
        let mut usteps_pos: Vec<Vec<usize>> = Vec::new();
        let mut dsteps_pos: Vec<Vec<usize>> = Vec::new();
        self.steps_height(&mut usteps_neg, &mut usteps_pos, &mut dsteps_neg, &mut dsteps_pos);
        let ghost n = s.len() - 1;
        let min_zero = usteps_neg.len() == 0;
        let unique_min = if min_zero {
            usteps_pos.len() > 0 && usteps_pos[0].len() == 1
        } else {
            usteps_neg[usteps_neg.len() - 1].len() == 1
        };
        let middle_level = 2 * self.count_ones() + 1 == self.bits.len();
        proof {
            lemma_min_max(s, n, 0);
            assert(unique_min == has_unique_min(s));
            assert(middle_level == is_middle(s));
        }
        let to: usize = if (!unique_min && middle_level) || (unique_min && !middle_level) {
            if min_zero {
                if usteps_pos.len() > 0 && usteps_pos[0].len() > 0 {
                    usteps_pos[0][0]
                } else {
                    0
                }
            } else {
                let l = usteps_neg.len() - 1;
                if usteps_neg[l].len() > 0 {
                    usteps_neg[l][0]
                } else {
                    0
                }
            }
        } else {
            if min_zero {
                if usteps_pos.len() > 0 && usteps_pos[0].len() > 0 {
                    let m = usteps_pos[0].len() - 1;
                    usteps_pos[0][m]
                } else {
                    0
                }
            } else {
                let l = usteps_neg.len() - 1;
                if usteps_neg[l].len() > 0 {
                    let m = usteps_neg[l].len() - 1;
                    usteps_neg[l][m]
                } else {
                    0
                }
            }
        };
        proof {
            assert(to == first_move_target(s));
            if min_zero {
                lemma_steps_bounded(s, n, true, false, 0);
            } else {
                lemma_steps_bounded(s, n, true, true, usteps_neg.len() - 1);
            }
        }
        let to_val = if to > 0 {
            to - 1
        } else {
            0
        };
        let ghost t1 = shift_in_one(s, to_val + 1);
        let mut j = to_val + 1;
        while j > 0
            invariant
                j <= to_val + 1,
                to_val + 1 < s.len(),
                self@.len() == s.len(),
                forall|k: int|
                    0 <= k < s.len() ==> #[trigger] self@[k] == (if j < k <= to_val + 1 {
                        s[k - 1]
                    } else {
                        s[k]
                    }),
            decreases j,
        {
            j = j - 1;
            let v = self.bits[j];
            self.bits.set(j + 1, v);
        }
        self.bits.set(0, 1);
        assert(self@ =~= t1);
        let lim1: usize = if unique_min && middle_level {
            1
        } else {
            0
        };
        let end1 = if dsteps_neg.len() > lim1 {
            dsteps_neg.len() - lim1
        } else {
            0
        };
        let mut d: usize = 0;
        while d < end1
            invariant
                valid_vertex(s),
                n == s.len() - 1,
                end1 <= dsteps_neg@.len(),
                holds_steps(dsteps_neg@, s, n, false, true),
                d <= end1,
                self@ == raise_after_first_down(s, t1, d as int),
                self@.len() == s.len(),
                is_bitstring(self@),
            decreases end1 - d,
        {
            proof {
                lemma_steps_bounded(s, n, false, true, d as int);
            }
            if dsteps_neg[d].len() > 0 {
                let v = dsteps_neg[d][0];
                self.bits.set(v + 1, 1);
            }
            d = d + 1;
        }
        let ghost t2 = self@;
        let lim2: usize = if unique_min && !middle_level {
            1
        } else {
            0
        };
        let end2 = if usteps_neg.len() > lim2 {
            usteps_neg.len() - lim2
        } else {
            0
        };
        d = 0;
        while d < end2
            invariant
                valid_vertex(s),
                n == s.len() - 1,
                end2 <= usteps_neg@.len(),
                holds_steps(usteps_neg@, s, n, true, true),
                d <= end2,
                self@ == lower_last_up(s, t2, 0, d as int, true),
                self@.len() == s.len(),
                is_bitstring(self@),
            decreases end2 - d,
        {
            proof {
                lemma_steps_bounded(s, n, true, true, d as int);
            }
            let m = usteps_neg[d].len();
            if m > 0 {
                let v = usteps_neg[d][m - 1];
                self.bits.set(v, 0);
            }
            d = d + 1;
        }
        let ghost t3 = self@;
        if !middle_level {
            let start: usize = if min_zero && unique_min {
                1
            } else {
                0
            };
            d = start;
            while d <= 1
                invariant
                    valid_vertex(s),
                    n == s.len() - 1,
                    holds_steps(usteps_pos@, s, n, true, false),
                    start <= d <= 2,
                    self@ == lower_last_up(
                        s,
                        t3,
                        start as int,
                        if d < usteps_pos@.len() { d as int } else { usteps_pos@.len() as int },
                        false,
                    ),
                    self@.len() == s.len(),
                    is_bitstring(self@),
                decreases 2 - d,
            {
                if d < usteps_pos.len() {
                    proof {
                        lemma_steps_bounded(s, n, true, false, d as int);
                    }
                    let m = usteps_pos[d].len();
                    if m > 0 {
                        let v = usteps_pos[d][m - 1];
                        self.bits.set(v, 0);
                    }
                }
                d = d + 1;
            }
        }
        2 * (to_val + 1) + if middle_level {
            0
        } else {
            1
        }
    }

    /// Moves the vertex to the last vertex of its path (through the first
    /// vertex of the path) and returns the signed number of flips. The first
    /// vertex that the move passes through must indeed be one.
    pub fn to_last_vertex(&mut self) -> (r: i32)
        requires
            valid_vertex(old(self)@),
            is_first(old(self)@) || is_first(to_first_spec(old(self)@).0),
        ensures
            valid_vertex(final(self)@),
            (final(self)@, r as int) == to_last_spec(old(self)@),
            final(self)@.len() == old(self)@.len(),
            -2 * old(self)@.len() <= r <= 2 * old(self)@.len(),
    {
        let ghost s = self@;
        let mut d: i32 = 0;
        if !self.is_first_vertex() {
            let k = self.to_first_vertex();
            d = -(k as i32);
        }
        let ghost f = self@;
        proof {
            lemma_first_touches_down(f);
        }
        let bt = self.first_touchdown(0);
        let b = bt as usize;
        proof {
            assert(first_touchdown_at(f, b as int));
            let b2 = choose|b2: int| first_touchdown_at(f, b2);
            lemma_first_touchdown_unique(f, b as int, b2);
        }
        let mut i: usize = 0;
        while i < b - 1
            invariant
                1 <= b < f.len() - 1,
                i <= b - 1,
                self@.len() == f.len(),
                forall|k: int|
                    0 <= k < f.len() ==> #[trigger] self@[k] == (if k < i {
                        f[k + 1]
                    } else {
                        f[k]
                    }),
            decreases b - 1 - i,
        {
            let v = self.bits[i + 1];
            self.bits.set(i, v);
            i = i + 1;
        }
        self.bits.set(b - 1, 0);
        self.bits.set(b, 1);
        assert(self@ =~= first_to_last_spec(f).0);
        d = d + (2 * (b - 1) + 2) as i32;
        d
    }

    /// Points every up-step of the balanced stretch `a..=b` at its matching
    /// down-step and back.
    #[verifier::spinoff_prover]
    #[verifier::rlimit(40)]
    fn aux_pointers(&self, a: usize, b: usize, next_step: &mut Vec<i32>)
        requires
            valid_vertex(self@),
            a <= b + 1,
            b < self@.len() - 1,
            old(next_step)@.len() > b,
            balanced(self@, a as int, b as int),
        ensures
            final(next_step)@.len() == old(next_step)@.len(),
            pointers_ok(self@, final(next_step)@, a as int, b as int),
    {
        let ghost s = self@;
        let unset: i32 = -1;
        let levels = b + 1 - a;
        let mut left_ustep_height: Vec<i32> = vec![unset; levels];
        let mut h: i32 = 0;
        let mut i = a;
        while i <= b
            invariant
                valid_vertex(s),
                s == self@,
                a <= i <= b + 1,
                b < s.len() - 1,
                balanced(s, a as int, b as int),
                next_step@.len() == old(next_step)@.len(),
                next_step@.len() > b,
                left_ustep_height@.len() == b + 1 - a,
                h == height(s, a as int, i as int),
                forall|hh: int|
                    0 <= hh < h ==> {
                        let l = #[trigger] left_ustep_height@[hh] as int;
                        &&& a <= l < i
                        &&& s[l] == 1
                        &&& height(s, a as int, l) == hh
                        &&& forall|k: int| l < k <= i ==> #[trigger] height(s, a as int, k) > hh
                    },
                forall|m: int|
                    a <= m < i && s[m] == 0 ==> {
                        &&& #[trigger] matches(s, next_step@[m] as int, m)
                        &&& a <= next_step@[m] < m
                        &&& next_step@[next_step@[m] as int] == m
                    },
            decreases b + 1 - i,
        {
            proof {
                lemma_height_bound(s, a as int, i as int);
                lemma_height_step(s, a as int, i as int);
                assert(height(s, a as int, i as int + 1) >= 0);
            }
            let ghost ns0 = next_step@;
            let ghost lu0 = left_ustep_height@;
            if self.bits[i] == 0 {
                let left = left_ustep_height[(h - 1) as usize];
                let ghost hh = h - 1;
                proof {
                    let l = left as int;
                    lemma_height_split(s, a as int, l, i as int + 1);
                    assert forall|k: int| l < k <= i implies #[trigger] height(s, l, k) > 0 by {
                        lemma_height_split(s, a as int, l, k);
                        assert(height(s, a as int, k) > hh);
                    }
                    assert(matches(s, l, i as int));
                    assert forall|m: int| a <= m < i && s[m] == 0 implies ns0[m] != left by {
                        if ns0[m] == left {
                            assert(matches(s, l, m));
                            lemma_height_split(s, a as int, l, m + 1);
                            assert(height(s, a as int, m + 1) > hh);
                        }
                    }
                }
                next_step.set(left as usize, i as i32);
                next_step.set(i, left);
            } else {
                left_ustep_height.set(h as usize, i as i32);
            }
            h = h + 2 * self.bits[i] - 1;
            i = i + 1;
            proof {
                assert forall|m: int| a <= m < i && s[m] == 0 implies {
                    &&& #[trigger] matches(s, next_step@[m] as int, m)
                    &&& a <= next_step@[m] < m
                    &&& next_step@[next_step@[m] as int] == m
                } by {
                    if m < i - 1 {
                        assert(matches(s, ns0[m] as int, m));
                        assert(ns0[m] as int != i - 1);
                    }
                }
            }
        }
        proof {
            assert forall|j: int| a <= j <= b && s[j] == 1 implies #[trigger] matches(
                s,
                j,
                next_step@[j] as int,
            ) by {
                lemma_up_step_matched(s, a as int, b as int, j);
                let m = choose|m: int| j < m <= b && matches(s, j, m);
                assert(s[m] == 0);
                lemma_match_unique(s, next_step@[m] as int, m, j, m);
            }
        }
    }

    /// Writes the flips that walk the balanced stretch `left..=right` into
    /// `seq`, from position `idx` on, and moves `idx` past them.
    fn flip_seq_rec(
        &self,
        seq: &mut Vec<usize>,
        idx: &mut usize,
        left: usize,
        right: usize,
        next_step: &Vec<i32>,
    )
        requires
            valid_vertex(self@),
            1 <= left <= right + 1,
            right < self@.len() - 1,
            next_step@.len() > right,
            balanced(self@, left as int, right as int),
            pointers_ok(self@, next_step@, left as int, right as int),
            *old(idx) + 2 * (right + 1 - left) <= old(seq)@.len() <= 2 * self@.len(),
        ensures
            final(seq)@.len() == old(seq)@.len(),
            *final(idx) == *old(idx) + 2 * (right + 1 - left),
            final(seq)@.subrange(*old(idx) as int, *final(idx) as int) == flip_rec(
                self@,
                left as int,
                right as int,
            ),
            forall|k: int|
                0 <= k < old(seq)@.len() && !(*old(idx) <= k < *final(idx)) ==> #[trigger] final(seq)@[k]
                    == old(seq)@[k],
        decreases right + 1 - left,
    {
        let ghost s = self@;
        if right < left {
            assert(final(seq)@.subrange(*old(idx) as int, *final(idx) as int) =~= Seq::<usize>::empty());
            return ;
        }
        let ghost sq0 = seq@;
        let ghost i0 = *idx as int;
        proof {
            lemma_height_step(s, left as int, left as int);
            assert(height(s, left as int, left + 1) >= 0);
            assert(matches(s, left as int, next_step@[left as int] as int));
        }
        let m = next_step[left] as usize;
        proof {
            let l = left as int;
            let mi = m as int;
            if mi > right {
                assert(height(s, l, right + 1) > 0);
            }
            let m2 = choose|m2: int| matches(s, l, m2);
            lemma_match_unique(s, l, mi, l, m2);
            lemma_height_step(s, l, mi);
            assert forall|k: int| l + 1 <= k <= mi - 1 + 1 implies #[trigger] height(s, l + 1, k) >= 0 by {
                lemma_height_split(s, l, l + 1, k);
            }
            lemma_height_split(s, l, l + 1, mi);
            assert forall|k: int| mi + 1 <= k <= right + 1 implies #[trigger] height(s, mi + 1, k) >= 0 by {
                lemma_height_split(s, l, mi + 1, k);
            }
            lemma_height_split(s, l, mi + 1, right + 1);
        }
        seq.set(*idx, m);
        *idx = *idx + 1;
        seq.set(*idx, left);
        *idx = *idx + 1;
        let ghost sq1 = seq@;
        let ghost i1 = *idx as int;
        self.flip_seq_rec(seq, idx, left + 1, m - 1, next_step);
        let ghost sq2 = seq@;
        let ghost i2 = *idx as int;
        seq.set(*idx, left - 1);
        *idx = *idx + 1;
        seq.set(*idx, m);
        *idx = *idx + 1;
        let ghost sq3 = seq@;
        let ghost i3 = *idx as int;
        self.flip_seq_rec(seq, idx, m + 1, right, next_step);
        proof {
            let sq4 = seq@;
            let i4 = *idx as int;
            assert(sq4.subrange(i0, i0 + 2) =~= seq![m, left]);
            assert(sq4.subrange(i1, i2) =~= sq2.subrange(i1, i2));
            assert(sq4.subrange(i2, i3) =~= seq![(left - 1) as usize, m]);
            assert(sq4.subrange(i0, i4) =~= sq4.subrange(i0, i0 + 2) + sq4.subrange(i1, i2)
                + sq4.subrange(i2, i3) + sq4.subrange(i3, i4));
        }
    }

    /// The flips along the path that starts at this first vertex; with
    /// `flip`, the path that starts by exchanging its second and third bits.
    /// Under `flip`, a second bit 1 must be followed by a 0, and a second bit
    /// 0 needs a path of more than two steps.
    pub fn compute_flip_seq_0(&self, seq: &mut Vec<usize>, flip: bool)
        requires
            valid_vertex(self@),
            is_first(self@),
            flip ==> (self@[1] == 1 ==> self@[2] == 0),
            flip ==> (self@[1] == 0 ==> self@.len() > 3),
        ensures
            final(seq)@ == flip_seq0_spec(self@, flip),
            final(seq)@.len() <= 2 * self@.len(),
            forall|k: int| 0 <= k < final(seq)@.len() ==> (#[trigger] final(seq)@[k] as int) < self@.len(),
    {
        let ghost s = self@;
        proof {
            lemma_no_flaw_nonneg(s, s.len() - 1);
            lemma_first_touches_down(s);
        }
        if !flip {
            let bt = self.first_touchdown(0);
            let b = bt as usize;
            proof {
                assert(first_touchdown_at(s, b as int));
                let b2 = choose|b2: int| first_touchdown_at(s, b2);
                lemma_first_touchdown_unique(s, b as int, b2);
            }
            self.flips_from_touchdown(seq, b);
            return ;
        }
        if self.bits[1] == 1 {
            seq.clear();
            seq.push(2);
            seq.push(0);
            assert(seq@ =~= seq![2usize, 0usize]);
        } else {
            let mut modified = self.bits.clone();
            assert(modified@ =~= s);
            modified.set(1, 1);
            modified.set(2, 0);
            let ghost t = modified@;
            proof {
                lemma_height_step(s, 0, 1);
                lemma_height_step(s, 0, 2);
                assert(s[2] == 1) by {
                    if s[2] == 0 {
                        assert(height(s, 0, 0) == 0);
                        assert(height(s, 0, 1) == 1);
                        assert(height(s, 0, 2) == 0);
                        assert(flaws_upto(s, 3) == flaws_upto(s, 2) + 1);
                        lemma_flaws_mono(s, 3, s.len() - 1);
                    }
                }
                lemma_swap_heights(s, t, s.len() as int);
                lemma_height_ones(t, t.len() - 1);
                lemma_height_ones(s, s.len() - 1);
            }
            let temp_vertex = MidVertex::new(modified);
            let bt = temp_vertex.first_touchdown(0);
            let b = bt as usize;
            proof {
                assert(height(t, 0, 0) == 0);
                assert(height(t, 0, 1) == 1);
                assert(height(t, 0, 2) == 2);
                assert(height(t, 0, 3) == 1);
                assert(first_touchdown_at(t, b as int));
                let b2 = choose|b2: int| first_touchdown_at(t, b2);
                lemma_first_touchdown_unique(t, b as int, b2);
            }
            temp_vertex.flips_from_touchdown(seq, b);
            let ghost q = seq@;
            seq.set(0, b);
            seq.set(1, 0);
            seq.set(2, 1);
            seq.set(3, 2);
            seq.set(4, 0);
            seq.set(5, 1);
            assert(seq@ =~= seq![b as usize, 0usize, 1usize, 2usize, 0usize, 1usize] + q.subrange(
                6,
                q.len() as int,
            ));
        }
    }

    /// The flips along the path from a first-like vertex whose path first
    /// comes back to zero after step `b`.
    fn flips_from_touchdown(&self, seq: &mut Vec<usize>, b: usize)
        requires
            valid_vertex(self@),
            first_touchdown_at(self@, b as int),
            forall|k: int| 0 <= k <= b + 1 ==> #[trigger] height(self@, 0, k) >= 0,
        ensures
            final(seq)@ == seq![b as usize, 0usize] + flip_rec(self@, 1, b - 1),
            final(seq)@.len() == 2 * b,
            forall|k: int| 0 <= k < final(seq)@.len() ==> (#[trigger] final(seq)@[k] as int) <= b,
    {
        let ghost s = self@;
        proof {
            lemma_height_step(s, 0, 0);
            lemma_height_step(s, 0, b as int);
            assert(b >= 1);
            assert(height(s, 0, b as int) > 0);
            assert forall|k: int| 1 <= k <= b - 1 + 1 implies #[trigger] height(s, 1, k) >= 0 by {
                lemma_height_split(s, 0, 1, k);
                if k > 1 {
                    assert(height(s, 0, k) != 0);
                }
            }
            lemma_height_split(s, 0, 1, b as int);
        }
        let length = 2 * (b - 1) + 2;
        seq.clear();
        seq.resize(length, 0);
        let mut next_step: Vec<i32> = vec![0i32; b + 1];
        self.aux_pointers(0, b, &mut next_step);
        let mut idx: usize = 0;
        seq.set(idx, b);
        idx = idx + 1;
        seq.set(idx, 0);
        idx = idx + 1;
        let ghost sq = seq@;
        self.flip_seq_rec(seq, &mut idx, 1, b - 1, &next_step);
        proof {
            assert(seq@.subrange(0, 2) =~= seq![b as usize, 0usize]);
            assert(seq@ =~= seq@.subrange(0, 2) + seq@.subrange(2, seq@.len() as int));
            lemma_flip_rec_range(s, 1, b - 1);
            assert forall|k: int| 0 <= k < seq@.len() implies (#[trigger] seq@[k] as int) <= b by {
                if k >= 2 {
                    assert(seq@[k] == seq@.subrange(2, seq@.len() as int)[k - 2]);
                }
            }
        }
    }

    /// The flips along the path that ends at this last vertex. The path must
    /// not make its first dive at its second-last step.
    pub fn compute_flip_seq_1(&self, seq: &mut Vec<usize>)
        requires
            valid_vertex(self@),
            is_last(self@),
            forall|b: int| first_dive_at(self@, b) ==> self@.len() != b + 3,
        ensures
            final(seq)@ == flip_seq1_spec(self@),
            final(seq)@.len() <= 2 * self@.len(),
            forall|k: int| 0 <= k < final(seq)@.len() ==> (#[trigger] final(seq)@[k] as int) < self@.len(),
    {
        let ghost s = self@;
        proof {
            lemma_flaw_dives(s, s.len() - 1);
        }
        let dive = self.first_dive();
        let b = dive as usize;
        proof {
            assert(first_dive_at(s, b as int));
            let b2 = choose|b2: int| first_dive_at(s, b2);
            lemma_first_dive_unique(s, b as int, b2);
            lemma_last_after_dive(s, b as int);
        }
        let sz = self.bits.len();
        let length = 2 * (sz - 2 - (b + 2) + 1) + 2;
        seq.clear();
        seq.resize(length, 0);
        let mut next_step: Vec<i32> = vec![0i32; sz - 1];
        self.aux_pointers(b + 2, sz - 2, &mut next_step);
        let mut idx: usize = 0;
        seq.set(idx, b + 1);
        idx = idx + 1;
        self.flip_seq_rec(seq, &mut idx, b + 2, sz - 2, &next_step);
        let ghost sq = seq@;
        seq.set(idx, b);
        proof {
            assert(seq@ =~= seq![(b + 1) as usize] + sq.subrange(1, idx as int) + seq![b as usize]);
            lemma_flip_rec_range(s, b + 2, sz - 2);
            assert forall|k: int| 0 <= k < seq@.len() implies (#[trigger] seq@[k] as int) < s.len() by {
                if 1 <= k < idx {
                    assert(seq@[k] == sq.subrange(1, idx as int)[k - 1]);
                }
            }
        }
    }

    /// Inverts the bits `left..=right` and reverses their order.
    fn rev_inv_range(&mut self, left: usize, right: usize)
        requires
            left <= right < old(self)@.len(),
            is_bitstring(old(self)@),
        ensures
            final(self)@ == rev_inv_spec(old(self)@, left as int, right as int),
            is_bitstring(final(self)@),
    {
        let ghost s0 = self.bits@;
        let mut i = left;
        while i <= right
            invariant
                left <= i <= right + 1,
                right < self.bits.len(),
                self.bits@.len() == s0.len(),
                is_bitstring(s0),
                forall|j: int| 0 <= j < s0.len() ==> #[trigger] self.bits@[j] == (if left <= j < i {
                    (1 - s0[j]) as i32
                } else {
                    s0[j]
                }),
            decreases right + 1 - i,
        {
            let b = self.bits[i];
            self.bits.set(i, 1 - b);
            i = i + 1;
        }
        let ghost s1 = self.bits@;
        let mut lo = left;
        let mut hi = right;
        while lo < hi
            invariant
                left <= lo,
                hi <= right,
                lo + hi == left + right,
                lo <= hi + 1,
                right < self.bits@.len() == s1.len(),
                s0.len() == s1.len(),
                forall|j: int| 0 <= j < s0.len() ==> #[trigger] s1[j] == (if left <= j <= right {
                    (1 - s0[j]) as i32
                } else {
                    s0[j]
                }),
                forall|j: int| 0 <= j < s1.len() ==> #[trigger] self.bits@[j] == (if (left <= j < lo
                    || hi < j <= right) {
                    s1[left + right - j]
                } else {
                    s1[j]
                }),
            decreases hi + 1 - lo,
        {
            let a = self.bits[lo];
            let b = self.bits[hi];
            self.bits.set(lo, b);
            self.bits.set(hi, a);
            lo = lo + 1;
            hi = hi - 1;
        }
        assert(self.bits@ =~= rev_inv_spec(s0, left as int, right as int));
    }
}

/// `x` comes before `y` in the lexicographic order of their common prefix: at
/// the first position where they differ, `x` has the smaller entry.
pub open spec fn lex_less(x: Seq<i32>, y: Seq<i32>) -> bool {
    exists|k: int|
        0 <= k < x.len() && k < y.len() && x[k] < y[k] && forall|j: int|
            0 <= j < k ==> #[trigger] x[j] == y[j]
}

/// Whether `x` comes before `y`: compares the common prefix position by
/// position.
pub fn bitstrings_less_than(x: &[i32], y: &[i32]) -> (r: bool)
    ensures
        r == lex_less(x@, y@),
{
    let mut i: usize = 0;
    while i < x.len() && i < y.len()
        invariant
            i <= x.len(),
            forall|j: int| 0 <= j < i ==> #[trigger] x@[j] == y@[j],
        decreases x.len() - i,
    {
        if x[i] < y[i] {
            return true;
        }
        if x[i] > y[i] {
            proof {
                assert forall|k: int|
                    0 <= k < x@.len() && k < y@.len() && x@[k] < y@[k] implies !(forall|j: int|
                    0 <= j < k ==> #[trigger] x@[j] == y@[j]) by {
                    if k > i {
                        assert(x@[i as int] == y@[i as int] ==> false);
                    }
                }
            }
            return false;
        }
        i = i + 1;
    }
    false
}

/// Whether `x` and `y` hold the same bits.
pub fn bitstrings_equal(x: &[i32], y: &[i32]) -> (r: bool)
    ensures
        r == (x@ == y@),
{
    if x.len() != y.len() {
        return false;
    }
    let mut i: usize = 0;
    while i < x.len()
        invariant
            i <= x.len() == y.len(),
            forall|j: int| 0 <= j < i ==> #[trigger] x@[j] == y@[j],
        decreases x.len() - i,
    {
        if x[i] != y[i] {
            return false;
        }
        i = i + 1;
    }
    assert(x@ =~= y@);
    true
}

/// Reversing and inverting a stretch of bits twice gives the bits back:
/// `rev_inv` is an involution.
pub proof fn law_rev_inv_involution(s: Seq<i32>, left: int, right: int)
    requires
        is_bitstring(s),
        0 <= left <= right < s.len(),
    ensures
        rev_inv_spec(rev_inv_spec(s, left, right), left, right) == s,
{
    let t = rev_inv_spec(s, left, right);
    let u = rev_inv_spec(t, left, right);
    assert forall|i: int| 0 <= i < s.len() implies u[i] == s[i] by {
        if left <= i <= right {
            let k = left + right - i;
            assert(t[k] == (1 - s[left + right - k]) as i32);
            assert(s[i] == 0 || s[i] == 1);
        }
    }
    assert(u =~= s);
}

} // verus!
