//! The Hamiltonian cycle walk through the middle-levels graph: from a start
//! vertex, flip one bit at a time along the paths that the flip trees
//! describe, and report each vertex visited.
use vstd::prelude::*;
use crate::midlevel::tree::MidTree;
use crate::midlevel::vertex::{
    bitstrings_equal, first_dive_at, height, is_bitstring, is_first, is_last, valid_vertex, MidVertex,
};

verus! {

/// What the walk reports each visited vertex to: its bits and the position
/// of the bit that was just flipped.
pub trait MidVisitor {
    /// The visitor's invariant, kept by every visit (none unless the visitor
    /// states one).
    open spec fn inv(&self) -> bool {
        true
    }

    /// What the visitor keeps through every visit (nothing unless the
    /// visitor says what).
    open spec fn frame(&self) -> Seq<int> {
        Seq::empty()
    }

    /// The visits reported so far, oldest first: the bits and the position
    /// of the flipped bit of each. A visitor keeps this record itself; one
    /// that keeps none cannot meet `visit`'s contract.
    open spec fn seen(&self) -> Seq<(Seq<i32>, usize)> {
        Seq::empty()
    }

    fn visit(&mut self, bits: &[i32], i: usize)
        requires
            old(self).inv(),
        ensures
            final(self).inv(),
            final(self).frame() == old(self).frame(),
            final(self).seen() == old(self).seen().push((bits@, i)),
    ;
}

/// The number of visits after which a walk without a limit gives up; the
/// cycle is done long before for any vertex that can be walked.
pub const WALK_CAP: i64 = 0x3fff_ffff_ffff_ffff;

/// How much of the walk is left before it must stop: twice the visits left
/// under the limit, plus the flips still to skip before the first visit.
pub open spec fn walk_budget(limit: int, length: int, dist: int, final_path: bool) -> int {
    2 * (limit - length) + if final_path || dist <= 0 {
        0
    } else {
        dist
    }
}

/// The bits `y` after flipping, in turn, the bit at each position of `s`.
pub open spec fn flip_bits(y: Seq<i32>, s: Seq<usize>) -> Seq<i32>
    decreases s.len(),
{
    if s.len() == 0 {
        y
    } else {
        let z = flip_bits(y, s.drop_last());
        let i = s.last() as int;
        z.update(i, (1 - z[i]) as i32)
    }
}

/// The Hamiltonian cycle walk of the middle-levels graph, from the vertex
/// `x_`, stopped after `limit_` visits.
pub struct MidHamCycle {
    x_: MidVertex,
    y_: MidVertex,
    limit_: i64,
    length_: i64,
    trace: Ghost<Seq<(Seq<i32>, usize)>>,
}

/// Each visit, after the first, reports the bits of the visit before with
/// exactly the bit it names flipped.
pub open spec fn one_bit_steps(t: Seq<(Seq<i32>, usize)>) -> bool {
    forall|j: int|
        1 <= j < t.len() ==> (#[trigger] t[j]).1 < t[j - 1].0.len() && t[j].0 == t[j - 1].0.update(
            t[j].1 as int,
            (1 - t[j - 1].0[t[j].1 as int]) as i32,
        )
}

/// Recording one more visit in the walk's trace and in the visitor keeps the
/// visitor's record equal to what it had plus the trace past `len`.
proof fn lemma_trace_push(
    s_start: Seq<(Seq<i32>, usize)>,
    s0: Seq<(Seq<i32>, usize)>,
    t0: Seq<(Seq<i32>, usize)>,
    len: int,
    e: (Seq<i32>, usize),
)
    requires
        0 <= len <= t0.len(),
        s0 == s_start + t0.skip(len),
    ensures
        s0.push(e) == s_start + t0.push(e).skip(len),
        t0.push(e).subrange(0, len) == t0.subrange(0, len),
{
    assert(t0.push(e).skip(len) =~= t0.skip(len).push(e));
    assert(s0.push(e) =~= s_start + t0.push(e).skip(len));
    assert(t0.push(e).subrange(0, len) =~= t0.subrange(0, len));
}

/// A visitor that had its start record plus the trace `t_mid`, and then got
/// the part of `t_new` past `t_mid`, has its start record plus `t_new`.
proof fn lemma_trace_extend(
    s_start: Seq<(Seq<i32>, usize)>,
    s_mid: Seq<(Seq<i32>, usize)>,
    t_mid: Seq<(Seq<i32>, usize)>,
    s_new: Seq<(Seq<i32>, usize)>,
    t_new: Seq<(Seq<i32>, usize)>,
)
    requires
        s_mid == s_start + t_mid,
        t_new.len() >= t_mid.len(),
        t_new.subrange(0, t_mid.len() as int) == t_mid,
        s_new == s_mid + t_new.skip(t_mid.len() as int),
    ensures
        s_new == s_start + t_new,
{
    assert(t_new =~= t_mid + t_new.skip(t_mid.len() as int));
    assert(s_new =~= s_start + t_new);
}

impl MidHamCycle {
    /// The walk's state is consistent: both vertices are valid and of one
    /// length, and the visits stay within the limit.
    pub closed spec fn wf(&self) -> bool {
        &&& valid_vertex(self.x_@)
        &&& valid_vertex(self.y_@)
        &&& self.x_@.len() == self.y_@.len()
        &&& 0 <= self.length_ <= self.limit_
        &&& self.trace@.len() == self.length_
        &&& one_bit_steps(self.trace@)
        &&& forall|j: int|
            0 <= j < self.trace@.len() ==> valid_vertex((#[trigger] self.trace@[j]).0) && self.trace@[j].0.len()
                == self.x_@.len()
        &&& self.trace@.len() > 0 ==> self.trace@.last().0 == self.y_@
    }

    /// The visits made, in order: the bits reported and the position of the
    /// bit just flipped.
    pub closed spec fn visits(&self) -> Seq<(Seq<i32>, usize)> {
        self.trace@
    }

    /// The number of vertices visited.
    pub closed spec fn length(&self) -> int {
        self.length_ as int
    }

    /// The start vertex of the walk.
    pub closed spec fn start(&self) -> Seq<i32> {
        self.x_@
    }

    /// Walks the cycle from `x`, reporting each vertex to `visitor`, and stops
    /// after `limit` visits or back at the start; a negative `limit` sets no
    /// limit (the walk then gives up after `WALK_CAP` visits). The walk also
    /// stops where a step of it finds the walked vertex not at the place of
    /// its path that the step needs. The visits it makes (`visits`) number
    /// its length; each reports a vertex of the start's length, and each
    /// after the first reports the vertex before with exactly the reported
    /// bit flipped. Each visit, and nothing else, is reported to `visitor`,
    /// in order.
    pub fn new<V: MidVisitor>(x: MidVertex, limit: i64, visitor: &mut V) -> (r: Self)
        requires
            valid_vertex(x@),
            limit < 0x4000_0000_0000_0000,
            old(visitor).inv(),
        ensures
            final(visitor).inv(),
            final(visitor).frame() == old(visitor).frame(),
            final(visitor).seen() == old(visitor).seen() + r.visits(),
            r.wf(),
            r.start() == x@,
            r.visits().len() == r.length(),
            one_bit_steps(r.visits()),
            forall|j: int|
                0 <= j < r.visits().len() ==> valid_vertex((#[trigger] r.visits()[j]).0) && r.visits()[j].0.len()
                    == x@.len(),
            0 <= r.length() <= if limit < 0 {
                WALK_CAP as int
            } else {
                limit as int
            },
    {
        let limit: i64 = if limit < 0 {
            WALK_CAP
        } else {
            limit
        };
        let xb = x.get_bits().clone();
        assert(xb@ =~= x@);
        let y_init = MidVertex::new(xb);
        let mut ham = MidHamCycle {
            x_: x,
            y_: y_init,
            limit_: limit,
            length_: 0,
            trace: Ghost(Seq::empty()),
        };
        let n = ham.x_.size() / 2;
        let xb2 = ham.x_.get_bits().clone();
        assert(xb2@ =~= ham.x_@);
        let mut xs = MidVertex::new(xb2);
        let mut skip: i32 = 0;
        if xs.get(2 * n) == 1 {
            xs.rev_inv();
            if !Self::reaches_first(&xs) {
                return ham;
            }
            skip = skip + xs.to_last_vertex();
            xs.rev_inv();
            xs.set(2 * n, 0);
            skip = skip + 1;
        }
        skip = skip + xs.to_first_vertex() as i32;
        if !xs.is_first_vertex() {
            return ham;
        }
        proof {
            crate::midlevel::vertex::lemma_first_touches_down(xs@);
            crate::midlevel::vertex::lemma_height_ones(xs@, xs@.len() - 1);
        }
        let fb = xs.get_bits().clone();
        assert(fb@ =~= xs@);
        let first_vertex = MidVertex::new(fb);
        let mut y_tree = MidTree::new(&first_vertex);
        if y_tree.num_vertices < 2 || y_tree.children[y_tree.root].len() == 0 {
            return ham;
        }
        if (skip > 0) && y_tree.flip_tree() {
            if (xs.get(1) == 1) && (skip <= 5) {
                skip = 6 - skip;
            }
            let mut y_string: Vec<i32> = vec![0i32; 2 * n];
            y_tree.to_bitstring(&mut y_string);
            y_string.push(0);
            assert(is_bitstring(y_string@));
            xs = MidVertex::new(y_string);
        }
        ham.y_ = xs;
        if skip < 0 {
            return ham;
        }
        let mut seq: Vec<usize> = Vec::new();
        let mut seq01: Vec<usize> = Vec::new();
        seq01.push(2 * n);
        let mut dist_to_start: i32 = skip;
        let mut final_path = false;
        loop
            invariant
                ham.wf(),
                ham.x_@ == x@,
                ham.limit_ == limit,
                limit < 0x4000_0000_0000_0000,
                skip >= 0,
                dist_to_start >= 0,
                seq01@ == seq![(2 * n) as usize],
                2 * n + 1 == ham.y_@.len(),
                ham.trace@.len() > 0 ==> dist_to_start == 0 || final_path,
                y_tree.wf(),
                y_tree.num_vertices >= 2,
                visitor.inv(),
                visitor.frame() == old(visitor).frame(),
                visitor.seen() == old(visitor).seen() + ham.trace@,
            decreases walk_budget(limit as int, ham.length_ as int, dist_to_start as int, final_path),
        {
            if y_tree.children[y_tree.root].len() == 0 {
                break;
            }
            let flip = y_tree.flip_tree();
            if y_tree.children[y_tree.root].len() == 0 {
                break;
            }
            let c = y_tree.children[y_tree.root][0];
            if y_tree.children[c].len() + 1 >= 0x4000_0000 {
                break;
            }
            y_tree.rotate();
            if !ham.y_.is_first_vertex() {
                break;
            }
            if flip && ham.y_.get(1) == 1 && ham.y_.get(2) != 0 {
                break;
            }
            if flip && ham.y_.get(1) == 0 && ham.y_.size() <= 3 {
                break;
            }
            ham.y_.compute_flip_seq_0(&mut seq, flip);
            let ghost b0 = walk_budget(limit as int, ham.length_ as int, dist_to_start as int, final_path);
            let ghost t_mid = ham.trace@;
            let ghost s_mid = visitor.seen();
            let done = ham.flip_seq(&seq, &mut dist_to_start, final_path, visitor);
            proof {
                lemma_trace_extend(old(visitor).seen(), s_mid, t_mid, visitor.seen(), ham.trace@);
            }
            if done {
                break;
            }
            if !ham.y_.is_last_vertex() {
                break;
            }
            let ghost t_mid = ham.trace@;
            let ghost s_mid = visitor.seen();
            let done = ham.flip_seq(&seq01, &mut dist_to_start, final_path, visitor);
            proof {
                lemma_trace_extend(old(visitor).seen(), s_mid, t_mid, visitor.seen(), ham.trace@);
            }
            if done {
                break;
            }
            if ham.y_.get(2 * n) != 1 {
                break;
            }
            if !ham.y_.is_last_vertex() || !Self::dive_not_second_last(&ham.y_) {
                break;
            }
            ham.y_.compute_flip_seq_1(&mut seq);
            let ghost t_mid = ham.trace@;
            let ghost s_mid = visitor.seen();
            let done = ham.flip_seq(&seq, &mut dist_to_start, final_path, visitor);
            proof {
                lemma_trace_extend(old(visitor).seen(), s_mid, t_mid, visitor.seen(), ham.trace@);
            }
            if done {
                break;
            }
            if !ham.y_.is_first_vertex() {
                break;
            }
            let ghost t_mid = ham.trace@;
            let ghost s_mid = visitor.seen();
            let done = ham.flip_seq(&seq01, &mut dist_to_start, final_path, visitor);
            proof {
                lemma_trace_extend(old(visitor).seen(), s_mid, t_mid, visitor.seen(), ham.trace@);
            }
            if done {
                break;
            }
            if ham.y_.get(2 * n) != 0 {
                break;
            }
            if bitstrings_equal(ham.y_.get_bits().as_slice(), ham.x_.get_bits().as_slice()) {
                final_path = true;
                dist_to_start = skip;
            }
            assert(walk_budget(limit as int, ham.length_ as int, dist_to_start as int, final_path) < b0);
        }
        ham
    }

    /// Whether moving `xs` to the first vertex of its path lands on a first
    /// vertex (or `xs` already is one).
    fn reaches_first(xs: &MidVertex) -> (r: bool)
        requires
            valid_vertex(xs@),
        ensures
            r == (is_first(xs@) || is_first(crate::midlevel::vertex::to_first_spec(xs@).0)),
    {
        if xs.is_first_vertex() {
            return true;
        }
        let b = xs.get_bits().clone();
        assert(b@ =~= xs@);
        let mut t = MidVertex::new(b);
        t.to_first_vertex();
        t.is_first_vertex()
    }

    /// Whether the path of the last vertex `y` makes its first dive before
    /// its second-last step.
    fn dive_not_second_last(y: &MidVertex) -> (r: bool)
        requires
            valid_vertex(y@),
            is_last(y@),
        ensures
            r == exists|b: int| #[trigger] first_dive_at(y@, b) && y@.len() != b + 3,
    {
        let d = y.first_dive();
        if d < 0 {
            proof {
                assert forall|b2: int| !#[trigger] first_dive_at(y@, b2) by {
                    if first_dive_at(y@, b2) {
                        assert(height(y@, 0, b2 + 1) != -1);
                    }
                }
            }
            return false;
        }
        let b = d as usize;
        let ok = b + 3 != y.size();
        proof {
            assert(first_dive_at(y@, b as int));
            if !ok {
                assert forall|b2: int| #[trigger] first_dive_at(y@, b2) implies y@.len() == b2 + 3 by {
                    crate::midlevel::vertex::lemma_first_dive_unique(y@, b as int, b2);
                }
            }
        }
        ok
    }

    /// The number of vertices visited.
    pub fn get_length(&self) -> (r: i64)
        ensures
            r == self.length(),
    {
        self.length_
    }

    /// Flips the bits of `seq` in turn. Flips are skipped silently while
    /// `dist_to_start` is positive (counting it down); each other flip is
    /// reported to `visitor` and counted. Answers `true` when the walk is
    /// over: the limit is reached, or, on the final path, the start.
    #[verifier::spinoff_prover]
    #[verifier::rlimit(40)]
    fn flip_seq<V: MidVisitor>(
        &mut self,
        seq: &Vec<usize>,
        dist_to_start: &mut i32,
        final_path: bool,
        visitor: &mut V,
    ) -> (r: bool)
        requires
            old(self).wf(),
            old(self).limit_ < 0x4000_0000_0000_0000,
            forall|k: int| 0 <= k < seq@.len() ==> (#[trigger] seq@[k] as int) < old(self).y_@.len(),
            seq@.len() <= 2 * old(self).y_@.len(),
            *old(dist_to_start) >= 0,
            old(self).trace@.len() > 0 ==> *old(dist_to_start) == 0 || final_path,
            old(visitor).inv(),
        ensures
            final(self).trace@.len() > 0 ==> *final(dist_to_start) == 0 || final_path,
            final(visitor).inv(),
            final(visitor).frame() == old(visitor).frame(),
            final(self).trace@.len() >= old(self).trace@.len(),
            final(self).trace@.subrange(0, old(self).trace@.len() as int) == old(self).trace@,
            final(visitor).seen() == old(visitor).seen() + final(self).trace@.skip(old(self).trace@.len() as int),
            final(self).wf(),
            final(self).x_ == old(self).x_,
            final(self).limit_ == old(self).limit_,
            final(self).y_@.len() == old(self).y_@.len(),
            *final(dist_to_start) <= *old(dist_to_start),
            *final(dist_to_start) >= 0,
            r || walk_budget(
                final(self).limit_ as int,
                final(self).length_ as int,
                *final(dist_to_start) as int,
                final_path,
            ) <= walk_budget(
                old(self).limit_ as int,
                old(self).length_ as int,
                *old(dist_to_start) as int,
                final_path,
            ) - seq@.len(),
            !r ==> final(self).y_@ == flip_bits(old(self).y_@, seq@),
            r ==> exists|k: int|
                0 <= k < seq@.len() && final(self).y_@ == flip_bits(old(self).y_@, seq@.subrange(0, k)),
            r ==> (final_path && *final(dist_to_start) == 0) || final(self).length_ == final(self).limit_,
    {
        let seq_sz = seq.len() as i64;
        if (*dist_to_start > 0) || final_path || (self.limit_ >= 0 && self.length_ + seq_sz
            >= self.limit_) {
            let mut k: usize = 0;
            proof {
                assert(self.trace@.subrange(0, self.trace@.len() as int) =~= self.trace@);
                assert(self.trace@.skip(self.trace@.len() as int) =~= Seq::<(Seq<i32>, usize)>::empty());
            }
            while k < seq.len()
                invariant
                    self.wf(),
                    self.x_ == old(self).x_,
                    self.limit_ == old(self).limit_,
                    self.y_@.len() == old(self).y_@.len(),
                    forall|q: int| 0 <= q < seq@.len() ==> (#[trigger] seq@[q] as int) < self.y_@.len(),
                    k <= seq@.len(),
                    self.y_@ == flip_bits(old(self).y_@, seq@.subrange(0, k as int)),
                    *dist_to_start <= *old(dist_to_start),
                    *dist_to_start >= 0,
                    self.trace@.len() > 0 ==> *dist_to_start == 0 || final_path,
                    visitor.inv(),
                visitor.frame() == old(visitor).frame(),
                    self.trace@.len() >= old(self).trace@.len(),
                    self.trace@.subrange(0, old(self).trace@.len() as int) == old(self).trace@,
                    visitor.seen() == old(visitor).seen() + self.trace@.skip(old(self).trace@.len() as int),
                    walk_budget(
                        self.limit_ as int,
                        self.length_ as int,
                        *dist_to_start as int,
                        final_path,
                    ) <= walk_budget(
                        old(self).limit_ as int,
                        old(self).length_ as int,
                        *old(dist_to_start) as int,
                        final_path,
                    ) - k,
                decreases seq@.len() - k,
            {
                let i = seq[k];
                if (final_path && *dist_to_start == 0) || (self.limit_ >= 0 && self.length_
                    == self.limit_) {
                    return true;
                }
                let b = self.y_.get(i);
                self.y_.set(i, 1 - b);
                proof {
                    assert(seq@.subrange(0, k + 1).drop_last() =~= seq@.subrange(0, k as int));
                }
                if *dist_to_start == 0 || final_path {
                    let ghost t0 = self.trace@;
                    let ghost s0 = visitor.seen();
                    visitor.visit(self.y_.get_bits().as_slice(), i);
                    self.length_ = self.length_ + 1;
                    proof {
                        self.trace@ = self.trace@.push((self.y_@, i));
                        lemma_trace_push(old(visitor).seen(), s0, t0, old(self).trace@.len() as int, (self.y_@, i));
                    }
                }
                if *dist_to_start > 0 {
                    *dist_to_start = *dist_to_start - 1;
                }
                k = k + 1;
            }
        } else {
            let mut k: usize = 0;
            proof {
                assert(self.trace@.subrange(0, self.trace@.len() as int) =~= self.trace@);
                assert(self.trace@.skip(self.trace@.len() as int) =~= Seq::<(Seq<i32>, usize)>::empty());
            }
            while k < seq.len()
                invariant
                    valid_vertex(self.y_@),
                    self.y_@.len() == old(self).y_@.len(),
                    self.x_ == old(self).x_,
                    self.limit_ == old(self).limit_,
                    self.length_ == old(self).length_,
                    self.trace@.len() == self.length_ + k,
                    one_bit_steps(self.trace@),
                    forall|j: int|
                        0 <= j < self.trace@.len() ==> valid_vertex((#[trigger] self.trace@[j]).0)
                            && self.trace@[j].0.len() == self.x_@.len(),
                    self.trace@.len() > 0 ==> self.trace@.last().0 == self.y_@,
                    self.y_@.len() == self.x_@.len(),
                    valid_vertex(self.x_@),
                    0 <= self.length_,
                    self.length_ + seq@.len() < self.limit_,
                    forall|q: int| 0 <= q < seq@.len() ==> (#[trigger] seq@[q] as int) < self.y_@.len(),
                    k <= seq@.len(),
                    self.y_@ == flip_bits(old(self).y_@, seq@.subrange(0, k as int)),
                    visitor.inv(),
                visitor.frame() == old(visitor).frame(),
                    self.trace@.len() >= old(self).trace@.len(),
                    self.trace@.subrange(0, old(self).trace@.len() as int) == old(self).trace@,
                    visitor.seen() == old(visitor).seen() + self.trace@.skip(old(self).trace@.len() as int),
                decreases seq@.len() - k,
            {
                let i = seq[k];
                let b = self.y_.get(i);
                self.y_.set(i, 1 - b);
                proof {
                    assert(seq@.subrange(0, k + 1).drop_last() =~= seq@.subrange(0, k as int));
                }
                let ghost t0 = self.trace@;
                let ghost s0 = visitor.seen();
                visitor.visit(self.y_.get_bits().as_slice(), i);
                proof {
                    self.trace@ = self.trace@.push((self.y_@, i));
                    lemma_trace_push(old(visitor).seen(), s0, t0, old(self).trace@.len() as int, (self.y_@, i));
                }
                k = k + 1;
            }
            self.length_ = self.length_ + seq_sz;
            assert(seq@.subrange(0, seq@.len() as int) =~= seq@);
        }
        assert(seq@.subrange(0, seq@.len() as int) =~= seq@);
        false
    }
}

} // verus!
