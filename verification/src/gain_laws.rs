//! What the gains of binary FM mean: the gain of a module is the drop in cut
//! cost that moving it to the other part brings, and the deltas that a move
//! hands to the other pins of a net are exactly the changes of their gains.
use vstd::prelude::*;
use crate::fm_bi_gain_calc::{
    count_in_part, first_in_part, part_term, bi_net_gain, bi_net_cost, bi_gain_upto, bi_cost_upto, net_at,
    num_nets, handled_degree, valid_part, lemma_first_props, pins_except, general_delta_term, lemma_pins_except,
};
use crate::fm_kway_gain_calc::{
    kway_net_gain, kway_net_cost, kway_gain_upto, kway_cost_upto, nonempty_parts, two_pin_row, two_pin_v,
    general_round, general_round_v, three_pin_round, three_pin_round_v,
};
use crate::hypergraph::{Hypergraph, is_netlist};

verus! {

/// `part` with module `x` moved to the other of the two parts.
pub open spec fn flipped(part: Seq<u8>, x: usize) -> Seq<u8> {
    part.update(x as int, (1 - part[x as int]) as u8)
}

/// Pins other than the moved module count alike before and after the move.
proof fn lemma_count_flip_other(nb: Seq<usize>, part: Seq<u8>, x: usize, p: int, j: int)
    requires
        0 <= j <= nb.len(),
        forall|i: int| 0 <= i < nb.len() ==> nb[i] < part.len(),
        x < part.len(),
        forall|i: int| 0 <= i < j ==> nb[i] != x,
    ensures
        count_in_part(nb, flipped(part, x), p, j) == count_in_part(nb, part, p, j),
    decreases j,
{
    if j > 0 {
        lemma_count_flip_other(nb, part, x, p, j - 1);
    }
}

/// Moving a pin of the net takes one pin out of its part and puts one into
/// the other.
proof fn lemma_count_flip(nb: Seq<usize>, part: Seq<u8>, x: usize, p: int, j: int)
    requires
        0 <= j <= nb.len(),
        nb.no_duplicates(),
        forall|i: int| 0 <= i < nb.len() ==> nb[i] < part.len(),
        x < part.len(),
        part[x as int] <= 1,
    ensures
        count_in_part(nb, flipped(part, x), p, j) == count_in_part(nb, part, p, j) + (if nb.subrange(
            0,
            j,
        ).contains(x) {
            (if p == 1 - part[x as int] {
                1int
            } else {
                0int
            }) - (if p == part[x as int] {
                1int
            } else {
                0int
            })
        } else {
            0int
        }),
    decreases j,
{
    if j > 0 {
        lemma_count_flip(nb, part, x, p, j - 1);
        let s = nb.subrange(0, j);
        let s1 = nb.subrange(0, j - 1);
        assert(s.contains(x) == (s1.contains(x) || nb[j - 1] == x)) by {
            if s.contains(x) {
                let i = choose|i: int| 0 <= i < s.len() && s[i] == x;
                if i < j - 1 {
                    assert(s1[i] == x);
                }
            }
            if s1.contains(x) {
                let i = choose|i: int| 0 <= i < s1.len() && s1[i] == x;
                assert(s[i] == x);
            }
            if nb[j - 1] == x {
                assert(s[j - 1] == x);
            }
        }
        if nb[j - 1] == x && s1.contains(x) {
            let i = choose|i: int| 0 <= i < s1.len() && s1[i] == x;
            assert(nb[i] == nb[j - 1]);
        }
    }
}

/// A pin of part `p` that is the only one there is the first one there.
proof fn lemma_only_pin_first(nb: Seq<usize>, part: Seq<u8>, p: int, i: int, j: int)
    requires
        0 <= i < j <= nb.len(),
        part[nb[i] as int] == p,
        count_in_part(nb, part, p, j) == 1,
    ensures
        first_in_part(nb, part, p, j) == i,
    decreases j,
{
    lemma_first_props(nb, part, p, j);
    lemma_count_pos(nb, part, p, i, j - 1);
    if i < j - 1 {
        if part[nb[j - 1] as int] == p {
            lemma_count_pos(nb, part, p, i, j - 1);
        }
        lemma_only_pin_first(nb, part, p, i, j - 1);
    } else {
        lemma_first_props(nb, part, p, j - 1);
    }
}

/// A pin of part `p` among the first `j` pins makes the count positive.
proof fn lemma_count_pos(nb: Seq<usize>, part: Seq<u8>, p: int, i: int, j: int)
    requires
        0 <= j <= nb.len(),
        0 <= i < nb.len(),
        part[nb[i] as int] == p,
    ensures
        i < j ==> count_in_part(nb, part, p, j) >= 1,
    decreases j,
{
    if j > 0 && i < j - 1 {
        lemma_count_pos(nb, part, p, i, j - 1);
    }
}

/// In a two-part partition every pin lies in part 0 or part 1.
proof fn lemma_counts_sum(nb: Seq<usize>, part: Seq<u8>, j: int)
    requires
        0 <= j <= nb.len(),
        forall|i: int| 0 <= i < nb.len() ==> nb[i] < part.len(),
        valid_part(part, 2),
    ensures
        count_in_part(nb, part, 0, j) + count_in_part(nb, part, 1, j) == j,
    decreases j,
{
    if j > 0 {
        lemma_counts_sum(nb, part, j - 1);
        assert(part[nb[j - 1] as int] < 2);
    }
}


/// Sequences that agree on their first `j` entries count alike.
proof fn lemma_count_prefix(s: Seq<usize>, t: Seq<usize>, part: Seq<u8>, p: int, j: int)
    requires
        0 <= j <= s.len(),
        j <= t.len(),
        forall|i: int| 0 <= i < j ==> s[i] == t[i],
    ensures
        count_in_part(s, part, p, j) == count_in_part(t, part, p, j),
    decreases j,
{
    if j > 0 {
        lemma_count_prefix(s, t, part, p, j - 1);
    }
}

/// The pins of a net in part `p` are the other pins there, and the moved
/// pin when it lies there.
proof fn lemma_count_except(nb: Seq<usize>, part: Seq<u8>, v: usize, p: int, j: int)
    requires
        0 <= j <= nb.len(),
        nb.no_duplicates(),
    ensures
        count_in_part(nb, part, p, j) == count_in_part(
            pins_except(nb, v, j),
            part,
            p,
            pins_except(nb, v, j).len() as int,
        ) + (if nb.subrange(0, j).contains(v) && part[v as int] == p {
            1int
        } else {
            0int
        }),
    decreases j,
{
    if j > 0 {
        lemma_count_except(nb, part, v, p, j - 1);
        let pe = pins_except(nb, v, j - 1);
        let s = nb.subrange(0, j);
        let s1 = nb.subrange(0, j - 1);
        assert(s.contains(v) == (s1.contains(v) || nb[j - 1] == v)) by {
            if s.contains(v) {
                let i = choose|i: int| 0 <= i < s.len() && s[i] == v;
                if i < j - 1 {
                    assert(s1[i] == v);
                }
            }
            if s1.contains(v) {
                let i = choose|i: int| 0 <= i < s1.len() && s1[i] == v;
                assert(s[i] == v);
            }
            if nb[j - 1] == v {
                assert(s[j - 1] == v);
            }
        }
        if nb[j - 1] == v {
            if s1.contains(v) {
                let i = choose|i: int| 0 <= i < s1.len() && s1[i] == v;
                assert(nb[i] == nb[j - 1]);
            }
        } else {
            let pe2 = pe.push(nb[j - 1]);
            lemma_count_prefix(pe2, pe, part, p, pe.len() as int);
        }
    }
}

/// One net: the gain a module draws from it is the drop in the net's cost
/// when the module moves to the other part.
pub proof fn lemma_bi_net_gain_is_cost_drop<G: Hypergraph>(
    g: &G,
    part: Seq<u8>,
    special: bool,
    net: usize,
    x: usize,
)
    requires
        g.spec_neighbors(net).no_duplicates(),
        forall|i: int| 0 <= i < g.spec_neighbors(net).len() ==> g.spec_neighbors(net)[i] < part.len(),
        valid_part(part, 2),
        x < part.len(),
    ensures
        bi_net_gain(g, part, special, net, x) == bi_net_cost(g, part, special, net) - bi_net_cost(
            g,
            flipped(part, x),
            special,
            net,
        ),
{
    let nb = g.spec_neighbors(net);
    let d = nb.len() as int;
    let q = flipped(part, x);
    let w = g.spec_net_weight(net) as int;
    assert(part[x as int] < 2);
    assert(nb.subrange(0, d) =~= nb);
    if !handled_degree(nb.len()) {
    } else if !nb.contains(x) {
        assert forall|i: int| 0 <= i < d implies nb[i] != x by {
            if nb[i] == x {
                assert(nb.contains(x));
            }
        }
        assert forall|i: int| 0 <= i < d implies q[nb[i] as int] == part[nb[i] as int] by {}
        lemma_count_flip_other(nb, part, x, 0, d);
        lemma_count_flip_other(nb, part, x, 1, d);
        if !(special && (d == 2 || d == 3)) {
            if count_in_part(nb, part, 1, d) == 1 {
                lemma_first_props(nb, part, 1, d);
            }
            if count_in_part(nb, part, 0, d) == 1 {
                lemma_first_props(nb, part, 0, d);
            }
        }
    } else {
        let ix = choose|i: int| 0 <= i < d && nb[i] == x;
        assert forall|i: int| 0 <= i < d && i != ix implies q[nb[i] as int] == part[nb[i] as int] by {
            assert(nb[i] != nb[ix]);
        }
        assert(q[x as int] == 1 - part[x as int]);
        if special && d == 2 {
        } else if special && d == 3 {
        } else {
            let a = part[x as int] as int;
            let b = 1 - a;
            lemma_count_flip(nb, part, x, 0, d);
            lemma_count_flip(nb, part, x, 1, d);
            lemma_counts_sum(nb, part, d);
            lemma_count_pos(nb, part, a, ix, d);
            lemma_first_props(nb, part, b, d);
            if count_in_part(nb, part, a, d) == 1 {
                lemma_only_pin_first(nb, part, a, ix, d);
            }
            if count_in_part(nb, part, b, d) == 1 {
                let f = first_in_part(nb, part, b, d);
                assert(part[nb[f] as int] == b);
            }
            assert(part_term(nb, part, w, a, x) == if count_in_part(nb, part, a, d) == 1 {
                w
            } else {
                0
            });
            assert(part_term(nb, part, w, b, x) == if count_in_part(nb, part, b, d) == 0 {
                -w
            } else {
                0
            });
        }
    }
}

/// The initial gain of a module in binary FM, summed over the first `k`
/// nets, is the drop in their cut cost when the module moves to the other
/// part.
pub proof fn lemma_bi_gain_upto_is_cost_drop<G: Hypergraph>(
    g: &G,
    part: Seq<u8>,
    special: bool,
    x: usize,
    k: int,
)
    requires
        is_netlist(g),
        part.len() == g.spec_num_modules(),
        valid_part(part, 2),
        x < part.len(),
        k <= num_nets(g),
    ensures
        bi_gain_upto(g, part, special, k, x) == bi_cost_upto(g, part, special, k) - bi_cost_upto(
            g,
            flipped(part, x),
            special,
            k,
        ),
    decreases k,
{
    if k > 0 {
        lemma_bi_gain_upto_is_cost_drop(g, part, special, x, k - 1);
        let net = net_at(g, k - 1);
        assert(net < g.spec_num_nodes());
        let nb = g.spec_neighbors(net);
        assert forall|i: int| 0 <= i < nb.len() implies nb[i] < part.len() by {
            assert(nb[i] < g.spec_num_nodes());
        }
        lemma_bi_net_gain_is_cost_drop(g, part, special, net, x);
    }
}

/// In binary FM, the initial gain of a module is the drop in the cut cost
/// that moving it to the other part brings.
pub proof fn law_bi_gain_is_cost_drop<G: Hypergraph>(g: &G, part: Seq<u8>, special: bool, x: usize)
    requires
        is_netlist(g),
        part.len() == g.spec_num_modules(),
        valid_part(part, 2),
        x < part.len(),
    ensures
        bi_gain_upto(g, part, special, num_nets(g), x) == bi_cost_upto(g, part, special, num_nets(g))
            - bi_cost_upto(g, flipped(part, x), special, num_nets(g)),
{
    lemma_bi_gain_upto_is_cost_drop(g, part, special, x, num_nets(g));
}

/// In binary FM, the delta that a move of `v` to the other part hands to the
/// `i`-th other pin of a net with more than three pins is the change that
/// the move brings to that pin's gain from the net.
pub proof fn law_bi_general_delta<G: Hypergraph>(
    g: &G,
    part: Seq<u8>,
    special: bool,
    net: usize,
    v: usize,
    i: int,
)
    requires
        g.spec_neighbors(net).no_duplicates(),
        forall|j: int| 0 <= j < g.spec_neighbors(net).len() ==> g.spec_neighbors(net)[j] < part.len(),
        valid_part(part, 2),
        v < part.len(),
        g.spec_neighbors(net).contains(v),
        handled_degree(g.spec_neighbors(net).len()),
        g.spec_neighbors(net).len() >= 4,
        0 <= i < pins_except(g.spec_neighbors(net), v, g.spec_neighbors(net).len() as int).len(),
    ensures
        ({
            let nb = g.spec_neighbors(net);
            let iv = pins_except(nb, v, nb.len() as int);
            let w = g.spec_net_weight(net) as int;
            general_delta_term(iv, part, part[v as int] as int, w, i) + general_delta_term(
                iv,
                part,
                1 - part[v as int],
                -w,
                i,
            ) == bi_net_gain(g, flipped(part, v), special, net, iv[i]) - bi_net_gain(g, part, special, net, iv[i])
        }),
{
    let nb = g.spec_neighbors(net);
    let d = nb.len() as int;
    let iv = pins_except(nb, v, d);
    let w = g.spec_net_weight(net) as int;
    let x = iv[i];
    let pv = flipped(part, v);
    assert(nb.subrange(0, d) =~= nb);
    lemma_pins_except(nb, v, d);
    assert(nb.contains(x));
    assert(x != v);
    let jx = choose|j: int| 0 <= j < d && nb[j] == x;
    assert(x < part.len());
    assert(part[x as int] < 2 && part[v as int] < 2);
    assert(pv[x as int] == part[x as int]);
    assert(valid_part(pv, 2)) by {
        assert forall|j: int| 0 <= j < pv.len() implies #[trigger] pv[j] < 2 by {
            assert(part[j] < 2);
        }
    }
    lemma_bi_net_gain_is_cost_drop(g, part, special, net, x);
    lemma_bi_net_gain_is_cost_drop(g, pv, special, net, x);
    let a = part[v as int] as int;
    let ax = part[x as int] as int;
    // counts in the four partitions
    lemma_count_flip(nb, part, x, 0, d);
    lemma_count_flip(nb, part, x, 1, d);
    lemma_count_flip(nb, part, v, 0, d);
    lemma_count_flip(nb, part, v, 1, d);
    lemma_count_flip(nb, pv, x, 0, d);
    lemma_count_flip(nb, pv, x, 1, d);
    // the other pins' counts
    lemma_count_except(nb, part, v, 0, d);
    lemma_count_except(nb, part, v, 1, d);
    let ni = iv.len() as int;
    lemma_pins_except(iv, v, 0);
    lemma_count_pos(iv, part, ax, i, ni);
    lemma_first_props(iv, part, 0, ni);
    lemma_first_props(iv, part, 1, ni);
    if count_in_part(iv, part, ax, ni) == 1 {
        lemma_only_pin_first(iv, part, ax, i, ni);
    }
    if count_in_part(iv, part, 1 - ax, ni) == 1 {
        let f = first_in_part(iv, part, 1 - ax, ni);
        assert(part[iv[f] as int] == 1 - ax);
    }
}

/// In binary FM, the delta that a move of `v` to the other part hands to the
/// other pin of a 2-pin net is the change that the move brings to that pin's
/// gain from the net.
pub proof fn law_bi_two_pin_delta<G: Hypergraph>(g: &G, part: Seq<u8>, special: bool, net: usize, v: usize)
    requires
        g.spec_neighbors(net).no_duplicates(),
        forall|j: int| 0 <= j < g.spec_neighbors(net).len() ==> g.spec_neighbors(net)[j] < part.len(),
        valid_part(part, 2),
        v < part.len(),
        g.spec_neighbors(net).len() == 2,
        g.spec_neighbors(net).contains(v),
    ensures
        ({
            let nb = g.spec_neighbors(net);
            let w = g.spec_net_weight(net) as int;
            let x = if nb[0] != v {
                nb[0]
            } else {
                nb[1]
            };
            2 * (if part[x as int] == part[v as int] {
                w
            } else {
                -w
            }) == bi_net_gain(g, flipped(part, v), special, net, x) - bi_net_gain(g, part, special, net, x)
        }),
{
    let nb = g.spec_neighbors(net);
    let x = if nb[0] != v {
        nb[0]
    } else {
        nb[1]
    };
    let pv = flipped(part, v);
    assert(nb[0] != nb[1]);
    assert(v == nb[0] || v == nb[1]);
    assert(part[nb[0] as int] < 2 && part[nb[1] as int] < 2);
    assert(valid_part(pv, 2)) by {
        assert forall|j: int| 0 <= j < pv.len() implies #[trigger] pv[j] < 2 by {
            assert(part[j] < 2);
        }
    }
    lemma_bi_net_gain_is_cost_drop(g, part, special, net, x);
    lemma_bi_net_gain_is_cost_drop(g, pv, special, net, x);
    reveal_with_fuel(count_in_part, 3);
}

/// In binary FM, the deltas that a move of `v` to the other part hands to
/// the two other pins of a 3-pin net are the changes that the move brings to
/// their gains from the net.
pub proof fn law_bi_three_pin_delta<G: Hypergraph>(g: &G, part: Seq<u8>, special: bool, net: usize, v: usize, i: int)
    requires
        g.spec_neighbors(net).no_duplicates(),
        forall|j: int| 0 <= j < g.spec_neighbors(net).len() ==> g.spec_neighbors(net)[j] < part.len(),
        valid_part(part, 2),
        v < part.len(),
        g.spec_neighbors(net).len() == 3,
        g.spec_neighbors(net).contains(v),
        0 <= i < 2,
    ensures
        ({
            let nb = g.spec_neighbors(net);
            let iv = pins_except(nb, v, 3);
            let w = g.spec_net_weight(net) as int;
            let adj = if part[iv[0] as int] != part[v as int] {
                -w
            } else {
                w
            };
            let r = if part[iv[0] as int] == part[iv[1] as int] {
                seq![adj, adj]
            } else {
                seq![adj, -adj]
            };
            r[i] == bi_net_gain(g, flipped(part, v), special, net, iv[i]) - bi_net_gain(g, part, special, net, iv[i])
        }),
{
    let nb = g.spec_neighbors(net);
    let iv = pins_except(nb, v, 3);
    let pv = flipped(part, v);
    assert(nb.subrange(0, 3) =~= nb);
    lemma_pins_except(nb, v, 3);
    reveal_with_fuel(pins_except, 4);
    assert(nb[0] != nb[1] && nb[1] != nb[2] && nb[0] != nb[2]);
    assert(part[nb[0] as int] < 2 && part[nb[1] as int] < 2 && part[nb[2] as int] < 2);
    assert(valid_part(pv, 2)) by {
        assert forall|j: int| 0 <= j < pv.len() implies #[trigger] pv[j] < 2 by {
            assert(part[j] < 2);
        }
    }
    let x = iv[i];
    lemma_bi_net_gain_is_cost_drop(g, part, special, net, x);
    lemma_bi_net_gain_is_cost_drop(g, pv, special, net, x);
    reveal_with_fuel(count_in_part, 4);
}

/// `part` with module `x` moved to part `k`.
pub open spec fn moved_to(part: Seq<u8>, x: usize, k: int) -> Seq<u8> {
    part.update(x as int, k as u8)
}

/// Moving a pin of the net to part `k` takes one pin out of its part and
/// puts one into part `k`.
proof fn lemma_count_move(nb: Seq<usize>, part: Seq<u8>, x: usize, k: int, p: int, j: int)
    requires
        0 <= j <= nb.len(),
        nb.no_duplicates(),
        forall|i: int| 0 <= i < nb.len() ==> nb[i] < part.len(),
        x < part.len(),
        0 <= k <= u8::MAX,
    ensures
        count_in_part(nb, moved_to(part, x, k), p, j) == count_in_part(nb, part, p, j) + (if nb.subrange(
            0,
            j,
        ).contains(x) {
            (if p == k {
                1int
            } else {
                0int
            }) - (if p == part[x as int] {
                1int
            } else {
                0int
            })
        } else {
            0int
        }),
    decreases j,
{
    if j > 0 {
        lemma_count_move(nb, part, x, k, p, j - 1);
        let s = nb.subrange(0, j);
        let s1 = nb.subrange(0, j - 1);
        assert(s.contains(x) == (s1.contains(x) || nb[j - 1] == x)) by {
            if s.contains(x) {
                let i = choose|i: int| 0 <= i < s.len() && s[i] == x;
                if i < j - 1 {
                    assert(s1[i] == x);
                }
            }
            if s1.contains(x) {
                let i = choose|i: int| 0 <= i < s1.len() && s1[i] == x;
                assert(s[i] == x);
            }
            if nb[j - 1] == x {
                assert(s[j - 1] == x);
            }
        }
        if nb[j - 1] == x && s1.contains(x) {
            let i = choose|i: int| 0 <= i < s1.len() && s1[i] == x;
            assert(nb[i] == nb[j - 1]);
        }
    }
}

/// Moving a pin of the net from part `a` to another part `k` changes the
/// number of parts that hold a pin by one for each of these: `k` held none
/// (one more), the pin was alone in `a` (one less).
proof fn lemma_nonempty_move(nb: Seq<usize>, part: Seq<u8>, x: usize, k: int, np: int, j: int)
    requires
        0 <= j <= np,
        nb.no_duplicates(),
        forall|i: int| 0 <= i < nb.len() ==> nb[i] < part.len(),
        x < part.len(),
        nb.contains(x),
        0 <= k < np <= u8::MAX + 1,
        part[x as int] < np,
        k != part[x as int],
    ensures
        nonempty_parts(nb, moved_to(part, x, k), j) == nonempty_parts(nb, part, j) + (if k < j
            && count_in_part(nb, part, k, nb.len() as int) == 0 {
            1int
        } else {
            0int
        }) - (if part[x as int] < j && count_in_part(nb, part, part[x as int] as int, nb.len() as int) == 1 {
            1int
        } else {
            0int
        }),
    decreases j,
{
    if j > 0 {
        lemma_nonempty_move(nb, part, x, k, np, j - 1);
        assert(nb.subrange(0, nb.len() as int) =~= nb);
        lemma_count_move(nb, part, x, k, j - 1, nb.len() as int);
    }
}

/// One net: the gain a module draws from it towards part `k` is the drop in
/// the net's cost when the module moves there.
pub proof fn lemma_kway_net_gain_is_cost_drop<G: Hypergraph>(
    g: &G,
    part: Seq<u8>,
    np: int,
    net: usize,
    x: usize,
    k: int,
)
    requires
        g.spec_neighbors(net).no_duplicates(),
        forall|i: int| 0 <= i < g.spec_neighbors(net).len() ==> g.spec_neighbors(net)[i] < part.len(),
        valid_part(part, np),
        np <= u8::MAX + 1,
        x < part.len(),
        0 <= k < np,
        k != part[x as int],
    ensures
        kway_net_gain(g, part, net, k, x) == kway_net_cost(g, part, np, net) - kway_net_cost(
            g,
            moved_to(part, x, k),
            np,
            net,
        ),
{
    let nb = g.spec_neighbors(net);
    let d = nb.len() as int;
    let q = moved_to(part, x, k);
    assert(part[x as int] < np);
    assert(nb.subrange(0, d) =~= nb);
    if !handled_degree(nb.len()) {
    } else if !nb.contains(x) {
        assert forall|i: int| 0 <= i < d implies nb[i] != x by {
            if nb[i] == x {
                assert(nb.contains(x));
            }
        }
        assert forall|i: int| 0 <= i < d implies q[nb[i] as int] == part[nb[i] as int] by {}
        if d > 3 {
            assert forall|p: int| 0 <= p < np implies count_in_part(nb, q, p, d) == count_in_part(nb, part, p, d) by {
                lemma_count_move(nb, part, x, k, p, d);
            }
            lemma_nonempty_same(nb, part, q, np);
        }
    } else {
        let ix = choose|i: int| 0 <= i < d && nb[i] == x;
        assert forall|i: int| 0 <= i < d && i != ix implies q[nb[i] as int] == part[nb[i] as int] by {
            assert(nb[i] != nb[ix]);
        }
        let post = kway_net_gain(g, part, net, k, x) == kway_net_cost(g, part, np, net) - kway_net_cost(
            g,
            q,
            np,
            net,
        );
        if d == 2 {
            assert(nb[0] != nb[1]);
            assert(post);
        } else if d == 3 {
            assert(nb[0] != nb[1] && nb[1] != nb[2] && nb[0] != nb[2]);
            assert(post);
        } else {
            lemma_nonempty_move(nb, part, x, k, np, np);
            lemma_count_move(nb, part, x, k, k, d);
            lemma_count_move(nb, part, x, k, part[x as int] as int, d);
            let n1 = nonempty_parts(nb, part, np) as int;
            let n2 = nonempty_parts(nb, q, np) as int;
            let w = g.spec_net_weight(net) as int;
            let ca = count_in_part(nb, part, part[x as int] as int, d);
            let ck = count_in_part(nb, part, k, d);
            let e: int = (if ck == 0 {
                -1int
            } else {
                0int
            }) + (if ca == 1 {
                1int
            } else {
                0int
            });
            assert(n1 - n2 == e);
            assert((n1 * w - w) - (n2 * w - w) == e * w) by (nonlinear_arith)
                requires
                    n1 - n2 == e,
            ;
            assert(e * w == (if ck == 0 {
                -w
            } else {
                0
            }) + (if ca == 1 {
                w
            } else {
                0
            })) by (nonlinear_arith)
                requires
                    e == (if ck == 0 {
                        -1int
                    } else {
                        0int
                    }) + (if ca == 1 {
                        1int
                    } else {
                        0int
                    }),
            ;
            assert(post);
        }
    }
}

/// Partitions whose parts hold the same numbers of pins have the same parts
/// with pins.
proof fn lemma_nonempty_same(nb: Seq<usize>, a: Seq<u8>, b: Seq<u8>, j: int)
    requires
        forall|p: int| 0 <= p < j ==> count_in_part(nb, a, p, nb.len() as int) == count_in_part(nb, b, p, nb.len() as int),
    ensures
        nonempty_parts(nb, a, j) == nonempty_parts(nb, b, j),
    decreases j,
{
    if j > 0 {
        lemma_nonempty_same(nb, a, b, j - 1);
    }
}

/// In k-way FM, the initial gain of a module towards another part is the
/// drop in the cut cost that moving it there brings.
pub proof fn law_kway_gain_is_cost_drop<G: Hypergraph>(g: &G, part: Seq<u8>, np: int, x: usize, k: int)
    requires
        is_netlist(g),
        part.len() == g.spec_num_modules(),
        valid_part(part, np),
        np <= u8::MAX + 1,
        x < part.len(),
        0 <= k < np,
        k != part[x as int],
    ensures
        kway_gain_upto(g, part, num_nets(g), k, x) == kway_cost_upto(g, part, np, num_nets(g)) - kway_cost_upto(
            g,
            moved_to(part, x, k),
            np,
            num_nets(g),
        ),
{
    lemma_kway_gain_upto_is_cost_drop(g, part, np, x, k, num_nets(g));
}

/// The k-way gain summed over the first `n` nets is the drop in their cost.
pub proof fn lemma_kway_gain_upto_is_cost_drop<G: Hypergraph>(g: &G, part: Seq<u8>, np: int, x: usize, k: int, n: int)
    requires
        is_netlist(g),
        part.len() == g.spec_num_modules(),
        valid_part(part, np),
        np <= u8::MAX + 1,
        x < part.len(),
        0 <= k < np,
        k != part[x as int],
        n <= num_nets(g),
    ensures
        kway_gain_upto(g, part, n, k, x) == kway_cost_upto(g, part, np, n) - kway_cost_upto(
            g,
            moved_to(part, x, k),
            np,
            n,
        ),
    decreases n,
{
    if n > 0 {
        lemma_kway_gain_upto_is_cost_drop(g, part, np, x, k, n - 1);
        let net = net_at(g, n - 1);
        assert(net < g.spec_num_nodes());
        let nb = g.spec_neighbors(net);
        assert forall|i: int| 0 <= i < nb.len() implies nb[i] < part.len() by {
            assert(nb[i] < g.spec_num_nodes());
        }
        lemma_kway_net_gain_is_cost_drop(g, part, np, net, x, k);
    }
}

/// In k-way FM, when `v` moves from its part to part `tp`, the delta that a
/// 2-pin net hands to its other pin towards part `k` (other than that pin's
/// own part) is the change that the move brings to that pin's gain from the
/// net, and the delta it adds to the moved vertex's gains towards any part
/// other than its old and new one is the change of those gains.
pub proof fn law_kway_two_pin_delta<G: Hypergraph>(
    g: &G,
    part: Seq<u8>,
    np: int,
    net: usize,
    v: usize,
    tp: int,
    k: int,
)
    requires
        g.spec_neighbors(net).no_duplicates(),
        forall|j: int| 0 <= j < g.spec_neighbors(net).len() ==> g.spec_neighbors(net)[j] < part.len(),
        valid_part(part, np),
        np <= u8::MAX + 1,
        v < part.len(),
        g.spec_neighbors(net).len() == 2,
        g.spec_neighbors(net).contains(v),
        0 <= tp < np,
        tp != part[v as int],
        0 <= k < np,
    ensures
        ({
            let nb = g.spec_neighbors(net);
            let w = g.spec_net_weight(net) as int;
            let x = if nb[0] != v {
                nb[0]
            } else {
                nb[1]
            };
            let fp = part[v as int] as int;
            let q = moved_to(part, v, tp);
            &&& k != part[x as int] ==> two_pin_row(part[x as int] as int, fp, tp, w, k) == kway_net_gain(
                g,
                q,
                net,
                k,
                x,
            ) - kway_net_gain(g, part, net, k, x)
            &&& k != fp && k != tp ==> two_pin_v(part[x as int] as int, fp, tp, w) == kway_net_gain(
                g,
                q,
                net,
                k,
                v,
            ) - kway_net_gain(g, part, net, k, v)
        }),
{
    let nb = g.spec_neighbors(net);
    assert(nb[0] != nb[1]);
    assert(v == nb[0] || v == nb[1]);
}

/// In k-way FM, when `v` moves from its part to part `tp`, the deltas that a
/// 3-pin net hands to its two other pins towards each part (other than the
/// pin's own) are the changes that the move brings to their gains from the
/// net, and the delta it adds to the moved vertex's gains towards any part
/// other than its old and new one is the change of those gains.
pub proof fn law_kway_three_pin_delta<G: Hypergraph>(
    g: &G,
    part: Seq<u8>,
    np: int,
    net: usize,
    v: usize,
    tp: int,
    i: int,
    k: int,
)
    requires
        g.spec_neighbors(net).no_duplicates(),
        forall|j: int| 0 <= j < g.spec_neighbors(net).len() ==> g.spec_neighbors(net)[j] < part.len(),
        valid_part(part, np),
        np <= u8::MAX + 1,
        v < part.len(),
        g.spec_neighbors(net).len() == 3,
        g.spec_neighbors(net).contains(v),
        0 <= tp < np,
        tp != part[v as int],
        0 <= k < np,
        0 <= i < 2,
    ensures
        ({
            let nb = g.spec_neighbors(net);
            let iv = pins_except(nb, v, 3);
            let w = g.spec_net_weight(net) as int;
            let fp = part[v as int] as int;
            let pw = part[iv[0] as int] as int;
            let pu = part[iv[1] as int] as int;
            let q = moved_to(part, v, tp);
            &&& iv.len() == 2
            &&& k != part[iv[i] as int] ==> three_pin_round(pw, pu, fp, w, i, k) + three_pin_round(
                pw,
                pu,
                tp,
                -w,
                i,
                k,
            ) == kway_net_gain(g, q, net, k, iv[i]) - kway_net_gain(g, part, net, k, iv[i])
            &&& k != fp && k != tp ==> three_pin_round_v(pw, pu, fp, tp, w) + three_pin_round_v(
                pw,
                pu,
                tp,
                fp,
                -w,
            ) == kway_net_gain(g, q, net, k, v) - kway_net_gain(g, part, net, k, v)
        }),
{
    let nb = g.spec_neighbors(net);
    let w = g.spec_net_weight(net) as int;
    assert(nb[0] != nb[1] && nb[0] != nb[2] && nb[1] != nb[2]);
    assert(v == nb[0] || v == nb[1] || v == nb[2]);
    reveal_with_fuel(pins_except, 4);
    let q = moved_to(part, v, tp);
    let pos: int = if v == nb[0] {
        0
    } else if v == nb[1] {
        1
    } else {
        2
    };
    let (o0, o1): (int, int) = if pos == 0 {
        (1, 2)
    } else if pos == 1 {
        (0, 2)
    } else {
        (0, 1)
    };
    assert(pins_except(nb, v, 3) =~= seq![nb[o0], nb[o1]]);
    let p0 = part[nb[0] as int] as int;
    let p1 = part[nb[1] as int] as int;
    let p2 = part[nb[2] as int] as int;
    let q0 = q[nb[0] as int] as int;
    let q1 = q[nb[1] as int] as int;
    let q2 = q[nb[2] as int] as int;
    assert(part[nb[0] as int] < np && part[nb[1] as int] < np && part[nb[2] as int] < np);
    assert(q0 == (if pos == 0 { tp } else { p0 }));
    assert(q1 == (if pos == 1 { tp } else { p1 }));
    assert(q2 == (if pos == 2 { tp } else { p2 }));
    let oi = if i == 0 { o0 } else { o1 };
    lemma_gain3_is_net_gain(g, part, net, k, oi);
    lemma_gain3_is_net_gain(g, q, net, k, oi);
    lemma_gain3_is_net_gain(g, part, net, k, pos);
    lemma_gain3_is_net_gain(g, q, net, k, pos);
    if pos == 0 {
        lemma_three_pin_rounds_0(p0, p1, p2, tp, w, i, k);
    } else if pos == 1 {
        lemma_three_pin_rounds_1(p0, p1, p2, tp, w, i, k);
    } else {
        lemma_three_pin_rounds_2(p0, p1, p2, tp, w, i, k);
    }
}

/// A change of `d` to the gain of the pin at position `a` towards part `k0`.
pub open spec fn one3(xi: int, a: int, k: int, k0: int, d: int) -> int {
    if xi == a && k == k0 {
        d
    } else {
        0
    }
}

/// A change of `d` to every gain of the pin at position `a` (in part `pa`)
/// but towards its own part.
pub open spec fn others3(xi: int, a: int, pa: int, k: int, d: int) -> int {
    if xi == a && k != pa {
        d
    } else {
        0
    }
}

/// The lone pin `a` and the pins `b`, `c` together in one part: `a` gains `w`
/// towards them, `b` and `c` lose `w` for leaving but gain it towards `a`.
pub open spec fn lone3(xi: int, a: int, b: int, c: int, pa: int, pb: int, pc: int, w: int, k: int) -> int {
    one3(xi, a, k, pb, w) + others3(xi, b, pb, k, -w) + one3(xi, b, k, pa, w) + others3(xi, c, pc, k, -w)
        + one3(xi, c, k, pa, w)
}

/// The gain that a 3-pin net, with its pins at positions 0, 1, 2 in parts
/// `p0`, `p1`, `p2`, gives the pin at position `xi` towards part `k`.
pub open spec fn gain3(p0: int, p1: int, p2: int, w: int, k: int, xi: int) -> int {
    if p2 == p1 && p0 == p1 {
        others3(xi, 2, p2, k, -w) + others3(xi, 1, p1, k, -w) + others3(xi, 0, p0, k, -w)
    } else if p2 == p1 {
        lone3(xi, 0, 2, 1, p0, p2, p1, w, k)
    } else if p0 == p1 {
        lone3(xi, 2, 1, 0, p2, p1, p0, w, k)
    } else if p0 == p2 {
        lone3(xi, 1, 0, 2, p1, p0, p2, w, k)
    } else {
        one3(xi, 1, k, p2, w) + one3(xi, 0, k, p2, w) + one3(xi, 2, k, p1, w) + one3(xi, 0, k, p1, w) + one3(
            xi,
            2,
            k,
            p0,
            w,
        ) + one3(xi, 1, k, p0, w)
    }
}

/// A 3-pin net's gain for a pin, read through the parts of its pins.
proof fn lemma_gain3_is_net_gain<G: Hypergraph>(g: &G, part: Seq<u8>, net: usize, k: int, xi: int)
    requires
        g.spec_neighbors(net).no_duplicates(),
        g.spec_neighbors(net).len() == 3,
        0 <= xi < 3,
    ensures
        ({
            let nb = g.spec_neighbors(net);
            kway_net_gain(g, part, net, k, nb[xi]) == gain3(
                part[nb[0] as int] as int,
                part[nb[1] as int] as int,
                part[nb[2] as int] as int,
                g.spec_net_weight(net) as int,
                k,
                xi,
            )
        }),
{
    let nb = g.spec_neighbors(net);
    assert(nb[0] != nb[1] && nb[0] != nb[2] && nb[1] != nb[2]);
}

/// The 3-pin deltas over two rounds, the second with the weight negated,
/// are the changes of `gain3` when the pin at position 0 moves to `tp`.
#[verifier::rlimit(50)]
proof fn lemma_three_pin_rounds_0(p0: int, p1: int, p2: int, tp: int, w: int, i: int, k: int)
    requires
        0 <= i < 2,
        tp != p0,
    ensures
        ({
            let oi = if i == 0 { 1int } else { 2int };
            let po = if i == 0 { p1 } else { p2 };
            &&& k != po ==> three_pin_round(p1, p2, p0, w, i, k) + three_pin_round(p1, p2, tp, -w, i, k)
                == gain3(tp, p1, p2, w, k, oi) - gain3(p0, p1, p2, w, k, oi)
            &&& k != p0 && k != tp ==> three_pin_round_v(p1, p2, p0, tp, w) + three_pin_round_v(
                p1,
                p2,
                tp,
                p0,
                -w,
            ) == gain3(tp, p1, p2, w, k, 0) - gain3(p0, p1, p2, w, k, 0)
        }),
{
}

/// As `lemma_three_pin_rounds_0`, for the pin at position 1.
#[verifier::rlimit(50)]
proof fn lemma_three_pin_rounds_1(p0: int, p1: int, p2: int, tp: int, w: int, i: int, k: int)
    requires
        0 <= i < 2,
        tp != p1,
    ensures
        ({
            let oi = if i == 0 { 0int } else { 2int };
            let po = if i == 0 { p0 } else { p2 };
            &&& k != po ==> three_pin_round(p0, p2, p1, w, i, k) + three_pin_round(p0, p2, tp, -w, i, k)
                == gain3(p0, tp, p2, w, k, oi) - gain3(p0, p1, p2, w, k, oi)
            &&& k != p1 && k != tp ==> three_pin_round_v(p0, p2, p1, tp, w) + three_pin_round_v(
                p0,
                p2,
                tp,
                p1,
                -w,
            ) == gain3(p0, tp, p2, w, k, 1) - gain3(p0, p1, p2, w, k, 1)
        }),
{
}

/// As `lemma_three_pin_rounds_0`, for the pin at position 2.
#[verifier::rlimit(50)]
proof fn lemma_three_pin_rounds_2(p0: int, p1: int, p2: int, tp: int, w: int, i: int, k: int)
    requires
        0 <= i < 2,
        tp != p2,
    ensures
        ({
            let oi = if i == 0 { 0int } else { 1int };
            let po = if i == 0 { p0 } else { p1 };
            &&& k != po ==> three_pin_round(p0, p1, p2, w, i, k) + three_pin_round(p0, p1, tp, -w, i, k)
                == gain3(p0, p1, tp, w, k, oi) - gain3(p0, p1, p2, w, k, oi)
            &&& k != p2 && k != tp ==> three_pin_round_v(p0, p1, p2, tp, w) + three_pin_round_v(
                p0,
                p1,
                tp,
                p2,
                -w,
            ) == gain3(p0, p1, tp, w, k, 2) - gain3(p0, p1, p2, w, k, 2)
        }),
{
}

/// In k-way FM, when `v` moves from its part to part `tp`, the deltas that a
/// net of more than three pins hands to its other pins towards each part
/// (other than the pin's own) are the changes that the move brings to their
/// gains from the net, and the delta it adds to the moved vertex's gains
/// towards any part other than its old and new one is the change of those
/// gains.
pub proof fn law_kway_general_delta<G: Hypergraph>(
    g: &G,
    part: Seq<u8>,
    np: int,
    net: usize,
    v: usize,
    tp: int,
    i: int,
    k: int,
)
    requires
        g.spec_neighbors(net).no_duplicates(),
        forall|j: int| 0 <= j < g.spec_neighbors(net).len() ==> g.spec_neighbors(net)[j] < part.len(),
        valid_part(part, np),
        np <= u8::MAX + 1,
        v < part.len(),
        handled_degree(g.spec_neighbors(net).len()),
        g.spec_neighbors(net).len() >= 4,
        g.spec_neighbors(net).contains(v),
        0 <= tp < np,
        tp != part[v as int],
        0 <= k < np,
        0 <= i < pins_except(g.spec_neighbors(net), v, g.spec_neighbors(net).len() as int).len(),
    ensures
        ({
            let nb = g.spec_neighbors(net);
            let iv = pins_except(nb, v, nb.len() as int);
            let w = g.spec_net_weight(net) as int;
            let fp = part[v as int] as int;
            let q = moved_to(part, v, tp);
            &&& k != part[iv[i] as int] ==> general_round(iv, part, fp, w, i, k) + general_round(
                iv,
                part,
                tp,
                -w,
                i,
                k,
            ) == kway_net_gain(g, q, net, k, iv[i]) - kway_net_gain(g, part, net, k, iv[i])
            &&& k != fp && k != tp ==> general_round_v(iv, part, fp, tp, w) + general_round_v(
                iv,
                part,
                tp,
                fp,
                -w,
            ) == kway_net_gain(g, q, net, k, v) - kway_net_gain(g, part, net, k, v)
        }),
{
    let nb = g.spec_neighbors(net);
    let d = nb.len() as int;
    let iv = pins_except(nb, v, d);
    let x = iv[i];
    let fp = part[v as int] as int;
    let q = moved_to(part, v, tp);
    assert(nb.subrange(0, d) =~= nb);
    lemma_pins_except(nb, v, d);
    assert(nb.contains(x));
    assert(x != v);
    assert(x < part.len());
    assert(part[x as int] < np && part[v as int] < np);
    assert(q[x as int] == part[x as int]);
    let ni = iv.len() as int;
    // counts of all pins before and after, and of the other pins
    lemma_count_move(nb, part, v, tp, k, d);
    lemma_count_move(nb, part, v, tp, fp, d);
    lemma_count_move(nb, part, v, tp, tp, d);
    lemma_count_move(nb, part, v, tp, part[x as int] as int, d);
    lemma_count_except(nb, part, v, k, d);
    lemma_count_except(nb, part, v, fp, d);
    lemma_count_except(nb, part, v, tp, d);
    lemma_count_except(nb, part, v, part[x as int] as int, d);
    let ax = part[x as int] as int;
    lemma_count_pos(iv, part, ax, i, ni);
    lemma_first_props(iv, part, fp, ni);
    lemma_first_props(iv, part, tp, ni);
    if count_in_part(iv, part, ax, ni) == 1 {
        lemma_only_pin_first(iv, part, ax, i, ni);
    }
    if count_in_part(iv, part, fp, ni) == 1 && ax != fp {
        let f = first_in_part(iv, part, fp, ni);
        assert(part[iv[f] as int] == fp);
    }
    if count_in_part(iv, part, tp, ni) == 1 && ax != tp {
        let f = first_in_part(iv, part, tp, ni);
        assert(part[iv[f] as int] == tp);
    }
}

/// In binary FM, once a module has moved, its gain is the opposite of the
/// gain that moved it: moving it back undoes the drop in cost.
pub proof fn law_bi_move_back<G: Hypergraph>(g: &G, part: Seq<u8>, special: bool, x: usize)
    requires
        is_netlist(g),
        part.len() == g.spec_num_modules(),
        valid_part(part, 2),
        x < part.len(),
    ensures
        bi_gain_upto(g, flipped(part, x), special, num_nets(g), x) == -bi_gain_upto(
            g,
            part,
            special,
            num_nets(g),
            x,
        ),
{
    let q = flipped(part, x);
    assert(part[x as int] < 2);
    assert(valid_part(q, 2)) by {
        assert forall|j: int| 0 <= j < q.len() implies #[trigger] q[j] < 2 by {
            assert(part[j] < 2);
        }
    }
    law_bi_gain_is_cost_drop(g, part, special, x);
    law_bi_gain_is_cost_drop(g, q, special, x);
    assert(flipped(q, x) =~= part);
}

/// In k-way FM, once a module has moved from part `fp` to part `tp`, its gain
/// towards `fp` is the opposite of the gain that moved it.
pub proof fn law_kway_move_back<G: Hypergraph>(g: &G, part: Seq<u8>, np: int, x: usize, tp: int)
    requires
        is_netlist(g),
        part.len() == g.spec_num_modules(),
        valid_part(part, np),
        np <= u8::MAX + 1,
        x < part.len(),
        0 <= tp < np,
        tp != part[x as int],
    ensures
        kway_gain_upto(g, moved_to(part, x, tp), num_nets(g), part[x as int] as int, x) == -kway_gain_upto(
            g,
            part,
            num_nets(g),
            tp,
            x,
        ),
{
    let q = moved_to(part, x, tp);
    let fp = part[x as int] as int;
    assert(fp < np);
    assert(valid_part(q, np)) by {
        assert forall|j: int| 0 <= j < q.len() implies #[trigger] q[j] < np by {
            assert(part[j] < np);
        }
    }
    law_kway_gain_is_cost_drop(g, part, np, x, tp);
    law_kway_gain_is_cost_drop(g, q, np, x, fp);
    assert(moved_to(q, x, fp) =~= part);
}

} // verus!
