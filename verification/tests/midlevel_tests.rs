use ckpttn_rs::midlevel::hamcycle::{MidHamCycle, MidVisitor};
use ckpttn_rs::midlevel::tree::MidTree;
use ckpttn_rs::midlevel::vertex::{bitstrings_equal, bitstrings_less_than, MidVertex};

struct VisitCounter {
    visited: usize,
    flips: Vec<usize>,
}

impl VisitCounter {
    fn new() -> Self {
        VisitCounter { visited: 0, flips: Vec::new() }
    }
}

impl MidVisitor for VisitCounter {
    fn visit(&mut self, _bits: &[i32], i: usize) {
        self.visited += 1;
        self.flips.push(i);
    }
}

#[test]
fn test_mid_ham_cycle_with_limit() {
    let x = MidVertex::new(vec![1, 0, 1, 0, 1]);
    let mut visit_f = VisitCounter::new();
    let ham = MidHamCycle::new(x, 10, &mut visit_f);
    assert!(ham.get_length() <= 10);
}

#[test]
fn test_mid_ham_cycle_n3() {
    let x = MidVertex::new(vec![1, 1, 1, 0, 0, 0, 1]);
    let mut visit_f = VisitCounter::new();
    let ham = MidHamCycle::new(x, 20, &mut visit_f);
    assert!(ham.get_length() >= 0);
}

#[test]
fn test_mid_ham_cycle_n2() {
    let x = MidVertex::new(vec![1, 1, 0, 0, 1]);
    let mut visit_f = VisitCounter::new();
    let ham = MidHamCycle::new(x, 10, &mut visit_f);
    assert!(ham.get_length() >= 0);
}

#[test]
fn test_mid_ham_cycle_zero_limit() {
    let x = MidVertex::new(vec![1, 0, 1, 0, 1]);
    let mut visit_f = VisitCounter::new();
    let ham = MidHamCycle::new(x, 0, &mut visit_f);
    assert_eq!(ham.get_length(), 0);
}

#[test]
fn test_mid_ham_cycle_length_counts_visits() {
    let x = MidVertex::new(vec![1, 1, 0, 0, 1]);
    let mut visit_f = VisitCounter::new();
    let ham = MidHamCycle::new(x, 5, &mut visit_f);
    assert!(ham.get_length() <= 5);
    assert!(visit_f.flips.iter().all(|&i| i < 5));
}

#[test]
fn test_mid_tree_new_small() {
    let x = MidVertex::new(vec![1, 0, 0, 1, 1]);
    let _tree = MidTree::new(&x);
}

#[test]
fn test_mid_tree_new_3node() {
    let x = MidVertex::new(vec![1, 0, 1, 0, 1]);
    let _tree = MidTree::new(&x);
}

#[test]
fn test_mid_tree_deg_root() {
    let x = MidVertex::new(vec![1, 1, 0, 0, 1]);
    let tree = MidTree::new(&x);
    assert_eq!(tree.deg(0), 1);
}

#[test]
fn test_mid_tree_rotate() {
    let x = MidVertex::new(vec![1, 1, 0, 0, 1]);
    let mut tree = MidTree::new(&x);
    tree.rotate();
}

#[test]
fn test_is_star() {
    let x = MidVertex::new(vec![1, 1, 0, 1, 0, 0, 1]);
    let tree = MidTree::new(&x);
    let _is_star = tree.is_star();
}

#[test]
fn test_is_star_small() {
    let x = MidVertex::new(vec![1, 1, 0, 0, 1]);
    let tree = MidTree::new(&x);
    assert!(!tree.is_star());
}

#[test]
fn test_to_bitstring() {
    let x = MidVertex::new(vec![1, 1, 0, 0, 1]);
    let tree = MidTree::new(&x);
    let num_bits = 2 * (tree.num_vertices - 1);
    let mut bits = vec![0i32; num_bits];
    tree.to_bitstring(&mut bits);
    assert_eq!(bits.len(), num_bits);
}

#[test]
fn test_is_tau_preimage() {
    let x = MidVertex::new(vec![1, 1, 0, 1, 0, 0, 1]);
    let tree = MidTree::new(&x);
    let _is_pre = tree.is_tau_preimage();
}

#[test]
fn test_min_string_rotation() {
    let x = [1, 0, 1, 0];
    let k = MidTree::min_string_rotation(&x);
    assert!(k < x.len());
}

#[test]
fn test_compute_center() {
    let x = MidVertex::new(vec![1, 1, 0, 0, 1]);
    let tree = MidTree::new(&x);
    let mut c1 = 0;
    let mut c2 = 0i32;
    tree.compute_center(&mut c1, &mut c2);
    assert!(c1 < tree.num_vertices);
}

#[test]
fn test_is_thin_leaf() {
    let x = MidVertex::new(vec![1, 1, 1, 0, 0, 0, 1]);
    let tree = MidTree::new(&x);
    let _thin = tree.has_thin_leaf();
}

#[test]
fn test_move_leaf() {
    let x = MidVertex::new(vec![1, 1, 0, 0, 1]);
    let mut tree = MidTree::new(&x);
    let leaf = (0..tree.num_vertices)
        .find(|&i| tree.num_children(i) == 0)
        .unwrap();
    let new_parent = tree.root;
    tree.move_leaf(leaf, new_parent, 0);
}

#[test]
fn test_flip_tree_disjoint() {
    let x = MidVertex::new(vec![1, 1, 0, 0, 1]);
    let mut tree = MidTree::new(&x);
    let _result = tree.flip_tree();
}

#[test]
fn test_mid_tree_shape_of_path() {
    // 1,1,0,0 traces the path 0 - 1 - 2
    let x = MidVertex::new(vec![1, 1, 0, 0, 1]);
    let tree = MidTree::new(&x);
    assert_eq!(tree.num_vertices, 3);
    assert_eq!(tree.num_children(0), 1);
    assert_eq!(tree.ith_child(0, 0), 1);
    assert_eq!(tree.ith_child(1, 0), 2);
    assert_eq!(tree.num_children(2), 0);
}

#[test]
fn test_mid_tree_to_bitstring_round_trip() {
    let x = MidVertex::new(vec![1, 1, 0, 1, 0, 0, 1]);
    let tree = MidTree::new(&x);
    let mut bits = vec![0i32; 6];
    tree.to_bitstring(&mut bits);
    assert_eq!(bits, vec![1, 1, 0, 1, 0, 0]);
}

#[test]
fn test_mid_vertex_new() {
    let v = MidVertex::new(vec![1, 0, 1, 0, 0]);
    assert_eq!(v.size(), 5);
}

#[test]
fn test_rev_inv() {
    let mut v = MidVertex::new(vec![1, 0, 1, 0, 0]);
    v.rev_inv();
}

#[test]
fn test_rev_inv_exact() {
    let mut v = MidVertex::new(vec![1, 0, 0, 1, 1]);
    v.rev_inv();
    assert_eq!(v.get_bits(), &vec![0, 1, 1, 0, 1]);
    v.rev_inv();
    assert_eq!(v.get_bits(), &vec![1, 0, 0, 1, 1]);
}

#[test]
fn test_count_ones() {
    let v = MidVertex::new(vec![1, 0, 1, 0, 0]);
    assert_eq!(v.count_ones(), 2);
}

#[test]
fn test_count_flaws_exact() {
    let v = MidVertex::new(vec![0, 0, 1, 1, 1]);
    assert_eq!(v.count_flaws(), 2);
}

#[test]
fn test_is_first_vertex() {
    let v = MidVertex::new(vec![1, 1, 0, 0, 1]);
    assert!(v.is_first_vertex());
}

#[test]
fn test_is_first_vertex_false() {
    let v = MidVertex::new(vec![0, 0, 0, 1, 1]);
    assert!(!v.is_first_vertex());
}

#[test]
fn test_is_last_vertex_exact() {
    let v = MidVertex::new(vec![1, 0, 0, 1, 1]);
    assert!(v.is_last_vertex());
    assert!(!v.is_first_vertex());
}

#[test]
fn test_first_touchdown() {
    let v = MidVertex::new(vec![1, 1, 0, 0, 1]);
    assert_eq!(v.first_touchdown(0), 3);
}

#[test]
fn test_first_dive() {
    let v = MidVertex::new(vec![0, 0, 1, 1, 1]);
    assert_eq!(v.first_dive(), 0);
}

#[test]
fn test_to_first_vertex_already_first() {
    let mut v = MidVertex::new(vec![1, 1, 0, 0, 1]);
    assert!(v.is_first_vertex());
    let steps = v.to_first_vertex();
    assert_eq!(steps, 0);
    assert_eq!(v.get_bits(), &vec![1, 1, 0, 0, 1]);
    assert!(v.is_first_vertex());
}

#[test]
fn test_to_first_vertex_stays_on_first() {
    let mut v = MidVertex::new(vec![1, 0, 1, 0, 1]);
    assert!(v.is_first_vertex());
    assert_eq!(v.to_first_vertex(), 0);
    assert_eq!(v.get_bits(), &vec![1, 0, 1, 0, 1]);
    assert!(v.is_first_vertex());
}

#[test]
fn test_to_first_vertex_from_last() {
    let mut v = MidVertex::new(vec![1, 0, 0, 1, 1]);
    let steps = v.to_first_vertex();
    assert_eq!(steps, 6);
    assert_eq!(v.get_bits(), &vec![1, 1, 0, 0, 1]);
    assert!(v.is_first_vertex());
}

#[test]
fn test_to_last_vertex() {
    let mut v = MidVertex::new(vec![1, 1, 0, 0, 1]);
    let _d = v.to_last_vertex();
}

#[test]
fn test_bitstrings_less_than_true() {
    assert!(bitstrings_less_than(&[0, 1, 0], &[1, 0, 0]));
}

#[test]
fn test_bitstrings_less_than_false() {
    assert!(!bitstrings_less_than(&[1, 0, 0], &[0, 1, 0]));
}

#[test]
fn test_bitstrings_equal_true() {
    assert!(bitstrings_equal(&[1, 0, 1], &[1, 0, 1]));
}

#[test]
fn test_bitstrings_equal_false() {
    assert!(!bitstrings_equal(&[1, 0, 1], &[1, 1, 0]));
}

#[test]
fn test_first_touchdown_no_touchdown() {
    let v = MidVertex::new(vec![1, 0, 0, 1, 1]);
    assert!(v.first_touchdown(2) < 0 || v.first_touchdown(2) >= 0);
}

#[test]
fn test_first_touchdown_exact() {
    let v = MidVertex::new(vec![1, 0, 1, 0, 1]);
    assert_eq!(v.first_touchdown(0), 1);
    assert_eq!(v.first_touchdown(2), 3);
    let w = MidVertex::new(vec![1, 1, 1, 0, 1]);
    assert_eq!(w.first_touchdown(0), -1);
}

#[test]
fn test_first_dive_no_dive() {
    let v = MidVertex::new(vec![1, 1, 0, 0, 0]);
    assert_eq!(v.first_dive(), -1);
}

#[test]
fn test_first_dive_exact() {
    let v = MidVertex::new(vec![1, 0, 0, 1, 1]);
    assert_eq!(v.first_dive(), 2);
}

#[test]
fn test_count_ones_empty_middle() {
    let v = MidVertex::new(vec![0, 0, 0, 0, 0]);
    assert_eq!(v.count_ones(), 0);
}

#[test]
fn test_tau_then_tau_inverse_gives_the_tree_back() {
    let x = MidVertex::new(vec![1, 1, 0, 0, 1, 0, 1]);
    let mut tree = MidTree::new(&x);
    let children = tree.children.clone();
    let parent = tree.parent.clone();
    assert!(tree.is_tau_preimage());
    tree.tau();
    assert!(tree.is_tau_image());
    assert_eq!(tree.children[tree.root], vec![2, 1, 3]);
    tree.tau_inverse();
    assert_eq!(tree.children, children);
    assert_eq!(tree.parent, parent);
}

struct BitsRecorder {
    seen: Vec<(Vec<i32>, usize)>,
}

impl MidVisitor for BitsRecorder {
    fn visit(&mut self, bits: &[i32], i: usize) {
        self.seen.push((bits.to_vec(), i));
    }
}

#[test]
fn test_mid_ham_cycle_visits_flip_one_bit() {
    let x = MidVertex::new(vec![1, 1, 0, 0, 1]);
    let mut rec = BitsRecorder { seen: Vec::new() };
    let ham = MidHamCycle::new(x, 1000, &mut rec);
    assert_eq!(ham.get_length() as usize, rec.seen.len());
    for j in 1..rec.seen.len() {
        let (prev, _) = &rec.seen[j - 1];
        let (cur, i) = &rec.seen[j];
        for k in 0..cur.len() {
            if k == *i {
                assert_eq!(cur[k], 1 - prev[k]);
            } else {
                assert_eq!(cur[k], prev[k]);
            }
        }
    }
}
