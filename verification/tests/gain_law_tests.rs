use ckpttn_rs::fm_bi_gain_calc::FMBiGainCalc;
use ckpttn_rs::fm_kway_gain_calc::FMKWayGainCalc;
use ckpttn_rs::hypergraph::SimpleNetlist;
use ckpttn_rs::ml_part_mgr::MLPartMgr;
use ckpttn_rs::moveinfo::MoveInfo;

/// Seven modules; nets of two, three and five pins.
fn mixed_netlist() -> SimpleNetlist {
    let mut nl = SimpleNetlist::new(7, 4);
    // net 7: 0 1
    nl.add_edge(0, 7);
    nl.add_edge(1, 7);
    // net 8: 1 2 3
    nl.add_edge(1, 8);
    nl.add_edge(2, 8);
    nl.add_edge(3, 8);
    // net 9: 2 3 4 5 6
    for m in [2, 3, 4, 5, 6] {
        nl.add_edge(m, 9);
    }
    // net 10: 0 6
    nl.add_edge(0, 10);
    nl.add_edge(6, 10);
    nl
}

fn bi_cost(part: &[u8]) -> i32 {
    let mut calc = FMBiGainCalc::new(mixed_netlist(), 2);
    calc.init(part)
}

fn kway_cost(part: &[u8]) -> i32 {
    let mut calc = FMKWayGainCalc::new(mixed_netlist(), 3);
    calc.init(part)
}

#[test]
fn test_bi_gain_is_cost_drop() {
    let parts: [[u8; 7]; 3] = [[0, 0, 0, 0, 0, 0, 0], [0, 1, 0, 1, 1, 0, 1], [1, 1, 0, 0, 1, 0, 0]];
    for part in parts.iter() {
        let mut calc = FMBiGainCalc::new(mixed_netlist(), 2);
        let cost = calc.init(part);
        for x in 0..7 {
            let mut moved = part.to_vec();
            moved[x] = 1 - moved[x];
            assert_eq!(calc.init_gain_list[x], cost - bi_cost(&moved));
        }
    }
}

#[test]
fn test_kway_gain_is_cost_drop() {
    let parts: [[u8; 7]; 3] = [[0, 0, 0, 0, 0, 0, 0], [0, 1, 2, 1, 1, 0, 2], [2, 1, 0, 0, 1, 2, 0]];
    for part in parts.iter() {
        let mut calc = FMKWayGainCalc::new(mixed_netlist(), 3);
        let cost = calc.init(part);
        for x in 0..7 {
            for k in 0..3u8 {
                if k != part[x] {
                    let mut moved = part.to_vec();
                    moved[x] = k;
                    assert_eq!(calc.init_gain_matrix[k as usize][x], cost - kway_cost(&moved));
                }
            }
        }
    }
}

/// The gain of `x` under `part`, recomputed from scratch.
fn bi_gain(part: &[u8], x: usize) -> i32 {
    let mut calc = FMBiGainCalc::new(mixed_netlist(), 2);
    calc.init(part);
    calc.init_gain_list[x]
}

#[test]
fn test_bi_deltas_are_gain_changes() {
    let part = vec![0u8, 1, 0, 1, 1, 0, 1];
    // move module 3 (in nets 8 and 9) to part 0
    let v = 3usize;
    let mut moved = part.clone();
    moved[v] = 0;
    let mut calc = FMBiGainCalc::new(mixed_netlist(), 2);
    calc.init(&part);
    // three-pin net 8: pins 1, 2, 3
    calc.init_idx_vec(v, 8);
    let others = calc.idx_vec.clone();
    let mi = MoveInfo { net: 8, v, from_part: 1, to_part: 0 };
    let deltas = calc.update_move_3pin_net(&part, &mi);
    for (i, &w) in others.iter().enumerate() {
        let own_net_change = net_gain_change(&part, &moved, w, 8);
        assert_eq!(deltas[i], own_net_change);
    }
    // general net 9: pins 2 3 4 5 6
    calc.init_idx_vec(v, 9);
    let others = calc.idx_vec.clone();
    let mi = MoveInfo { net: 9, v, from_part: 1, to_part: 0 };
    let deltas = calc.update_move_general_net(&part, &mi);
    for (i, &w) in others.iter().enumerate() {
        assert_eq!(deltas[i], net_gain_change(&part, &moved, w, 9));
    }
    // two-pin net 7: pins 0 1, move module 1
    let v = 1usize;
    let mut moved = part.clone();
    moved[v] = 0;
    let mi = MoveInfo { net: 7, v, from_part: 1, to_part: 0 };
    let w = calc.update_move_2pin_net(&part, &mi);
    assert_eq!(w, 0);
    assert_eq!(calc.delta_gain_w(), net_gain_change(&part, &moved, 0, 7));
}

/// The change that the move from `part` to `moved` brings to module `w`'s
/// gain from the single net `net` of the mixed netlist: the gain from that
/// net alone is computed on a netlist holding only that net.
fn net_gain_change(part: &[u8], moved: &[u8], w: usize, net: usize) -> i32 {
    let pins: Vec<usize> = match net {
        7 => vec![0, 1],
        8 => vec![1, 2, 3],
        9 => vec![2, 3, 4, 5, 6],
        _ => vec![0, 6],
    };
    let single = || {
        let mut nl = SimpleNetlist::new(7, 1);
        for &p in pins.iter() {
            nl.add_edge(p, 7);
        }
        nl
    };
    let mut before = FMBiGainCalc::new(single(), 2);
    before.init(part);
    let mut after = FMBiGainCalc::new(single(), 2);
    after.init(moved);
    after.init_gain_list[w] - before.init_gain_list[w]
}

#[test]
fn test_bi_gain_recomputed_matches_helper() {
    let part = vec![0u8, 1, 0, 1, 1, 0, 1];
    let g = bi_gain(&part, 2);
    let mut moved = part.clone();
    moved[2] = 1;
    assert_eq!(g, bi_cost(&part) - bi_cost(&moved));
}

#[test]
fn test_ml_part_mgr_defaults() {
    let m = MLPartMgr::new();
    assert_eq!(m.total_cost, 0);
    assert_eq!(m.limitsize, 50);
    let d = MLPartMgr::default();
    assert_eq!(d.limitsize, 50);
}

/// The gain of `x` towards part `k` from the single net with `pins`, under
/// `part`, with `np` parts.
fn kway_single_gain(pins: &[usize], part: &[u8], np: u8, x: usize, k: usize) -> i32 {
    let mut nl = SimpleNetlist::new(part.len(), 1);
    for &p in pins.iter() {
        nl.add_edge(p, part.len());
    }
    let mut calc = FMKWayGainCalc::new(nl, np);
    calc.init(part);
    calc.init_gain_matrix[k][x]
}

fn kway_single(pins: &[usize], n: usize, np: u8) -> FMKWayGainCalc<SimpleNetlist> {
    let mut nl = SimpleNetlist::new(n, 1);
    for &p in pins.iter() {
        nl.add_edge(p, n);
    }
    FMKWayGainCalc::new(nl, np)
}

#[test]
fn test_kway_two_pin_and_general_deltas_are_gain_changes() {
    check_kway_deltas(&[vec![0, 1], vec![0, 1, 2, 3, 4]]);
}

#[test]
fn test_kway_three_pin_deltas_are_gain_changes() {
    check_kway_deltas(&[vec![0, 1, 2]]);
}

/// Every partition of each net's pins over four parts, every move of its
/// first pin: the deltas handed out are the changes of the gains.
fn check_kway_deltas(nets: &[Vec<usize>]) {
    let np = 4u8;
    let n = 6usize;
    // every partition of the pins over the parts, for small cases
    let mut count = 0;
    for pins in nets.iter() {
        let d = pins.len();
        let total = (np as usize).pow(d as u32);
        for code in 0..total {
            let mut part = vec![0u8; n];
            let mut c = code;
            for &p in pins.iter() {
                part[p] = (c % np as usize) as u8;
                c /= np as usize;
            }
            let v = pins[0];
            for to in 0..np {
                if to == part[v] {
                    continue;
                }
                let mut moved = part.clone();
                moved[v] = to;
                let mut calc = kway_single(pins, n, np);
                calc.init(&part);
                calc.update_move_init();
                let mi = MoveInfo { net: n, v, from_part: part[v], to_part: to };
                let (others, rows): (Vec<usize>, Vec<Vec<i32>>) = if d == 2 {
                    let w = calc.update_move_2pin_net(&part, &mi);
                    (vec![w], vec![calc.delta_gain_w[0].clone()])
                } else {
                    calc.init_idx_vec(v, n);
                    let iv = calc.idx_vec.clone();
                    let r = if d == 3 {
                        calc.update_move_3pin_net(&part, &mi)
                    } else {
                        calc.update_move_general_net(&part, &mi)
                    };
                    (iv, r)
                };
                for (i, &x) in others.iter().enumerate() {
                    for k in 0..np as usize {
                        if k as u8 != part[x] {
                            let change = kway_single_gain(pins, &moved, np, x, k)
                                - kway_single_gain(pins, &part, np, x, k);
                            assert_eq!(rows[i][k], change, "pins {:?} part {:?} to {} x {} k {}", pins, part, to, x, k);
                            count += 1;
                        }
                    }
                }
                for k in 0..np as usize {
                    if k as u8 != part[v] && k as u8 != to {
                        let change = kway_single_gain(pins, &moved, np, v, k) - kway_single_gain(pins, &part, np, v, k);
                        assert_eq!(calc.delta_gain_v[k], change, "v: pins {:?} part {:?} to {} k {}", pins, part, to, k);
                    }
                }
            }
        }
    }
    assert!(count > 0);
}
