use ckpttn_rs::fm_kway_gain_calc::FMKWayGainCalc;
use ckpttn_rs::fm_kway_gain_mgr::FMKWayGainMgr;
use ckpttn_rs::hypergraph::SimpleNetlist;
use ckpttn_rs::moveinfo::MoveInfo;

fn node_ids(nl: &SimpleNetlist) -> Vec<usize> {
    (0..nl.gr.node_count()).collect()
}

fn make_netlist() -> SimpleNetlist {
    let mut netlist = SimpleNetlist::new(4, 2);
    netlist.add_edge(0, 4);
    netlist.add_edge(1, 4);
    netlist.add_edge(2, 5);
    netlist.add_edge(3, 5);
    netlist
}

#[test]
fn fm_kway_gain_calc_test_new_constructor() {
    let netlist = SimpleNetlist::new(4, 2);
    let calc = FMKWayGainCalc::new(netlist, 3);
    assert_eq!(calc.init_gain_matrix.len(), 3);
    assert_eq!(calc.init_gain_matrix[0].len(), 4);
    assert_eq!(calc.num_parts, 3);
    assert_eq!(calc.total_cost, 0);
}

#[test]
fn fm_kway_gain_calc_test_init_no_nets() {
    let netlist = SimpleNetlist::new(4, 0);
    let mut calc = FMKWayGainCalc::new(netlist, 3);
    let part = vec![0u8, 1, 2, 0];
    let cost = calc.init(&part);
    assert_eq!(cost, 0);
}

#[test]
fn fm_kway_gain_calc_test_init_2pin_same_part() {
    let mut netlist = SimpleNetlist::new(4, 1);
    let nodes = node_ids(&netlist);
    netlist.add_edge(nodes[0], nodes[4]);
    netlist.add_edge(nodes[2], nodes[4]);
    let mut calc = FMKWayGainCalc::new(netlist, 3);
    let part = vec![0u8, 0, 0, 1];
    let cost = calc.init(&part);
    assert_eq!(cost, 0);
    assert_eq!(calc.init_gain_matrix[1][0], -1);
    assert_eq!(calc.init_gain_matrix[2][0], -1);
}

#[test]
fn test_init_2pin_diff_part() {
    let mut netlist = SimpleNetlist::new(4, 1);
    let nodes = node_ids(&netlist);
    netlist.add_edge(nodes[0], nodes[4]);
    netlist.add_edge(nodes[2], nodes[4]);
    let mut calc = FMKWayGainCalc::new(netlist, 3);
    let part = vec![0u8, 0, 1, 1];
    let cost = calc.init(&part);
    assert_eq!(cost, 1);
    assert_eq!(calc.init_gain_matrix[1][0], 1);
}

#[test]
fn test_init_3pin_all_same() {
    let mut netlist = SimpleNetlist::new(3, 1);
    let nodes = node_ids(&netlist);
    netlist.add_edge(nodes[0], nodes[3]);
    netlist.add_edge(nodes[1], nodes[3]);
    netlist.add_edge(nodes[2], nodes[3]);
    let mut calc = FMKWayGainCalc::new(netlist, 3);
    let part = vec![0u8, 0, 0];
    let cost = calc.init(&part);
    assert_eq!(cost, 0);
    assert_eq!(calc.init_gain_matrix[1][0], -1);
    assert_eq!(calc.init_gain_matrix[2][0], -1);
}

#[test]
fn test_init_general_net_3_parts() {
    let mut netlist = SimpleNetlist::new(6, 1);
    let nodes = node_ids(&netlist);
    for i in 0..6 {
        netlist.add_edge(nodes[i], nodes[6]);
    }
    let mut calc = FMKWayGainCalc::new(netlist, 3);
    let part = vec![0u8, 0, 1, 1, 2, 2];
    let cost = calc.init(&part);
    assert_eq!(cost, 2);
}

#[test]
fn test_modify_gain_basic() {
    let netlist = SimpleNetlist::new(2, 0);
    let nodes = node_ids(&netlist);
    let mut calc = FMKWayGainCalc::new(netlist, 3);
    calc.modify_gain(nodes[0], 0, 5);
    assert_eq!(calc.init_gain_matrix[1][0], 5);
    assert_eq!(calc.init_gain_matrix[2][0], 5);
    assert_eq!(calc.init_gain_matrix[0][0], 0);
}

#[test]
fn test_kway_gain_mgr_creation() {
    let netlist = make_netlist();
    let calc = FMKWayGainCalc::new(netlist, 3);
    let _mgr: FMKWayGainMgr<_> = FMKWayGainMgr::new(make_netlist(), calc, 3);
}

#[test]
fn test_kway_init_general_net_lone_pin() {
    // one pin alone in part 2: it gains the net weight towards the other parts
    let mut netlist = SimpleNetlist::new(4, 1);
    for i in 0..4 {
        netlist.add_edge(i, 4);
    }
    let mut calc = FMKWayGainCalc::new(netlist, 3);
    let part = vec![0u8, 0, 0, 2];
    assert_eq!(calc.init(&part), 1);
    assert_eq!(calc.init_gain_matrix[0][3], 1);
    assert_eq!(calc.init_gain_matrix[1][3], 0);
}

#[test]
fn test_kway_update_move_2pin() {
    let mut calc = FMKWayGainCalc::new(make_netlist(), 3);
    let part = vec![0u8, 0, 1, 1];
    calc.update_move_init();
    let move_info = MoveInfo { net: 4, v: 0, from_part: 0, to_part: 2 };
    let w = calc.update_move_2pin_net(&part, &move_info);
    assert_eq!(w, 1);
    // the other pin stays behind in part 0: its move to part 2 would now
    // rejoin the moved pin
    assert_eq!(calc.delta_gain_w[0], vec![0, 1, 2]);
}
