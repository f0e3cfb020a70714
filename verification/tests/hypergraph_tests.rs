use ckpttn_rs::hypergraph::{check_netlist, Hypergraph, SimpleNetlist};
use ckpttn_rs::moveinfo::{MoveInfo, MoveInfoV};

fn node_ids(nl: &SimpleNetlist) -> Vec<usize> {
    (0..nl.gr.node_count()).collect()
}

#[test]
fn test_simple_netlist_new_sizes() {
    let nl = SimpleNetlist::new(4, 2);
    assert_eq!(nl.num_modules, 4);
    assert_eq!(nl.gr.node_count(), 6);
    assert_eq!(nl.module_weight.len(), 4);
    assert_eq!(nl.module_weight, vec![1; 4]);
}

#[test]
fn test_add_edge_and_degree() {
    let mut nl = SimpleNetlist::new(4, 2);
    let nodes = node_ids(&nl);
    nl.add_edge(nodes[0], nodes[4]);
    nl.add_edge(nodes[1], nodes[4]);
    assert_eq!(nl.degree(nodes[4]), 2);
    assert_eq!(nl.degree(nodes[0]), 1);
    assert_eq!(nl.degree(nodes[1]), 1);
    assert_eq!(nl.degree(nodes[2]), 0);
}

#[test]
fn test_modules_iter() {
    let nl = SimpleNetlist::new(3, 2);
    let nodes = node_ids(&nl);
    let modules: Vec<_> = nl.modules();
    assert_eq!(modules.len(), 3);
    assert_eq!(modules, nodes[..3]);
}

#[test]
fn test_nets_iter() {
    let nl = SimpleNetlist::new(3, 2);
    let nodes = node_ids(&nl);
    let nets: Vec<_> = nl.nets();
    assert_eq!(nets.len(), 2);
    assert_eq!(nets, nodes[3..]);
}

#[test]
fn test_neighbors_basic() {
    let mut nl = SimpleNetlist::new(4, 2);
    let nodes = node_ids(&nl);
    nl.add_edge(nodes[0], nodes[4]);
    let nbrs: Vec<_> = nl.neighbors(nodes[0]);
    assert_eq!(nbrs, vec![nodes[4]]);
}

#[test]
fn test_get_module_weight_in_bounds() {
    let nl = SimpleNetlist::new(4, 2);
    let nodes = node_ids(&nl);
    assert_eq!(nl.get_module_weight(nodes[0]), 1);
    assert_eq!(nl.get_module_weight(nodes[3]), 1);
}

#[test]
fn test_get_module_weight_out_of_bounds() {
    let nl = SimpleNetlist::new(4, 2);
    let nodes = node_ids(&nl);
    assert_eq!(nl.get_module_weight(nodes[5]), 1);
}

#[test]
fn test_get_net_weight_default() {
    let nl = SimpleNetlist::new(4, 2);
    let nodes = node_ids(&nl);
    assert_eq!(nl.get_net_weight(nodes[4]), 1);
}

#[test]
fn test_number_of_modules() {
    let nl = SimpleNetlist::new(4, 2);
    assert_eq!(nl.number_of_modules(), 4);
    let nl0 = SimpleNetlist::new(0, 0);
    assert_eq!(nl0.number_of_modules(), 0);
}

#[test]
fn test_get_max_degree_normal() {
    let mut nl = SimpleNetlist::new(4, 2);
    let nodes = node_ids(&nl);
    nl.add_edge(nodes[0], nodes[4]);
    nl.add_edge(nodes[0], nodes[5]);
    nl.add_edge(nodes[1], nodes[4]);
    assert_eq!(nl.get_max_degree(), 2);
}

#[test]
fn test_get_max_degree_empty() {
    let nl = SimpleNetlist::new(0, 0);
    assert_eq!(nl.get_max_degree(), 0);
}

#[test]
fn test_module_index() {
    let nl = SimpleNetlist::new(4, 2);
    let nodes = node_ids(&nl);
    assert_eq!(nl.module_index(nodes[0]), 0);
    assert_eq!(nl.module_index(nodes[2]), 2);
}

#[test]
fn test_neighbors_of_net_in_pin_order() {
    let mut nl = SimpleNetlist::new(3, 1);
    nl.add_edge(2, 3);
    nl.add_edge(0, 3);
    nl.add_edge(1, 3);
    let mut nbrs = nl.neighbors(3);
    nbrs.sort();
    assert_eq!(nbrs, vec![0, 1, 2]);
    assert_eq!(nl.degree(3), 3);
}

#[test]
fn test_module_weight_override() {
    let mut nl = SimpleNetlist::new(3, 1);
    nl.module_weight[1] = 7;
    assert_eq!(nl.get_module_weight(1), 7);
    assert_eq!(nl.get_module_weight(0), 1);
}

#[test]
fn test_move_info_creation_and_access() {
    let move_info = MoveInfo {
        net: 0usize,
        v: 0usize,
        from_part: 0,
        to_part: 1,
    };
    assert_eq!(move_info.net, 0);
    assert_eq!(move_info.v, 0);
    assert_eq!(move_info.from_part, 0);
    assert_eq!(move_info.to_part, 1);
}

#[test]
fn test_move_info_v_creation_and_access() {
    let move_info_v = MoveInfoV {
        v: 0usize,
        from_part: 0,
        to_part: 1,
    };
    assert_eq!(move_info_v.v, 0);
    assert_eq!(move_info_v.from_part, 0);
    assert_eq!(move_info_v.to_part, 1);
}

#[test]
fn test_check_netlist_accepts_pins() {
    let mut nl = SimpleNetlist::new(3, 2);
    nl.add_edge(0, 3);
    nl.add_edge(1, 3);
    nl.add_edge(1, 4);
    nl.add_edge(2, 4);
    assert!(check_netlist(&nl));
    assert!(check_netlist(&SimpleNetlist::new(2, 0)));
}

#[test]
fn test_check_netlist_refuses_repeated_pin() {
    let mut nl = SimpleNetlist::new(2, 1);
    nl.add_edge(0, 2);
    nl.add_edge(0, 2);
    assert!(!check_netlist(&nl));
}

#[test]
fn test_check_netlist_refuses_module_to_module() {
    let mut nl = SimpleNetlist::new(2, 1);
    nl.gr.add_edge(petgraph::graph::NodeIndex::new(0), petgraph::graph::NodeIndex::new(1), ());
    assert!(!check_netlist(&nl));
}
