use ckpttn_rs::hypergraph::SimpleNetlist;
use ckpttn_rs::min_cover::{contract_subgraph, contract_with_matching};

#[test]
fn test_contract_subgraph_basic() {
    let mut netlist = SimpleNetlist::new(4, 2);
    netlist.add_edge(0, 4);
    netlist.add_edge(1, 4);
    netlist.add_edge(2, 5);
    netlist.add_edge(3, 5);
    let weights = vec![1u32, 1, 1, 1];

    let (hgr2, weights2) = contract_subgraph(&netlist, &weights, &[]);
    assert!(hgr2.number_of_modules() < 4);
    assert_eq!(hgr2.number_of_modules(), weights2.len());
}

#[test]
fn test_contract_subgraph_no_nets() {
    let netlist = SimpleNetlist::new(4, 0);
    let weights = vec![1u32; 4];
    let (hgr2, weights2) = contract_subgraph(&netlist, &weights, &[]);
    assert_eq!(hgr2.number_of_modules(), 4);
    assert_eq!(weights2.len(), 4);
}

#[test]
fn test_contract_with_matching_cells_then_clusters() {
    // Nets 5 = {0, 1} and 6 = {2, 3}, net 7 = {1, 2, 4}; net 5 is a cluster.
    let mut netlist = SimpleNetlist::new(5, 3);
    netlist.add_edge(0, 5);
    netlist.add_edge(1, 5);
    netlist.add_edge(2, 6);
    netlist.add_edge(3, 6);
    netlist.add_edge(1, 7);
    netlist.add_edge(2, 7);
    netlist.add_edge(4, 7);
    let weights = vec![2u32, 3, 4, 5, 6];
    let (hgr2, weights2) = contract_with_matching(&netlist, &weights, &[5]);
    // cells 2, 3, 4, then the cluster of net 5 weighing 2 + 3
    assert_eq!(weights2, vec![4, 5, 6, 5]);
    assert_eq!(hgr2.module_weight, weights2);
    assert_eq!(hgr2.clusters, vec![5]);
    assert_eq!(hgr2.number_of_modules(), 4);
    // the two other nets stay
    assert_eq!(hgr2.number_of_nets(), 2);
    assert_eq!(hgr2.node_down_list[..3], [2, 3, 4]);
    assert!(hgr2.node_down_list[3] == 0 || hgr2.node_down_list[3] == 1);
}

#[test]
fn test_contract_subgraph_forbidden_nets_stay() {
    let mut netlist = SimpleNetlist::new(4, 2);
    netlist.add_edge(0, 4);
    netlist.add_edge(1, 4);
    netlist.add_edge(2, 5);
    netlist.add_edge(3, 5);
    let weights = vec![1u32, 1, 1, 1];
    let (hgr2, weights2) = contract_subgraph(&netlist, &weights, &[4, 5]);
    assert_eq!(hgr2.number_of_modules(), 4);
    assert_eq!(weights2, vec![1, 1, 1, 1]);
    assert!(hgr2.clusters.is_empty());
}

#[test]
fn test_contract_with_matching_merges_duplicate_nets() {
    // Cluster net 4 = {0, 1}; nets 5 and 6 both join module 0 and module 2,
    // so after contraction they have the same pins and merge.
    let mut netlist = SimpleNetlist::new(4, 3);
    netlist.add_edge(0, 4);
    netlist.add_edge(1, 4);
    netlist.add_edge(0, 5);
    netlist.add_edge(2, 5);
    netlist.add_edge(1, 6);
    netlist.add_edge(2, 6);
    let weights = vec![1u32; 4];
    let (hgr2, weights2) = contract_with_matching(&netlist, &weights, &[4]);
    assert_eq!(weights2, vec![1, 1, 2]);
    assert_eq!(hgr2.number_of_nets(), 1);
    // the kept net weighs the two merged ones
    assert_eq!(hgr2.net_weight.get(&3), Some(&2));
}

#[test]
fn test_contract_subgraph_single_net_leaves_no_nets() {
    // One 2-pin net {0, 1}; module 2 is on no net.
    let mut netlist = SimpleNetlist::new(3, 1);
    netlist.add_edge(0, 3);
    netlist.add_edge(1, 3);
    let weights = vec![5u32, 6, 7];
    let (hgr2, weights2) = contract_subgraph(&netlist, &weights, &[]);
    assert_eq!(weights2, vec![7u32, 11]);
    assert_eq!(hgr2.module_weight, weights2);
    assert_eq!(hgr2.number_of_modules(), 2);
    assert_eq!(hgr2.number_of_nets(), 0);
    assert_eq!(hgr2.clusters, vec![3]);
    assert_eq!(hgr2.node_down_list.len(), 2);
    assert_eq!(hgr2.node_down_list[0], 2);
    assert!(hgr2.node_down_list[1] == 0 || hgr2.node_down_list[1] == 1);
}
