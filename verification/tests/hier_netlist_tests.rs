use ckpttn_rs::hier_netlist::HierNetlist;
use ckpttn_rs::hypergraph::Hypergraph;

#[test]
fn test_hier_netlist_new() {
    let hn = HierNetlist::new(4, 2);
    assert_eq!(hn.num_modules, 4);
    assert_eq!(hn.gr.node_count(), 6);
    assert_eq!(hn.module_weight.len(), 4);
    assert!(hn.parent.is_none());
}

#[test]
fn test_hier_netlist_counts() {
    let hn = HierNetlist::new(4, 2);
    assert_eq!(hn.number_of_modules(), 4);
    assert_eq!(hn.number_of_nets(), 2);
    assert_eq!(hn.number_of_pins(), 0);
    assert_eq!(hn.get_max_degree(), 0);
}

#[test]
fn test_hier_netlist_add_edge() {
    let mut hn = HierNetlist::new(4, 2);
    let module = 0;
    let net = 4;
    hn.add_edge(module, net);
    assert_eq!(hn.number_of_pins(), 1);
    assert_eq!(hn.get_max_degree(), 1);
}

#[test]
fn test_hier_netlist_hypergraph_trait() {
    let mut hn = HierNetlist::new(4, 2);
    let module = 0;
    let net = 4;
    hn.add_edge(module, net);

    let modules: Vec<_> = hn.modules();
    assert_eq!(modules.len(), 4);

    let nets: Vec<_> = hn.nets();
    assert_eq!(nets.len(), 2);

    let weight = hn.get_module_weight(0);
    assert_eq!(weight, 1);

    let net_weight = hn.get_net_weight(4);
    assert_eq!(net_weight, 1);

    let deg = hn.degree(net);
    assert_eq!(deg, 1);

    let idx = hn.module_index(module);
    assert_eq!(idx, 0);
}

#[test]
fn test_hier_netlist_projection_down() {
    let mut hn = HierNetlist::new(4, 2);
    hn.node_down_list = vec![0, 1, 100, 101];
    hn.clusters = vec![101];

    let part = vec![0u8, 1, 2, 3];
    let mut part_down = vec![0u8; 4];
    hn.projection_down(&part, &mut part_down);
    assert_eq!(part_down, vec![0, 1, 0, 0]);
}

#[test]
fn test_hier_netlist_projection_up() {
    let hn = HierNetlist::new(4, 2);
    let part = vec![0u8, 1, 2, 3];
    let mut part_up = vec![0u8; 4];
    hn.projection_up(&part, &mut part_up);
    assert_eq!(part_up, vec![0, 0, 0, 0]);
}

#[test]
fn test_hier_netlist_weight_out_of_range() {
    let hn = HierNetlist::new(2, 1);
    let w = hn.get_module_weight(5);
    assert_eq!(w, 1);
}

#[test]
fn test_hier_netlist_net_weight_from_map() {
    let mut hn = HierNetlist::new(2, 2);
    hn.net_weight.insert(3, 7);
    assert_eq!(hn.get_net_weight(3), 7);
    assert_eq!(hn.get_net_weight(2), 1);
}

#[test]
fn test_hier_netlist_projection_round_trip_with_clusters() {
    // level below: 4 modules and 2 nets; net 4 joins modules 0 and 1
    let mut below = HierNetlist::new(4, 2);
    below.add_edge(0, 4);
    below.add_edge(1, 4);
    below.add_edge(2, 5);
    below.add_edge(3, 5);
    // this level: cells 2 and 3 of the level below, and the cluster made of net 4
    let mut hn = HierNetlist::new(3, 1);
    hn.node_down_list = vec![2, 3, 0];
    hn.clusters = vec![4];
    hn.parent = Some(Box::new(below));

    let part = vec![1u8, 0, 1];
    let mut part_down = vec![9u8; 4];
    hn.projection_down(&part, &mut part_down);
    assert_eq!(part_down, vec![1, 1, 1, 0]);

    let mut part_up = vec![9u8; 3];
    hn.projection_up(&part_down, &mut part_up);
    assert_eq!(part_up, vec![1, 0, 1]);
}
