use ckpttn_rs::hypergraph::Hypergraph;
use ckpttn_rs::netlist_adapter::{NetlistData, NetlistHypergraph};
use netlistx_rs::Netlist;

/// The plain data of a netlistx netlist that the adapter reads.
fn netlist_data(nl: &Netlist) -> NetlistData {
    let num_modules = nl.num_modules();
    NetlistData {
        num_modules,
        num_nets: nl.num_nets(),
        module_weights: (0..num_modules).map(|i| nl.get_module_weight(i)).collect(),
        edges: nl
            .gr
            .raw_edges()
            .iter()
            .map(|e| (e.source().index(), e.target().index()))
            .collect(),
    }
}

fn make_simple_netlist() -> Netlist {
    let mut nl = Netlist::new();
    let m0 = nl.add_module("m0".to_string()).unwrap();
    let m1 = nl.add_module("m1".to_string()).unwrap();
    let m2 = nl.add_module("m2".to_string()).unwrap();
    let m3 = nl.add_module("m3".to_string()).unwrap();
    let n0 = nl.add_net("n0".to_string()).unwrap();
    let n1 = nl.add_net("n1".to_string()).unwrap();
    nl.add_edge(n0, m0).unwrap();
    nl.add_edge(n0, m1).unwrap();
    nl.add_edge(n1, m2).unwrap();
    nl.add_edge(n1, m3).unwrap();
    nl
}

#[test]
fn test_netlist_hypergraph_from_netlist() {
    let nl = make_simple_netlist();
    let hg = NetlistHypergraph::from_netlist(&netlist_data(&nl));
    assert_eq!(hg.number_of_modules(), 4);
    assert_eq!(hg.nets().len(), 2);
}

#[test]
fn test_netlist_hypergraph_module_weights() {
    let mut nl = make_simple_netlist();
    nl.set_module_weight(nl.get_module_by_name("m0").unwrap(), 5);
    let hg = NetlistHypergraph::from_netlist(&netlist_data(&nl));
    assert_eq!(hg.get_module_weight(0), 5);
    assert_eq!(hg.get_module_weight(1), 1);
}

#[test]
fn test_netlist_hypergraph_degree() {
    let nl = make_simple_netlist();
    let hg = NetlistHypergraph::from_netlist(&netlist_data(&nl));
    assert_eq!(hg.degree(0), 1);
    assert_eq!(hg.degree(4), 2);
}

#[test]
fn test_netlist_hypergraph_neighbors() {
    let nl = make_simple_netlist();
    let hg = NetlistHypergraph::from_netlist(&netlist_data(&nl));
    let nbrs: Vec<_> = hg.neighbors(0);
    assert!(nbrs.contains(&4));
    assert_eq!(nbrs.len(), 1);
}

#[test]
fn test_netlist_hypergraph_max_degree() {
    let mut nl = Netlist::new();
    let m0 = nl.add_module("m0".to_string()).unwrap();
    let m1 = nl.add_module("m1".to_string()).unwrap();
    let m2 = nl.add_module("m2".to_string()).unwrap();
    let n0 = nl.add_net("n0".to_string()).unwrap();
    nl.add_edge(n0, m0).unwrap();
    nl.add_edge(n0, m1).unwrap();
    nl.add_edge(n0, m2).unwrap();
    let hg = NetlistHypergraph::from_netlist(&netlist_data(&nl));
    assert_eq!(hg.get_max_degree(), 1);
}

#[test]
fn test_netlist_data_skips_stray_pins_and_bad_weights() {
    let data = NetlistData {
        num_modules: 2,
        num_nets: 1,
        module_weights: vec![0, -3],
        edges: vec![(2, 0), (1, 2), (0, 1), (1, 7)],
    };
    let hg = NetlistHypergraph::from_netlist(&data);
    assert_eq!(hg.get_module_weight(0), 1);
    assert_eq!(hg.get_module_weight(1), 1);
    assert_eq!(hg.neighbors(2), vec![0, 1]);
    assert_eq!(hg.neighbors(0), vec![2]);
    assert_eq!(hg.neighbors(1), vec![2]);
    assert_eq!(hg.get_max_degree(), 1);
}
