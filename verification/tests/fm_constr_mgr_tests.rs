use ckpttn_rs::fm_bi_constr_mgr::FMBiConstrMgr;
use ckpttn_rs::fm_constr_mgr::{total_module_weight, ConstrMgrInterface, FMConstrMgr, LegalCheck};
use ckpttn_rs::fm_kway_constr_mgr::FMKWayConstrMgr;
use ckpttn_rs::hypergraph::SimpleNetlist;
use ckpttn_rs::moveinfo::MoveInfoV;

/// The balance bound for `bal_tol`: the share `2 / num_parts` of the total
/// module weight, scaled by `bal_tol` and rounded.
fn lowerbound(nl: &SimpleNetlist, bal_tol: f64, num_parts: u8) -> u32 {
    let total = total_module_weight(nl);
    let totalweight_k = (total as f64) * (2.0 / num_parts as f64);
    (totalweight_k * bal_tol).round() as u32
}

fn new_mgr(nl: SimpleNetlist, bal_tol: f64) -> FMConstrMgr<SimpleNetlist> {
    let lb = lowerbound(&nl, bal_tol, 2);
    FMConstrMgr::with_lowerbound(nl, lb, 2)
}

fn mv(v: usize, from_part: u8, to_part: u8) -> MoveInfoV<usize> {
    MoveInfoV { v, from_part, to_part }
}

#[test]
fn test_new_with_2_parts() {
    let netlist = SimpleNetlist::new(4, 2);
    let mgr = new_mgr(netlist, 0.5);
    assert_eq!(mgr.num_parts, 2);
}

#[test]
fn test_init_and_check() {
    let mut netlist = SimpleNetlist::new(4, 2);
    netlist.add_edge(0, 4);
    netlist.add_edge(1, 4);
    netlist.add_edge(2, 5);
    netlist.add_edge(3, 5);
    let mut mgr = new_mgr(netlist, 0.5);
    let part = vec![0u8, 0, 0, 1];
    mgr.init(&part);
    assert_eq!(mgr.diff[0], 3);
    assert_eq!(mgr.diff[1], 1);
    let check = mgr.check_legal(&mv(2, 0, 1));
    assert_eq!(check, LegalCheck::AllSatisfied);
}

#[test]
fn test_update_move() {
    let mut netlist = SimpleNetlist::new(4, 2);
    netlist.add_edge(0, 4);
    netlist.add_edge(1, 4);
    netlist.add_edge(2, 5);
    netlist.add_edge(3, 5);
    let mut mgr = new_mgr(netlist, 0.5);
    let part = vec![0u8, 0, 1, 1];
    mgr.init(&part);
    let move_info = mv(0, 0, 1);
    let _ = mgr.check_legal(&move_info);
    mgr.update_move(&move_info);
    assert_eq!(mgr.diff[0], 1);
    assert_eq!(mgr.diff[1], 3);
}

#[test]
fn test_final_check() {
    let netlist = SimpleNetlist::new(4, 0);
    let mut mgr = new_mgr(netlist, 0.5);
    let part = vec![0u8, 0, 1, 1];
    assert!(mgr.final_check(&part));
}

#[test]
fn fm_constr_mgr_test_select_togo() {
    let netlist = SimpleNetlist::new(4, 0);
    let mut mgr = new_mgr(netlist, 0.5);
    let part = vec![0u8, 0, 1, 1];
    mgr.init(&part);
    let togo = mgr.select_togo();
    assert!(togo == 0 || togo == 1);
}

#[test]
fn test_check_legal_not_satisfied() {
    let netlist = SimpleNetlist::new(4, 0);
    let mut mgr = new_mgr(netlist, 0.5);
    let part = vec![0u8, 0, 1, 1];
    mgr.init(&part);
    assert_eq!(mgr.check_legal(&mv(0, 0, 1)), LegalCheck::NotSatisfied);
}

#[test]
fn test_check_legal_get_better() {
    let netlist = SimpleNetlist::new(4, 0);
    let mut mgr = new_mgr(netlist, 0.5);
    let part = vec![0u8, 0, 0, 0];
    mgr.init(&part);
    assert_eq!(mgr.check_legal(&mv(0, 0, 1)), LegalCheck::GetBetter);
}

#[test]
fn test_check_constraints_true() {
    let netlist = SimpleNetlist::new(4, 0);
    let mut mgr = new_mgr(netlist, 0.5);
    let part = vec![0u8, 0, 0, 0];
    mgr.init(&part);
    assert!(mgr.check_constraints(&mv(0, 0, 1)));
}

#[test]
fn test_check_constraints_false() {
    let netlist = SimpleNetlist::new(4, 0);
    let mut mgr = new_mgr(netlist, 0.5);
    let part = vec![0u8, 0, 1, 1];
    mgr.init(&part);
    assert!(!mgr.check_constraints(&mv(0, 0, 1)));
}

#[test]
fn test_final_check_false() {
    let netlist = SimpleNetlist::new(4, 0);
    let mut mgr = new_mgr(netlist, 0.5);
    let part = vec![0u8, 0, 0, 0];
    assert!(!mgr.final_check(&part));
}

#[test]
fn test_select_togo_known_returns_0() {
    let netlist = SimpleNetlist::new(4, 0);
    let mut mgr = new_mgr(netlist, 0.5);
    let part = vec![1u8, 1, 1, 0];
    mgr.init(&part);
    assert_eq!(mgr.select_togo(), 0);
}

#[test]
fn test_select_togo_known_returns_1() {
    let netlist = SimpleNetlist::new(4, 0);
    let mut mgr = new_mgr(netlist, 0.5);
    let part = vec![1u8, 1, 0, 0];
    mgr.init(&part);
    assert_eq!(mgr.select_togo(), 1);
}

#[test]
fn test_constr_mgr_interface_init() {
    let netlist = SimpleNetlist::new(4, 0);
    let mut mgr = new_mgr(netlist, 0.5);
    let part = vec![0u8, 0, 1, 1];
    ConstrMgrInterface::init(&mut mgr, &part);
    assert_eq!(mgr.diff[0], 2);
    assert_eq!(mgr.diff[1], 2);
}

#[test]
fn test_constr_mgr_interface_check_legal() {
    let netlist = SimpleNetlist::new(4, 0);
    let mut mgr = new_mgr(netlist, 0.5);
    let part = vec![0u8, 0, 0, 0];
    ConstrMgrInterface::init(&mut mgr, &part);
    let check = ConstrMgrInterface::check_legal(&mut mgr, &mv(0, 0, 1));
    assert_eq!(check, LegalCheck::GetBetter);
}

#[test]
fn test_constr_mgr_interface_check_constraints() {
    let netlist = SimpleNetlist::new(4, 0);
    let mut mgr = new_mgr(netlist, 0.5);
    let part = vec![0u8, 0, 0, 0];
    ConstrMgrInterface::init(&mut mgr, &part);
    assert!(ConstrMgrInterface::check_constraints(&mgr, &mv(0, 0, 1)));
}

#[test]
fn test_constr_mgr_interface_update_move() {
    let netlist = SimpleNetlist::new(4, 0);
    let mut mgr = new_mgr(netlist, 0.5);
    let part = vec![0u8, 0, 1, 1];
    ConstrMgrInterface::init(&mut mgr, &part);
    let move_info = mv(0, 0, 1);
    let _ = ConstrMgrInterface::check_legal(&mut mgr, &move_info);
    ConstrMgrInterface::update_move(&mut mgr, &move_info);
    assert_eq!(mgr.diff[0], 1);
    assert_eq!(mgr.diff[1], 3);
}

#[test]
fn test_constr_mgr_interface_select_togo() {
    let netlist = SimpleNetlist::new(4, 0);
    let mut mgr = new_mgr(netlist, 0.5);
    let part = vec![0u8, 0, 0, 0];
    ConstrMgrInterface::init(&mut mgr, &part);
    let togo = ConstrMgrInterface::select_togo(&mgr);
    assert!(togo == 0 || togo == 1);
}

#[test]
fn test_constr_mgr_interface_final_check() {
    let netlist = SimpleNetlist::new(4, 0);
    let mut mgr = new_mgr(netlist, 0.5);
    let part = vec![0u8, 0, 1, 1];
    assert!(ConstrMgrInterface::final_check(&mut mgr, &part));
}

#[test]
fn test_chain_move_legal_checks() {
    let netlist = SimpleNetlist::new(4, 0);
    let mut mgr = new_mgr(netlist, 0.25);
    let part = vec![0u8, 0, 1, 1];
    mgr.init(&part);
    let move_info = mv(0, 0, 1);
    assert_eq!(mgr.check_legal(&move_info), LegalCheck::AllSatisfied);
    mgr.update_move(&move_info);
    assert_eq!(mgr.check_legal(&mv(1, 0, 1)), LegalCheck::NotSatisfied);
    assert_eq!(mgr.check_legal(&mv(2, 1, 0)), LegalCheck::AllSatisfied);
}

#[test]
fn test_chain_move_constraints() {
    let netlist = SimpleNetlist::new(4, 0);
    let mut mgr = new_mgr(netlist, 0.25);
    let part = vec![0u8, 0, 1, 1];
    mgr.init(&part);
    let move_info = mv(0, 0, 1);
    assert!(mgr.check_constraints(&move_info));
    let _ = mgr.check_legal(&move_info);
    mgr.update_move(&move_info);
    assert!(!mgr.check_constraints(&mv(1, 0, 1)));
}

#[test]
fn test_update_move_changes_diff() {
    let netlist = SimpleNetlist::new(4, 0);
    let mut mgr = new_mgr(netlist, 0.25);
    let part = vec![0u8, 0, 1, 1];
    mgr.init(&part);
    assert_eq!(mgr.diff, vec![2, 2]);
    let move_info = mv(0, 0, 1);
    let _ = mgr.check_legal(&move_info);
    mgr.update_move(&move_info);
    assert_eq!(mgr.diff, vec![1, 3]);
}

#[test]
fn test_legal_3_parts_all_satisfied() {
    let netlist = SimpleNetlist::new(6, 0);
    let lb = lowerbound(&netlist, 0.3, 3);
    assert_eq!(lb, 1);
    let mut mgr = FMConstrMgr::with_lowerbound(netlist, lb, 3);
    let part = vec![0u8, 0, 1, 1, 2, 2];
    mgr.init(&part);
    assert_eq!(mgr.check_legal(&mv(0, 0, 1)), LegalCheck::AllSatisfied);
}

#[test]
fn test_init_skips_parts_out_of_range_and_counts_weights() {
    let mut netlist = SimpleNetlist::new(4, 0);
    netlist.module_weight[2] = 5;
    let mut mgr = FMConstrMgr::with_lowerbound(netlist, 1, 2);
    assert_eq!(mgr.total_weight, 8);
    let part = vec![0u8, 3, 1, 1];
    mgr.init(&part);
    assert_eq!(mgr.diff, vec![1, 6]);
}

#[test]
fn fm_bi_constr_mgr_test_new() {
    let netlist = SimpleNetlist::new(4, 2);
    let lb = lowerbound(&netlist, 0.5, 2);
    let mgr = FMBiConstrMgr::with_lowerbound(netlist, lb);
    assert_eq!(mgr.0.num_parts, 2);
}

#[test]
fn test_with_num_parts() {
    let netlist = SimpleNetlist::new(4, 2);
    let lb = lowerbound(&netlist, 0.5, 2);
    let mgr = FMBiConstrMgr::with_lowerbound(netlist, lb);
    assert_eq!(mgr.0.num_parts, 2);
}

#[test]
fn fm_bi_constr_mgr_test_select_togo() {
    let netlist = SimpleNetlist::new(4, 0);
    let lb = lowerbound(&netlist, 0.5, 2);
    let mut mgr = FMBiConstrMgr::with_lowerbound(netlist, lb);
    let part = vec![0u8, 0, 1, 1];
    mgr.0.init(&part);
    let togo = mgr.select_togo();
    assert!(togo == 0 || togo == 1);
}

#[test]
fn fm_bi_constr_mgr_test_deref() {
    let netlist = SimpleNetlist::new(4, 2);
    let lb = lowerbound(&netlist, 0.5, 2);
    let mgr = FMBiConstrMgr::with_lowerbound(netlist, lb);
    let _: &FMConstrMgr<SimpleNetlist> = &mgr.0;
}

#[test]
fn fm_bi_constr_mgr_test_deref_mut() {
    let netlist = SimpleNetlist::new(4, 2);
    let lb = lowerbound(&netlist, 0.5, 2);
    let mut mgr = FMBiConstrMgr::with_lowerbound(netlist, lb);
    let _: &mut FMConstrMgr<SimpleNetlist> = &mut mgr.0;
}

fn make_netlist() -> SimpleNetlist {
    let mut netlist = SimpleNetlist::new(6, 2);
    netlist.add_edge(0, 6);
    netlist.add_edge(1, 6);
    netlist.add_edge(2, 7);
    netlist.add_edge(3, 7);
    netlist.add_edge(4, 7);
    netlist.add_edge(5, 7);
    netlist
}

fn new_kway(nl: SimpleNetlist, bal_tol: f64, num_parts: u8) -> FMKWayConstrMgr<SimpleNetlist> {
    let lb = lowerbound(&nl, bal_tol, num_parts);
    FMKWayConstrMgr::with_lowerbound(nl, lb, num_parts)
}

#[test]
fn test_new_3_parts() {
    let mgr = new_kway(make_netlist(), 0.5, 3);
    assert_eq!(mgr.0.num_parts, 3);
}

#[test]
fn test_select_togo_returns_min() {
    let mut mgr = new_kway(make_netlist(), 0.5, 3);
    mgr.0.diff = vec![10, 5, 8];
    assert_eq!(mgr.select_togo(), 1);
}

#[test]
fn test_check_legal_all_satisfied() {
    let mut mgr = new_kway(make_netlist(), 0.3, 3);
    let part = vec![0u8, 0, 1, 1, 2, 2];
    mgr.0.init(&part);
    let result = mgr.check_legal(&mv(0, 0, 1));
    assert_eq!(result, LegalCheck::AllSatisfied);
}

#[test]
fn fm_kway_constr_mgr_test_deref() {
    let mgr = new_kway(make_netlist(), 0.5, 3);
    let _: &FMConstrMgr<SimpleNetlist> = &mgr.0;
}

#[test]
fn fm_kway_constr_mgr_test_deref_mut() {
    let mut mgr = new_kway(make_netlist(), 0.5, 3);
    let _: &mut FMConstrMgr<SimpleNetlist> = &mut mgr.0;
}

#[test]
fn test_kway_check_legal_get_better_while_a_part_is_light() {
    // lowerbound = round(6 * 2/3 * 0.5) = 2; part 2 holds a single module
    let mut mgr = new_kway(make_netlist(), 0.5, 3);
    let part = vec![0u8, 0, 0, 1, 1, 2];
    mgr.0.init(&part);
    assert_eq!(mgr.0.lowerbound, 2);
    assert_eq!(mgr.check_legal(&mv(0, 0, 1)), LegalCheck::GetBetter);
    assert_eq!(mgr.check_legal(&mv(3, 1, 2)), LegalCheck::NotSatisfied);
    assert_eq!(mgr.select_togo(), 2);
}

#[test]
fn test_kway_check_legal_looks_after_the_move() {
    // Unit weights, lower bound 2; weights [3, 1, 2]: moving a module from
    // part 0 to part 1 leaves [2, 2, 2], every part at the bound.
    let netlist = SimpleNetlist::new(6, 0);
    let mut mgr = FMKWayConstrMgr::with_lowerbound(netlist, 2, 3);
    mgr.0.init(&[0u8, 0, 0, 1, 2, 2]);
    assert_eq!(mgr.check_legal(&mv(0, 0, 1)), LegalCheck::AllSatisfied);
    // From [2, 1, 3], moving from part 2 to part 0 leaves part 1 below it.
    mgr.0.init(&[0u8, 0, 1, 2, 2, 2]);
    assert_eq!(mgr.check_legal(&mv(3, 2, 0)), LegalCheck::GetBetter);
}
