use ckpttn_rs::fm_bi_gain_calc::FMBiGainCalc;
use ckpttn_rs::fm_gain_mgr::{BucketQueue, FMGainMgr, GainDelta, GainMgrInterface, NNGainMgr};
use ckpttn_rs::fm_kway_gain_calc::FMKWayGainCalc;
use ckpttn_rs::hypergraph::SimpleNetlist;
use ckpttn_rs::moveinfo::MoveInfoV;

fn make_nl() -> SimpleNetlist {
    let mut netlist = SimpleNetlist::new(4, 2);
    netlist.add_edge(0, 4);
    netlist.add_edge(1, 4);
    netlist.add_edge(2, 5);
    netlist.add_edge(3, 5);
    netlist
}

fn node_ids() -> Vec<usize> {
    (0..make_nl().gr.node_count()).collect()
}

#[test]
fn test_bucket_queue() {
    let mut bq: BucketQueue<i32> = BucketQueue::new(-5, 5);
    assert!(bq.is_empty());
    bq.push(3, 42);
    assert!(!bq.is_empty());
    assert_eq!(bq.get_max(), 3);
    assert_eq!(bq.popleft(), Some(42));
    assert!(bq.is_empty());
}

#[test]
fn test_bucket_queue_multiple() {
    let mut bq: BucketQueue<i32> = BucketQueue::new(-5, 5);
    bq.push(1, 10);
    bq.push(5, 50);
    bq.push(3, 30);
    assert_eq!(bq.get_max(), 5);
    assert_eq!(bq.popleft(), Some(50));
    assert_eq!(bq.get_max(), 3);
    assert_eq!(bq.popleft(), Some(30));
    assert_eq!(bq.popleft(), Some(10));
    assert!(bq.is_empty());
}

#[test]
fn test_bucket_queue_get_max_empty() {
    let mut bq: BucketQueue<i32> = BucketQueue::new(-5, 5);
    assert_eq!(bq.get_max(), -6);
}

#[test]
fn test_bucket_queue_popleft_empty() {
    let mut bq: BucketQueue<i32> = BucketQueue::new(-5, 5);
    assert_eq!(bq.popleft(), None);
}

#[test]
fn test_bucket_queue_modify_key_adds() {
    let mut bq: BucketQueue<i32> = BucketQueue::new(-5, 5);
    bq.push(1, 10);
    bq.modify_key(3, 10);
    assert_eq!(bq.get_key(&10), Some(4));
    assert_eq!(bq.get_max(), 4);
    assert_eq!(bq.popleft(), Some(10));
    assert!(bq.is_empty());
}

#[test]
fn test_bucket_queue_set_key_is_write_only() {
    let mut bq: BucketQueue<i32> = BucketQueue::new(-5, 5);
    bq.set_key(3, 42);
    assert!(bq.is_empty());
    assert_eq!(bq.get_key(&42), Some(3));
    bq.modify_key(2, 42);
    assert!(!bq.is_empty());
    assert_eq!(bq.get_max(), 5);
    assert_eq!(bq.popleft(), Some(42));
    assert!(bq.is_empty());
}

#[test]
fn test_bucket_queue_lock_skips_modify() {
    let mut bq: BucketQueue<i32> = BucketQueue::new(-5, 5);
    bq.push(1, 10);
    bq.lock(&10);
    assert!(bq.is_locked(&10));
    assert!(bq.is_empty());
    bq.modify_key(3, 10);
    assert!(bq.is_empty());
    assert_eq!(bq.popleft(), None);
}

#[test]
fn test_bucket_queue_push_same_key() {
    let mut bq: BucketQueue<i32> = BucketQueue::new(-5, 5);
    bq.push(0, 10);
    bq.push(0, 20);
    let v1 = bq.popleft();
    assert!(v1 == Some(10) || v1 == Some(20));
}

#[test]
fn test_bucket_queue_stale_entries_skipped() {
    let mut bq: BucketQueue<i32> = BucketQueue::new(-5, 5);
    bq.push(1, 42);
    bq.modify_key(3, 42);
    assert_eq!(bq.get_max(), 4);
    assert_eq!(bq.popleft(), Some(42));
    assert!(bq.is_empty());
}

#[test]
fn test_bucket_queue_remove_node() {
    let mut bq: BucketQueue<i32> = BucketQueue::new(-5, 5);
    bq.push(3, 42);
    bq.remove_node(&42);
    assert_eq!(bq.popleft(), None);
    assert_eq!(bq.get_key(&42), Some(3));
}

#[test]
fn test_bucket_queue_same_key_last_in_first_out() {
    let mut bq: BucketQueue<i32> = BucketQueue::new(-5, 5);
    bq.push(2, 7);
    bq.push(2, 8);
    bq.push(2, 9);
    assert_eq!(bq.popleft_with_key(), Some((9, 2)));
    assert_eq!(bq.popleft_with_key(), Some((8, 2)));
    assert_eq!(bq.popleft_with_key(), Some((7, 2)));
    assert_eq!(bq.popleft_with_key(), None);
}

#[test]
fn test_bucket_queue_clear_unlocks() {
    let mut bq: BucketQueue<i32> = BucketQueue::new(-5, 5);
    bq.push(1, 3);
    bq.lock(&3);
    bq.clear();
    assert!(!bq.is_locked(&3));
    assert!(bq.is_empty());
    assert_eq!(bq.get_max(), -6);
}

#[test]
fn test_fm_gain_mgr_new() {
    let netlist = make_nl();
    let calc = FMBiGainCalc::new(make_nl(), 2);
    let mgr: FMGainMgr<_, FMBiGainCalc<_>> = FMGainMgr::new(netlist, calc, 2);
    assert_eq!(mgr.num_parts, 2);
    assert!(mgr.waiting_list.is_empty());
}

#[test]
fn test_fm_gain_mgr_init() {
    let netlist = make_nl();
    let calc = FMBiGainCalc::new(make_nl(), 2);
    let mut mgr: FMGainMgr<_, FMBiGainCalc<_>> = FMGainMgr::new(netlist, calc, 2);
    let part = vec![0u8, 0, 1, 1];
    let cost = mgr.init(&part);
    assert_eq!(cost, 0);
    assert!(!mgr.is_empty());
}

#[test]
fn test_fm_gain_mgr_is_empty_togo() {
    let netlist = make_nl();
    let calc = FMBiGainCalc::new(make_nl(), 2);
    let mgr: FMGainMgr<_, FMBiGainCalc<_>> = FMGainMgr::new(netlist, calc, 2);
    assert!(mgr.is_empty_togo(0));
    assert!(mgr.is_empty_togo(1));
}

#[test]
fn test_fm_gain_mgr_is_empty() {
    let netlist = make_nl();
    let calc = FMBiGainCalc::new(make_nl(), 2);
    let mgr: FMGainMgr<_, FMBiGainCalc<_>> = FMGainMgr::new(netlist, calc, 2);
    assert!(mgr.is_empty());
}

#[test]
fn test_fm_gain_mgr_lock() {
    let nodes = node_ids();
    let netlist = make_nl();
    let calc = FMBiGainCalc::new(make_nl(), 2);
    let mut mgr: FMGainMgr<_, FMBiGainCalc<_>> = FMGainMgr::new(netlist, calc, 2);
    mgr.lock(0, nodes[0]);
    assert!(mgr.gain_bucket[0].is_locked(&nodes[0]));
    assert!(mgr.gain_bucket[1].is_locked(&nodes[0]));
}

#[test]
fn test_fm_gain_mgr_lock_all() {
    let nodes = node_ids();
    let netlist = make_nl();
    let calc = FMBiGainCalc::new(make_nl(), 2);
    let mut mgr: FMGainMgr<_, FMBiGainCalc<_>> = FMGainMgr::new(netlist, calc, 2);
    mgr.lock_all(0, nodes[1]);
    assert!(mgr.gain_bucket[0].is_locked(&nodes[1]));
    assert!(mgr.gain_bucket[1].is_locked(&nodes[1]));
}

#[test]
fn test_fm_gain_mgr_modify_key_locked_node() {
    let nodes = node_ids();
    let netlist = make_nl();
    let calc = FMBiGainCalc::new(make_nl(), 2);
    let mut mgr: FMGainMgr<_, FMBiGainCalc<_>> = FMGainMgr::new(netlist, calc, 2);
    mgr.lock(0, nodes[0]);
    mgr.modify_key(nodes[0], 0, GainDelta::Scalar(5));
    assert!(mgr.gain_bucket[1].is_empty());
}

#[test]
fn test_fm_gain_mgr_update_move_v() {
    let nodes = node_ids();
    let netlist = make_nl();
    let calc = FMBiGainCalc::new(make_nl(), 2);
    let mut mgr: FMGainMgr<_, FMBiGainCalc<_>> = FMGainMgr::new(netlist, calc, 2);
    let move_info_v = MoveInfoV {
        v: nodes[0],
        from_part: 0,
        to_part: 1,
    };
    mgr.update_move_v(&move_info_v, 5);
    assert!(mgr.is_empty());
    assert_eq!(mgr.gain_bucket[0].get_key(&nodes[0]), Some(-5));
}

#[test]
fn test_gain_mgr_interface_init() {
    let netlist = make_nl();
    let calc = FMBiGainCalc::new(make_nl(), 2);
    let mut mgr: FMGainMgr<_, FMBiGainCalc<_>> = FMGainMgr::new(netlist, calc, 2);
    let part = vec![0u8, 0, 1, 1];
    let cost = GainMgrInterface::init(&mut mgr, &part);
    assert_eq!(cost, 0);
}

#[test]
fn test_gain_mgr_interface_is_empty() {
    let netlist = make_nl();
    let calc = FMBiGainCalc::new(make_nl(), 2);
    let mgr: FMGainMgr<_, FMBiGainCalc<_>> = FMGainMgr::new(netlist, calc, 2);
    assert!(GainMgrInterface::is_empty(&mgr));
}

#[test]
fn test_gain_mgr_interface_is_empty_togo() {
    let netlist = make_nl();
    let calc = FMBiGainCalc::new(make_nl(), 2);
    let mgr: FMGainMgr<_, FMBiGainCalc<_>> = FMGainMgr::new(netlist, calc, 2);
    assert!(GainMgrInterface::is_empty_togo(&mgr, 0));
}

#[test]
fn test_gain_mgr_interface_lock() {
    let nodes = node_ids();
    let netlist = make_nl();
    let calc = FMBiGainCalc::new(make_nl(), 2);
    let mut mgr: FMGainMgr<_, FMBiGainCalc<_>> = FMGainMgr::new(netlist, calc, 2);
    GainMgrInterface::lock(&mut mgr, 0, nodes[0]);
}

#[test]
fn test_gain_mgr_interface_update_move_v() {
    let nodes = node_ids();
    let netlist = make_nl();
    let calc = FMBiGainCalc::new(make_nl(), 2);
    let mut mgr: FMGainMgr<_, FMBiGainCalc<_>> = FMGainMgr::new(netlist, calc, 2);
    let move_info_v = MoveInfoV {
        v: nodes[0],
        from_part: 0,
        to_part: 1,
    };
    GainMgrInterface::update_move_v(&mut mgr, &move_info_v, 3);
}

#[test]
fn test_gain_mgr_init_then_non_empty() {
    let netlist = make_nl();
    let calc = FMBiGainCalc::new(make_nl(), 2);
    let mut mgr: FMGainMgr<_, FMBiGainCalc<_>> = FMGainMgr::new(netlist, calc, 2);
    let part = vec![0u8, 0, 1, 1];
    let cost = mgr.init(&part);
    assert_eq!(cost, 0);
    assert!(!mgr.is_empty());
}

#[test]
fn test_gain_mgr_select_after_init() {
    let netlist = make_nl();
    let calc = FMBiGainCalc::new(make_nl(), 2);
    let mut mgr: FMGainMgr<_, FMBiGainCalc<_>> = FMGainMgr::new(netlist, calc, 2);
    let part = vec![0u8, 0, 1, 1];
    let _ = mgr.init(&part);
    let (move_info_v, _gain) = mgr.select(&part);
    assert_eq!(move_info_v.to_part, 1 - move_info_v.from_part);
}

#[test]
fn test_full_gain_mgr_flow() {
    let netlist = make_nl();
    let calc = FMBiGainCalc::new(make_nl(), 2);
    let mut mgr: FMGainMgr<_, FMBiGainCalc<_>> = FMGainMgr::new(netlist, calc, 2);
    let mut part = vec![0u8, 0, 1, 1];
    let _ = mgr.init(&part);

    let mut iter = 0;
    while !mgr.is_empty() {
        iter += 1;
        assert!(iter < 1000, "gain manager failed to drain");
        let (move_info_v, gainmax) = mgr.select(&part);
        if gainmax <= 0 {
            continue;
        }
        mgr.lock(move_info_v.to_part, move_info_v.v);
        mgr.update_move(&part, &move_info_v);
        mgr.update_move_v(&move_info_v, gainmax);
        part[move_info_v.v] = move_info_v.to_part;
    }
    assert!(part.iter().all(|&p| p == 0 || p == 1));
}

#[test]
fn test_kway_lock_is_per_link() {
    let netlist = make_nl();
    let calc = FMKWayGainCalc::new(make_nl(), 3);
    let mut mgr: FMGainMgr<_, FMKWayGainCalc<_>> = FMGainMgr::new(netlist, calc, 3);
    let nodes = node_ids();
    mgr.lock(1, nodes[0]);
    assert!(mgr.gain_bucket[1].is_locked(&nodes[0]));
    assert!(!mgr.gain_bucket[0].is_locked(&nodes[0]));
    assert!(!mgr.gain_bucket[2].is_locked(&nodes[0]));
}

#[test]
fn test_init_fills_buckets_with_initial_gains() {
    let netlist = make_nl();
    let calc = FMBiGainCalc::new(make_nl(), 2);
    let mut mgr: FMGainMgr<_, FMBiGainCalc<_>> = FMGainMgr::new(netlist, calc, 2);
    let part = vec![0u8, 0, 1, 1];
    assert_eq!(mgr.init(&part), 0);
    // every net is uncut, so each module loses its net by moving
    assert_eq!(mgr.gain_bucket[1].get_key(&0), Some(-1));
    assert_eq!(mgr.gain_bucket[0].get_key(&2), Some(-1));
    assert!(!mgr.is_empty_togo(0));
    assert!(!mgr.is_empty_togo(1));
}

#[test]
fn test_select_togo_takes_best_of_bucket() {
    let netlist = make_nl();
    let calc = FMBiGainCalc::new(make_nl(), 2);
    let mut mgr: FMGainMgr<_, FMBiGainCalc<_>> = FMGainMgr::new(netlist, calc, 2);
    let part = vec![0u8, 0, 1, 1];
    let _ = mgr.init(&part);
    let (v, gain) = mgr.select_togo(1);
    assert!(v == 0 || v == 1);
    assert_eq!(gain, -1);
}

#[test]
fn test_nn_gain_mgr_new() {
    let netlist = make_nl();
    let calc = FMBiGainCalc::new(make_nl(), 2);
    let mgr: NNGainMgr<_, FMBiGainCalc<_>> = NNGainMgr::new(netlist, calc, 2);
    assert_eq!(mgr.num_parts, 2);
    assert!(mgr.is_empty());
}

#[test]
fn test_nn_gain_mgr_init() {
    let netlist = make_nl();
    let calc = FMBiGainCalc::new(make_nl(), 2);
    let mut mgr: NNGainMgr<_, FMBiGainCalc<_>> = NNGainMgr::new(netlist, calc, 2);
    let part = vec![0u8, 0, 1, 1];
    let cost = mgr.init(&part);
    assert_eq!(cost, 0);
}

#[test]
fn test_nn_gain_mgr_is_empty_togo() {
    let netlist = make_nl();
    let calc = FMBiGainCalc::new(make_nl(), 2);
    let mgr: NNGainMgr<_, FMBiGainCalc<_>> = NNGainMgr::new(netlist, calc, 2);
    assert!(mgr.is_empty_togo(0));
    assert!(mgr.is_empty_togo(1));
}

#[test]
fn test_nn_gain_mgr_lock_and_lock_all() {
    let nodes = node_ids();
    let netlist = make_nl();
    let calc = FMBiGainCalc::new(make_nl(), 2);
    let mut mgr: NNGainMgr<_, FMBiGainCalc<_>> = NNGainMgr::new(netlist, calc, 2);
    mgr.lock(0, nodes[0]);
    assert!(mgr.gain_bucket[0].is_locked(&nodes[0]));
    assert!(mgr.gain_bucket[1].is_locked(&nodes[0]));
    mgr.lock_all(0, nodes[1]);
    assert!(mgr.gain_bucket[0].is_locked(&nodes[1]));
    assert!(mgr.gain_bucket[1].is_locked(&nodes[1]));
}

#[test]
fn test_nn_gain_mgr_update_move_v_and_modify_key() {
    let nodes = node_ids();
    let netlist = make_nl();
    let calc = FMBiGainCalc::new(make_nl(), 2);
    let mut mgr: NNGainMgr<_, FMBiGainCalc<_>> = NNGainMgr::new(netlist, calc, 2);
    let move_info_v = MoveInfoV {
        v: nodes[0],
        from_part: 0,
        to_part: 1,
    };
    mgr.update_move_v(&move_info_v, 5);
    assert!(mgr.is_empty());
    mgr.modify_key(nodes[0], 0, GainDelta::Scalar(1));
    assert!(!mgr.is_empty());
}

#[test]
fn test_nn_gain_mgr_interface_trait() {
    let nodes = node_ids();
    let netlist = make_nl();
    let calc = FMBiGainCalc::new(make_nl(), 2);
    let mut mgr: NNGainMgr<_, FMBiGainCalc<_>> = NNGainMgr::new(netlist, calc, 2);

    let part = vec![0u8, 0, 1, 1];
    let cost = GainMgrInterface::init(&mut mgr, &part);
    assert_eq!(cost, 0);
    assert!(!GainMgrInterface::is_empty(&mgr));
    assert!(!GainMgrInterface::is_empty_togo(&mgr, 0));
    assert!(!GainMgrInterface::is_empty_togo(&mgr, 1));

    GainMgrInterface::lock(&mut mgr, 0, nodes[0]);
    let move_info_v = MoveInfoV {
        v: nodes[0],
        from_part: 0,
        to_part: 1,
    };
    GainMgrInterface::update_move_v(&mut mgr, &move_info_v, 3);
}

#[test]
fn test_bucket_queue_pops_in_key_order_and_empties() {
    let mut bq = BucketQueue::<usize>::new(-5, 5);
    bq.push(3, 1);
    bq.push(-2, 2);
    bq.push(4, 3);
    bq.modify_key(-3, 3);
    assert!(!bq.is_empty());
    assert_eq!(bq.popleft_with_key(), Some((1, 3)));
    assert_eq!(bq.popleft_with_key(), Some((3, 1)));
    assert_eq!(bq.popleft_with_key(), Some((2, -2)));
    assert!(bq.is_empty());
    assert_eq!(bq.popleft(), None);
}
