use ckpttn_rs::bpqueue::BPQueue;
use ckpttn_rs::dllist::Dllink;

fn list_items(links: &[Dllink<()>], head: usize) -> Vec<usize> {
    let mut res = Vec::new();
    let mut cur = links[head].next.unwrap();
    while cur != head {
        res.push(cur);
        cur = links[cur].next.unwrap();
    }
    res
}

#[test]
fn test_dllink() {
    // slots: the heads l1 and l2, then the nodes d, e and f
    let mut links: Vec<Dllink<()>> = (0..5).map(|i| Dllink::new(i, ())).collect();
    let (l1, l2, d, e, f) = (0, 1, 2, 3, 4);

    Dllink::appendleft(&mut links, l1, e);
    assert!(!links[l1].is_empty());

    Dllink::appendleft(&mut links, l1, f);
    Dllink::append(&mut links, l1, d);
    let x = Dllink::pop(&mut links, l1);
    Dllink::append(&mut links, l2, x);
    let y = Dllink::popleft(&mut links, l1);
    Dllink::append(&mut links, l2, y);
    assert!(!links[l1].is_empty());
    assert!(!links[l2].is_empty());
    Dllink::detach(&mut links, e);
    assert!(links[l1].is_empty());

    let mut count = 0;
    let mut cur = links[l2].next.unwrap();
    while cur != l2 {
        count += 1;
        cur = links[cur].next.unwrap();
    }
    assert_eq!(count, 2);
}

#[test]
fn test_dllink_order() {
    let mut links: Vec<Dllink<()>> = (0..4).map(|i| Dllink::new(i, ())).collect();
    Dllink::append(&mut links, 0, 1);
    Dllink::append(&mut links, 0, 2);
    Dllink::appendleft(&mut links, 0, 3);
    assert_eq!(list_items(&links, 0), vec![3, 1, 2]);
    assert_eq!(Dllink::popleft(&mut links, 0), 3);
    assert_eq!(Dllink::pop(&mut links, 0), 2);
    assert_eq!(list_items(&links, 0), vec![1]);
    Dllink::detach(&mut links, 1);
    assert!(links[0].is_empty());
}

#[test]
fn test_dllink_lock_and_clear() {
    let mut link = Dllink::new(7, 42i32);
    assert!(link.is_empty());
    assert!(!link.is_locked());
    link.lock();
    assert!(link.is_locked());
    assert!(!link.is_empty());
    link.clear();
    assert!(!link.is_locked());
    assert!(link.is_empty());
    assert_eq!(link.next, Some(7));
    assert_eq!(link.prev, Some(7));
    assert_eq!(link.data, 42);
}

#[test]
fn test_bpqueue_new_is_empty() {
    let bpq = BPQueue::new(-3, 3, 4);
    assert!(bpq.is_empty());
    assert_eq!(bpq.get_max(), -4);
    assert!(bpq.iter().is_empty());
}

#[test]
fn test_bpqueue_append_popleft() {
    let mut bpq = BPQueue::new(-3, 3, 4);
    bpq.append(0, 2);
    bpq.append(1, 3);
    bpq.append(2, -1);
    assert!(!bpq.is_empty());
    assert_eq!(bpq.get_max(), 3);
    assert_eq!(bpq.iter(), vec![1, 0, 2]);
    assert_eq!(bpq.popleft(), 1);
    assert_eq!(bpq.get_max(), 2);
    assert_eq!(bpq.popleft(), 0);
    assert_eq!(bpq.get_max(), -1);
    assert_eq!(bpq.popleft(), 2);
    assert!(bpq.is_empty());
}

#[test]
fn test_bpqueue_same_key_first_in_first_out() {
    let mut bpq = BPQueue::new(-3, 3, 3);
    bpq.append(2, 1);
    bpq.append(0, 1);
    bpq.append(1, 1);
    assert_eq!(bpq.iter(), vec![2, 0, 1]);
    assert_eq!(bpq.popleft(), 2);
    assert_eq!(bpq.popleft(), 0);
    assert_eq!(bpq.popleft(), 1);
}

#[test]
fn test_bpqueue_modify_key() {
    let mut bpq = BPQueue::new(-3, 3, 3);
    bpq.append(0, 0);
    bpq.append(1, 1);
    bpq.append(2, 1);
    // increasing puts the item at the front of its new bucket
    bpq.modify_key(0, 1);
    assert_eq!(bpq.iter(), vec![0, 1, 2]);
    assert_eq!(bpq.get_max(), 1);
    // decreasing puts it at the back
    bpq.modify_key(1, -2);
    assert_eq!(bpq.iter(), vec![0, 2, 1]);
    bpq.modify_key(0, 2);
    assert_eq!(bpq.get_max(), 3);
    assert_eq!(bpq.popleft(), 0);
    assert_eq!(bpq.get_max(), 1);
}

#[test]
fn test_bpqueue_detach_lowers_max() {
    let mut bpq = BPQueue::new(-3, 3, 3);
    bpq.append(0, 3);
    bpq.append(1, -2);
    assert_eq!(bpq.get_max(), 3);
    bpq.detach(0);
    assert_eq!(bpq.get_max(), -2);
    assert_eq!(bpq.iter(), vec![1]);
    bpq.detach(1);
    assert!(bpq.is_empty());
}

#[test]
fn test_bpqueue_clear() {
    let mut bpq = BPQueue::new(-3, 3, 3);
    bpq.append(0, 3);
    bpq.append(1, -2);
    bpq.clear();
    assert!(bpq.is_empty());
    assert!(bpq.iter().is_empty());
    bpq.append(1, 0);
    assert_eq!(bpq.popleft(), 1);
}

#[test]
fn test_bpqueue_appendfrom() {
    let mut bpq = BPQueue::new(-3, 3, 3);
    // the offset is -4: item 1 stores -2 + 4 = 2, which appendfrom reads as
    // the key 2 (bucket 6); the others store 0, the key 0 (bucket 4)
    bpq.set_key(1, -2);
    bpq.appendfrom(&[0, 1, 2]);
    assert_eq!(bpq.get_max(), 2);
    assert_eq!(bpq.iter(), vec![1, 0, 2]);
}

#[test]
fn test_bpqueue_append_direct_and_locked_modify() {
    let mut bpq = BPQueue::new(0, 5, 2);
    // stored key 0 read as key 0 - offset(-1) = 1
    bpq.set_key(0, 1);
    bpq.append_direct(0);
    assert_eq!(bpq.get_max(), 2);
    assert_eq!(bpq.popleft(), 0);
    assert!(bpq.is_empty());
}
