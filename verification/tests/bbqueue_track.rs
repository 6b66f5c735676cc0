use bbqueue::bbqueue::BBQueue;

#[test]
fn track_walkthrough() {
    let mut bb = BBQueue::new();

    // Nothing committed yet
    let r = bb.read();
    assert_eq!(r.len(), 0);

    let x = bb.grant(4).unwrap();
    assert_eq!(x.len(), 4);
    assert_eq!(bb.read().len(), 0);
    x.copy_from_slice(&mut bb, &[1, 2, 3, 4]);
    assert_eq!(bb.read().len(), 0);
    bb.commit(4, x);

    let a = bb.read();
    assert_eq!(a.to_vec(&bb), vec![1, 2, 3, 4]);
    bb.release(2, a);
    assert_eq!(bb.read().to_vec(&bb), vec![3, 4]);

    let x = bb.grant(2).unwrap();
    assert_eq!(bb.read().to_vec(&bb), vec![3, 4]);
    x.copy_from_slice(&mut bb, &[11, 12]);
    bb.commit(2, x);
    let a = bb.read();
    assert_eq!(a.to_vec(&bb), vec![3, 4, 11, 12]);
    bb.release(2, a);
    assert_eq!(bb.read().to_vec(&bb), vec![11, 12]);

    // Wraps around to the start of the buffer
    let x = bb.grant(3).unwrap();
    x.copy_from_slice(&mut bb, &[21, 22, 23]);
    assert_eq!(bb.read().to_vec(&bb), vec![11, 12]);
    bb.commit(3, x);
    let a = bb.read();
    assert_eq!(a.to_vec(&bb), vec![11, 12]);
    bb.release(2, a);
    assert_eq!(bb.read().to_vec(&bb), vec![21, 22, 23]);

    assert!(bb.grant(10).is_err());
}

#[test]
fn track_grant_in_progress() {
    let mut bb = BBQueue::new();
    let x = bb.grant(2).unwrap();
    assert!(bb.grant(1).is_err());
    bb.commit(0, x);
    assert!(bb.grant(1).is_ok());
}

#[test]
fn track_partial_commit() {
    let mut bb = BBQueue::new();
    let x = bb.grant(4).unwrap();
    x.copy_from_slice(&mut bb, &[9, 8, 7, 6]);
    bb.commit(2, x);
    assert_eq!(bb.read().to_vec(&bb), vec![9, 8]);
}
