use radio_bridge::queue::{PacketQueue, QueueError};

#[test]
fn scenario_grant_larger_than_capacity_is_full() {
    let mut q = PacketQueue::new(64);
    assert_eq!(q.grant(70), Err(QueueError::Full));
    assert_eq!(q.available(), 0);
    assert_eq!(q.read(), Err(QueueError::Empty));
    assert_eq!(q.grant(64), Ok(64));
    q.commit(0);
    assert_eq!(q.available(), 0);
}

#[test]
fn grant_commit_read_release_conserves_bytes() {
    let mut q = PacketQueue::new(8);
    assert_eq!(q.grant(5), Ok(5));
    for i in 0..5 {
        q.write(i, 10 + i as u8);
    }
    q.commit(3);
    assert_eq!(q.read(), Ok(3));
    assert_eq!(q.peek(0), 10);
    assert_eq!(q.peek(2), 12);
    assert_eq!(q.grant(6), Err(QueueError::Full));
    assert_eq!(q.grant(5), Ok(5));
    for i in 0..5 {
        q.write(i, 20 + i as u8);
    }
    q.commit(5);
    assert_eq!(q.available(), 8);
    q.release(2);
    assert_eq!(q.available(), 6);
    assert_eq!(q.peek(0), 12);
    assert_eq!(q.peek(1), 20);
    // The next grant wraps round the end of the storage.
    assert_eq!(q.grant(2), Ok(2));
    q.write(0, 30);
    q.write(1, 31);
    q.commit(2);
    let all: Vec<u8> = (0..q.available()).map(|i| q.peek(i)).collect();
    assert_eq!(all, vec![12, 20, 21, 22, 23, 24, 30, 31]);
    q.release(8);
    assert_eq!(q.read(), Err(QueueError::Empty));
}

#[test]
fn records_round_trip_in_order() {
    let mut q = PacketQueue::new(16);
    assert_eq!(q.push_record(&[1, 2, 3], 0x40), Ok(()));
    assert_eq!(q.push_record(&[4, 5], 0x41), Ok(()));
    assert_eq!(q.available(), 9);
    assert_eq!(q.push_record(&[0; 6], 0x42), Err(QueueError::Full));
    assert_eq!(q.available(), 9);
    assert_eq!(q.pop_record(), Ok(vec![1, 2, 3, 0x40]));
    assert_eq!(q.push_record(&[6, 7, 8, 9], 0x43), Ok(()));
    assert_eq!(q.pop_record(), Ok(vec![4, 5, 0x41]));
    assert_eq!(q.pop_record(), Ok(vec![6, 7, 8, 9, 0x43]));
    assert_eq!(q.pop_record(), Err(QueueError::Empty));
}
