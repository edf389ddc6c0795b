use broker::protocol::{Header, Message, MessageType, Tlv, MAGIC, VERSION};
use broker::shard::Shard;
use broker::sharded::{compute_shard_key, ShardImage, ShardedQueue, CHECKPOINT_THRESHOLD};
use broker::wal::{WalOp, WalWriter, WAL_BATCH_SIZE};

fn make_mesages(id: usize) -> Message {
    Message {
        header: Header {
            magic: MAGIC,
            version: VERSION,
            msg_type: MessageType::JobPush,
            flags: 0,
            payload_len: 0,
        },
        tlvs: vec![
            Tlv {
                tag: 0x01,
                value: format!("job{}", id).into_bytes(),
            },
            Tlv {
                tag: 0x03,
                value: (id as i32).to_be_bytes().to_vec(),
            },
        ],
    }
}

fn first_value(m: &Message) -> Vec<u8> {
    m.tlvs[0].value.clone()
}

#[test]
fn test_shard_push_pop() {
    let mut queue = ShardedQueue::new(2);
    let message = make_mesages(42);
    queue.push(0, message.clone());
    let pop = queue.pop(0).unwrap();
    assert_eq!(pop.tlvs[0].value, message.tlvs[0].value);
}

#[test]
fn mod_test_shard_push_pop() {
    let mut queue = ShardedQueue::new(2);
    let message = make_mesages(42);
    queue.push(0, message.clone());
    let pop = queue.pop(0).unwrap();
    assert_eq!(pop.tlvs[0].value, message.tlvs[0].value);
}

#[test]
fn test_shard_push_pop_batch() {
    let mut queue = ShardedQueue::new(2);
    let batch: Vec<Message> = (0..5).map(make_mesages).collect();
    queue.push_batch(1, batch.clone());
    let popped = queue.pop_batch(1, 5);
    assert_eq!(popped.len(), 5);
    for (b, p) in batch.iter().zip(popped.iter()) {
        assert_eq!(b.tlvs[0].value, p.tlvs[0].value);
    }
}

#[test]
fn mod_test_shard_push_pop_batch() {
    let mut queue = ShardedQueue::new(2);
    let batch: Vec<Message> = (0..5).map(make_mesages).collect();
    queue.push_batch(1, batch.clone());
    let popped = queue.pop_batch(1, 5);
    assert_eq!(popped.len(), 5);
    for (b, p) in batch.iter().zip(popped.iter()) {
        assert_eq!(b.tlvs[0].value, p.tlvs[0].value);
    }
}

#[test]
fn test_multi_threaded_producers_consumers() {
    let mut queue = ShardedQueue::new(4);
    for i in 0..4 {
        let batch: Vec<Message> = (0..10).map(|j| make_mesages(i * 10 + j)).collect();
        queue.push_batch(i, batch);
    }
    for i in 0..4 {
        let batch = queue.pop_batch(i, 10);
        assert_eq!(batch.len(), 10);
    }
}

#[test]
fn test_wal_replay_after_push() {
    let mut shard = Shard::new(0);

    let msg1 = make_mesages(1);
    let msg2 = make_mesages(2);

    shard.push(msg1.clone());
    shard.push(msg2.clone());

    shard.flush_wal();

    let replayed = Shard::replay_wal(shard.wal_contents());
    assert_eq!(replayed.len(), 2);
    assert_eq!(replayed[0].tlvs[0].value, msg1.tlvs[0].value);
    assert_eq!(replayed[1].tlvs[0].value, msg2.tlvs[0].value);
}

#[test]
fn test_wal_replay_with_pop() {
    let mut shard = Shard::new(0);

    let msg1 = make_mesages(1);
    let msg2 = make_mesages(2);

    shard.push(msg1.clone());
    shard.push(msg2.clone());
    shard.pop();

    shard.flush_wal();

    let replayed_queue = Shard::replay_wal(shard.wal_contents());
    assert_eq!(replayed_queue.len(), 1);
    assert_eq!(replayed_queue[0].tlvs[0].value, msg2.tlvs[0].value);
}

#[test]
fn wal_records_have_exact_bytes() {
    let mut shard = Shard::new(3);
    let m = make_mesages(7);
    let encoded = m.encode();
    shard.push(m);
    shard.pop();
    let mut expected = vec![0x01];
    expected.extend_from_slice(&(encoded.len() as u32).to_le_bytes());
    expected.extend_from_slice(&encoded);
    expected.extend_from_slice(&[0x02, 0, 0, 0, 0]);
    assert_eq!(shard.wal_contents(), &expected[..]);
    assert_eq!(shard.id(), 3);
}

#[test]
fn recovery_after_two_pushes() {
    let mut shard = Shard::new(0);
    let m1 = make_mesages(1);
    let m2 = make_mesages(2);
    shard.push(m1.clone());
    shard.push(m2.clone());
    let wal = shard.wal_contents().to_vec();
    drop(shard);

    let mut restarted = Shard::recover(0, &[], &wal);
    assert_eq!(first_value(&restarted.pop().unwrap()), first_value(&m1));
    assert_eq!(first_value(&restarted.pop().unwrap()), first_value(&m2));
    assert!(restarted.pop().is_none());
}

#[test]
fn recovery_after_push_push_pop() {
    let mut shard = Shard::new(0);
    let m1 = make_mesages(1);
    let m2 = make_mesages(2);
    shard.push(m1.clone());
    shard.push(m2.clone());
    assert_eq!(first_value(&shard.pop().unwrap()), first_value(&m1));
    let wal = shard.wal_contents().to_vec();
    drop(shard);

    let mut restarted = Shard::recover(0, &[], &wal);
    assert_eq!(first_value(&restarted.pop().unwrap()), first_value(&m2));
    assert!(restarted.pop().is_none());
}

#[test]
fn recovery_returns_all_pushes_in_order() {
    let mut shard = Shard::new(0);
    for i in 0..20 {
        shard.push(make_mesages(i));
    }
    let wal = shard.wal_contents().to_vec();
    let mut restarted = Shard::recover(0, &[], &wal);
    assert_eq!(restarted.len(), 20);
    for i in 0..20 {
        let m = restarted.pop().unwrap();
        assert_eq!(first_value(&m), format!("job{}", i).into_bytes());
        assert_eq!(m.tlvs[1].value, (i as i32).to_be_bytes().to_vec());
        assert_eq!(m.header.payload_len, m.encode().len() as u32 - 12);
    }
}

#[test]
fn recovery_stops_at_torn_record() {
    let mut shard = Shard::new(0);
    shard.push(make_mesages(1));
    shard.push(make_mesages(2));
    let mut wal = shard.wal_contents().to_vec();
    let whole = wal.len();
    wal.truncate(whole - 3);
    let restarted = Shard::recover(0, &[], &wal);
    assert_eq!(restarted.len(), 1);
    // the torn tail is not kept in the log
    assert!(restarted.wal_contents().len() < wal.len());
    let replayed = Shard::replay_wal(restarted.wal_contents());
    assert_eq!(replayed.len(), 1);
}

#[test]
fn replay_stops_at_unknown_op() {
    let mut shard = Shard::new(0);
    shard.push(make_mesages(1));
    let mut wal = shard.wal_contents().to_vec();
    wal.extend_from_slice(&[0x07, 0, 0, 0, 0]);
    let mut more = Shard::new(0);
    more.push(make_mesages(2));
    wal.extend_from_slice(more.wal_contents());
    assert_eq!(Shard::replay_wal(&wal).len(), 1);
}

#[test]
fn replay_pop_on_empty_queue_is_ignored() {
    let wal = vec![0x02, 0, 0, 0, 0];
    assert_eq!(Shard::replay_wal(&wal).len(), 0);
}

#[test]
fn checkpoint_empties_wal_and_snapshot_rebuilds() {
    let mut shard = Shard::new(1);
    for i in 0..4 {
        shard.push(make_mesages(i));
    }
    shard.pop();
    let snapshot = shard.checkpoint();
    assert!(shard.wal_contents().is_empty());
    let loaded = Shard::load_snapshoot(&snapshot);
    assert_eq!(loaded.len(), 3);
    for (k, m) in loaded.iter().enumerate() {
        assert_eq!(first_value(m), format!("job{}", k + 1).into_bytes());
    }
    // a push after the checkpoint lands in the fresh log
    shard.push(make_mesages(9));
    let mut restarted = Shard::recover(1, &snapshot, shard.wal_contents());
    assert_eq!(restarted.len(), 4);
    assert_eq!(first_value(&restarted.pop().unwrap()), b"job1".to_vec());
}

#[test]
fn snapshot_record_bytes() {
    let mut shard = Shard::new(0);
    let m = make_mesages(5);
    let encoded = m.encode();
    shard.push(m);
    let snapshot = shard.snapshot_image();
    let mut expected = (encoded.len() as u32).to_le_bytes().to_vec();
    expected.extend_from_slice(&encoded);
    assert_eq!(snapshot, expected);
}

#[test]
fn snapshot_load_stops_at_truncation() {
    let mut shard = Shard::new(0);
    shard.push(make_mesages(1));
    shard.push(make_mesages(2));
    let snapshot = shard.snapshot_image();
    assert_eq!(Shard::load_snapshoot(&snapshot[..snapshot.len() - 1]).len(), 1);
    assert_eq!(Shard::load_snapshoot(&snapshot[..2]).len(), 0);
}

#[test]
fn try_pop_is_not_logged() {
    let mut shard = Shard::new(0);
    shard.push(make_mesages(1));
    shard.push(make_mesages(2));
    let before = shard.wal_contents().to_vec();
    assert_eq!(first_value(&shard.try_pop().unwrap()), b"job1".to_vec());
    assert_eq!(shard.wal_contents(), &before[..]);
    // recovery brings the message back
    let restarted = Shard::recover(0, &[], shard.wal_contents());
    assert_eq!(restarted.len(), 2);
    assert!(Shard::new(0).try_pop().is_none());
}

#[test]
fn pop_batch_takes_at_most_what_is_there() {
    let mut shard = Shard::new(0);
    for i in 0..3 {
        shard.push(make_mesages(i));
    }
    let got = shard.pop_batch(10);
    assert_eq!(got.len(), 3);
    assert!(shard.pop_batch(4).is_empty());
    // one POP record per removed message
    let replayed = Shard::replay_wal(shard.wal_contents());
    assert_eq!(replayed.len(), 0);
}

#[test]
fn push_batch_flushes_once() {
    let mut shard = Shard::new(0);
    shard.push(make_mesages(0));
    assert_eq!(shard.wal_synced_len(), 0);
    shard.push_batch(vec![make_mesages(1), make_mesages(2)]);
    assert_eq!(shard.wal_synced_len(), shard.wal_contents().len());
    assert_eq!(shard.len(), 3);
    let before = shard.wal_contents().len();
    shard.push_batch(vec![]);
    assert_eq!(shard.wal_contents().len(), before);
}

#[test]
fn wal_writer_flushes_after_batch_size() {
    let mut w = WalWriter::new(Vec::new());
    for _ in 0..WAL_BATCH_SIZE {
        w.append(WalOp::Pop, None);
    }
    assert_eq!(w.entries_since_flush(), WAL_BATCH_SIZE);
    assert_eq!(w.synced_len(), 0);
    w.append(WalOp::Pop, None);
    assert_eq!(w.entries_since_flush(), 0);
    assert_eq!(w.synced_len(), 5 * (WAL_BATCH_SIZE + 1));
    w.append(WalOp::Push, Some(&[9, 8]));
    assert_eq!(&w.contents()[w.contents().len() - 7..], &[1, 2, 0, 0, 0, 9, 8]);
    w.truncate();
    assert!(w.contents().is_empty());
    assert_eq!(w.entries_since_flush(), 0);
}

#[test]
fn wal_op_bytes() {
    assert_eq!(WalOp::from_byte(1), Some(WalOp::Push));
    assert_eq!(WalOp::from_byte(2), Some(WalOp::Pop));
    assert_eq!(WalOp::from_byte(0), None);
    assert_eq!(WalOp::from_byte(3), None);
    assert_eq!(WalOp::Push.to_byte(), 1);
    assert_eq!(WalOp::Pop.to_byte(), 2);
}

#[test]
fn per_shard_fifo_order() {
    let mut queue = ShardedQueue::new(3);
    for i in 0..6 {
        queue.push(1, make_mesages(i));
    }
    queue.push(2, make_mesages(100));
    for i in 0..6 {
        assert_eq!(first_value(&queue.pop(4).unwrap()), format!("job{}", i).into_bytes());
    }
    assert!(queue.pop(1).is_none());
    assert_eq!(first_value(&queue.pop(2).unwrap()), b"job100".to_vec());
}

#[test]
fn routing_of_job0() {
    let m = make_mesages(0);
    let mut h: usize = 0;
    for b in b"job0" {
        h = h.wrapping_mul(31).wrapping_add(*b as usize);
    }
    assert_eq!(h, (((b'j' as usize * 31) + b'o' as usize) * 31 + b'b' as usize) * 31 + b'0' as usize);
    for n in 1..9 {
        assert_eq!(compute_shard_key(&m, n), h % n);
    }
    assert_eq!(compute_shard_key(&m, 4), 3);
}

#[test]
fn routing_depends_on_first_field_only() {
    let a = make_mesages(3);
    let mut b = make_mesages(3);
    b.tlvs[1].value = vec![1, 2, 3];
    b.header.msg_type = MessageType::JobAck;
    for n in 1..7 {
        assert_eq!(compute_shard_key(&a, n), compute_shard_key(&b, n));
    }
    let empty = Message { header: a.header, tlvs: vec![] };
    assert_eq!(compute_shard_key(&empty, 5), 0);
}

#[test]
fn routing_hash_wraps() {
    let m = Message {
        header: make_mesages(0).header,
        tlvs: vec![Tlv { tag: 1, value: vec![0xff; 40] }],
    };
    let mut h: usize = 0;
    for _ in 0..40 {
        h = h.wrapping_mul(31).wrapping_add(0xff);
    }
    assert_eq!(compute_shard_key(&m, 7), h % 7);
}

#[test]
fn checkpoint_is_scheduled_after_threshold() {
    let mut queue = ShardedQueue::new(2);
    for i in 0..CHECKPOINT_THRESHOLD {
        assert!(!queue.push(i, make_mesages(i)));
    }
    assert!(queue.push(0, make_mesages(0)));
    // while one runs, no other is handed out
    for i in 0..=CHECKPOINT_THRESHOLD {
        assert!(!queue.push(i, make_mesages(i)));
    }
    queue.checkpoint_finished();
    for i in 0..CHECKPOINT_THRESHOLD {
        assert!(!queue.push_batch(i, vec![make_mesages(i)]));
    }
    assert!(queue.push_batch(0, vec![make_mesages(0), make_mesages(1)]));
}

#[test]
fn force_checkpoint_then_restart() {
    let mut queue = ShardedQueue::new(2);
    for i in 0..5 {
        queue.push(i, make_mesages(i));
    }
    queue.pop(0);
    let snapshots = queue.force_checkpoint();
    assert_eq!(snapshots.len(), 2);
    let images: Vec<ShardImage> = snapshots
        .into_iter()
        .map(|s| ShardImage { snapshot: s, wal: Vec::new() })
        .collect();
    let mut restarted = ShardedQueue::recover(&images);
    assert_eq!(restarted.shard_count(), 2);
    assert_eq!(first_value(&restarted.pop(0).unwrap()), b"job2".to_vec());
    assert_eq!(first_value(&restarted.pop(0).unwrap()), b"job4".to_vec());
    assert!(restarted.pop(0).is_none());
    assert_eq!(restarted.pop_batch(1, 10).len(), 2);
    assert_eq!(restarted.pick_shard(3).id(), 1);
}

#[test]
fn sharded_try_pop() {
    let mut queue = ShardedQueue::new(2);
    queue.push(1, make_mesages(1));
    assert!(queue.try_pop(0).is_none());
    assert_eq!(first_value(&queue.try_pop(1).unwrap()), b"job1".to_vec());
    let snapshot = queue.checkpoint_shard(1);
    assert!(Shard::load_snapshoot(&snapshot).is_empty());
}
