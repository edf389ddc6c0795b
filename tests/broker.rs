use broker::handler::{control_reply, handle_frame, READ_BUFFER_LEN};
use broker::logger::Level;
use broker::pool::{SubmissionQueue, SubmitError, WorkerStep};
use broker::protocol::{Header, Message, MessageType, ProtocolError, Tlv, MAGIC, VERSION};
use broker::sharded::{compute_shard_key, ShardedQueue};

fn frame(msg_type: MessageType, key: &[u8]) -> Vec<u8> {
    Message {
        header: Header { magic: MAGIC, version: VERSION, msg_type, flags: 0, payload_len: 0 },
        tlvs: vec![Tlv { tag: 1, value: key.to_vec() }, Tlv { tag: 3, value: vec![0, 0, 0, 7] }],
    }
    .encode()
}

fn control_bytes(dispatched: MessageType, detail: &str, status: u16) -> Vec<u8> {
    let mut v = vec![0x52, 0x42, 0x51, 0x31, 0x01, 0x20];
    v.extend_from_slice(&status.to_be_bytes());
    let payload_len = 4 + 4 + 3 + detail.len();
    v.extend_from_slice(&(payload_len as u32).to_be_bytes());
    v.extend_from_slice(&[0x01, 0x00, 0x01, status as u8]);
    v.extend_from_slice(&[0x02, 0x00, 0x01, dispatched.to_u8()]);
    v.extend_from_slice(&[0x03, 0x00, detail.len() as u8]);
    v.extend_from_slice(detail.as_bytes());
    v
}

#[test]
fn control_reply_shape() {
    let m = control_reply(MessageType::JobAck, b"success".to_vec(), 1);
    assert_eq!(m.header.msg_type, MessageType::Control);
    assert_eq!(m.header.flags, 1);
    assert_eq!(m.tlvs.len(), 3);
    assert_eq!(m.tlvs[0].value, vec![1]);
    assert_eq!(m.tlvs[1].value, vec![0x02]);
    assert_eq!(m.tlvs[2].value, b"success".to_vec());
    assert_eq!(m.encode(), control_bytes(MessageType::JobAck, "success", 1));
}

#[test]
fn push_then_pull_over_frames() {
    let mut queue = ShardedQueue::new(4);
    let push = frame(MessageType::JobPush, b"job0");
    let out = handle_frame(&mut queue, &push);
    assert_eq!(out.reply.unwrap(), control_bytes(MessageType::JobAck, "success", 1));
    assert!(!out.checkpoint_due);
    assert_eq!(out.decode_error, None);

    let pushed = Message::decode(&push).unwrap();
    let key = compute_shard_key(&pushed, 4);
    assert_eq!(queue.pick_shard(key).len(), 1);

    let pull = frame(MessageType::JobAck, b"job0");
    let out = handle_frame(&mut queue, &pull);
    assert_eq!(out.reply.unwrap(), push);

    let out = handle_frame(&mut queue, &pull);
    assert_eq!(out.reply.unwrap(), control_bytes(MessageType::Control, "No message to pop", 0));
}

#[test]
fn undecodable_frame_gets_error_reply() {
    let mut queue = ShardedQueue::new(2);
    let out = handle_frame(&mut queue, b"hello");
    assert_eq!(out.decode_error, Some(ProtocolError::ShortHeader));
    assert_eq!(out.reply.unwrap(), control_bytes(MessageType::Control, "failed to decode", 0));
    let mut bad = frame(MessageType::JobPush, b"x");
    bad[0] = b'X';
    let out = handle_frame(&mut queue, &bad);
    assert_eq!(out.decode_error, Some(ProtocolError::BadMagic));
    assert_eq!(out.reply.unwrap(), control_bytes(MessageType::Control, "failed to decode", 0));
    assert!(queue.pop(0).is_none());
    assert!(queue.pop(1).is_none());
}

#[test]
fn other_types_get_no_reply() {
    let mut queue = ShardedQueue::new(2);
    let out = handle_frame(&mut queue, &frame(MessageType::JobStatus, b"k"));
    assert!(out.reply.is_none());
    assert!(!out.checkpoint_due);
    assert!(queue.pop(0).is_none());
    assert!(queue.pop(1).is_none());
}

#[test]
fn frame_pushes_schedule_checkpoint() {
    let mut queue = ShardedQueue::new(2);
    let push = frame(MessageType::JobPush, b"k");
    let mut due = 0;
    for _ in 0..101 {
        if handle_frame(&mut queue, &push).checkpoint_due {
            due += 1;
        }
    }
    assert_eq!(due, 1);
    assert!(READ_BUFFER_LEN >= push.len());
}

#[test]
fn submit_full_and_rejected() {
    let mut q: SubmissionQueue<u32> = SubmissionQueue::new(1);
    assert_eq!(q.submit(1), Ok(()));
    assert_eq!(q.submit(2), Ok(()));
    assert_eq!(q.submit(3), Err(SubmitError::Full));
    assert_eq!(q.len(), 2);
    q.initiate_shutdown();
    assert!(q.is_shutdown());
    assert_eq!(q.submit(4), Err(SubmitError::Rejected));
}

#[test]
fn workers_drain_then_exit() {
    let mut q: SubmissionQueue<u32> = SubmissionQueue::new(10);
    assert!(matches!(q.next_task(), WorkerStep::Wait));
    q.submit(1).unwrap();
    q.submit(2).unwrap();
    q.initiate_shutdown();
    assert!(matches!(q.next_task(), WorkerStep::Run(1)));
    assert!(matches!(q.next_task(), WorkerStep::Run(2)));
    assert!(matches!(q.next_task(), WorkerStep::Exit));
    assert!(matches!(q.next_task(), WorkerStep::Exit));
    assert_eq!(q.len(), 0);
}

#[test]
fn level_labels() {
    assert_eq!(Level::Info.label(), "INFO");
    assert_eq!(Level::Warn.label(), "Warn");
    assert_eq!(Level::Error.label(), "Error");
    assert_eq!(Level::Debug.label(), "Debug");
}
