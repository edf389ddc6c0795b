//! What a connection does with one frame it has read: decode, route, and
//! build the reply.
use vstd::prelude::*;

use crate::protocol::{
    Header, HeaderModel, MAGIC, Message, MessageModel, MessageType, ProtocolError, Tlv, TlvModel,
    VERSION,
    MAX_TLV_VALUE, lemma_decoded_stored, magic_bytes, tlvs_bytes, message_bytes, message_error, message_of, storable,
    type_code,
};
use crate::sharded::{ShardedQueue, compute_shard_key, shard_key_of};
use crate::wal::push_record;

verus! {

/// Largest number of bytes read from a connection at once.
pub const READ_BUFFER_LEN: usize = 4092;

/// Detail text of the reply to a frame that does not decode: "failed to decode".
pub open spec fn decode_failed_text() -> Seq<u8> {
    seq![0x66u8, 0x61, 0x69, 0x6c, 0x65, 0x64, 0x20, 0x74, 0x6f, 0x20, 0x64, 0x65, 0x63, 0x6f, 0x64, 0x65]
}

/// Detail text of the reply to an accepted push: "success".
pub open spec fn success_text() -> Seq<u8> {
    seq![0x73u8, 0x75, 0x63, 0x63, 0x65, 0x73, 0x73]
}

/// Detail text of the reply to a pull from an empty shard: "No message to pop".
pub open spec fn nothing_to_pop_text() -> Seq<u8> {
    seq![0x4eu8, 0x6f, 0x20, 0x6d, 0x65, 0x73, 0x73, 0x61, 0x67, 0x65, 0x20, 0x74, 0x6f, 0x20, 0x70, 0x6f, 0x70]
}

fn decode_failed_bytes() -> (r: Vec<u8>)
    ensures
        r@ == decode_failed_text(),
{
    let r = vec![0x66u8, 0x61, 0x69, 0x6c, 0x65, 0x64, 0x20, 0x74, 0x6f, 0x20, 0x64, 0x65, 0x63, 0x6f, 0x64, 0x65];
    assert(r@ =~= decode_failed_text());
    r
}

fn success_bytes() -> (r: Vec<u8>)
    ensures
        r@ == success_text(),
{
    let r = vec![0x73u8, 0x75, 0x63, 0x63, 0x65, 0x73, 0x73];
    assert(r@ =~= success_text());
    r
}

fn nothing_to_pop_bytes() -> (r: Vec<u8>)
    ensures
        r@ == nothing_to_pop_text(),
{
    let r = vec![0x4eu8, 0x6f, 0x20, 0x6d, 0x65, 0x73, 0x73, 0x61, 0x67, 0x65, 0x20, 0x74, 0x6f, 0x20, 0x70, 0x6f, 0x70];
    assert(r@ =~= nothing_to_pop_text());
    r
}

/// A control reply: status in the flags and in the first field, the type that
/// was dispatched in the second, the detail text in the third.
pub open spec fn control_model(dispatched: MessageType, detail: Seq<u8>, status: u16) -> MessageModel {
    MessageModel {
        header: HeaderModel {
            magic: magic_bytes(),
            version: VERSION,
            msg_type: MessageType::Control,
            flags: status,
            payload_len: 0,
        },
        tlvs: seq![
            TlvModel { tag: 0x01, value: seq![status as u8] },
            TlvModel { tag: 0x02, value: seq![type_code(dispatched)] },
            TlvModel { tag: 0x03, value: detail },
        ],
    }
}

/// Builds a control reply.
pub fn control_reply(dispatched: MessageType, detail: Vec<u8>, status: u16) -> (r: Message)
    ensures
        r@ == control_model(dispatched, detail@, status),
{
    let r = Message {
        header: Header {
            magic: MAGIC,
            version: VERSION,
            msg_type: MessageType::Control,
            flags: status,
            payload_len: 0,
        },
        tlvs: vec![
            Tlv { tag: 0x01, value: vec![status as u8] },
            Tlv { tag: 0x02, value: vec![dispatched.to_u8()] },
            Tlv { tag: 0x03, value: detail },
        ],
    };
    assert(r.header.magic@ =~= magic_bytes());
    assert(r.tlvs@[0].value@ =~= seq![status as u8]);
    assert(r.tlvs@[1].value@ =~= seq![type_code(dispatched)]);
    assert(r@.tlvs =~= control_model(dispatched, detail@, status).tlvs);
    r
}

/// What answering one frame produced.
pub struct FrameOutcome {
    /// The bytes to write back, if any.
    pub reply: Option<Vec<u8>>,
    /// A background checkpoint is now due.
    pub checkpoint_due: bool,
    /// Why the frame did not decode, if it did not.
    pub decode_error: Option<ProtocolError>,
}

/// A control reply with a short detail encodes within every limit.
pub proof fn lemma_control_storable(dispatched: MessageType, detail: Seq<u8>, status: u16)
    requires
        detail.len() <= 64,
    ensures
        storable(control_model(dispatched, detail, status)),
{
    let m = control_model(dispatched, detail, status);
    let ts = m.tlvs;
    assert(ts.drop_first().drop_first().drop_first() =~= Seq::<TlvModel>::empty());
    assert(ts.drop_first()[0] == ts[1]);
    assert(ts.drop_first().drop_first()[0] == ts[2]);
    let ts1 = ts.drop_first();
    let ts2 = ts1.drop_first();
    let ts3 = ts2.drop_first();
    assert(tlvs_bytes(ts3) == Seq::<u8>::empty());
    assert(tlvs_bytes(ts2).len() == 3 + detail.len());
    assert(tlvs_bytes(ts1).len() == 4 + 3 + detail.len());
    assert(tlvs_bytes(ts).len() == 4 + 4 + 3 + detail.len());
    assert forall|i: int| 0 <= i < ts.len() implies #[trigger] ts[i].value.len()
        <= MAX_TLV_VALUE by {}
}

/// Answers one frame read from a connection: a frame that does not decode
/// gets a control error; a push is routed by its first field and acknowledged;
/// a pull takes the head of the shard its first field selects and returns it,
/// or a control error when that shard is empty; any other type gets no answer.
pub fn handle_frame(queue: &mut ShardedQueue, buf: &[u8]) -> (r: FrameOutcome)
    requires
        old(queue).wf(),
        buf@.len() <= READ_BUFFER_LEN,
    ensures
        final(queue).wf(),
        r.decode_error == message_error(buf@),
        message_error(buf@) is Some ==> {
            &&& r.reply matches Some(v) && v@ == message_bytes(
                control_model(MessageType::Control, decode_failed_text(), 0),
            )
            &&& !r.checkpoint_due
            &&& final(queue).others_unchanged(old(queue), -1)
            &&& final(queue).counter() == old(queue).counter()
            &&& final(queue).running() == old(queue).running()
        },
        message_error(buf@) is None ==> ({
            let m = message_of(buf@);
            let k = shard_key_of(m, old(queue).spec_shard_count()) as int;
            let q = old(queue).shard(k).queue_model();
            let s = final(queue).shard(k);
            if m.header.msg_type == MessageType::JobPush {
                &&& r.reply matches Some(v) && v@ == message_bytes(
                    control_model(MessageType::JobAck, success_text(), 1),
                )
                &&& final(queue).scheduled(old(queue), r.checkpoint_due)
                &&& final(queue).others_unchanged(old(queue), k)
                &&& s.queue_model() == q.push(m)
                &&& s.wal_log() == old(queue).shard(k).wal_log() + push_record(m)
            } else if m.header.msg_type == MessageType::JobAck {
                &&& !r.checkpoint_due
                &&& final(queue).others_unchanged(old(queue), k)
                &&& final(queue).counter() == old(queue).counter()
                &&& final(queue).running() == old(queue).running()
                &&& q.len() == 0 ==> (r.reply matches Some(v) && v@ == message_bytes(
                    control_model(MessageType::Control, nothing_to_pop_text(), 0),
                ) && s.queue_model() == q)
                &&& q.len() > 0 ==> (r.reply matches Some(v) && v@ == message_bytes(q[0])
                    && s.queue_model() == q.drop_first())
            } else {
                &&& r.reply is None
                &&& !r.checkpoint_due
                &&& final(queue).others_unchanged(old(queue), -1)
                &&& final(queue).counter() == old(queue).counter()
                &&& final(queue).running() == old(queue).running()
            }
        }),
{
    let msg = match Message::decode(buf) {
        Ok(m) => m,
        Err(e) => {
            let reply = control_reply(MessageType::Control, decode_failed_bytes(), 0);
            proof {
                lemma_control_storable(MessageType::Control, decode_failed_text(), 0);
            }
            return FrameOutcome {
                reply: Some(reply.encode()),
                checkpoint_due: false,
                decode_error: Some(e),
            };
        },
    };
    proof {
        lemma_decoded_stored(buf@);
    }
    let count = queue.shard_count();
    match msg.header.msg_type {
        MessageType::JobPush => {
            let key = compute_shard_key(&msg, count);
            assert(key % count == key) by (nonlinear_arith)
                requires
                    key < count,
            ;
            let due = queue.push(key, msg);
            let reply = control_reply(MessageType::JobAck, success_bytes(), 1);
            proof {
                lemma_control_storable(MessageType::JobAck, success_text(), 1);
            }
            FrameOutcome { reply: Some(reply.encode()), checkpoint_due: due, decode_error: None }
        },
        MessageType::JobAck => {
            let key = compute_shard_key(&msg, count);
            assert(key % count == key) by (nonlinear_arith)
                requires
                    key < count,
            ;
            assert(queue.shard(key as int).wf());
            let ghost q = queue.shard(key as int).queue_model();
            match queue.pop(key) {
                Some(m) => {
                    assert(storable(q[0]));
                    FrameOutcome { reply: Some(m.encode()), checkpoint_due: false, decode_error: None }
                },
                None => {
                    let reply = control_reply(MessageType::Control, nothing_to_pop_bytes(), 0);
                    proof {
                        lemma_control_storable(MessageType::Control, nothing_to_pop_text(), 0);
                    }
                    FrameOutcome { reply: Some(reply.encode()), checkpoint_due: false, decode_error: None }
                },
            }
        },
        _ => FrameOutcome { reply: None, checkpoint_due: false, decode_error: None },
    }
}

} // verus!
