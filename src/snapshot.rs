//! Snapshot files: each message as a little-endian u32 length and its encoding,
//! in queue order.
use vstd::prelude::*;

use std::collections::VecDeque;

use crate::protocol::{
    Message, MessageModel, lemma_message_bytes_len, message_bytes, normalized, storable,
};
use crate::wal::{
    all_stored, append_bytes, le32, le32_at, lemma_le32_round_trip, lemma_push_decoded_stored,
    models, push_decoded, push_le32, read_le32,
};

verus! {

/// The record of one message in a snapshot.
pub open spec fn snapshot_record(m: MessageModel) -> Seq<u8> {
    le32(message_bytes(m).len() as u32) + message_bytes(m)
}

/// The snapshot of a queue.
pub open spec fn snapshot_bytes(ms: Seq<MessageModel>) -> Seq<u8>
    decreases ms.len(),
{
    if ms.len() == 0 {
        Seq::empty()
    } else {
        snapshot_record(ms[0]) + snapshot_bytes(ms.drop_first())
    }
}

/// Length of the complete record at the start of `s`, if there is one.
pub open spec fn snap_record_len(s: Seq<u8>) -> Option<int> {
    if s.len() < 4 || s.len() < 4 + le32_at(s, 0) {
        None
    } else {
        Some(4 + le32_at(s, 0))
    }
}

/// The queue after the records of `s` are appended to `q`, up to the first
/// incomplete record; records that do not decode are passed over.
pub open spec fn load(q: Seq<MessageModel>, s: Seq<u8>) -> Seq<MessageModel>
    decreases s.len(),
{
    match snap_record_len(s) {
        Some(n) => if 0 < n <= s.len() {
            load(push_decoded(q, s.subrange(4, n)), s.subrange(n, s.len() as int))
        } else {
            q
        },
        None => q,
    }
}

pub proof fn lemma_snapshot_bytes_push(ms: Seq<MessageModel>, m: MessageModel)
    ensures
        snapshot_bytes(ms.push(m)) == snapshot_bytes(ms) + snapshot_record(m),
    decreases ms.len(),
{
    if ms.len() == 0 {
        let one = ms.push(m);
        assert(one.drop_first() =~= Seq::<MessageModel>::empty());
        assert(one[0] == m);
        assert(snapshot_bytes(one.drop_first()) == Seq::<u8>::empty());
        assert(snapshot_bytes(ms) == Seq::<u8>::empty());
        assert(snapshot_bytes(one) =~= snapshot_bytes(ms) + snapshot_record(m));
    } else {
        lemma_snapshot_bytes_push(ms.drop_first(), m);
        assert(ms.push(m).drop_first() =~= ms.drop_first().push(m));
        assert(snapshot_bytes(ms.push(m)) =~= snapshot_bytes(ms) + snapshot_record(m));
    }
}

pub proof fn lemma_normalized_cons(q: Seq<MessageModel>, ms: Seq<MessageModel>)
    requires
        ms.len() > 0,
    ensures
        q + ms.map_values(|m: MessageModel| normalized(m)) == q.push(normalized(ms[0]))
            + ms.drop_first().map_values(|m: MessageModel| normalized(m)),
{
    assert(q + ms.map_values(|m: MessageModel| normalized(m)) =~= q.push(normalized(ms[0]))
        + ms.drop_first().map_values(|m: MessageModel| normalized(m)));
}

/// Loading a record followed by more bytes applies the record's data, then
/// the rest.
pub proof fn lemma_load_record(q: Seq<MessageModel>, b: Seq<u8>, rest: Seq<u8>)
    requires
        b.len() <= u32::MAX,
    ensures
        load(q, le32(b.len() as u32) + b + rest) == load(push_decoded(q, b), rest),
{
    let s = le32(b.len() as u32) + b + rest;
    lemma_le32_round_trip(b.len() as u32);
    assert(le32_at(s, 0) == le32_at(le32(b.len() as u32), 0));
    assert(snap_record_len(s) == Some(4 + b.len() as int));
    assert(s.subrange(4, 4 + b.len() as int) =~= b);
    assert(s.subrange(4 + b.len() as int, s.len() as int) =~= rest);
}

/// Loading the snapshot of storable messages appends them, as decoding sees
/// them, in order.
pub proof fn lemma_load_snapshot(q: Seq<MessageModel>, ms: Seq<MessageModel>)
    requires
        forall|i: int| 0 <= i < ms.len() ==> storable(#[trigger] ms[i]),
    ensures
        load(q, snapshot_bytes(ms)) == q + ms.map_values(|m: MessageModel| normalized(m)),
    decreases ms.len(),
{
    if ms.len() == 0 {
        assert(q + ms.map_values(|m: MessageModel| normalized(m)) =~= q);
        assert(snap_record_len(Seq::<u8>::empty()) is None);
    } else {
        let m = ms[0];
        let rest = ms.drop_first();
        assert(storable(m));
        assert forall|i: int| 0 <= i < rest.len() implies storable(#[trigger] rest[i]) by {
            assert(rest[i] == ms[i + 1]);
        }
        let b = message_bytes(m);
        crate::wal::lemma_push_decoded_encoded(q, m);
        assert(snapshot_bytes(ms) == le32(b.len() as u32) + b + snapshot_bytes(rest));
        lemma_load_record(q, b, snapshot_bytes(rest));
        lemma_load_snapshot(q.push(normalized(m)), rest);
        lemma_normalized_cons(q, ms);
    }
}

/// Appends the snapshot of `queue` to `buf`.
pub fn encode_snapshot(queue: &VecDeque<Message>, buf: &mut Vec<u8>)
    requires
        forall|i: int| 0 <= i < queue@.len() ==> storable(#[trigger] queue@[i]@),
    ensures
        final(buf)@ == old(buf)@ + snapshot_bytes(models(queue@)),
{
    let ghost ms = models(queue@);
    let mut i: usize = 0;
    while i < queue.len()
        invariant
            i <= queue@.len(),
            ms == models(queue@),
            forall|j: int| 0 <= j < queue@.len() ==> storable(#[trigger] queue@[j]@),
            buf@ == old(buf)@ + snapshot_bytes(ms.take(i as int)),
        decreases queue@.len() - i,
    {
        let m = &queue[i];
        assert(storable(m@));
        assert(ms[i as int] == m@);
        let encoded = m.encode();
        proof {
            lemma_message_bytes_len(m@);
        }
        push_le32(buf, encoded.len() as u32);
        append_bytes(buf, encoded.as_slice());
        proof {
            lemma_snapshot_bytes_push(ms.take(i as int), m@);
            assert(ms.take(i + 1) =~= ms.take(i as int).push(m@));
        }
        i += 1;
        assert(buf@ =~= old(buf)@ + snapshot_bytes(ms.take(i as int)));
    }
    assert(ms.take(i as int) =~= ms);
}

/// Appends the messages of the snapshot `buf` to `queue`.
pub fn load_snapshot_onto(queue: &mut VecDeque<Message>, buf: &[u8])
    ensures
        models(final(queue)@) == load(models(old(queue)@), buf@),
{
    let ghost q0 = models(queue@);
    let n = buf.len();
    let mut off: usize = 0;
    assert(buf@.subrange(0, n as int) =~= buf@);
    while off < n
        invariant
            off <= n,
            n == buf@.len(),
            q0 == models(old(queue)@),
            load(q0, buf@) == load(models(queue@), buf@.subrange(off as int, n as int)),
        ensures
            load(models(queue@), buf@.subrange(off as int, n as int)) == models(queue@),
        decreases n - off,
    {
        let ghost s = buf@.subrange(off as int, n as int);
        let ghost before = models(queue@);
        if n - off < 4 {
            break;
        }
        let len = read_le32(buf, off) as usize;
        assert(le32_at(s, 0) == len) by {
            assert(s[0] == buf@[off as int]);
            assert(s[1] == buf@[off + 1]);
            assert(s[2] == buf@[off + 2]);
            assert(s[3] == buf@[off + 3]);
        }
        if n - off - 4 < len {
            break;
        }
        let data = &buf[off + 4..off + 4 + len];
        assert(data@ =~= s.subrange(4, 4 + len as int));
        match Message::decode(data) {
            Ok(m) => {
                queue.push_back(m);
                assert(models(queue@) =~= before.push(m@));
            },
            Err(_) => {},
        }
        assert(models(queue@) == push_decoded(before, s.subrange(4, 4 + len as int)));
        off = off + 4 + len;
        assert(s.subrange(4 + len as int, s.len() as int) =~= buf@.subrange(off as int, n as int));
    }

}

/// Loading only ever adds messages in stored form.
pub proof fn lemma_load_stored(q: Seq<MessageModel>, s: Seq<u8>)
    requires
        all_stored(q),
    ensures
        all_stored(load(q, s)),
    decreases s.len(),
{
    match snap_record_len(s) {
        Some(n) => {
            if 0 < n <= s.len() {
                lemma_push_decoded_stored(q, s.subrange(4, n));
                lemma_load_stored(push_decoded(q, s.subrange(4, n)), s.subrange(n, s.len() as int));
            }
        },
        None => {},
    }
}

} // verus!
