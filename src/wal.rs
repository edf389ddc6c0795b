//! Write-ahead log: records of queue mutations, and their replay.
//!
//! A record is an op byte, a little-endian u32 length, then that many bytes.
use vstd::prelude::*;

use std::collections::VecDeque;

use crate::protocol::{
    Message, MessageModel, lemma_decoded_stored, lemma_message_bytes_len, stored_form, lemma_round_trip, message_bytes, message_error, message_of, normalized,
    storable,
};

verus! {

/// Records handed to the writer between two flushes before it flushes by itself.
pub const WAL_BATCH_SIZE: usize = 100;

/// The mutation a record describes.
#[derive(Debug, Clone, Copy, PartialEq, Eq, Structural)]
pub enum WalOp {
    Push,
    Pop,
}

pub open spec fn op_code(op: WalOp) -> u8 {
    match op {
        WalOp::Push => 1,
        WalOp::Pop => 2,
    }
}

pub open spec fn op_of_code(b: u8) -> Option<WalOp> {
    if b == 1 {
        Some(WalOp::Push)
    } else if b == 2 {
        Some(WalOp::Pop)
    } else {
        None
    }
}

impl WalOp {
    pub fn from_byte(b: u8) -> (r: Option<WalOp>)
        ensures
            r == op_of_code(b),
    {
        match b {
            1 => Some(WalOp::Push),
            2 => Some(WalOp::Pop),
            _ => None,
        }
    }

    pub fn to_byte(&self) -> (r: u8)
        ensures
            r == op_code(*self),
    {
        match self {
            WalOp::Push => 1,
            WalOp::Pop => 2,
        }
    }
}

/// Little-endian bytes of a 32-bit value.
pub open spec fn le32(x: u32) -> Seq<u8> {
    seq![
        (x % 0x100) as u8,
        ((x / 0x100) % 0x100) as u8,
        ((x / 0x10000) % 0x100) as u8,
        (x / 0x1000000) as u8,
    ]
}

/// The 32-bit value read little-endian at offset `i`.
pub open spec fn le32_at(s: Seq<u8>, i: int) -> u32 {
    (s[i] + s[i + 1] * 0x100 + s[i + 2] * 0x10000 + s[i + 3] * 0x1000000) as u32
}

pub proof fn lemma_le32_round_trip(x: u32)
    ensures
        le32_at(le32(x), 0) == x,
{
}

/// Appends the little-endian bytes of `x` to `buf`.
pub fn push_le32(buf: &mut Vec<u8>, x: u32)
    ensures
        final(buf)@ == old(buf)@ + le32(x),
{
    buf.push((x % 0x100) as u8);
    buf.push(((x / 0x100) % 0x100) as u8);
    buf.push(((x / 0x10000) % 0x100) as u8);
    buf.push((x / 0x1000000) as u8);
    assert(final(buf)@ =~= old(buf)@ + le32(x));
}

/// Reads the little-endian 32-bit value at `i`.
pub fn read_le32(buf: &[u8], i: usize) -> (r: u32)
    requires
        i + 4 <= buf@.len(),
    ensures
        r == le32_at(buf@, i as int),
{
    (buf[i] as u32) + (buf[i + 1] as u32) * 0x100 + (buf[i + 2] as u32) * 0x10000 + (buf[i
        + 3] as u32) * 0x1000000
}

/// Appends `src` to `dst`.
pub fn append_bytes(dst: &mut Vec<u8>, src: &[u8])
    ensures
        final(dst)@ == old(dst)@ + src@,
{
    let mut i: usize = 0;
    while i < src.len()
        invariant
            i <= src@.len(),
            dst@ == old(dst)@ + src@.subrange(0, i as int),
        decreases src@.len() - i,
    {
        dst.push(src[i]);
        i += 1;
        assert(dst@ =~= old(dst)@ + src@.subrange(0, i as int));
    }
    assert(src@.subrange(0, i as int) =~= src@);
}

/// The bytes of one record.
pub open spec fn wal_record(op: WalOp, data: Seq<u8>) -> Seq<u8> {
    seq![op_code(op)] + le32(data.len() as u32) + data
}

/// Length of the complete record at the start of `s`; `None` where the bytes
/// end inside it or its op byte is unknown. A POP record is five bytes
/// whatever length it announces.
pub open spec fn record_len(s: Seq<u8>) -> Option<int> {
    if s.len() < 5 || op_of_code(s[0]) is None {
        None
    } else if op_of_code(s[0]) == Some(WalOp::Pop) {
        Some(5)
    } else if s.len() < 5 + le32_at(s, 1) {
        None
    } else {
        Some(5 + le32_at(s, 1))
    }
}

/// Appends `m` to `q` when `data` decodes to it; leaves `q` alone otherwise.
pub open spec fn push_decoded(q: Seq<MessageModel>, data: Seq<u8>) -> Seq<MessageModel> {
    if message_error(data) is None {
        q.push(message_of(data))
    } else {
        q
    }
}

/// Removes the head of `q`, if it has one.
pub open spec fn drop_head(q: Seq<MessageModel>) -> Seq<MessageModel> {
    if q.len() > 0 {
        q.drop_first()
    } else {
        q
    }
}

/// The queue after the complete record at the start of `s` is applied to `q`.
pub open spec fn apply_record(q: Seq<MessageModel>, s: Seq<u8>) -> Seq<MessageModel> {
    if op_of_code(s[0]) == Some(WalOp::Pop) {
        drop_head(q)
    } else {
        push_decoded(q, s.subrange(5, 5 + le32_at(s, 1)))
    }
}

/// The queue after the records of `s` are applied to `q` in order, up to the
/// first incomplete or unknown record.
pub open spec fn replay(q: Seq<MessageModel>, s: Seq<u8>) -> Seq<MessageModel>
    decreases s.len(),
{
    match record_len(s) {
        Some(n) => if 0 < n <= s.len() {
            replay(apply_record(q, s), s.subrange(n, s.len() as int))
        } else {
            q
        },
        None => q,
    }
}

/// Number of bytes taken by the complete records at the start of `s`.
pub open spec fn replayed_len(s: Seq<u8>) -> int
    decreases s.len(),
{
    match record_len(s) {
        Some(n) => if 0 < n <= s.len() {
            n + replayed_len(s.subrange(n, s.len() as int))
        } else {
            0
        },
        None => 0,
    }
}

/// `s` is a sequence of complete records with known ops.
pub open spec fn wal_complete(s: Seq<u8>) -> bool
    decreases s.len(),
{
    if s.len() == 0 {
        true
    } else {
        match record_len(s) {
            Some(n) => 0 < n <= s.len() && wal_complete(s.subrange(n, s.len() as int)),
            None => false,
        }
    }
}

/// A complete record keeps its length and effect whatever follows it.
pub proof fn lemma_record_prefix(s: Seq<u8>, t: Seq<u8>)
    requires
        record_len(s) is Some,
    ensures
        record_len(s + t) == record_len(s),
        forall|q: Seq<MessageModel>| apply_record(q, s + t) == apply_record(q, s),
{
    let u = s + t;
    assert(u[0] == s[0]);
    assert(le32_at(u, 1) == le32_at(s, 1));
    if op_of_code(s[0]) == Some(WalOp::Push) {
        assert(u.subrange(5, 5 + le32_at(s, 1)) =~= s.subrange(5, 5 + le32_at(s, 1)));
    }
}

/// Replaying a complete log and then more bytes is replaying them in turn.
pub proof fn lemma_replay_append(q: Seq<MessageModel>, a: Seq<u8>, b: Seq<u8>)
    requires
        wal_complete(a),
    ensures
        replay(q, a + b) == replay(replay(q, a), b),
        wal_complete(b) ==> wal_complete(a + b),
    decreases a.len(),
{
    if a.len() == 0 {
        assert(a + b =~= b);
    } else {
        let n = record_len(a)->Some_0;
        lemma_record_prefix(a, b);
        let rest = a.subrange(n, a.len() as int);
        assert((a + b).subrange(n, (a + b).len() as int) =~= rest + b);
        lemma_replay_append(apply_record(q, a), rest, b);
    }
}

/// Replay stops where the complete records stop.
pub proof fn lemma_replayed_prefix(q: Seq<MessageModel>, s: Seq<u8>)
    ensures
        0 <= replayed_len(s) <= s.len(),
        wal_complete(s.subrange(0, replayed_len(s))),
        replay(q, s.subrange(0, replayed_len(s))) == replay(q, s),
    decreases s.len(),
{
    let k = replayed_len(s);
    match record_len(s) {
        Some(n) => {
            if 0 < n <= s.len() {
                let rest = s.subrange(n, s.len() as int);
                lemma_replayed_prefix(apply_record(q, s), rest);
                let p = s.subrange(0, k);
                let head = s.subrange(0, n);
                let tail = rest.subrange(0, replayed_len(rest));
                assert(p =~= head + tail);
                assert(head + rest =~= s);
                lemma_record_prefix_of(s, n);
                lemma_record_prefix(head, tail);
                assert(p.subrange(n, p.len() as int) =~= tail);
                assert(p.len() > 0);
            } else {
                assert(s.subrange(0, 0) =~= Seq::<u8>::empty());
            }
        },
        None => {
            assert(s.subrange(0, 0) =~= Seq::<u8>::empty());
        },
    }
}

/// The complete record at the start of `s` is also complete on its own.
pub proof fn lemma_record_prefix_of(s: Seq<u8>, n: int)
    requires
        record_len(s) == Some(n),
    ensures
        record_len(s.subrange(0, n)) == Some(n),
        forall|q: Seq<MessageModel>| apply_record(q, s.subrange(0, n)) == apply_record(q, s),
{
    let h = s.subrange(0, n);
    assert(h[0] == s[0]);
    assert(le32_at(h, 1) == le32_at(s, 1));
    if op_of_code(s[0]) == Some(WalOp::Push) {
        assert(h.subrange(5, 5 + le32_at(s, 1)) =~= s.subrange(5, 5 + le32_at(s, 1)));
    }
}

/// The models of a queue of messages.
pub open spec fn models(q: Seq<Message>) -> Seq<MessageModel> {
    q.map_values(|m: Message| m@)
}

/// The log as written so far, the prefix of it that a flush covers, and the
/// records handed over since the last flush.
///
/// The owner mirrors the bytes into storage: it appends what is new and forces
/// it to stable storage whenever the flushed prefix grows.
pub struct WalWriter {
    log: Vec<u8>,
    synced: usize,
    entries_since_flush: usize,
}

impl WalWriter {
    /// Every byte of the log, in order.
    pub closed spec fn log(&self) -> Seq<u8> {
        self.log@
    }

    /// Length of the prefix that the last flush covers.
    pub closed spec fn synced(&self) -> nat {
        self.synced as nat
    }

    /// Records appended since the last flush.
    pub closed spec fn pending(&self) -> nat {
        self.entries_since_flush as nat
    }

    pub open spec fn inv(&self) -> bool {
        &&& self.synced() <= self.log().len()
        &&& self.pending() <= WAL_BATCH_SIZE
    }

    /// A writer over a log that already holds `existing`, all of it stored.
    pub fn new(existing: Vec<u8>) -> (r: WalWriter)
        ensures
            r.inv(),
            r.log() == existing@,
            r.synced() == existing@.len(),
            r.pending() == 0,
    {
        let synced = existing.len();
        WalWriter { log: existing, synced, entries_since_flush: 0 }
    }

    /// Appends one record; flushes once more than `WAL_BATCH_SIZE` records
    /// are waiting.
    pub fn append(&mut self, op: WalOp, data: Option<&[u8]>)
        requires
            old(self).inv(),
            data matches Some(d) ==> d@.len() <= u32::MAX,
        ensures
            final(self).inv(),
            final(self).log() == old(self).log() + wal_record(
                op,
                match data {
                    Some(d) => d@,
                    None => Seq::empty(),
                },
            ),
            old(self).pending() + 1 > WAL_BATCH_SIZE ==> final(self).pending() == 0
                && final(self).synced() == final(self).log().len(),
            old(self).pending() + 1 <= WAL_BATCH_SIZE ==> final(self).pending() == old(
                self,
            ).pending() + 1 && final(self).synced() == old(self).synced(),
    {
        let ghost d: Seq<u8> = match data {
            Some(d) => d@,
            None => Seq::empty(),
        };
        self.log.push(op.to_byte());
        match data {
            Some(d) => {
                push_le32(&mut self.log, d.len() as u32);
                append_bytes(&mut self.log, d);
            },
            None => {
                push_le32(&mut self.log, 0);
            },
        }
        assert(self.log@ =~= old(self).log() + wal_record(op, d));
        self.entries_since_flush = self.entries_since_flush + 1;
        if self.entries_since_flush > WAL_BATCH_SIZE {
            self.synced = self.log.len();
            self.entries_since_flush = 0;
        }
    }

    /// Marks everything written so far as to be forced to stable storage.
    pub fn flush(&mut self)
        requires
            old(self).inv(),
        ensures
            final(self).inv(),
            final(self).log() == old(self).log(),
            final(self).synced() == old(self).log().len(),
            final(self).pending() == 0,
    {
        self.synced = self.log.len();
        self.entries_since_flush = 0;
    }

    /// Empties the log.
    pub fn truncate(&mut self)
        ensures
            final(self).inv(),
            final(self).log() == Seq::<u8>::empty(),
            final(self).synced() == 0,
            final(self).pending() == 0,
    {
        self.log = Vec::new();
        self.synced = 0;
        self.entries_since_flush = 0;
    }

    /// The bytes of the log.
    pub fn contents(&self) -> (r: &[u8])
        ensures
            r@ == self.log(),
    {
        self.log.as_slice()
    }

    /// Length of the prefix that the last flush covers.
    pub fn synced_len(&self) -> (r: usize)
        ensures
            r == self.synced(),
    {
        self.synced
    }

    /// Records appended since the last flush.
    pub fn entries_since_flush(&self) -> (r: usize)
        ensures
            r == self.pending(),
    {
        self.entries_since_flush
    }
}

/// Applies the records of `buf` to `queue` in order, up to the first incomplete
/// or unknown record, and returns the number of bytes they take.
pub fn replay_wal_onto(queue: &mut VecDeque<Message>, buf: &[u8]) -> (consumed: usize)
    ensures
        models(final(queue)@) == replay(models(old(queue)@), buf@),
        consumed == replayed_len(buf@),
{
    let ghost q0 = models(queue@);
    let n = buf.len();
    let mut off: usize = 0;
    assert(buf@.subrange(0, n as int) =~= buf@);
    while off < n
        invariant
            off <= n,
            n == buf@.len(),
            q0 == models(old(queue)@),
            replay(q0, buf@) == replay(models(queue@), buf@.subrange(off as int, n as int)),
            replayed_len(buf@) == off + replayed_len(buf@.subrange(off as int, n as int)),
        ensures
            replay(models(queue@), buf@.subrange(off as int, n as int)) == models(queue@),
            replayed_len(buf@.subrange(off as int, n as int)) == 0,
        decreases n - off,
    {
        let ghost s = buf@.subrange(off as int, n as int);
        let ghost before = models(queue@);
        if n - off < 5 {
            break;
        }
        assert(s[0] == buf@[off as int]);
        let op = WalOp::from_byte(buf[off]);
        match op {
            None => {
                break;
            },
            Some(WalOp::Pop) => {
                let _ = queue.pop_front();
                assert(models(queue@) =~= apply_record(before, s));
                off = off + 5;
                assert(s.subrange(5, s.len() as int) =~= buf@.subrange(off as int, n as int));
            },
            Some(WalOp::Push) => {
                let len = read_le32(buf, off + 1) as usize;
                assert(le32_at(s, 1) == len) by {
                    assert(s[1] == buf@[off + 1]);
                    assert(s[2] == buf@[off + 2]);
                    assert(s[3] == buf@[off + 3]);
                    assert(s[4] == buf@[off + 4]);
                }
                if n - off - 5 < len {
                    break;
                }
                let data = &buf[off + 5..off + 5 + len];
                assert(data@ =~= s.subrange(5, 5 + len as int));
                match Message::decode(data) {
                    Ok(m) => {
                        queue.push_back(m);
                        assert(models(queue@) =~= before.push(m@));
                    },
                    Err(_) => {},
                }
                assert(models(queue@) == apply_record(before, s));
                off = off + 5 + len;
                assert(s.subrange(5 + len as int, s.len() as int) =~= buf@.subrange(
                    off as int,
                    n as int,
                ));
            },
        }
    }
    assert(buf@.subrange(off as int, n as int).len() == 0 ==> replay(
        models(queue@),
        buf@.subrange(off as int, n as int),
    ) == models(queue@));
    off
}

/// The record that logs a push of `m`.
pub open spec fn push_record(m: MessageModel) -> Seq<u8> {
    wal_record(WalOp::Push, message_bytes(m))
}

/// The record that logs a pop.
pub open spec fn pop_record() -> Seq<u8> {
    wal_record(WalOp::Pop, Seq::empty())
}

/// The records that log pushes of `ms`, in order.
pub open spec fn push_records(ms: Seq<MessageModel>) -> Seq<u8>
    decreases ms.len(),
{
    if ms.len() == 0 {
        Seq::empty()
    } else {
        push_records(ms.drop_last()) + push_record(ms.last())
    }
}

/// Replaying one PUSH record applies its data to the queue.
pub proof fn lemma_replay_push_record(q: Seq<MessageModel>, d: Seq<u8>)
    requires
        d.len() <= u32::MAX,
    ensures
        wal_complete(wal_record(WalOp::Push, d)),
        replay(q, wal_record(WalOp::Push, d)) == push_decoded(q, d),
{
    let s = wal_record(WalOp::Push, d);
    lemma_le32_round_trip(d.len() as u32);
    assert(le32_at(s, 1) == le32_at(le32(d.len() as u32), 0));
    assert(record_len(s) == Some(s.len() as int));
    assert(s.subrange(5, 5 + le32_at(s, 1)) =~= d);
    let rest = s.subrange(s.len() as int, s.len() as int);
    assert(rest =~= Seq::<u8>::empty());
    assert(wal_complete(rest));
    assert(replay(push_decoded(q, d), rest) == push_decoded(q, d));
}

/// The encoding of a storable message fits a 4-byte length and decodes to
/// the message with its payload length recomputed.
pub proof fn lemma_push_decoded_encoded(q: Seq<MessageModel>, m: MessageModel)
    requires
        storable(m),
    ensures
        message_bytes(m).len() <= u32::MAX,
        push_decoded(q, message_bytes(m)) == q.push(normalized(m)),
{
    let b = message_bytes(m);
    lemma_round_trip(m, Seq::empty());
    assert(b + Seq::<u8>::empty() =~= b);
    lemma_message_bytes_len(m);
}

/// Replaying the record of a push appends the message, as decoding sees it.
pub proof fn lemma_replay_push(q: Seq<MessageModel>, m: MessageModel)
    requires
        storable(m),
    ensures
        wal_complete(push_record(m)),
        replay(q, push_record(m)) == q.push(normalized(m)),
{
    lemma_push_decoded_encoded(q, m);
    lemma_replay_push_record(q, message_bytes(m));
}

/// Replaying the record of a pop drops the head, if there is one.
pub proof fn lemma_replay_pop(q: Seq<MessageModel>)
    ensures
        wal_complete(pop_record()),
        replay(q, pop_record()) == drop_head(q),
{
    let s = pop_record();
    assert(record_len(s) == Some(5int));
    let rest = s.subrange(5, 5);
    assert(rest =~= Seq::<u8>::empty());
    assert(wal_complete(rest));
    assert(replay(drop_head(q), rest) == drop_head(q));
}

/// After pushes of `m1 … mk` logged onto a queue, replay yields the queue
/// followed by `m1 … mk` in order.
pub proof fn lemma_recovery_after_pushes(q: Seq<MessageModel>, ms: Seq<MessageModel>)
    requires
        forall|i: int| 0 <= i < ms.len() ==> storable(#[trigger] ms[i]),
    ensures
        wal_complete(push_records(ms)),
        replay(q, push_records(ms)) == q + ms.map_values(|m: MessageModel| normalized(m)),
    decreases ms.len(),
{
    if ms.len() == 0 {
        assert(q + ms.map_values(|m: MessageModel| normalized(m)) =~= q);
    } else {
        let init = ms.drop_last();
        assert forall|i: int| 0 <= i < init.len() implies storable(#[trigger] init[i]) by {
            assert(init[i] == ms[i]);
        }
        lemma_recovery_after_pushes(q, init);
        assert(storable(ms[ms.len() - 1]));
        lemma_replay_push(replay(q, push_records(init)), ms.last());
        lemma_replay_append(q, push_records(init), push_record(ms.last()));
        assert(q + ms.map_values(|m: MessageModel| normalized(m)) =~= (q + init.map_values(
            |m: MessageModel| normalized(m),
        )).push(normalized(ms.last())));
    }
}

/// Every message of `q` is in stored form.
pub open spec fn all_stored(q: Seq<MessageModel>) -> bool {
    forall|i: int| 0 <= i < q.len() ==> stored_form(#[trigger] q[i])
}

pub proof fn lemma_push_decoded_stored(q: Seq<MessageModel>, d: Seq<u8>)
    requires
        all_stored(q),
        d.len() <= u32::MAX,
    ensures
        all_stored(push_decoded(q, d)),
{
    if message_error(d) is None {
        lemma_decoded_stored(d);
        let r = q.push(message_of(d));
        assert forall|i: int| 0 <= i < r.len() implies stored_form(#[trigger] r[i]) by {
            if i < q.len() {
                assert(r[i] == q[i]);
            }
        }
    }
}

/// Replay only ever adds messages in stored form.
pub proof fn lemma_replay_stored(q: Seq<MessageModel>, s: Seq<u8>)
    requires
        all_stored(q),
    ensures
        all_stored(replay(q, s)),
    decreases s.len(),
{
    match record_len(s) {
        Some(n) => {
            if 0 < n <= s.len() {
                let q2 = apply_record(q, s);
                if op_of_code(s[0]) == Some(WalOp::Pop) {
                    if q.len() > 0 {
                        assert forall|i: int| 0 <= i < q2.len() implies stored_form(
                            #[trigger] q2[i],
                        ) by {
                            assert(q2[i] == q[i + 1]);
                        }
                    }
                } else {
                    lemma_push_decoded_stored(q, s.subrange(5, 5 + le32_at(s, 1)));
                }
                lemma_replay_stored(q2, s.subrange(n, s.len() as int));
            }
        },
        None => {},
    }
}

} // verus!
