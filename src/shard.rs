//! One FIFO shard and the log that makes it durable.
use vstd::prelude::*;

use std::collections::VecDeque;

use crate::protocol::{Message, MessageModel, normalized, storable, stored_form};
use crate::snapshot::{
    encode_snapshot, lemma_load_snapshot, lemma_load_stored, load, load_snapshot_onto,
    snapshot_bytes,
};
use crate::wal::{
    WalOp, WalWriter, all_stored, append_bytes, drop_head, lemma_replay_append, lemma_replay_pop,
    lemma_replay_push, lemma_replay_stored, lemma_replayed_prefix, models, pop_record,
    push_record, push_records, replay, replay_wal_onto, replayed_len, wal_complete,
};

verus! {

/// The queue that a snapshot followed by a log rebuilds.
pub open spec fn recovered(snapshot: Seq<u8>, log: Seq<u8>) -> Seq<MessageModel> {
    replay(load(Seq::empty(), snapshot), log)
}

/// Each message as decoding its encoding gives it back.
pub open spec fn normalized_all(q: Seq<MessageModel>) -> Seq<MessageModel> {
    q.map_values(|m: MessageModel| normalized(m))
}

/// `k` POP records.
pub open spec fn pop_records(k: nat) -> Seq<u8>
    decreases k,
{
    if k == 0 {
        Seq::empty()
    } else {
        pop_records((k - 1) as nat) + pop_record()
    }
}

pub proof fn lemma_all_stored_normalized(q: Seq<MessageModel>)
    requires
        all_stored(q),
    ensures
        normalized_all(q) == q,
        forall|i: int| 0 <= i < q.len() ==> storable(#[trigger] q[i]),
{
    assert forall|i: int| 0 <= i < q.len() implies normalized_all(q)[i] == q[i] by {
        assert(stored_form(q[i]));
    }
    assert(normalized_all(q) =~= q);
    assert forall|i: int| 0 <= i < q.len() implies storable(#[trigger] q[i]) by {
        assert(stored_form(q[i]));
    }
}

pub proof fn lemma_take_push(a: Seq<MessageModel>, all: Seq<MessageModel>, k: int)
    requires
        0 <= k < all.len(),
    ensures
        a + all.take(k + 1) == (a + all.take(k)).push(all[k]),
{
    assert(a + all.take(k + 1) =~= (a + all.take(k)).push(all[k]));
}

pub proof fn lemma_push_records_take(log: Seq<u8>, all: Seq<MessageModel>, k: int)
    requires
        0 <= k < all.len(),
    ensures
        log + push_records(all.take(k + 1)) == log + push_records(all.take(k)) + push_record(
            all[k],
        ),
{
    assert(all.take(k + 1).drop_last() =~= all.take(k));
    assert(log + push_records(all.take(k + 1)) =~= log + push_records(all.take(k)) + push_record(
        all[k],
    ));
}

/// What a restart makes of a log of pushes of `m1 … mk` with no snapshot:
/// `m1 … mk` in order, as decoding sees them.
pub proof fn lemma_restart_after_pushes(ms: Seq<MessageModel>)
    requires
        forall|i: int| 0 <= i < ms.len() ==> storable(#[trigger] ms[i]),
    ensures
        recovered(Seq::empty(), push_records(ms)) == normalized_all(ms),
{
    assert(crate::snapshot::snap_record_len(Seq::<u8>::empty()) is None);
    assert(load(Seq::empty(), Seq::<u8>::empty()) == Seq::<MessageModel>::empty());
    crate::wal::lemma_recovery_after_pushes(Seq::empty(), ms);
    assert(Seq::<MessageModel>::empty() + normalized_all(ms) =~= normalized_all(ms));
}

/// A FIFO of messages with its write-ahead log.
///
/// Besides the queue, the shard keeps as ghost state the snapshot that its log
/// starts from, the messages taken by `try_pop` that the log still holds, and
/// every message pushed and taken.
pub struct Shard {
    queue: VecDeque<Message>,
    wal: WalWriter,
    id: usize,
    snapshot: Ghost<Seq<u8>>,
    unlogged: Ghost<Seq<MessageModel>>,
    pushed: Ghost<Seq<MessageModel>>,
    popped: Ghost<Seq<MessageModel>>,
}

impl Shard {
    /// The messages in the queue, head first.
    pub closed spec fn queue_model(&self) -> Seq<MessageModel> {
        models(self.queue@)
    }

    pub closed spec fn wal(&self) -> WalWriter {
        self.wal
    }

    pub closed spec fn spec_id(&self) -> usize {
        self.id
    }

    /// The snapshot that the log applies to.
    pub closed spec fn stored_snapshot(&self) -> Seq<u8> {
        self.snapshot@
    }

    /// Messages taken without a POP record that recovery would still bring
    /// back, ahead of the queue.
    pub closed spec fn unlogged(&self) -> Seq<MessageModel> {
        self.unlogged@
    }

    /// Every message this shard started with or was given, in order.
    pub closed spec fn pushed(&self) -> Seq<MessageModel> {
        self.pushed@
    }

    /// Every message taken from this shard, in order.
    pub closed spec fn popped(&self) -> Seq<MessageModel> {
        self.popped@
    }

    pub open spec fn wal_log(&self) -> Seq<u8> {
        self.wal().log()
    }

    pub open spec fn wf(&self) -> bool {
        &&& self.wal().inv()
        &&& wal_complete(self.wal_log())
        &&& forall|i: int|
            0 <= i < self.queue_model().len() ==> storable(#[trigger] self.queue_model()[i])
        &&& recovered(self.stored_snapshot(), self.wal_log()) == self.unlogged() + normalized_all(
            self.queue_model(),
        )
        &&& self.popped() + self.queue_model() == self.pushed()
    }

    /// Messages leave a shard in the order they entered it: what has been
    /// taken is a prefix of what has been pushed.
    pub proof fn lemma_fifo(&self)
        requires
            self.wf(),
        ensures
            self.popped().len() <= self.pushed().len(),
            self.popped() == self.pushed().take(self.popped().len() as int),
    {
        assert(self.pushed().take(self.popped().len() as int) =~= self.popped());
    }

    /// An empty shard with an empty log.
    pub fn new(id: usize) -> (r: Shard)
        ensures
            r.wf(),
            r.spec_id() == id,
            r.queue_model() == Seq::<MessageModel>::empty(),
            r.wal_log() == Seq::<u8>::empty(),
            r.stored_snapshot() == Seq::<u8>::empty(),
            r.unlogged() == Seq::<MessageModel>::empty(),
            r.pushed() == Seq::<MessageModel>::empty(),
            r.popped() == Seq::<MessageModel>::empty(),
    {
        let r = Shard {
            queue: VecDeque::new(),
            wal: WalWriter::new(Vec::new()),
            id,
            snapshot: Ghost(Seq::empty()),
            unlogged: Ghost(Seq::empty()),
            pushed: Ghost(Seq::empty()),
            popped: Ghost(Seq::empty()),
        };
        assert(r.queue_model() =~= Seq::<MessageModel>::empty());
        assert(normalized_all(r.queue_model()) =~= Seq::<MessageModel>::empty());
        assert(Seq::<MessageModel>::empty() + Seq::<MessageModel>::empty() =~= Seq::<
            MessageModel,
        >::empty());
        r
    }

    /// The shard that a snapshot and a log rebuild: the snapshot's messages,
    /// then the log's records applied in order. The log keeps its complete
    /// records; whatever follows them is dropped.
    pub fn recover(id: usize, snapshot: &[u8], wal: &[u8]) -> (r: Shard)
        ensures
            r.wf(),
            r.spec_id() == id,
            r.queue_model() == recovered(snapshot@, wal@),
            r.wal_log() == wal@.subrange(0, replayed_len(wal@)),
            r.stored_snapshot() == snapshot@,
            r.unlogged() == Seq::<MessageModel>::empty(),
            r.pushed() == r.queue_model(),
            r.popped() == Seq::<MessageModel>::empty(),
    {
        let mut queue: VecDeque<Message> = VecDeque::new();
        assert(models(queue@) =~= Seq::<MessageModel>::empty());
        load_snapshot_onto(&mut queue, snapshot);
        let consumed = replay_wal_onto(&mut queue, wal);
        proof {
            lemma_replayed_prefix(load(Seq::empty(), snapshot@), wal@);
            assert(all_stored(Seq::<MessageModel>::empty()));
            lemma_load_stored(Seq::empty(), snapshot@);
            lemma_replay_stored(load(Seq::empty(), snapshot@), wal@);
            lemma_all_stored_normalized(models(queue@));
        }
        let mut kept: Vec<u8> = Vec::new();
        append_bytes(&mut kept, &wal[0..consumed]);
        assert(kept@ =~= wal@.subrange(0, replayed_len(wal@)));
        let ghost q = models(queue@);
        let r = Shard {
            queue,
            wal: WalWriter::new(kept),
            id,
            snapshot: Ghost(snapshot@),
            unlogged: Ghost(Seq::empty()),
            pushed: Ghost(q),
            popped: Ghost(Seq::empty()),
        };
        assert(Seq::<MessageModel>::empty() + q =~= q);
        r
    }

    /// Logs a PUSH record for `msg`, then appends it to the tail. The message
    /// must be storable: a record that would not decode again could not be
    /// recovered.
    pub fn push(&mut self, msg: Message)
        requires
            old(self).wf(),
            storable(msg@),
        ensures
            final(self).wf(),
            final(self).spec_id() == old(self).spec_id(),
            final(self).queue_model() == old(self).queue_model().push(msg@),
            final(self).wal_log() == old(self).wal_log() + push_record(msg@),
            final(self).stored_snapshot() == old(self).stored_snapshot(),
            final(self).unlogged() == old(self).unlogged(),
            final(self).pushed() == old(self).pushed().push(msg@),
            final(self).popped() == old(self).popped(),
    {
        let ghost q = self.queue_model();
        let ghost log = self.wal_log();
        let encoded = msg.encode();
        proof {
            crate::protocol::lemma_message_bytes_len(msg@);
        }
        self.wal.append(WalOp::Push, Some(encoded.as_slice()));
        let ghost m = msg@;
        self.queue.push_back(msg);
        self.pushed = Ghost(self.pushed@.push(m));
        proof {
            assert(self.queue_model() =~= q.push(m));
            let base = load(Seq::empty(), self.snapshot@);
            lemma_replay_append(base, log, push_record(m));
            lemma_replay_push(replay(base, log), m);
            assert(self.unlogged@ + normalized_all(q.push(m)) =~= (self.unlogged@ + normalized_all(
                q,
            )).push(normalized(m)));
            assert(self.popped@ + q.push(m) =~= (self.popped@ + q).push(m));
            assert forall|i: int| 0 <= i < q.push(m).len() implies storable(
                #[trigger] q.push(m)[i],
            ) by {
                if i < q.len() {
                    assert(q.push(m)[i] == q[i]);
                }
            }
        }
    }

    /// Removes the head, if there is one, and logs a POP record for it.
    pub fn pop(&mut self) -> (r: Option<Message>)
        requires
            old(self).wf(),
        ensures
            final(self).wf(),
            final(self).spec_id() == old(self).spec_id(),
            final(self).stored_snapshot() == old(self).stored_snapshot(),
            final(self).pushed() == old(self).pushed(),
            old(self).queue_model().len() == 0 ==> {
                &&& r is None
                &&& final(self).queue_model() == old(self).queue_model()
                &&& final(self).wal_log() == old(self).wal_log()
                &&& final(self).unlogged() == old(self).unlogged()
                &&& final(self).popped() == old(self).popped()
            },
            old(self).queue_model().len() > 0 ==> {
                &&& r matches Some(m)
                &&& r->Some_0@ == old(self).queue_model()[0]
                &&& final(self).queue_model() == old(self).queue_model().drop_first()
                &&& final(self).wal_log() == old(self).wal_log() + pop_record()
                &&& final(self).popped() == old(self).popped().push(r->Some_0@)
            },
    {
        let ghost q = self.queue_model();
        let ghost log = self.wal_log();
        let ghost t = self.unlogged@;
        match self.queue.pop_front() {
            None => None,
            Some(m) => {
                self.wal.append(WalOp::Pop, None);
                assert(self.wal.log() =~= log + pop_record());
                let ghost x = m@;
                self.popped = Ghost(self.popped@.push(x));
                self.unlogged = Ghost(
                    if t.len() > 0 {
                        t.drop_first().push(normalized(x))
                    } else {
                        t
                    },
                );
                proof {
                    assert(self.queue_model() =~= q.drop_first());
                    let base = load(Seq::empty(), self.snapshot@);
                    lemma_replay_append(base, log, pop_record());
                    lemma_replay_pop(replay(base, log));
                    let nq = normalized_all(q);
                    assert(nq[0] == normalized(x));
                    assert(drop_head(t + nq) =~= self.unlogged@ + normalized_all(q.drop_first()));
                    assert(self.popped@ + q.drop_first() =~= self.popped@.drop_last() + q);
                    assert forall|i: int| 0 <= i < q.drop_first().len() implies storable(
                        #[trigger] q.drop_first()[i],
                    ) by {
                        assert(q.drop_first()[i] == q[i + 1]);
                    }
                    assert(self.wal().inv());
                    assert(wal_complete(self.wal_log()));
                    assert(recovered(self.stored_snapshot(), self.wal_log()) == self.unlogged()
                        + normalized_all(self.queue_model()));
                    assert(self.popped() + self.queue_model() == self.pushed());
                }
                Some(m)
            },
        }
    }

    /// Removes the head, if there is one, without logging it: recovery
    /// brings such a message back.
    pub fn try_pop(&mut self) -> (r: Option<Message>)
        requires
            old(self).wf(),
        ensures
            final(self).wf(),
            final(self).spec_id() == old(self).spec_id(),
            final(self).stored_snapshot() == old(self).stored_snapshot(),
            final(self).wal_log() == old(self).wal_log(),
            final(self).pushed() == old(self).pushed(),
            old(self).queue_model().len() == 0 ==> {
                &&& r is None
                &&& final(self).queue_model() == old(self).queue_model()
                &&& final(self).wal_log() == old(self).wal_log()
                &&& final(self).unlogged() == old(self).unlogged()
                &&& final(self).popped() == old(self).popped()
            },
            old(self).queue_model().len() > 0 ==> {
                &&& r matches Some(m)
                &&& r->Some_0@ == old(self).queue_model()[0]
                &&& final(self).queue_model() == old(self).queue_model().drop_first()
                &&& final(self).unlogged() == old(self).unlogged().push(normalized(r->Some_0@))
                &&& final(self).popped() == old(self).popped().push(r->Some_0@)
            },
    {
        let ghost q = self.queue_model();
        match self.queue.pop_front() {
            None => None,
            Some(m) => {
                let ghost x = m@;
                self.popped = Ghost(self.popped@.push(x));
                self.unlogged = Ghost(self.unlogged@.push(normalized(x)));
                proof {
                    assert(self.queue_model() =~= q.drop_first());
                    let nq = normalized_all(q);
                    assert(nq[0] == normalized(x));
                    assert(old(self).unlogged@ + nq =~= self.unlogged@ + normalized_all(
                        q.drop_first(),
                    ));
                    assert(self.popped@ + q.drop_first() =~= self.popped@.drop_last() + q);
                    assert forall|i: int| 0 <= i < q.drop_first().len() implies storable(
                        #[trigger] q.drop_first()[i],
                    ) by {
                        assert(q.drop_first()[i] == q[i + 1]);
                    }
                    assert(self.wal().inv());
                    assert(wal_complete(self.wal_log()));
                    assert(recovered(self.stored_snapshot(), self.wal_log()) == self.unlogged()
                        + normalized_all(self.queue_model()));
                    assert(self.popped() + self.queue_model() == self.pushed());
                }
                Some(m)
            },
        }
    }

    /// Pushes each message in order, then flushes the log once; an empty
    /// batch changes nothing.
    pub fn push_batch(&mut self, msgs: Vec<Message>)
        requires
            old(self).wf(),
            forall|i: int| 0 <= i < msgs@.len() ==> storable(#[trigger] msgs@[i]@),
        ensures
            final(self).wf(),
            final(self).spec_id() == old(self).spec_id(),
            final(self).queue_model() == old(self).queue_model() + models(msgs@),
            final(self).wal_log() == old(self).wal_log() + push_records(models(msgs@)),
            final(self).stored_snapshot() == old(self).stored_snapshot(),
            final(self).unlogged() == old(self).unlogged(),
            final(self).pushed() == old(self).pushed() + models(msgs@),
            final(self).popped() == old(self).popped(),
            msgs@.len() > 0 ==> final(self).wal().synced() == final(self).wal_log().len(),
    {
        if msgs.len() == 0 {
            assert(old(self).queue_model() + models(msgs@) =~= old(self).queue_model());
            assert(old(self).pushed() + models(msgs@) =~= old(self).pushed());
            assert(push_records(models(msgs@)) == Seq::<u8>::empty());
            assert(old(self).wal_log() + push_records(models(msgs@)) =~= old(self).wal_log());
            return;
        }
        let ghost all = models(msgs@);
        let total = msgs.len();
        let mut rest = msgs;
        let mut done: usize = 0;
        while rest.len() > 0
            invariant
                self.wf(),
                self.spec_id() == old(self).spec_id(),
                done <= all.len(),
                all.len() == total,
                rest@.len() == all.len() - done,
                forall|j: int| 0 <= j < rest@.len() ==> #[trigger] rest@[j]@ == all[done + j],
                forall|j: int| 0 <= j < all.len() ==> storable(#[trigger] all[j]),
                self.queue_model() == old(self).queue_model() + all.take(done as int),
                self.wal_log() == old(self).wal_log() + push_records(all.take(done as int)),
                self.stored_snapshot() == old(self).stored_snapshot(),
                self.unlogged() == old(self).unlogged(),
                self.pushed() == old(self).pushed() + all.take(done as int),
                self.popped() == old(self).popped(),
            decreases rest@.len(),
        {
            let ghost prev = rest@;
            assert(prev[0]@ == all[done as int]);
            let m = rest.remove(0);
            assert(storable(m@));
            self.push(m);
            proof {
                lemma_take_push(old(self).queue_model(), all, done as int);
                lemma_take_push(old(self).pushed(), all, done as int);
                lemma_push_records_take(old(self).wal_log(), all, done as int);
                assert forall|j: int| 0 <= j < rest@.len() implies #[trigger] rest@[j]@ == all[done + 1 + j] by {
                    assert(rest@[j] == prev[j + 1]);
                }
            }
            done = done + 1;
        }
        assert(all.take(done as int) =~= all);
        self.wal.flush();
    }

    /// Removes up to `max` messages from the head, logging a POP record for
    /// each.
    pub fn pop_batch(&mut self, max: usize) -> (r: Vec<Message>)
        requires
            old(self).wf(),
        ensures
            final(self).wf(),
            final(self).spec_id() == old(self).spec_id(),
            r@.len() == if max < old(self).queue_model().len() {
                max as int
            } else {
                old(self).queue_model().len() as int
            },
            models(r@) == old(self).queue_model().take(r@.len() as int),
            final(self).queue_model() == old(self).queue_model().skip(r@.len() as int),
            final(self).wal_log() == old(self).wal_log() + pop_records(r@.len()),
            final(self).stored_snapshot() == old(self).stored_snapshot(),
            final(self).pushed() == old(self).pushed(),
            final(self).popped() == old(self).popped() + models(r@),
    {
        let ghost q = self.queue_model();
        let mut batch: Vec<Message> = Vec::new();
        let mut i: usize = 0;
        while i < max
            invariant
                self.wf(),
                self.spec_id() == old(self).spec_id(),
                q == old(self).queue_model(),
                i <= max,
                batch@.len() == i,
                i <= q.len(),
                models(batch@) == q.take(i as int),
                self.queue_model() == q.skip(i as int),
                self.wal_log() == old(self).wal_log() + pop_records(i as nat),
                self.stored_snapshot() == old(self).stored_snapshot(),
                self.pushed() == old(self).pushed(),
                self.popped() == old(self).popped() + models(batch@),
            ensures
                batch@.len() == if max < q.len() {
                    max as int
                } else {
                    q.len() as int
                },
                self.wf(),
                self.spec_id() == old(self).spec_id(),
                models(batch@) == q.take(batch@.len() as int),
                self.queue_model() == q.skip(batch@.len() as int),
                self.wal_log() == old(self).wal_log() + pop_records(batch@.len()),
                self.stored_snapshot() == old(self).stored_snapshot(),
                self.pushed() == old(self).pushed(),
                self.popped() == old(self).popped() + models(batch@),
            decreases max - i,
        {
            let ghost before = batch@;
            match self.pop() {
                Some(m) => {
                    let ghost mm = m@;
                    batch.push(m);
                    proof {
                        assert(q.skip(i as int)[0] == q[i as int]);
                        assert(models(batch@) =~= models(before).push(mm));
                        assert(q.take(i + 1) =~= q.take(i as int).push(q[i as int]));
                        assert(q.skip(i as int).drop_first() =~= q.skip(i + 1));
                        assert(pop_records((i + 1) as nat) == pop_records(i as nat) + pop_record());
                        assert(old(self).popped() + models(batch@) =~= (old(self).popped()
                            + models(before)).push(mm));
                    }
                    i = i + 1;
                },
                None => {
                    assert(q.skip(i as int).len() == 0);
                    break;
                },
            }
        }
        batch
    }

    /// The snapshot of the current queue.
    pub fn snapshot_image(&self) -> (r: Vec<u8>)
        requires
            self.wf(),
        ensures
            r@ == snapshot_bytes(self.queue_model()),
            recovered(r@, Seq::empty()) == normalized_all(self.queue_model()),
    {
        let mut buf: Vec<u8> = Vec::new();
        assert forall|i: int| 0 <= i < self.queue@.len() implies storable(
            #[trigger] self.queue@[i]@,
        ) by {
            assert(self.queue_model()[i] == self.queue@[i]@);
        }
        encode_snapshot(&self.queue, &mut buf);
        assert(buf@ =~= snapshot_bytes(self.queue_model()));
        proof {
            lemma_load_snapshot(Seq::empty(), self.queue_model());
            assert(Seq::<MessageModel>::empty() + normalized_all(self.queue_model())
                =~= normalized_all(self.queue_model()));
        }
        buf
    }

    /// Records that the snapshot of the current queue is stored, and empties
    /// the log.
    pub fn complete_checkpoint(&mut self)
        requires
            old(self).wf(),
        ensures
            final(self).wf(),
            final(self).spec_id() == old(self).spec_id(),
            final(self).queue_model() == old(self).queue_model(),
            final(self).wal_log() == Seq::<u8>::empty(),
            final(self).stored_snapshot() == snapshot_bytes(old(self).queue_model()),
            final(self).unlogged() == Seq::<MessageModel>::empty(),
            final(self).pushed() == old(self).pushed(),
            final(self).popped() == old(self).popped(),
    {
        self.wal.truncate();
        self.snapshot = Ghost(snapshot_bytes(self.queue_model()));
        self.unlogged = Ghost(Seq::empty());
        proof {
            lemma_load_snapshot(Seq::empty(), self.queue_model());
            assert(Seq::<MessageModel>::empty() + normalized_all(self.queue_model())
                =~= normalized_all(self.queue_model()));
            assert(wal_complete(Seq::<u8>::empty()));
        }
    }

    /// Takes a checkpoint: returns the snapshot of the queue and empties the
    /// log, after which the snapshot alone rebuilds the queue.
    pub fn checkpoint(&mut self) -> (r: Vec<u8>)
        requires
            old(self).wf(),
        ensures
            final(self).wf(),
            final(self).spec_id() == old(self).spec_id(),
            r@ == snapshot_bytes(old(self).queue_model()),
            final(self).queue_model() == old(self).queue_model(),
            final(self).wal_log() == Seq::<u8>::empty(),
            final(self).stored_snapshot() == r@,
            recovered(r@, final(self).wal_log()) == normalized_all(final(self).queue_model()),
            final(self).pushed() == old(self).pushed(),
            final(self).popped() == old(self).popped(),
    {
        let image = self.snapshot_image();
        self.complete_checkpoint();
        image
    }

    /// Marks the whole log as to be forced to stable storage.
    pub fn flush_wal(&mut self)
        requires
            old(self).wf(),
        ensures
            final(self).wf(),
            final(self).spec_id() == old(self).spec_id(),
            final(self).queue_model() == old(self).queue_model(),
            final(self).wal_log() == old(self).wal_log(),
            final(self).wal().synced() == final(self).wal_log().len(),
            final(self).stored_snapshot() == old(self).stored_snapshot(),
            final(self).unlogged() == old(self).unlogged(),
            final(self).pushed() == old(self).pushed(),
            final(self).popped() == old(self).popped(),
    {
        self.wal.flush();
    }

    /// The bytes of the log.
    pub fn wal_contents(&self) -> (r: &[u8])
        ensures
            r@ == self.wal_log(),
    {
        self.wal.contents()
    }

    /// Length of the prefix of the log that the last flush covers.
    pub fn wal_synced_len(&self) -> (r: usize)
        ensures
            r == self.wal().synced(),
    {
        self.wal.synced_len()
    }

    pub fn id(&self) -> (r: usize)
        ensures
            r == self.spec_id(),
    {
        self.id
    }

    /// Number of queued messages.
    pub fn len(&self) -> (r: usize)
        ensures
            r == self.queue_model().len(),
    {
        self.queue.len()
    }

    /// The messages that the log `buf` leaves in a queue that starts empty.
    pub fn replay_wal(buf: &[u8]) -> (r: VecDeque<Message>)
        ensures
            models(r@) == replay(Seq::empty(), buf@),
    {
        let mut queue: VecDeque<Message> = VecDeque::new();
        assert(models(queue@) =~= Seq::<MessageModel>::empty());
        let _ = replay_wal_onto(&mut queue, buf);
        queue
    }

    /// The messages of the snapshot `buf`.
    pub fn load_snapshoot(buf: &[u8]) -> (r: VecDeque<Message>)
        ensures
            models(r@) == load(Seq::empty(), buf@),
    {
        let mut queue: VecDeque<Message> = VecDeque::new();
        assert(models(queue@) =~= Seq::<MessageModel>::empty());
        load_snapshot_onto(&mut queue, buf);
        queue
    }
}

} // verus!
