//! A fixed set of shards, message routing, and checkpoint scheduling.
use vstd::prelude::*;

use crate::protocol::{Message, MessageModel, storable};
use crate::shard::{Shard, pop_records};
use crate::snapshot::snapshot_bytes;
use crate::wal::{models, pop_record, push_record, push_records};

verus! {

/// Pushes, counted per call, after which a background checkpoint is due.
pub const CHECKPOINT_THRESHOLD: usize = 100;

/// `h = h * 31 + b` over the bytes, wrapping at the machine word.
pub open spec fn rolling_hash(s: Seq<u8>) -> usize
    decreases s.len(),
{
    if s.len() == 0 {
        0
    } else {
        rolling_hash(s.drop_last()).wrapping_mul(31).wrapping_add(s.last() as usize)
    }
}

/// The value bytes of the first field, if there is one.
pub open spec fn first_value(m: MessageModel) -> Option<Seq<u8>> {
    if m.tlvs.len() == 0 {
        None
    } else {
        Some(m.tlvs[0].value)
    }
}

/// The shard a message routes to among `n`.
pub open spec fn shard_key_of(m: MessageModel, n: usize) -> usize {
    match first_value(m) {
        Some(v) => (rolling_hash(v) % n) as usize,
        None => 0,
    }
}

/// Messages whose first fields hold the same bytes route to the same shard.
pub proof fn lemma_routing_deterministic(m1: MessageModel, m2: MessageModel, n: usize)
    requires
        n > 0,
        first_value(m1) == first_value(m2),
    ensures
        shard_key_of(m1, n) == shard_key_of(m2, n),
{
}

/// The shard among `shard_count` that `msg` routes to.
pub fn compute_shard_key(msg: &Message, shard_count: usize) -> (r: usize)
    requires
        shard_count > 0,
    ensures
        r == shard_key_of(msg@, shard_count),
        r < shard_count,
{
    if msg.tlvs.len() == 0 {
        return 0;
    }
    let value = &msg.tlvs[0].value;
    assert(value@ == msg@.tlvs[0].value);
    let mut hash: usize = 0;
    let mut i: usize = 0;
    while i < value.len()
        invariant
            i <= value@.len(),
            hash == rolling_hash(value@.take(i as int)),
        decreases value@.len() - i,
    {
        assert(value@.take(i + 1).drop_last() =~= value@.take(i as int));
        hash = hash.wrapping_mul(31).wrapping_add(value[i] as usize);
        i += 1;
    }
    assert(value@.take(i as int) =~= value@);
    hash % shard_count
}

/// The stored bytes of one shard: its snapshot and its log, each empty where
/// absent.
pub struct ShardImage {
    pub snapshot: Vec<u8>,
    pub wal: Vec<u8>,
}

/// The shards, and the counter that schedules background checkpoints.
pub struct ShardedQueue {
    shards: Vec<Shard>,
    shard_count: usize,
    checkpoint_counter: usize,
    checkpoint_running: bool,
}

impl ShardedQueue {
    pub closed spec fn shard(&self, i: int) -> Shard {
        self.shards@[i]
    }

    pub closed spec fn spec_shard_count(&self) -> usize {
        self.shard_count
    }

    /// Pushes counted since the last checkpoint was scheduled.
    pub closed spec fn counter(&self) -> usize {
        self.checkpoint_counter
    }

    /// A background checkpoint has been handed out and not reported finished.
    pub closed spec fn running(&self) -> bool {
        self.checkpoint_running
    }

    pub open spec fn wf(&self) -> bool {
        &&& self.spec_shard_count() > 0
        &&& self.shards_len() == self.spec_shard_count()
        &&& self.counter() <= CHECKPOINT_THRESHOLD
        &&& forall|i: int|
            0 <= i < self.spec_shard_count() ==> (#[trigger] self.shard(i)).wf() && self.shard(
                i,
            ).spec_id() == i
    }

    pub closed spec fn shards_len(&self) -> nat {
        self.shards@.len()
    }

    /// The shard that `key` selects.
    pub open spec fn index_of(&self, key: usize) -> int {
        (key % self.spec_shard_count()) as int
    }

    /// Every shard but `k` is as in `old`, and the schedule is kept.
    pub open spec fn others_unchanged(&self, old: &ShardedQueue, k: int) -> bool {
        &&& self.spec_shard_count() == old.spec_shard_count()
        &&& forall|j: int| 0 <= j < self.spec_shard_count() && j != k ==> #[trigger] self.shard(j)
            == old.shard(j)
    }

    /// What scheduling makes of one more push: whether a checkpoint is handed
    /// out, the new counter and the new running flag.
    pub open spec fn schedule_after_push(counter: usize, running: bool) -> (bool, usize, bool) {
        if counter + 1 > CHECKPOINT_THRESHOLD {
            if running {
                (false, 0, true)
            } else {
                (true, 0, true)
            }
        } else {
            (false, (counter + 1) as usize, running)
        }
    }

    pub open spec fn scheduled(&self, old: &ShardedQueue, r: bool) -> bool {
        (r, self.counter(), self.running()) == Self::schedule_after_push(old.counter(), old.running())
    }

    /// Replacing shard `k` by a well-formed shard with the same id keeps the
    /// whole well-formed and the other shards as they were.
    proof fn lemma_update(old: &ShardedQueue, new: &ShardedQueue, k: int)
        requires
            old.wf(),
            0 <= k < old.spec_shard_count(),
            new.shards@ == old.shards@.update(k, new.shards@[k]),
            new.shard_count == old.shard_count,
            new.checkpoint_counter <= CHECKPOINT_THRESHOLD,
            new.shards@[k].wf(),
            new.shards@[k].spec_id() == k,
        ensures
            new.wf(),
            new.others_unchanged(old, k),
    {
        assert forall|i: int| 0 <= i < new.spec_shard_count() implies (#[trigger] new.shard(
            i,
        )).wf() && new.shard(i).spec_id() == i by {
            if i != k {
                assert(new.shard(i) == old.shard(i));
            }
        }
    }

    /// Changing only the schedule keeps the whole well-formed.
    proof fn lemma_schedule_only(old: &ShardedQueue, new: &ShardedQueue)
        requires
            old.wf(),
            new.shards@ == old.shards@,
            new.shard_count == old.shard_count,
            new.checkpoint_counter <= CHECKPOINT_THRESHOLD,
        ensures
            new.wf(),
            new.others_unchanged(old, -1),
    {
        assert forall|i: int| 0 <= i < new.spec_shard_count() implies (#[trigger] new.shard(
            i,
        )).wf() && new.shard(i).spec_id() == i by {
            assert(new.shard(i) == old.shard(i));
        }
    }

    /// `shard_count` empty shards.
    pub fn new(shard_count: usize) -> (r: ShardedQueue)
        requires
            shard_count > 0,
        ensures
            r.wf(),
            r.spec_shard_count() == shard_count,
            r.counter() == 0,
            !r.running(),
            forall|i: int| 0 <= i < shard_count ==> (#[trigger] r.shard(i)).queue_model()
                == Seq::<MessageModel>::empty() && r.shard(i).wal_log() == Seq::<u8>::empty(),
    {
        let mut shards: Vec<Shard> = Vec::new();
        let mut i: usize = 0;
        while i < shard_count
            invariant
                i <= shard_count,
                shards@.len() == i,
                forall|j: int| 0 <= j < i ==> (#[trigger] shards@[j]).wf() && shards@[j].spec_id()
                    == j && shards@[j].queue_model() == Seq::<MessageModel>::empty()
                    && shards@[j].wal_log() == Seq::<u8>::empty(),
            decreases shard_count - i,
        {
            shards.push(Shard::new(i));
            i += 1;
        }
        ShardedQueue { shards, shard_count, checkpoint_counter: 0, checkpoint_running: false }
    }

    /// The shards that stored images rebuild, one per image, in order.
    pub fn recover(images: &Vec<ShardImage>) -> (r: ShardedQueue)
        requires
            images@.len() > 0,
        ensures
            r.wf(),
            r.spec_shard_count() == images@.len(),
            r.counter() == 0,
            !r.running(),
            forall|i: int| 0 <= i < images@.len() ==> (#[trigger] r.shard(i)).queue_model()
                == crate::shard::recovered(images@[i].snapshot@, images@[i].wal@),
    {
        let mut shards: Vec<Shard> = Vec::new();
        let mut i: usize = 0;
        while i < images.len()
            invariant
                i <= images@.len(),
                shards@.len() == i,
                forall|j: int| 0 <= j < i ==> (#[trigger] shards@[j]).wf() && shards@[j].spec_id()
                    == j && shards@[j].queue_model() == crate::shard::recovered(
                    images@[j].snapshot@,
                    images@[j].wal@,
                ),
            decreases images@.len() - i,
        {
            let image = &images[i];
            shards.push(Shard::recover(i, image.snapshot.as_slice(), image.wal.as_slice()));
            i += 1;
        }
        ShardedQueue {
            shards,
            shard_count: images.len(),
            checkpoint_counter: 0,
            checkpoint_running: false,
        }
    }

    pub fn shard_count(&self) -> (r: usize)
        ensures
            r == self.spec_shard_count(),
    {
        self.shard_count
    }

    /// The shard that `key` selects.
    pub fn pick_shard(&self, key: usize) -> (r: &Shard)
        requires
            self.wf(),
        ensures
            *r == self.shard(self.index_of(key)),
    {
        &self.shards[key % self.shard_count]
    }

    /// Counts a push and says whether a background checkpoint is now due.
    fn maybe_checkpoint(&mut self) -> (r: bool)
        requires
            old(self).wf(),
        ensures
            final(self).wf(),
            final(self).scheduled(old(self), r),
            final(self).others_unchanged(old(self), -1),
    {
        let ghost before = *self;
        let r = self.count_push();
        proof {
            Self::lemma_schedule_only(&before, self);
        }
        r
    }

    fn count_push(&mut self) -> (r: bool)
        requires
            old(self).counter() <= CHECKPOINT_THRESHOLD,
        ensures
            final(self).scheduled(old(self), r),
            final(self).counter() <= CHECKPOINT_THRESHOLD,
            final(self).shards == old(self).shards,
            final(self).shard_count == old(self).shard_count,
    {
        self.checkpoint_counter = self.checkpoint_counter + 1;
        if self.checkpoint_counter > CHECKPOINT_THRESHOLD {
            self.checkpoint_counter = 0;
            if self.checkpoint_running {
                false
            } else {
                self.checkpoint_running = true;
                true
            }
        } else {
            false
        }
    }

    /// Reports that the background checkpoint handed out has ended.
    pub fn checkpoint_finished(&mut self)
        requires
            old(self).wf(),
        ensures
            final(self).wf(),
            !final(self).running(),
            final(self).counter() == old(self).counter(),
            final(self).others_unchanged(old(self), -1),
    {
        let ghost before = *self;
        self.checkpoint_running = false;
        proof {
            Self::lemma_schedule_only(&before, self);
        }
    }

    /// Pushes `msg` into the shard that `key` selects; returns whether a
    /// background checkpoint is now due.
    pub fn push(&mut self, key: usize, msg: Message) -> (r: bool)
        requires
            old(self).wf(),
            storable(msg@),
        ensures
            final(self).wf(),
            final(self).others_unchanged(old(self), old(self).index_of(key)),
            final(self).scheduled(old(self), r),
            final(self).shard(old(self).index_of(key)).queue_model() == old(self).shard(
                old(self).index_of(key),
            ).queue_model().push(msg@),
            final(self).shard(old(self).index_of(key)).wal_log() == old(self).shard(
                old(self).index_of(key),
            ).wal_log() + push_record(msg@),
    {
        let k = key % self.shard_count;
        assert(self.shard(k as int).wf());
        let ghost before = *self;
        self.shards[k].push(msg);
        proof {
            Self::lemma_update(&before, self, k as int);
        }
        self.maybe_checkpoint()
    }

    /// Pushes `msgs` in order into the shard that `key` selects; returns
    /// whether a background checkpoint is now due.
    pub fn push_batch(&mut self, key: usize, msgs: Vec<Message>) -> (r: bool)
        requires
            old(self).wf(),
            forall|i: int| 0 <= i < msgs@.len() ==> storable(#[trigger] msgs@[i]@),
        ensures
            final(self).wf(),
            final(self).others_unchanged(old(self), old(self).index_of(key)),
            final(self).scheduled(old(self), r),
            final(self).shard(old(self).index_of(key)).queue_model() == old(self).shard(
                old(self).index_of(key),
            ).queue_model() + models(msgs@),
            final(self).shard(old(self).index_of(key)).wal_log() == old(self).shard(
                old(self).index_of(key),
            ).wal_log() + push_records(models(msgs@)),
    {
        let k = key % self.shard_count;
        assert(self.shard(k as int).wf());
        let ghost before = *self;
        self.shards[k].push_batch(msgs);
        proof {
            Self::lemma_update(&before, self, k as int);
        }
        self.maybe_checkpoint()
    }

    /// Takes the head of the shard that `key` selects, logging it.
    pub fn pop(&mut self, key: usize) -> (r: Option<Message>)
        requires
            old(self).wf(),
        ensures
            final(self).wf(),
            final(self).others_unchanged(old(self), old(self).index_of(key)),
            final(self).counter() == old(self).counter(),
            final(self).running() == old(self).running(),
            ({
                let o = old(self).shard(old(self).index_of(key));
                let q = o.queue_model();
                let s = final(self).shard(old(self).index_of(key));
                &&& q.len() == 0 ==> r is None && s.queue_model() == q && s.wal_log() == o.wal_log()
                &&& q.len() > 0 ==> (r matches Some(m) && m@ == q[0] && s.queue_model()
                    == q.drop_first() && s.wal_log() == o.wal_log() + pop_record())
            }),
    {
        let k = key % self.shard_count;
        assert(self.shard(k as int).wf());
        let ghost before = *self;
        let r = self.shards[k].pop();
        proof {
            Self::lemma_update(&before, self, k as int);
        }
        r
    }

    /// Takes up to `max` messages from the head of the shard that `key`
    /// selects, logging each.
    pub fn pop_batch(&mut self, key: usize, max: usize) -> (r: Vec<Message>)
        requires
            old(self).wf(),
        ensures
            final(self).wf(),
            final(self).others_unchanged(old(self), old(self).index_of(key)),
            final(self).counter() == old(self).counter(),
            final(self).running() == old(self).running(),
            ({
                let q = old(self).shard(old(self).index_of(key)).queue_model();
                let s = final(self).shard(old(self).index_of(key));
                &&& r@.len() == if max < q.len() {
                    max as int
                } else {
                    q.len() as int
                }
                &&& models(r@) == q.take(r@.len() as int)
                &&& s.queue_model() == q.skip(r@.len() as int)
                &&& s.wal_log() == old(self).shard(old(self).index_of(key)).wal_log() + pop_records(
                    r@.len(),
                )
            }),
    {
        let k = key % self.shard_count;
        assert(self.shard(k as int).wf());
        let ghost before = *self;
        let r = self.shards[k].pop_batch(max);
        proof {
            Self::lemma_update(&before, self, k as int);
        }
        r
    }

    /// Takes the head of the shard that `key` selects without logging it.
    pub fn try_pop(&mut self, key: usize) -> (r: Option<Message>)
        requires
            old(self).wf(),
        ensures
            final(self).wf(),
            final(self).others_unchanged(old(self), old(self).index_of(key)),
            final(self).counter() == old(self).counter(),
            final(self).running() == old(self).running(),
            ({
                let o = old(self).shard(old(self).index_of(key));
                let q = o.queue_model();
                let s = final(self).shard(old(self).index_of(key));
                &&& s.wal_log() == o.wal_log()
                &&& q.len() == 0 ==> r is None && s.queue_model() == q
                &&& q.len() > 0 ==> (r matches Some(m) && m@ == q[0] && s.queue_model()
                    == q.drop_first())
            }),
    {
        let k = key % self.shard_count;
        assert(self.shard(k as int).wf());
        let ghost before = *self;
        let r = self.shards[k].try_pop();
        proof {
            Self::lemma_update(&before, self, k as int);
        }
        r
    }

    /// Checkpoints shard `i`: returns its snapshot and empties its log.
    pub fn checkpoint_shard(&mut self, i: usize) -> (r: Vec<u8>)
        requires
            old(self).wf(),
            i < old(self).spec_shard_count(),
        ensures
            final(self).wf(),
            final(self).others_unchanged(old(self), i as int),
            final(self).counter() == old(self).counter(),
            final(self).running() == old(self).running(),
            r@ == snapshot_bytes(old(self).shard(i as int).queue_model()),
            final(self).shard(i as int).queue_model() == old(self).shard(i as int).queue_model(),
            final(self).shard(i as int).wal_log() == Seq::<u8>::empty(),
            final(self).shard(i as int).stored_snapshot() == r@,
    {
        assert(self.shard(i as int).wf());
        let ghost before = *self;
        let r = self.shards[i].checkpoint();
        proof {
            Self::lemma_update(&before, self, i as int);
        }
        r
    }

    /// Checkpoints every shard in turn; returns their snapshots in shard order.
    pub fn force_checkpoint(&mut self) -> (r: Vec<Vec<u8>>)
        requires
            old(self).wf(),
        ensures
            final(self).wf(),
            final(self).spec_shard_count() == old(self).spec_shard_count(),
            final(self).counter() == old(self).counter(),
            final(self).running() == old(self).running(),
            r@.len() == old(self).spec_shard_count(),
            forall|i: int|
                0 <= i < r@.len() ==> {
                    &&& (#[trigger] r@[i])@ == snapshot_bytes(old(self).shard(i).queue_model())
                    &&& final(self).shard(i).queue_model() == old(self).shard(i).queue_model()
                    &&& final(self).shard(i).wal_log() == Seq::<u8>::empty()
                    &&& final(self).shard(i).stored_snapshot() == r@[i]@
                },
    {
        let mut images: Vec<Vec<u8>> = Vec::new();
        let mut i: usize = 0;
        while i < self.shard_count
            invariant
                self.wf(),
                self.spec_shard_count() == old(self).spec_shard_count(),
                self.counter() == old(self).counter(),
                self.running() == old(self).running(),
                i <= self.spec_shard_count(),
                images@.len() == i,
                forall|j: int|
                    0 <= j < i ==> {
                        &&& (#[trigger] images@[j])@ == snapshot_bytes(
                            old(self).shard(j).queue_model(),
                        )
                        &&& self.shard(j).queue_model() == old(self).shard(j).queue_model()
                        &&& self.shard(j).wal_log() == Seq::<u8>::empty()
                        &&& self.shard(j).stored_snapshot() == images@[j]@
                    },
                forall|j: int|
                    i <= j < self.spec_shard_count() ==> #[trigger] self.shard(j) == old(
                        self,
                    ).shard(j),
            decreases self.spec_shard_count() - i,
        {
            let ghost before = *self;
            let ghost prev = images@;
            assert(before.shard(i as int) == old(self).shard(i as int));
            let image = self.checkpoint_shard(i);
            images.push(image);
            proof {
                assert forall|j: int| 0 <= j < i + 1 implies {
                    &&& (#[trigger] images@[j])@ == snapshot_bytes(old(self).shard(j).queue_model())
                    &&& self.shard(j).queue_model() == old(self).shard(j).queue_model()
                    &&& self.shard(j).wal_log() == Seq::<u8>::empty()
                    &&& self.shard(j).stored_snapshot() == images@[j]@
                } by {
                    if j < i {
                        assert(images@[j] == prev[j]);
                        assert(self.shard(j) == before.shard(j));
                    }
                }
                assert forall|j: int| i + 1 <= j < self.spec_shard_count() implies #[trigger] self.shard(j)
                    == old(self).shard(j) by {
                    assert(self.shard(j) == before.shard(j));
                }
            }
            i += 1;
        }
        images
    }
}

} // verus!
