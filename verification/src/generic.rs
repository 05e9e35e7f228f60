//! One shard of the cache: the records, the eviction policy over them, the index from keys to
//! records, and the weight they may hold together.
//!
//! A shard is used under exclusive access. Whoever shares a shard between threads wraps it in
//! a lock; nothing here blocks or waits.

use crate::eviction::lfu::{
    dropped, eviction_order, lemma_eviction_order_frame, lemma_eviction_order_members,
    lemma_total_weight_frame, lemma_total_weight_push, lemma_total_weight_remove, metas, total_weight,
    victim, Lfu, LfuState, Meta, Queue,
};
use crate::indexer::Indexer;
use crate::record::{same_entries, same_entry, Record, RecordData, RecordResolver, RecordToken};
use vstd::prelude::*;

verus! {

/// The slots of one sequence of distinct slots are all among those of another: they weigh no
/// more together.
pub proof fn lemma_total_weight_subset(metas: Map<usize, Meta>, part: Seq<usize>, all: Seq<usize>)
    requires
        part.no_duplicates(),
        all.no_duplicates(),
        forall|i: int| 0 <= i < part.len() ==> all.contains(#[trigger] part[i]),
    ensures
        total_weight(metas, part) <= total_weight(metas, all),
    decreases all.len(),
{
    if all.len() == 0 {
        if part.len() > 0 {
            assert(all.contains(part[0]));
        }
    } else {
        let last = all.last();
        let rest = all.drop_last();
        if part.contains(last) {
            let at = part.index_of(last);
            let fewer = part.remove(at);
            assert forall|i: int| 0 <= i < fewer.len() implies
                rest.contains(#[trigger] fewer[i]) by {
                let j = if i < at { i } else { i + 1 };
                assert(fewer[i] == part[j]);
                assert(all.contains(part[j]));
                let k = all.index_of(part[j]);
                assert(rest[k] == part[j]);
            }
            lemma_total_weight_subset(metas, fewer, rest);
            lemma_total_weight_remove(metas, part, at);
        } else {
            assert forall|i: int| 0 <= i < part.len() implies rest.contains(#[trigger] part[i]) by {
                assert(all.contains(part[i]));
                let k = all.index_of(part[i]);
                assert(part.contains(part[i]));
                assert(rest[k] == part[i]);
            }
            lemma_total_weight_subset(metas, part, rest);
        }
    }
}

/// One slot weighs differently: the total weight changes by the difference.
pub proof fn lemma_total_weight_update(
    before: Map<usize, Meta>,
    after: Map<usize, Meta>,
    slots: Seq<usize>,
    at: int,
)
    requires
        slots.no_duplicates(),
        0 <= at < slots.len(),
        forall|i: int| 0 <= i < slots.len() && i != at ==>
            before[#[trigger] slots[i]].weight == after[slots[i]].weight,
    ensures
        total_weight(after, slots) + before[slots[at]].weight == total_weight(before, slots)
            + after[slots[at]].weight,
{
    let rest = slots.remove(at);
    lemma_total_weight_remove(before, slots, at);
    lemma_total_weight_remove(after, slots, at);
    assert forall|i: int| 0 <= i < rest.len() implies
        before[#[trigger] rest[i]].weight == after[rest[i]].weight by {
        let j = if i < at { i } else { i + 1 };
        assert(rest[i] == slots[j]);
    }
    lemma_total_weight_frame(before, after, rest);
}

/// The shard that a hash belongs to, among a number of shards.
pub fn shard_of(hash: u64, shards: usize) -> (shard: usize)
    requires
        shards > 0,
    ensures
        shard == hash % (shards as u64),
        shard < shards,
{
    (hash % (shards as u64)) as usize
}

/// One shard of the cache.
pub struct GenericCacheShard<K, V, H, I> {
    records: RecordResolver<K, V, H, LfuState>,
    eviction: Lfu,
    indexer: I,
    capacity: usize,
    usage: usize,
    slots: Ghost<Seq<usize>>,
}

impl<K, V, H, I: Indexer<K>> GenericCacheShard<K, V, H, I> {
    /// The records of the shard.
    pub closed spec fn records(&self) -> RecordResolver<K, V, H, LfuState> {
        self.records
    }

    /// The eviction policy of the shard.
    pub closed spec fn eviction(&self) -> Lfu {
        self.eviction
    }

    /// The token that each indexed key maps to.
    pub closed spec fn index(&self) -> Map<K, RecordToken> {
        self.indexer.view()
    }

    /// The weight that the shard may hold.
    pub closed spec fn capacity(&self) -> usize {
        self.capacity
    }

    /// The weight of all the records in the shard.
    pub closed spec fn usage(&self) -> usize {
        self.usage
    }

    /// The record that a live token names.
    pub open spec fn record(&self, token: RecordToken) -> Record<K, V, H, LfuState> {
        self.records().record(token)
    }

    /// The record in the slot holds an entry and is in a state that the shard keeps it in:
    /// a record that the policy tracks is indexed, a record that is not indexed has a handle
    /// that refers to it, and an indexed record is the one that its key maps to.
    pub open spec fn kept(&self, slot: usize) -> bool {
        let record = self.records().records()[slot];
        &&& record.data() is Some
        &&& record.in_eviction() ==> record.in_indexer()
        &&& !record.in_indexer() ==> record.ref_count() > 0
        &&& record.in_indexer() ==> self.index().dom().contains(record.data().unwrap().key)
            && self.index()[record.data().unwrap().key].slot() == slot
    }

    /// The key maps to a live record that holds the key and is flagged as indexed.
    pub open spec fn indexed(&self, key: K) -> bool {
        let token = self.index()[key];
        &&& self.records().live(token)
        &&& self.record(token).data() is Some
        &&& self.record(token).data().unwrap().key == key
        &&& self.record(token).in_indexer()
    }

    /// The shard's invariant: the arena and the policy are well-formed, every record is kept
    /// for a reason, every indexed key maps to its record, and the usage is the weight of all
    /// the records.
    pub closed spec fn wf(&self) -> bool {
        &&& self.records.wf()
        &&& self.eviction.wf(metas(&self.records))
        &&& self.indexer.wf()
        &&& self.slots@.no_duplicates()
        &&& forall|slot: usize| self.records.records().dom().contains(slot)
            <==> self.slots@.contains(slot)
        &&& forall|slot: usize| self.records.records().dom().contains(slot) ==>
            #[trigger] self.kept(slot)
        &&& forall|key: K| self.indexer.view().dom().contains(key) ==> #[trigger] self.indexed(key)
        &&& self.usage == total_weight(metas(&self.records), self.slots@)
    }

    /// What the invariant says of the parts of a shard.
    pub proof fn lemma_wf(&self)
        requires
            self.wf(),
        ensures
            self.records().wf(),
            self.eviction().wf(metas(&self.records())),
            forall|slot: usize| self.records().records().dom().contains(slot) ==>
                #[trigger] self.kept(slot),
            forall|key: K| self.index().dom().contains(key) ==> #[trigger] self.indexed(key),
            self.eviction().weight() <= self.usage(),
    {
        let metas = metas(&self.records);
        self.eviction.lemma_wf(metas);
        let held = self.eviction.window() + self.eviction.probation() + self.eviction.protected();
        assert forall|i: int| 0 <= i < held.len() implies
            self.slots@.contains(#[trigger] held[i]) by {
            let w = self.eviction.window().len() as int;
            let p = self.eviction.probation().len() as int;
            if i < w {
                assert(self.eviction.slots(Queue::Window)[i] == held[i]);
            } else if i < w + p {
                assert(self.eviction.slots(Queue::Probation)[i - w] == held[i]);
            } else {
                assert(self.eviction.slots(Queue::Protected)[i - w - p] == held[i]);
            }
            assert(metas.dom().contains(held[i]));
        }
        lemma_total_weight_subset(metas, held, self.slots@);
    }

    /// A shard without any record.
    pub fn new(capacity: usize, eviction: Lfu, indexer: I) -> (shard: Self)
        requires
            eviction.wf(Map::<usize, Meta>::empty()),
            indexer.wf(),
            indexer.view() == Map::<K, RecordToken>::empty(),
        ensures
            shard.wf(),
            shard.capacity() == capacity,
            shard.usage() == 0,
            shard.eviction() == eviction,
            shard.index() == Map::<K, RecordToken>::empty(),
            shard.records().records() == Map::<usize, Record<K, V, H, LfuState>>::empty(),
    {
        let shard = Self {
            records: RecordResolver::new(),
            eviction,
            indexer,
            capacity,
            usage: 0,
            slots: Ghost(Seq::empty()),
        };
        proof {
            assert(metas(&shard.records) =~= Map::<usize, Meta>::empty());
        }
        shard
    }

    /// The weight that the shard may hold.
    pub fn get_capacity(&self) -> (capacity: usize)
        ensures
            capacity == self.capacity(),
    {
        self.capacity
    }

    /// The weight of all the records in the shard.
    pub fn get_usage(&self) -> (usage: usize)
        ensures
            usage == self.usage(),
    {
        self.usage
    }

    /// The token of the record of a key, if the key is indexed. Nothing is counted.
    pub fn lookup(&self, hash: u64, key: &K) -> (found: Option<RecordToken>)
        requires
            self.wf(),
        ensures
            found == (if self.index().dom().contains(*key) {
                Some(self.index()[*key])
            } else {
                None
            }),
            found matches Some(token) ==> self.records().live(token),
    {
        let found = self.indexer.lookup(hash, key);
        proof {
            if self.index().dom().contains(*key) {
                assert(self.indexed(*key));
            }
        }
        found
    }

    /// Whether the token names a record of the shard.
    pub fn contains(&self, token: RecordToken) -> (live: bool)
        ensures
            live == self.records().live(token),
    {
        self.records.contains(token)
    }

    /// The record that the token names. The token must be live.
    pub fn resolve(&self, token: RecordToken) -> (record: &Record<K, V, H, LfuState>)
        requires
            self.records().live(token),
        ensures
            *record == self.record(token),
    {
        self.records.resolve(token)
    }

    /// The tokens of the records that the policy tracks: those in `window`, `probation` and
    /// `protected`, in this order, each segment from the least to the most recently used.
    pub fn dump(&self) -> (tokens: Vec<RecordToken>)
        requires
            self.wf(),
        ensures
            crate::eviction::lfu::slots_of(tokens@) == self.eviction().window()
                + self.eviction().probation()
                + self.eviction().protected(),
            forall|i: int| 0 <= i < tokens@.len() ==> self.records().live(#[trigger] tokens@[i]),
    {
        self.eviction.dump(&self.records)
    }

    /// The policy of the shard, to look at.
    pub fn policy(&self) -> (eviction: &Lfu)
        ensures
            *eviction == self.eviction(),
    {
        &self.eviction
    }
}

impl<K, V, H, I: Indexer<K>> GenericCacheShard<K, V, H, I> {
    /// Counts one more handle on a record, as when a handle is cloned. Nothing else changes.
    pub fn retain(&mut self, token: RecordToken)
        requires
            old(self).wf(),
            old(self).records().live(token),
            old(self).record(token).ref_count() < usize::MAX,
        ensures
            final(self).wf(),
            final(self).records().live(token),
            final(self).record(token).ref_count() == old(self).record(token).ref_count() + 1,
            final(self).record(token).data() == old(self).record(token).data(),
            final(self).record(token).flag_bits() == old(self).record(token).flag_bits(),
            final(self).records().records() == old(self).records().records().insert(
                token.slot(),
                final(self).record(token),
            ),
            final(self).index() == old(self).index(),
            final(self).eviction() == old(self).eviction(),
            final(self).usage() == old(self).usage(),
            final(self).capacity() == old(self).capacity(),
    {
        let ghost before = *self;
        let record = self.records.resolve_mut(token);
        record.inc_refs();
        proof {
            assert(before.kept(token.slot()));
            assert forall|key: K| self.indexer.view().dom().contains(key) implies
                #[trigger] self.indexed(
                key,
            ) by {
                assert(before.indexed(key));
            }
            assert forall|other: usize|
                other != token.slot()
                    && self.records.records().dom().contains(other) implies #[trigger] self.kept(
                other,
            ) by {
                assert(before.kept(other));
            }
            self.lemma_touched(before, token.slot());
        }
    }

    /// A record changed in its handle count or in the flags `IN_INDEXER` and `DEPOSIT` only,
    /// and stayed kept: the invariant still holds.
    proof fn lemma_touched(&self, before: Self, slot: usize)
        requires
            before.wf(),
            self.records.wf(),
            before.records.records().dom().contains(slot),
            self.records.records()
                == before.records.records().insert(slot, self.records.records()[slot]),
            forall|other: usize| self.records.generation(other) == before.records.generation(other),
            self.records.records()[slot].data() == before.records.records()[slot].data(),
            self.records.records()[slot].in_eviction()
                == before.records.records()[slot].in_eviction(),
            self.eviction == before.eviction,
            self.slots == before.slots,
            self.usage == before.usage,
            self.kept(slot),
            self.indexer.wf(),
            forall|key: K| self.indexer.view().dom().contains(key) ==> #[trigger] self.indexed(key),
            forall|other: usize|
                other != slot && self.records.records().dom().contains(other) ==>
                    #[trigger] self.kept(other),
        ensures
            self.wf(),
            metas(&self.records) == metas(&before.records),
    {
        assert(metas(&self.records) =~= metas(&before.records));
        assert forall|other: usize| self.records.records().dom().contains(other)
            <==> self.slots@.contains(
            other,
        ) by {
            assert(before.records.records().dom().contains(other)
                <==> before.slots@.contains(other));
        }
    }
}

/// The token of the record that an invalidation took out of the index, if it took one.
pub open spec fn named<E>(removed: Option<(RecordToken, Option<E>)>) -> Option<RecordToken> {
    match removed {
        Some((token, _)) => Some(token),
        None => None,
    }
}

/// The entry is among those that were handed out from position `from` on.
pub open spec fn handed_out<E>(handed: Seq<E>, from: int, entry: E) -> bool {
    exists|i: int| from <= i < handed.len() && #[trigger] handed[i] == entry
}

/// The entry that a record holds, as it is handed out when the record is freed: key, value,
/// hint and weight.
pub open spec fn payload_of<K, V, H>(record: Record<K, V, H, LfuState>) -> (K, V, H, usize) {
    (
        record.data().unwrap().key,
        record.data().unwrap().value,
        record.data().unwrap().hint,
        record.data().unwrap().weight,
    )
}

impl<K, V, H, I: Indexer<K>> GenericCacheShard<K, V, H, I> {
    /// Frees a record that the policy does not track: takes its key out of the index, if it
    /// is indexed, and the record out of the arena, and hands its entry out.
    fn retire(&mut self, token: RecordToken) -> (entry: (K, V, H, usize))
        requires
            old(self).wf(),
            old(self).records().live(token),
            !old(self).record(token).in_eviction(),
        ensures
            final(self).wf(),
            entry == payload_of(old(self).record(token)),
            final(self).records().spent(token),
            final(self).records().records() == old(self).records().records().remove(token.slot()),
            forall|slot: usize|
                slot != token.slot() ==>
                    final(self).records().generation(slot) == old(self).records().generation(slot),
            final(self).index() == (if old(self).record(token).in_indexer() {
                old(self).index().remove(old(self).record(token).data().unwrap().key)
            } else {
                old(self).index()
            }),
            final(self).eviction() == old(self).eviction(),
            final(self).capacity() == old(self).capacity(),
            final(self).usage() + old(self).record(token).data().unwrap().weight
                == old(self).usage(),
            metas(&final(self).records()) == metas(&old(self).records()).remove(token.slot()),
    {
        let ghost before = *self;
        let ghost slot = token.slot();
        let ghost before_metas = metas(&self.records);
        proof {
            assert(before.kept(slot));
            self.eviction.lemma_wf(before_metas);
            self.eviction.lemma_without_idle(before_metas, slot);
            assert(self.slots@.contains(slot));
        }
        let ghost at = self.slots@.index_of(slot);
        let mut record = self.records.remove(token);
        let indexed = record.is_in_indexer();
        let data = record.take();
        if indexed {
            self.indexer.remove(data.hash, &data.key);
        }
        proof {
            lemma_total_weight_remove(before_metas, self.slots@, at);
        }
        self.usage = self.usage - data.weight;
        self.slots = Ghost(self.slots@.remove(at));
        proof {
            let after_metas = metas(&self.records);
            assert(after_metas =~= before_metas.remove(slot));
            let rest = self.slots@;
            assert forall|other: usize| self.records.records().dom().contains(other)
                <==> rest.contains(
                other,
            ) by {
                assert(before.records.records().dom().contains(other)
                    <==> before.slots@.contains(other));
                if rest.contains(other) {
                    let i = rest.index_of(other);
                    if i < at {
                        assert(before.slots@[i] == other);
                    } else {
                        assert(before.slots@[i + 1] == other);
                    }
                }
                if before.slots@.contains(other) && other != slot {
                    let i = before.slots@.index_of(other);
                    if i < at {
                        assert(rest[i] == other);
                    } else {
                        assert(rest[i - 1] == other);
                    }
                }
            }
            assert forall|i: int| 0 <= i < rest.len() implies
                before_metas[#[trigger] rest[i]].weight
                == after_metas[rest[i]].weight by {
                let j = if i < at { i } else { i + 1 };
                assert(rest[i] == before.slots@[j]);
            }
            lemma_total_weight_frame(before_metas, after_metas, rest);
            assert forall|other: usize| self.records.records().dom().contains(other) implies #[trigger] self.kept(
                other,
            ) by {
                assert(before.kept(other));
                let record = before.records.records()[other];
                if record.in_indexer() {
                    assert(before.indexed(record.data().unwrap().key));
                }
            }
            assert forall|key: K| self.indexer.view().dom().contains(key) implies
                #[trigger] self.indexed(
                key,
            ) by {
                assert(before.indexed(key));
            }
        }
        (data.key, data.value, data.hint, data.weight)
    }
}

impl<K, V, H, I: Indexer<K>> GenericCacheShard<K, V, H, I> {
    /// The order in which the policy would evict the records that it tracks.
    pub open spec fn order(&self) -> Seq<usize> {
        eviction_order(
            metas(&self.records()),
            self.eviction().estimates(),
            self.eviction().window(),
            self.eviction().probation(),
            self.eviction().protected(),
        )
    }

    /// The policy moved records between its segments and wrote their states, and tracks
    /// indexed records only: the invariant still holds.
    proof fn lemma_policy_moved(&self, before: Self)
        requires
            before.wf(),
            self.records.wf(),
            self.eviction.wf(metas(&self.records)),
            same_entries(&before.records, &self.records),
            self.indexer == before.indexer,
            self.slots == before.slots,
            self.usage == before.usage,
            forall|slot: usize|
                self.records.records().dom().contains(slot)
                    && (#[trigger] self.records.records()[slot]).in_eviction()
                    ==> self.records.records()[slot].in_indexer(),
        ensures
            self.wf(),
    {
        let before_metas = metas(&before.records);
        let after_metas = metas(&self.records);
        assert forall|slot: usize| self.records.records().dom().contains(slot) implies
            #[trigger] self.kept(
            slot,
        ) by {
            assert(before.kept(slot));
            assert(same_entry(before.records.records()[slot], self.records.records()[slot]));
        }
        assert forall|key: K| self.indexer.view().dom().contains(key) implies
            #[trigger] self.indexed(key) by {
            assert(before.indexed(key));
            let slot = before.indexer.view()[key].slot();
            assert(same_entry(before.records.records()[slot], self.records.records()[slot]));
            assert(before.records.generation(slot) == self.records.generation(slot));
        }
        assert forall|i: int| 0 <= i < self.slots@.len() implies
            before_metas[#[trigger] self.slots@[i]].weight
            == after_metas[self.slots@[i]].weight by {
            let slot = self.slots@[i];
            assert(before.slots@.contains(slot));
            assert(before.kept(slot));
            assert(same_entry(before.records.records()[slot], self.records.records()[slot]));
        }
        lemma_total_weight_frame(before_metas, after_metas, self.slots@);
    }

    /// What holds of a shard after records were evicted from it: no record appeared or changed
    /// in what it holds for its entry, only tracked records without a handle were freed, the
    /// tokens of freed records are spent for good, the index lost the keys of the freed
    /// records and nothing else, and the records that the policy still tracks come in the
    /// same order of eviction as before.
    pub open spec fn shrunk(&self, after: &Self) -> bool {
        &&& after.capacity() == self.capacity()
        &&& after.usage() <= self.usage()
        &&& self.eviction().same_frequencies(&after.eviction())
        &&& self.eviction().same_capacities(&after.eviction())
        &&& after.order().len() <= self.order().len()
        &&& after.order() == self.order().skip(self.order().len() - after.order().len())
        &&& forall|token: RecordToken| #[trigger]
            after.records().live(token) ==> self.records().live(token) && same_entry(
                self.record(token),
                after.record(token),
            ) && (after.record(token).in_eviction() ==> self.record(token).in_eviction())
        &&& forall|token: RecordToken|
            self.records().live(token) && !(#[trigger] after.records().live(token)) ==> self.record(
                token,
            ).ref_count() == 0 && self.record(token).in_eviction() && after.records().spent(token)
        &&& forall|token: RecordToken| #[trigger]
            self.records().spent(token) ==> after.records().spent(token)
        &&& forall|key: K| #[trigger]
            after.index().dom().contains(key) ==> self.index().dom().contains(key)
                && after.index()[key]
                == self.index()[key]
        &&& forall|key: K|
            self.index().dom().contains(key) && !(#[trigger] after.index().dom().contains(key))
                ==> !after.records().live(self.index()[key])
    }

    /// Evicting in two rounds is evicting.
    pub proof fn lemma_shrunk_twice(&self, between: &Self, after: &Self)
        requires
            self.shrunk(between),
            between.shrunk(after),
        ensures
            self.shrunk(after),
    {
        let first = self.order();
        let second = between.order();
        let third = after.order();
        assert(third =~= first.skip(first.len() - third.len()));
        assert forall|token: RecordToken| #[trigger]
            after.records().live(token) implies self.records().live(token) && same_entry(
            self.record(token),
            after.record(token),
        ) && (after.record(token).in_eviction() ==> self.record(token).in_eviction()) by {
            assert(between.records().live(token));
        }
        assert forall|token: RecordToken|
            self.records().live(token) && !(#[trigger] after.records().live(token)) implies
                self.record(
            token,
        ).ref_count() == 0 && self.record(token).in_eviction() && after.records().spent(token) by {
            if between.records().live(token) {
                assert(same_entry(self.record(token), between.record(token)));
            } else {
                assert(between.records().spent(token));
            }
        }
        assert forall|key: K|
            self.index().dom().contains(key)
                && !(#[trigger] after.index().dom().contains(key)) implies !after.records().live(
            self.index()[key],
        ) by {
            if between.index().dom().contains(key) {
                assert(!after.records().live(between.index()[key]));
            } else {
                assert(!between.records().live(self.index()[key]));
            }
        }
    }
}


impl<K, V, H, I: Indexer<K>> GenericCacheShard<K, V, H, I> {
    /// Takes the next victim out of the policy. The record stays in the shard.
    fn pop_victim(&mut self) -> (victim: Option<RecordToken>)
        requires
            old(self).wf(),
        ensures
            final(self).wf(),
            old(self).shrunk(final(self)),
            final(self).usage() == old(self).usage(),
            final(self).index() == old(self).index(),
            final(self).records().records().dom() == old(self).records().records().dom(),
            forall|token: RecordToken| #[trigger]
                final(self).records().live(token) <==> old(self).records().live(token),
            forall|token: RecordToken|
                Some(token) != victim && #[trigger] final(self).records().live(token)
                    ==> final(self).record(token).in_eviction() == old(self).record(token).in_eviction(),
            match victim {
                Some(token) => {
                    &&& old(self).order().len() > 0
                    &&& token.slot() == old(self).order()[0]
                    &&& final(self).order() == old(self).order().skip(1)
                    &&& final(self).records().live(token)
                    &&& old(self).record(token).in_eviction()
                    &&& !final(self).record(token).in_eviction()
                },
                None => old(self).order().len() == 0,
            },
    {
        let ghost round = *self;
        let ghost round_metas = metas(&self.records);
        let ghost round_order = self.order();
        proof {
            round.lemma_wf();
            round.eviction.lemma_wf(round_metas);
        }
        let popped = self.eviction.pop(&mut self.records);
        match popped {
            Some(token) => {
                proof {
                    self.lemma_popped(round, Some(token));
                }
                Some(token)
            },
            None => {
                proof {
                    self.lemma_popped(round, None);
                }
                None
            },
        }
    }
}

impl<K, V, H, I: Indexer<K>> GenericCacheShard<K, V, H, I> {
    /// What the policy's `pop` promises, said of the shard around it.
    spec fn popped(&self, round: Self, victim: Option<RecordToken>) -> bool {
        &&& self.records.wf()
        &&& self.eviction.wf(metas(&self.records))
        &&& same_entries(&round.records, &self.records)
        &&& round.eviction.same_frequencies(&self.eviction)
        &&& round.eviction.same_capacities(&self.eviction)
        &&& metas(&self.records).dom() == metas(&round.records).dom()
        &&& forall|slot: usize| metas(&self.records)[slot].hash == metas(&round.records)[slot].hash
        &&& self.indexer == round.indexer
        &&& self.slots == round.slots
        &&& self.usage == round.usage
        &&& self.capacity == round.capacity
        &&& match victim {
            Some(token) => {
                let queue = crate::eviction::lfu::victim(
                    metas(&round.records),
                    round.eviction.estimates(),
                    round.eviction.window(),
                    round.eviction.probation(),
                    round.eviction.protected(),
                );
                &&& queue != Queue::Untracked
                &&& self.records.live(token)
                &&& token.slot() == round.eviction.slots(queue)[0]
                &&& self.eviction.slots(queue) == round.eviction.slots(queue).drop_first()
                &&& forall|other: Queue| other != queue ==>
                    self.eviction.slots(other) == round.eviction.slots(other)
                &&& forall|other: usize|
                    other != token.slot() ==> #[trigger] metas(&self.records)[other] == metas(
                        &round.records,
                    )[other]
                &&& metas(&self.records)[token.slot()].queue == Queue::Untracked
                &&& !metas(&self.records)[token.slot()].flagged
            },
            None => {
                &&& round.eviction.window().len() == 0
                &&& round.eviction.probation().len() == 0
                &&& round.eviction.protected().len() == 0
                &&& self.eviction.window() == round.eviction.window()
                &&& self.eviction.probation() == round.eviction.probation()
                &&& self.eviction.protected() == round.eviction.protected()
                &&& metas(&self.records) == metas(&round.records)
            },
        }
    }

    /// After the policy popped a victim, the shard is well-formed.
    proof fn lemma_popped_wf(&self, round: Self, victim: Option<RecordToken>)
        requires
            round.wf(),
            self.popped(round, victim),
        ensures
            self.wf(),
    {
        let round_metas = metas(&round.records);
        assert forall|slot: usize|
            self.records.records().dom().contains(slot)
                && (#[trigger] self.records.records()[slot]).in_eviction() implies
                    self.records.records()[slot].in_indexer() by {
            assert(round.kept(slot));
            assert(same_entry(round.records.records()[slot], self.records.records()[slot]));
            assert(metas(&self.records).dom().contains(slot));
            assert(metas(&self.records)[slot].flagged);
            assert(round_metas[slot].flagged || (victim matches Some(token)
                && token.slot() == slot));
        }
        self.lemma_policy_moved(round);
    }

    /// After the policy popped a victim, the same tokens are live and spent.
    proof fn lemma_popped_tokens(&self, round: Self, victim: Option<RecordToken>)
        requires
            round.wf(),
            self.popped(round, victim),
        ensures
            self.records().records().dom() == round.records().records().dom(),
            forall|token: RecordToken| #[trigger]
                self.records().live(token) <==> round.records().live(token),
            forall|token: RecordToken| #[trigger]
                round.records().spent(token) ==> self.records().spent(token),
            forall|token: RecordToken| #[trigger]
                self.records().live(token) ==>
                    same_entry(round.record(token), self.record(token)) && (
                self.record(token).in_eviction() ==> round.record(token).in_eviction()),
            forall|token: RecordToken|
                Some(token) != victim && #[trigger] self.records().live(token)
                    ==> self.record(token).in_eviction() == round.record(token).in_eviction(),
    {
        let round_metas = metas(&round.records);
        assert forall|token: RecordToken|
            Some(token) != victim && #[trigger] self.records().live(token) implies
                self.record(token).in_eviction() == round.record(token).in_eviction() by {
            let slot = token.slot();
            assert(round.records.generation(slot) == self.records.generation(slot));
            assert(round.kept(slot));
            assert(same_entry(round.records.records()[slot], self.records.records()[slot]));
            assert(metas(&self.records).dom().contains(slot));
            assert(round_metas.dom().contains(slot));
            match victim {
                Some(taken) => {
                    if taken.slot() == slot {
                        token.lemma_identity(taken);
                    }
                    assert(metas(&self.records)[slot] == round_metas[slot]);
                },
                None => {},
            }
        }
        assert forall|token: RecordToken| #[trigger]
            self.records().live(token) <==> round.records().live(token) by {
            assert(round.records.generation(token.slot()) == self.records.generation(token.slot()));
        }
        assert forall|token: RecordToken| #[trigger]
            round.records().spent(token) implies self.records().spent(token) by {
            assert(round.records.generation(token.slot()) == self.records.generation(token.slot()));
        }
        assert forall|token: RecordToken| #[trigger]
            self.records().live(token) implies
                same_entry(round.record(token), self.record(token)) && (
            self.record(token).in_eviction() ==> round.record(token).in_eviction()) by {
            let slot = token.slot();
            assert(round.kept(slot));
            assert(same_entry(round.records.records()[slot], self.records.records()[slot]));
            assert(metas(&self.records).dom().contains(slot));
            if self.record(token).in_eviction() {
                assert(metas(&self.records)[slot].flagged);
                assert(round_metas[slot].flagged);
            }
        }
    }

    /// After the policy popped a victim, the order of eviction lost its first slot.
    proof fn lemma_popped_order(&self, round: Self, victim: Option<RecordToken>)
        requires
            round.wf(),
            self.popped(round, victim),
        ensures
            match victim {
                Some(token) => {
                    &&& round.order().len() > 0
                    &&& token.slot() == round.order()[0]
                    &&& self.order() == round.order().skip(1)
                    &&& round.record(token).in_eviction()
                    &&& !self.record(token).in_eviction()
                },
                None => round.order().len() == 0 && self.order().len() == 0,
            },
    {
        let round_metas = metas(&round.records);
        round.eviction.lemma_wf(round_metas);
        match victim {
            Some(token) => {
                lemma_eviction_order_frame(
                    round_metas,
                    metas(&self.records),
                    self.eviction.estimates(),
                    self.eviction.window(),
                    self.eviction.probation(),
                    self.eviction.protected(),
                );
                let queue = crate::eviction::lfu::victim(
                    round_metas,
                    round.eviction.estimates(),
                    round.eviction.window(),
                    round.eviction.probation(),
                    round.eviction.protected(),
                );
                assert(self.eviction.slots(Queue::Window)
                    == round.eviction.slots(Queue::Window) || queue
                    == Queue::Window);
                assert(self.eviction.slots(Queue::Probation)
                    == round.eviction.slots(Queue::Probation)
                    || queue == Queue::Probation);
                assert(self.eviction.slots(Queue::Protected)
                    == round.eviction.slots(Queue::Protected)
                    || queue == Queue::Protected);
                assert(round.order() =~= seq![token.slot()] + self.order());
                assert(self.order() =~= round.order().skip(1));
                assert(round.eviction.slots(queue)[0] == token.slot());
                assert(round_metas.dom().contains(token.slot()));
                assert(round_metas[token.slot()].flagged);
                assert(metas(&self.records).dom().contains(token.slot()));
            },
            None => {},
        }
    }

    /// After the policy popped a victim, the shard is as after an eviction that freed nothing.
    proof fn lemma_popped(&self, round: Self, victim: Option<RecordToken>)
        requires
            round.wf(),
            self.popped(round, victim),
        ensures
            self.wf(),
            round.shrunk(self),
            self.records().records().dom() == round.records().records().dom(),
            forall|token: RecordToken| #[trigger]
                self.records().live(token) <==> round.records().live(token),
            forall|token: RecordToken|
                Some(token) != victim && #[trigger] self.records().live(token)
                    ==> self.record(token).in_eviction() == round.record(token).in_eviction(),
            match victim {
                Some(token) => {
                    &&& round.order().len() > 0
                    &&& token.slot() == round.order()[0]
                    &&& self.order() == round.order().skip(1)
                    &&& round.record(token).in_eviction()
                    &&& !self.record(token).in_eviction()
                },
                None => round.order().len() == 0,
            },
    {
        self.lemma_popped_wf(round, victim);
        self.lemma_popped_tokens(round, victim);
        self.lemma_popped_order(round, victim);
        let first = round.order();
        let second = self.order();
        assert(second =~= first.skip(first.len() - second.len()));
    }
}

impl<K, V, H, I: Indexer<K>> GenericCacheShard<K, V, H, I> {
    /// What `retire` promises.
    spec fn retired(&self, before: Self, token: RecordToken) -> bool {
        &&& before.wf()
        &&& before.records().live(token)
        &&& !before.record(token).in_eviction()
        &&& self.wf()
        &&& self.records().spent(token)
        &&& self.records().records() == before.records().records().remove(token.slot())
        &&& forall|slot: usize|
            slot != token.slot() ==>
                self.records().generation(slot) == before.records().generation(slot)
        &&& self.index() == (if before.record(token).in_indexer() {
            before.index().remove(before.record(token).data().unwrap().key)
        } else {
            before.index()
        })
        &&& self.eviction() == before.eviction()
        &&& self.capacity() == before.capacity()
        &&& self.usage() + before.record(token).data().unwrap().weight == before.usage()
        &&& metas(&self.records()) == metas(&before.records()).remove(token.slot())
    }

    /// Freeing a record that the policy does not track leaves the order of eviction as it is.
    proof fn lemma_retired_order(&self, before: Self, token: RecordToken)
        requires
            self.retired(before, token),
        ensures
            self.order() == before.order(),
    {
        let before_metas = metas(&before.records);
        let after_metas = metas(&self.records);
        before.lemma_wf();
        assert(before.kept(token.slot()));
        before.eviction.lemma_wf(before_metas);
        before.eviction.lemma_without_idle(before_metas, token.slot());
        assert forall|i: int| 0 <= i < self.eviction.window().len() implies
            before_metas[#[trigger] self.eviction.window()[i]].hash
            == after_metas[self.eviction.window()[i]].hash by {
            assert(before.eviction.slots(Queue::Window)[i] != token.slot());
        }
        assert forall|i: int| 0 <= i < self.eviction.probation().len() implies
            before_metas[#[trigger] self.eviction.probation()[i]].hash
            == after_metas[self.eviction.probation()[i]].hash by {
            assert(before.eviction.slots(Queue::Probation)[i] != token.slot());
        }
        assert forall|i: int| 0 <= i < self.eviction.protected().len() implies
            before_metas[#[trigger] self.eviction.protected()[i]].hash
            == after_metas[self.eviction.protected()[i]].hash by {
            assert(before.eviction.slots(Queue::Protected)[i] != token.slot());
        }
        lemma_eviction_order_frame(
            before_metas,
            after_metas,
            self.eviction.estimates(),
            self.eviction.window(),
            self.eviction.probation(),
            self.eviction.protected(),
        );
    }

    /// A victim without a handle was popped and freed: the shard is as after an eviction.
    proof fn lemma_evicted(&self, round: Self, popped: Self, token: RecordToken)
        requires
            round.wf(),
            round.shrunk(&popped),
            popped.usage() == round.usage(),
            popped.index() == round.index(),
            forall|other: RecordToken| #[trigger]
                popped.records().live(other) <==> round.records().live(other),
            round.record(token).in_eviction(),
            popped.record(token).ref_count() == 0,
            self.retired(popped, token),
        ensures
            round.shrunk(self),
    {
        self.lemma_retired_order(popped, token);
        let first = round.order();
        let second = self.order();
        assert(second =~= first.skip(first.len() - second.len()));
        assert(popped.kept(token.slot()));
        assert forall|other: RecordToken| #[trigger]
            self.records().live(other) implies round.records().live(other) && same_entry(
            round.record(other),
            self.record(other),
        ) && (self.record(other).in_eviction() ==> round.record(other).in_eviction()) by {
            assert(popped.records().live(other));
        }
        assert forall|other: RecordToken|
            round.records().live(other) && !(#[trigger] self.records().live(other)) implies
                round.record(
            other,
        ).ref_count() == 0 && round.record(other).in_eviction() && self.records().spent(other) by {
            assert(popped.records().live(other));
            assert(other.slot() == token.slot());
            other.lemma_identity(token);
            assert(same_entry(round.record(token), popped.record(token)));
        }
        assert forall|other: RecordToken| #[trigger]
            round.records().spent(other) implies self.records().spent(other) by {
            assert(popped.records().spent(other));
            if other.slot() == token.slot() {
                assert(popped.records().generation(token.slot()) == token.generation());
            }
        }
        assert forall|key: K|
            round.index().dom().contains(key)
                && !(#[trigger] self.index().dom().contains(key)) implies !self.records().live(
            round.index()[key],
        ) by {
            assert(popped.indexed(key)) by {
                popped.lemma_wf();
            }
        }
    }

    /// The usage of the shard once the first `taken` slots in the order of eviction were taken
    /// out of the policy, and the records among them that had no handle were freed.
    pub open spec fn usage_after(&self, taken: int) -> int
        decreases taken,
    {
        if taken <= 0 {
            self.usage() as int
        } else {
            let record = self.records().records()[self.order()[taken - 1]];
            self.usage_after(taken - 1) - (if record.ref_count() == 0 {
                record.data().unwrap().weight as int
            } else {
                0
            })
        }
    }

    /// What holds of a shard after records were evicted from it to make room for `weight`
    /// more, with the entries that were handed out before and after. As many victims were
    /// taken as it took, one by one in the order of eviction, and no more: before each of
    /// them the usage and `weight` were more than the capacity, and after the last they are
    /// not, unless the policy has no record left. Each victim without a handle was freed and
    /// its entry handed out; each victim with a handle stayed in the shard.
    pub open spec fn evicted(
        &self,
        after: &Self,
        weight: usize,
        given: Seq<(K, V, H, usize)>,
        handed: Seq<(K, V, H, usize)>,
    ) -> bool {
        let victims = self.order().len() - after.order().len();
        &&& self.shrunk(after)
        &&& after.usage() + weight <= after.capacity() || after.order().len() == 0
        &&& after.usage() == self.usage_after(victims)
        &&& forall|taken: int|
            0 <= taken < victims ==> #[trigger] self.usage_after(taken) + weight > self.capacity()
        &&& given.len() <= handed.len()
        &&& handed.take(given.len() as int) == given
        &&& forall|i: int| given.len() <= i < handed.len() ==> self.freed(after, #[trigger] handed[i])
        &&& forall|token: RecordToken|
            self.records().live(token) && !(#[trigger] after.records().live(token)) ==> handed_out(
                handed,
                given.len() as int,
                payload_of(self.record(token)),
            )
        &&& forall|token: RecordToken|
            self.records().live(token) && self.record(token).in_eviction() && self.record(
                token,
            ).ref_count() == 0 && #[trigger] after.records().live(token) ==> after.record(
                token,
            ).in_eviction()
    }

    /// The entry is that of a record that was in the shard before and was freed since.
    pub open spec fn freed(&self, after: &Self, entry: (K, V, H, usize)) -> bool {
        exists|token: RecordToken|
            {
                &&& #[trigger] self.records().live(token)
                &&& after.records().spent(token)
                &&& entry == payload_of(self.record(token))
            }
    }

    /// A record that was freed stays freed.
    proof fn lemma_freed_later(&self, between: &Self, after: &Self, entry: (K, V, H, usize))
        requires
            self.freed(between, entry),
            forall|token: RecordToken| #[trigger]
                between.records().spent(token) ==> after.records().spent(token),
        ensures
            self.freed(after, entry),
    {
        let token = choose|token: RecordToken|
            {
                &&& #[trigger] self.records().live(token)
                &&& between.records().spent(token)
                &&& entry == payload_of(self.record(token))
            };
        assert(after.records().spent(token));
    }

    /// One more victim was taken: the usage is what the order of eviction says it is.
    proof fn lemma_usage_after_next(&self, round: &Self, after: &Self, token: RecordToken, victims: int)
        requires
            self.shrunk(round),
            victims == self.order().len() - round.order().len(),
            round.usage() == self.usage_after(victims),
            round.records().live(token),
            round.order().len() > 0,
            token.slot() == round.order()[0],
            after.order() == round.order().skip(1),
            after.usage() == round.usage() - (if round.record(token).ref_count() == 0 {
                round.record(token).data().unwrap().weight as int
            } else {
                0
            }),
        ensures
            after.usage() == self.usage_after(victims + 1),
            victims + 1 == self.order().len() - after.order().len(),
    {
        assert(round.order()[0] == self.order()[victims]);
        assert(same_entry(self.record(token), round.record(token)));
    }

    /// A record that was freed before, or the one that was freed now, had its entry handed
    /// out.
    proof fn lemma_handed_out_next(
        &self,
        round: &Self,
        after: &Self,
        gone: Option<RecordToken>,
        given: Seq<(K, V, H, usize)>,
        round_handed: Seq<(K, V, H, usize)>,
        handed: Seq<(K, V, H, usize)>,
    )
        requires
            self.shrunk(round),
            given.len() <= round_handed.len() <= handed.len(),
            handed.take(round_handed.len() as int) == round_handed,
            forall|token: RecordToken|
                self.records().live(token) && !(#[trigger] round.records().live(token)) ==> handed_out(
                    round_handed,
                    given.len() as int,
                    payload_of(self.record(token)),
                ),
            forall|token: RecordToken|
                Some(token) != gone ==> (#[trigger] after.records().live(token) <==> round.records().live(
                    token,
                )),
            gone matches Some(token) ==> round.records().live(token) && handed.len() == round_handed.len()
                + 1 && handed[round_handed.len() as int] == payload_of(round.record(token)),
        ensures
            forall|token: RecordToken|
                self.records().live(token) && !(#[trigger] after.records().live(token)) ==> handed_out(
                    handed,
                    given.len() as int,
                    payload_of(self.record(token)),
                ),
    {
        assert forall|token: RecordToken|
            self.records().live(token) && !(#[trigger] after.records().live(token)) implies handed_out(
            handed,
            given.len() as int,
            payload_of(self.record(token)),
        ) by {
            if Some(token) == gone {
                assert(same_entry(self.record(token), round.record(token)));
                assert(handed[round_handed.len() as int] == payload_of(self.record(token)));
            } else {
                assert(!round.records().live(token));
                let entry = payload_of(self.record(token));
                let at = choose|at: int|
                    given.len() <= at < round_handed.len() && #[trigger] round_handed[at] == entry;
                assert(handed.take(round_handed.len() as int)[at] == handed[at]);
                assert(handed[at] == entry);
            }
        }
    }

    /// Evicts records until the shard has room for `weight` more, or until the policy tracks
    /// no record. The victims are taken in the policy's order of eviction. A victim without a
    /// handle is freed, and its entry is added to `to_release`; a victim with a handle stays
    /// in the shard, indexed but no longer tracked.
    pub fn evict(&mut self, weight: usize, to_release: &mut Vec<(K, V, H, usize)>)
        requires
            old(self).wf(),
            old(self).usage() + weight <= usize::MAX,
        ensures
            final(self).wf(),
            old(self).evicted(final(self), weight, old(to_release)@, final(to_release)@),
            old(self).usage() + weight <= old(self).capacity() ==> final(self).records() == old(
                self,
            ).records() && final(self).eviction() == old(self).eviction() && final(to_release)@ == old(
                to_release,
            )@,
    {
        let ghost before = *self;
        let ghost given = to_release@;
        proof {
            let whole = self.order();
            assert(whole.skip(0) =~= whole);
            assert(to_release@.take(given.len() as int) =~= given);
        }
        while self.usage + weight > self.capacity
            invariant
                self.wf(),
                before.wf(),
                before.shrunk(self),
                self.usage + weight <= usize::MAX,
                before.usage() + weight <= before.capacity() ==> self.records() == before.records()
                    && self.eviction() == before.eviction() && to_release@ == given,
                self.usage() == before.usage_after(before.order().len() - self.order().len()),
                forall|taken: int|
                    0 <= taken < before.order().len() - self.order().len()
                        ==> #[trigger] before.usage_after(taken) + weight > before.capacity(),
                given.len() <= to_release@.len(),
                to_release@.take(given.len() as int) == given,
                forall|i: int|
                    given.len() <= i < to_release@.len() ==> before.freed(self, #[trigger] to_release@[i]),
                forall|token: RecordToken|
                    before.records().live(token) && !(#[trigger] self.records().live(token))
                        ==> handed_out(to_release@, given.len() as int, payload_of(before.record(token))),
                forall|token: RecordToken|
                    before.records().live(token) && before.record(token).in_eviction()
                        && before.record(token).ref_count() == 0 && #[trigger] self.records().live(token)
                        ==> self.record(token).in_eviction(),
            ensures
                self.usage + weight <= self.capacity || self.order().len() == 0,
            decreases self.order().len(),
        {
            let ghost round = *self;
            let ghost round_handed = to_release@;
            let ghost victims = before.order().len() - round.order().len();
            let token = match self.pop_victim() {
                Some(token) => token,
                None => {
                    proof {
                        before.lemma_shrunk_twice(&round, self);
                        assert forall|i: int| given.len() <= i < to_release@.len() implies before.freed(
                            self,
                            #[trigger] to_release@[i],
                        ) by {
                            assert(before.freed(&round, round_handed[i]));
                            before.lemma_freed_later(&round, self, round_handed[i]);
                        }
                        assert(round_handed.take(round_handed.len() as int) =~= round_handed);
                        before.lemma_handed_out_next(&round, self, None, given, round_handed, to_release@);
                    }
                    break ;
                },
            };
            let ghost popped = *self;
            let release = self.records.resolve(token).refs() == 0;
            proof {
                assert(before.records().live(token));
                assert(same_entry(before.record(token), round.record(token)));
                assert(same_entry(round.record(token), popped.record(token)));
            }
            if release {
                let entry = self.retire(token);
                to_release.push(entry);
                proof {
                    self.lemma_evicted(round, popped, token);
                    before.lemma_shrunk_twice(&round, self);
                    self.lemma_retired_order(popped, token);
                    self.lemma_retired_tokens(popped, token);
                    assert(to_release@.take(given.len() as int) =~= round_handed.take(given.len() as int));
                    assert(to_release@.take(round_handed.len() as int) =~= round_handed);
                    assert(popped.kept(token.slot())) by {
                        popped.lemma_wf();
                    }
                    assert(before.kept(token.slot())) by {
                        before.lemma_wf();
                    }
                    assert(round.kept(token.slot())) by {
                        round.lemma_wf();
                    }
                    assert(entry == payload_of(round.record(token)));
                    assert forall|i: int| given.len() <= i < to_release@.len() implies before.freed(
                        self,
                        #[trigger] to_release@[i],
                    ) by {
                        if i < round_handed.len() {
                            assert(to_release@[i] == round_handed[i]);
                            assert(before.freed(&round, round_handed[i]));
                            before.lemma_freed_later(&round, self, round_handed[i]);
                        } else {
                            assert(to_release@[i] == payload_of(before.record(token)));
                            assert(before.records().live(token) && self.records().spent(token));
                        }
                    }
                    before.lemma_usage_after_next(&round, self, token, victims);
                    before.lemma_handed_out_next(&round, self, Some(token), given, round_handed, to_release@);
                    assert forall|other: RecordToken|
                        before.records().live(other) && before.record(other).in_eviction()
                            && before.record(other).ref_count() == 0 && #[trigger] self.records().live(
                            other,
                        ) implies self.record(other).in_eviction() by {
                        assert(other != token);
                        assert(popped.records().live(other));
                        assert(round.records().live(other));
                        assert(self.record(other) == popped.record(other));
                    }
                }
            } else {
                proof {
                    before.lemma_shrunk_twice(&round, self);
                    assert(round_handed.take(round_handed.len() as int) =~= round_handed);
                    assert forall|i: int| given.len() <= i < to_release@.len() implies before.freed(
                        self,
                        #[trigger] to_release@[i],
                    ) by {
                        assert(before.freed(&round, round_handed[i]));
                        before.lemma_freed_later(&round, self, round_handed[i]);
                    }
                    before.lemma_usage_after_next(&round, self, token, victims);
                    before.lemma_handed_out_next(&round, self, None, given, round_handed, to_release@);
                    assert forall|other: RecordToken|
                        before.records().live(other) && before.record(other).in_eviction()
                            && before.record(other).ref_count() == 0 && #[trigger] self.records().live(
                            other,
                        ) implies self.record(other).in_eviction() by {
                        assert(round.records().live(other));
                        if other == token {
                            assert(before.record(token).ref_count() == round.record(token).ref_count());
                        }
                    }
                }
            }
        }
    }
}

impl<K, V, H, I: Indexer<K>> GenericCacheShard<K, V, H, I> {
    /// A record that the policy does not track weighs no more than what the shard holds
    /// beside the records that the policy tracks.
    proof fn lemma_room(&self, slot: usize)
        requires
            self.wf(),
            self.records.records().dom().contains(slot),
            !self.records.records()[slot].in_eviction(),
        ensures
            metas(&self.records).dom().contains(slot),
            metas(&self.records)[slot].queue == Queue::Untracked,
            self.eviction.weight() + metas(&self.records)[slot].weight <= self.usage,
    {
        let metas = metas(&self.records);
        assert(self.kept(slot));
        self.eviction.lemma_wf(metas);
        let held = self.eviction.window() + self.eviction.probation() + self.eviction.protected();
        let at = self.slots@.index_of(slot);
        assert(self.slots@.contains(slot));
        let rest = self.slots@.remove(at);
        assert(metas[slot].queue == Queue::Untracked) by {
            if metas[slot].queue != Queue::Untracked {
                let queue = metas[slot].queue;
                let i = self.eviction.slots(queue).index_of(slot);
                assert(self.eviction.slots(queue)[i] == slot);
            }
        }
        assert forall|i: int| 0 <= i < held.len() implies rest.contains(#[trigger] held[i]) by {
            let w = self.eviction.window().len() as int;
            let p = self.eviction.probation().len() as int;
            if i < w {
                assert(self.eviction.slots(Queue::Window)[i] == held[i]);
            } else if i < w + p {
                assert(self.eviction.slots(Queue::Probation)[i - w] == held[i]);
            } else {
                assert(self.eviction.slots(Queue::Protected)[i - w - p] == held[i]);
            }
            assert(metas.dom().contains(held[i]));
            assert(held[i] != slot);
            let k = self.slots@.index_of(held[i]);
            assert(self.slots@.contains(held[i]));
            if k < at {
                assert(rest[k] == held[i]);
            } else {
                assert(rest[k - 1] == held[i]);
            }
        }
        lemma_total_weight_subset(metas, held, rest);
        lemma_total_weight_remove(metas, self.slots@, at);
    }

    /// Looks a key up. On a hit the record gets one more handle, is no longer a deposit, and
    /// its access is counted by the policy; the token of the record is returned. A key that is
    /// not indexed, or whose record cannot take another handle, is a miss, and nothing changes.
    pub fn get(&mut self, hash: u64, key: &K) -> (hit: Option<RecordToken>)
        requires
            old(self).wf(),
        ensures
            final(self).wf(),
            final(self).index() == old(self).index(),
            final(self).usage() == old(self).usage(),
            final(self).capacity() == old(self).capacity(),
            hit is Some <==> old(self).index().dom().contains(*key) && old(self).record(
                old(self).index()[*key],
            ).ref_count() < usize::MAX,
            match hit {
                Some(token) => {
                    &&& token == old(self).index()[*key]
                    &&& final(self).records().live(token)
                    &&& final(self).record(token).ref_count()
                        == old(self).record(token).ref_count() + 1
                    &&& final(self).record(token).data() == old(self).record(token).data()
                    &&& !final(self).record(token).deposit()
                    &&& final(self).record(token).in_indexer()
                    &&& final(self).record(token).in_eviction()
                        == old(self).record(token).in_eviction()
                    &&& final(self).records().records() == old(self).records().records().insert(
                        token.slot(),
                        final(self).record(token),
                    )
                    &&& old(self).eviction().bumped(
                        &final(self).eviction(),
                        old(self).record(token).data().unwrap().hash,
                    )
                    &&& final(self).eviction().window() == old(self).eviction().window()
                    &&& final(self).eviction().probation() == old(self).eviction().probation()
                    &&& final(self).eviction().protected() == old(self).eviction().protected()
                },
                None => final(self).records() == old(self).records()
                    && final(self).eviction() == old(self).eviction(),
            },
    {
        let ghost before = *self;
        let token = match self.indexer.lookup(hash, key) {
            Some(token) => token,
            None => {
                return None;
            },
        };
        proof {
            assert(before.indexed(*key));
            assert(before.kept(token.slot()));
        }
        if self.records.resolve(token).refs() == usize::MAX {
            return None;
        }
        let record = self.records.resolve_mut(token);
        record.inc_refs();
        record.set_deposit(false);
        proof {
            assert forall|other: K| self.indexer.view().dom().contains(other) implies
                #[trigger] self.indexed(
                other,
            ) by {
                assert(before.indexed(other));
            }
            assert forall|other: usize|
                other != token.slot()
                    && self.records.records().dom().contains(other) implies #[trigger] self.kept(
                other,
            ) by {
                assert(before.kept(other));
            }
            self.lemma_touched(before, token.slot());
        }
        let ghost touched = *self;
        self.eviction.acquire(&self.records, token);
        proof {
            assert forall|slot: usize|
                self.records.records().dom().contains(slot)
                    && (#[trigger] self.records.records()[slot]).in_eviction() implies
                        self.records.records()[slot].in_indexer() by {
                assert(touched.kept(slot));
            }
            self.lemma_policy_moved(touched);
        }
        Some(token)
    }
}

impl<K, V, H, I: Indexer<K>> GenericCacheShard<K, V, H, I> {
    /// Gives up one handle on a record. While other handles remain, nothing else changes. When
    /// the last handle goes, a record that is not indexed, or that is still a deposit, is
    /// freed and its entry handed out; any other record is given back to the policy, which
    /// repositions it or admits it again.
    pub fn release(&mut self, token: RecordToken) -> (entry: Option<(K, V, H, usize)>)
        requires
            old(self).wf(),
            old(self).records().live(token),
            old(self).record(token).ref_count() > 0,
        ensures
            final(self).wf(),
            final(self).capacity() == old(self).capacity(),
            entry is Some <==> old(self).record(token).ref_count() == 1 && (!old(self).record(
                token,
            ).in_indexer() || old(self).record(token).deposit()),
            forall|other: RecordToken|
                other != token ==> (#[trigger] final(self).records().live(other)
                    <==> old(self).records().live(other)),
            forall|other: RecordToken|
                other != token && #[trigger] final(self).records().live(other) ==> same_entry(
                    old(self).record(other),
                    final(self).record(other),
                ),
            match entry {
                Some(entry) => {
                    &&& entry == payload_of(old(self).record(token))
                    &&& final(self).records().spent(token)
                    &&& final(self).index() == (if old(self).record(token).in_indexer() {
                        old(self).index().remove(old(self).record(token).data().unwrap().key)
                    } else {
                        old(self).index()
                    })
                    &&& final(self).usage() + old(self).record(token).data().unwrap().weight
                        == old(self).usage()
                    &&& final(self).eviction().members() == old(self).eviction().members().remove(
                        token.slot(),
                    )
                    &&& old(self).eviction().without(&final(self).eviction(), token.slot())
                },
                None => {
                    &&& final(self).records().live(token)
                    &&& final(self).record(token).ref_count()
                        == old(self).record(token).ref_count() - 1
                    &&& final(self).record(token).data().unwrap().key == old(self).record(
                        token,
                    ).data().unwrap().key
                    &&& final(self).record(token).data().unwrap().value == old(self).record(
                        token,
                    ).data().unwrap().value
                    &&& final(self).record(token).data().unwrap().weight == old(self).record(
                        token,
                    ).data().unwrap().weight
                    &&& final(self).record(token).data().unwrap().hint == old(self).record(
                        token,
                    ).data().unwrap().hint
                    &&& final(self).record(token).data().unwrap().hash == old(self).record(
                        token,
                    ).data().unwrap().hash
                    &&& final(self).record(token).in_indexer()
                        == old(self).record(token).in_indexer()
                    &&& final(self).record(token).deposit() == old(self).record(token).deposit()
                    &&& final(self).index() == old(self).index()
                    &&& final(self).usage() == old(self).usage()
                    &&& old(self).record(token).ref_count() > 1 ==>
                        final(self).eviction() == old(self).eviction()
                    &&& old(self).record(token).ref_count() == 1 ==> final(self).record(
                        token,
                    ).in_eviction() && old(self).eviction().released(
                        &final(self).eviction(),
                        metas(&old(self).records()),
                        token.slot(),
                    )
                },
            },
    {
        let ghost before = *self;
        let ghost slot = token.slot();
        proof {
            before.lemma_wf();
            assert(before.kept(slot));
            before.eviction.lemma_wf(metas(&before.records));
        }
        let record = self.records.resolve(token);
        let refs = record.refs();
        let indexed = record.is_in_indexer();
        let deposit = record.is_deposit();
        let held = record.is_in_eviction();
        if refs > 1 {
            let record = self.records.resolve_mut(token);
            record.dec_refs();
            proof {
                assert(self.records.records().dom() =~= before.records.records().dom());
                self.lemma_kept_others(before, slot);
                self.lemma_touched(before, slot);
                self.lemma_same_tokens(before);
                assert forall|other: RecordToken|
                    other != token && #[trigger] self.records().live(other) implies same_entry(
                    before.record(other),
                    self.record(other),
                ) by {
                    if other.slot() == slot {
                        other.lemma_identity(token);
                    }
                }
            }
            return None;
        }
        if !indexed {
            let entry = self.retire(token);
            proof {
                self.lemma_retired_tokens(before, token);
                before.eviction.lemma_without_idle(metas(&before.records), slot);
                before.eviction.lemma_without_idle_same(metas(&before.records), slot);
                assert(self.eviction.members() =~= before.eviction.members().remove(slot));
                assert forall|other: RecordToken|
                    other != token && #[trigger] self.records().live(other) implies same_entry(
                    before.record(other),
                    self.record(other),
                ) by {
                    assert(self.record(other) == before.record(other));
                }
            }
            return Some(entry);
        }
        if deposit {
            if held {
                self.eviction.remove(&mut self.records, token);
                proof {
                    self.lemma_policy_wrote(before, Some(slot));
                    assert(self.kept(slot));
                }
            }
            let ghost detached = *self;
            proof {
                assert(before.records.generation(slot) == detached.records.generation(slot));
                detached.lemma_wf();
                assert(detached.kept(slot));
                if !held {
                    before.eviction.lemma_without_idle(metas(&before.records), slot);
                    before.eviction.lemma_without_idle_same(metas(&before.records), slot);
                }
            }
            let entry = self.retire(token);
            proof {
                self.lemma_retired_tokens(detached, token);
                assert(same_entry(before.record(token), detached.record(token)));
                assert(self.eviction.members() =~= before.eviction.members().remove(slot));
                assert forall|other: RecordToken|
                    other != token && #[trigger] self.records().live(other) implies same_entry(
                    before.record(other),
                    self.record(other),
                ) by {
                    assert(detached.records().live(other));
                    assert(before.records.generation(other.slot()) == detached.records.generation(
                        other.slot(),
                    ));
                    assert(same_entry(
                        before.records.records()[other.slot()],
                        detached.records.records()[other.slot()],
                    ));
                }
                assert forall|other: RecordToken|
                    other != token implies (#[trigger] self.records().live(other)
                        <==> before.records().live(
                    other,
                )) by {
                    assert(before.records.generation(other.slot()) == detached.records.generation(
                        other.slot(),
                    ));
                    assert(detached.records().live(other) <==> before.records().live(other));
                }
            }
            return Some(entry);
        }
        let record = self.records.resolve_mut(token);
        record.dec_refs();
        proof {
            assert(self.records.records().dom() =~= before.records.records().dom());
            self.lemma_kept_others(before, slot);
            self.lemma_touched(before, slot);
            if !held {
                self.lemma_room(slot);
            }
        }
        let ghost counted = *self;
        self.eviction.release(&mut self.records, token);
        proof {
            self.lemma_policy_wrote(counted, Some(slot));
            counted.lemma_same_tokens(before);
            self.eviction.lemma_wf(metas(&self.records));
            assert(self.eviction.members().contains(slot));
            assert(metas(&self.records)[slot].flagged) by {
                let held = self.eviction;
                if held.window().contains(slot) {
                    let i = held.window().index_of(slot);
                    assert(held.slots(Queue::Window)[i] == slot);
                } else if held.probation().contains(slot) {
                    let i = held.probation().index_of(slot);
                    assert(held.slots(Queue::Probation)[i] == slot);
                } else {
                    let i = held.protected().index_of(slot);
                    assert(held.slots(Queue::Protected)[i] == slot);
                }
            }
            assert forall|other: RecordToken|
                other != token && #[trigger] self.records().live(other) implies same_entry(
                before.record(other),
                self.record(other),
            ) by {
                assert(counted.records.generation(other.slot())
                    == self.records.generation(other.slot()));
                assert(same_entry(
                    counted.records.records()[other.slot()],
                    self.records.records()[other.slot()],
                ));
                if other.slot() == slot {
                    other.lemma_identity(token);
                }
            }
            assert forall|other: RecordToken|
                other != token implies (#[trigger] self.records().live(other)
                    <==> before.records().live(
                other,
            )) by {
                assert(counted.records.generation(other.slot())
                    == self.records.generation(other.slot()));
            }
            assert(counted.records.generation(slot) == self.records.generation(slot));
            assert(same_entry(counted.records.records()[slot], self.records.records()[slot]));
        }
        None
    }

    /// Every other record is kept as before when one record changed and the index did not.
    proof fn lemma_kept_others(&self, before: Self, slot: usize)
        requires
            before.wf(),
            self.indexer == before.indexer,
            self.records.records().dom() == before.records.records().dom(),
            forall|other: usize|
                other != slot ==> self.records.records()[other] == before.records.records()[other],
            forall|other: usize| self.records.generation(other) == before.records.generation(other),
            self.records.records()[slot].data() == before.records.records()[slot].data(),
            self.records.records()[slot].in_indexer()
                == before.records.records()[slot].in_indexer(),
        ensures
            forall|key: K| self.indexer.view().dom().contains(key) ==> #[trigger] self.indexed(key),
            forall|other: usize|
                other != slot && self.records.records().dom().contains(other) ==>
                    #[trigger] self.kept(other),
    {
        assert forall|key: K| self.indexer.view().dom().contains(key) implies
            #[trigger] self.indexed(key) by {
            assert(before.indexed(key));
        }
        assert forall|other: usize|
            other != slot && self.records.records().dom().contains(other) implies
                #[trigger] self.kept(
            other,
        ) by {
            assert(before.kept(other));
        }
    }

    /// The same tokens are live when the same slots are in use in the same generations.
    proof fn lemma_same_tokens(&self, before: Self)
        requires
            self.records.records().dom() == before.records.records().dom(),
            forall|other: usize| self.records.generation(other) == before.records.generation(other),
        ensures
            forall|token: RecordToken| #[trigger]
                self.records().live(token) <==> before.records().live(token),
    {
    }

    /// After a record was freed, every other token is as live as before, and names the same
    /// record.
    proof fn lemma_retired_tokens(&self, before: Self, token: RecordToken)
        requires
            self.retired(before, token),
        ensures
            forall|other: RecordToken|
                other != token ==> (#[trigger] self.records().live(other)
                    <==> before.records().live(other)),
            forall|other: RecordToken|
                other != token && #[trigger] self.records().live(other) ==> self.record(other)
                    == before.record(other),
    {
        assert forall|other: RecordToken| other != token implies
            (#[trigger] self.records().live(other)
            <==> before.records().live(other)) by {
            if other.slot() == token.slot() {
                if before.records().live(other) {
                    other.lemma_identity(token);
                }
            }
        }
    }

    /// The policy wrote to the records, and tracks no record that it did not track before but
    /// perhaps the one in `slot`, which is indexed: the invariant still holds.
    proof fn lemma_policy_wrote(&self, before: Self, slot: Option<usize>)
        requires
            before.wf(),
            self.records.wf(),
            self.eviction.wf(metas(&self.records)),
            same_entries(&before.records, &self.records),
            self.indexer == before.indexer,
            self.slots == before.slots,
            self.usage == before.usage,
            forall|other: usize|
                Some(other) != slot && self.eviction.members().contains(other) ==>
                    before.eviction.members().contains(
                    other,
                ),
            slot matches Some(slot) ==> before.records.records().dom().contains(slot)
                && before.records.records()[slot].in_indexer(),
        ensures
            self.wf(),
    {
        let before_metas = metas(&before.records);
        let after_metas = metas(&self.records);
        before.eviction.lemma_wf(before_metas);
        self.eviction.lemma_wf(after_metas);
        assert forall|other: usize|
            self.records.records().dom().contains(other)
                && (#[trigger] self.records.records()[other]).in_eviction() implies
                    self.records.records()[other].in_indexer() by {
            assert(before.kept(other));
            assert(same_entry(before.records.records()[other], self.records.records()[other]));
            assert(after_metas.dom().contains(other));
            assert(after_metas[other].flagged);
            if Some(other) != slot {
                let queue = after_metas[other].queue;
                assert(queue != Queue::Untracked);
                assert(self.eviction.slots(queue).contains(other));
                assert(self.eviction.members().contains(other));
                assert(before.eviction.members().contains(other));
                if before.eviction.window().contains(other) {
                    let i = before.eviction.window().index_of(other);
                    assert(before.eviction.slots(Queue::Window)[i] == other);
                } else if before.eviction.probation().contains(other) {
                    let i = before.eviction.probation().index_of(other);
                    assert(before.eviction.slots(Queue::Probation)[i] == other);
                } else {
                    let i = before.eviction.protected().index_of(other);
                    assert(before.eviction.slots(Queue::Protected)[i] == other);
                }
                assert(before_metas[other].flagged);
            }
        }
        self.lemma_policy_moved(before);
    }
}

impl<K, V, H, I: Indexer<K>> GenericCacheShard<K, V, H, I> {
    /// Invalidates a key: takes it out of the index and its record out of the policy. A
    /// record without a handle is freed and its entry handed out with the token; a record
    /// with handles stays until the last of them is released.
    pub fn remove(&mut self, hash: u64, key: &K) -> (removed: Option<(RecordToken, Option<(K, V, H, usize)>)>)
        requires
            old(self).wf(),
        ensures
            final(self).wf(),
            final(self).capacity() == old(self).capacity(),
            final(self).index() == old(self).index().remove(*key),
            removed is Some <==> old(self).index().dom().contains(*key),
            forall|other: RecordToken|
                Some(other) != named(removed) ==>
                    (#[trigger] final(self).records().live(other)
                        <==> old(self).records().live(other)),
            forall|other: RecordToken|
                Some(other) != named(removed) && #[trigger] final(self).records().live(other)
                    ==> same_entry(old(self).record(other), final(self).record(other)),
            match removed {
                Some((token, entry)) => {
                    &&& token == old(self).index()[*key]
                    &&& final(self).eviction().members() == old(self).eviction().members().remove(
                        token.slot(),
                    )
                    &&& old(self).eviction().without(&final(self).eviction(), token.slot())
                    &&& entry is Some <==> old(self).record(token).ref_count() == 0
                    &&& match entry {
                        Some(entry) => {
                            &&& entry == payload_of(old(self).record(token))
                            &&& final(self).records().spent(token)
                            &&& final(self).usage() + old(self).record(token).data().unwrap().weight
                                == old(self).usage()
                        },
                        None => {
                            &&& final(self).records().live(token)
                            &&& final(self).record(token).ref_count() == old(self).record(
                                token,
                            ).ref_count()
                            &&& final(self).record(token).data().unwrap().key == old(self).record(
                                token,
                            ).data().unwrap().key
                            &&& final(self).record(token).data().unwrap().value == old(self).record(
                                token,
                            ).data().unwrap().value
                            &&& final(self).record(token).data().unwrap().weight
                                == old(self).record(
                                token,
                            ).data().unwrap().weight
                            &&& final(self).record(token).data().unwrap().hint == old(self).record(
                                token,
                            ).data().unwrap().hint
                            &&& final(self).record(token).data().unwrap().hash == old(self).record(
                                token,
                            ).data().unwrap().hash
                            &&& final(self).record(token).deposit()
                                == old(self).record(token).deposit()
                            &&& !final(self).record(token).in_indexer()
                            &&& !final(self).record(token).in_eviction()
                            &&& final(self).usage() == old(self).usage()
                        },
                    }
                },
                None => final(self).records() == old(self).records()
                    && final(self).eviction() == old(self).eviction()
                        && final(self).usage() == old(self).usage(),
            },
    {
        let ghost before = *self;
        let token = match self.indexer.lookup(hash, key) {
            Some(token) => token,
            None => {
                proof {
                    assert(self.index().remove(*key) =~= self.index());
                }
                return None;
            },
        };
        let ghost slot = token.slot();
        proof {
            before.lemma_wf();
            assert(before.indexed(*key));
            assert(before.kept(slot));
            before.eviction.lemma_wf(metas(&before.records));
        }
        let held = self.records.resolve(token).is_in_eviction();
        if held {
            self.eviction.remove(&mut self.records, token);
            proof {
                self.lemma_policy_wrote(before, None);
            }
        } else {
            proof {
                before.eviction.lemma_without_idle(metas(&before.records), slot);
                assert(before.eviction.members().remove(slot) =~= before.eviction.members());
            }
        }
        let ghost detached = *self;
        proof {
            if !held {
                before.eviction.lemma_without_idle_same(metas(&before.records), slot);
            }
            assert(before.records.generation(slot) == detached.records.generation(slot));
            assert(same_entry(before.records.records()[slot], detached.records.records()[slot]));
            detached.lemma_wf();
            assert(detached.kept(slot));
            assert forall|other: RecordToken| #[trigger]
                detached.records().live(other) <==> before.records().live(other) by {
                assert(before.records.generation(other.slot()) == detached.records.generation(
                    other.slot(),
                ));
            }
            assert forall|other: RecordToken| #[trigger]
                detached.records().live(other) implies same_entry(
                before.record(other),
                detached.record(other),
            ) by {
                if held {
                    assert(same_entry(
                        before.records.records()[other.slot()],
                        detached.records.records()[other.slot()],
                    ));
                }
            }
        }
        if self.records.resolve(token).refs() == 0 {
            let entry = self.retire(token);
            proof {
                self.lemma_retired_tokens(detached, token);
                assert forall|other: RecordToken|
                    other != token && #[trigger] self.records().live(other) implies same_entry(
                    before.record(other),
                    self.record(other),
                ) by {
                    assert(detached.records().live(other));
                    assert(self.record(other) == detached.record(other));
                }
            }
            return Some((token, Some(entry)));
        }
        let record = self.records.resolve_mut(token);
        record.set_in_indexer(false);
        self.indexer.remove(hash, key);
        proof {
            assert(self.records.records().dom() =~= detached.records.records().dom());
            assert forall|other: K| self.indexer.view().dom().contains(other) implies
                #[trigger] self.indexed(
                other,
            ) by {
                assert(detached.indexed(other));
                assert(detached.indexed(*key));
            }
            assert forall|other: usize|
                other != slot && self.records.records().dom().contains(other) implies
                    #[trigger] self.kept(
                other,
            ) by {
                assert(detached.kept(other));
                let record = detached.records.records()[other];
                if record.in_indexer() {
                    assert(detached.indexed(record.data().unwrap().key));
                }
            }
            self.lemma_touched(detached, slot);
            self.lemma_same_tokens(detached);
            assert forall|other: RecordToken|
                other != token && #[trigger] self.records().live(other) implies same_entry(
                before.record(other),
                self.record(other),
            ) by {
                assert(detached.records().live(other));
                if other.slot() == slot {
                    other.lemma_identity(token);
                }
            }
        }
        Some((token, None))
    }
}

impl<K, V, H, I: Indexer<K>> GenericCacheShard<K, V, H, I> {
    /// A live record is flagged as tracked exactly if its slot is in the order of eviction.
    pub proof fn lemma_order_holds(&self, token: RecordToken)
        requires
            self.wf(),
            self.records().live(token),
        ensures
            self.record(token).in_eviction() <==> self.order().contains(token.slot()),
    {
        let metas = metas(&self.records);
        assert(self.kept(token.slot()));
        self.eviction.lemma_member(metas, token.slot());
        lemma_eviction_order_members(
            metas,
            self.eviction.estimates(),
            self.eviction.window(),
            self.eviction.probation(),
            self.eviction.protected(),
        );
        assert(self.order().contains(token.slot()) <==> self.order().to_set().contains(token.slot()));
    }

    /// The entry that gives way when an entry is stored under the key: the one that the
    /// record of the key holds, if the key is indexed.
    pub open spec fn replaced(&self, key: K) -> Seq<(K, V, H, usize)> {
        if self.index().dom().contains(key) {
            seq![payload_of(self.record(self.index()[key]))]
        } else {
            Seq::empty()
        }
    }

    /// What holds of a shard after an entry was stored in it, before anything is evicted.
    /// The record of a key that was indexed keeps its token and its handles, gets the new
    /// entry and one handle more; for any other key a new record with one handle is stored
    /// under a token that was never live, and the key is indexed. The record is flagged as
    /// indexed, the usage changes by the weight that came and the weight that went, and the
    /// policy takes the record out of its segment, if it was in one, and admits it again. No
    /// other record changes in what it holds.
    pub open spec fn placed(
        &self,
        after: &Self,
        token: RecordToken,
        key: K,
        value: V,
        hint: H,
        hash: u64,
        weight: usize,
        deposit: bool,
    ) -> bool {
        let existing = self.index().dom().contains(key);
        let meta = Meta { queue: Queue::Untracked, link: None, weight, hash, flagged: false };
        &&& after.capacity() == self.capacity()
        &&& after.index() == self.index().insert(key, token)
        &&& existing ==> token == self.index()[key]
        &&& !existing ==> !self.records().records().dom().contains(token.slot())
            && !self.records().spent(token)
        &&& after.holds(token, key, value, hint, hash, weight, deposit, if existing {
            self.record(token).ref_count() + 1
        } else {
            1
        })
        &&& after.record(token).in_eviction()
        &&& after.usage() + (if existing {
            self.record(token).data().unwrap().weight as int
        } else {
            0
        }) == self.usage() + weight
        &&& after.records().records().dom() == self.records().records().dom().insert(token.slot())
        &&& forall|slot: usize| after.records().generation(slot) == self.records().generation(slot)
        &&& forall|slot: usize|
            slot != token.slot() && self.records().records().dom().contains(slot) ==> same_entry(
                self.records().records()[slot],
                #[trigger] after.records().records()[slot],
            )
        &&& self.eviction().readmitted(
            &after.eviction(),
            metas(&self.records()).insert(token.slot(), meta),
            token.slot(),
        )
    }

    /// The record holds the given entry, flagged as indexed, with the given deposit flag and
    /// number of handles.
    pub open spec fn holds(
        &self,
        token: RecordToken,
        key: K,
        value: V,
        hint: H,
        hash: u64,
        weight: usize,
        deposit: bool,
        refs: int,
    ) -> bool {
        &&& self.records().live(token)
        &&& self.record(token).data() matches Some(data) && data.key == key && data.value == value
            && data.hint == hint && data.hash == hash && data.weight == weight
        &&& self.record(token).in_indexer()
        &&& self.record(token).deposit() == deposit
        &&& self.record(token).ref_count() == refs
    }

    /// Stores a new record for a key that is not indexed, indexes it, and admits it to the
    /// policy. The record has one handle.
    fn store(&mut self, key: K, value: V, hint: H, hash: u64, weight: usize, deposit: bool) -> (token:
        RecordToken)
        requires
            old(self).wf(),
            !old(self).index().dom().contains(key),
            old(self).usage() + weight <= usize::MAX,
        ensures
            final(self).wf(),
            final(self).capacity() == old(self).capacity(),
            final(self).usage() == old(self).usage() + weight,
            final(self).index() == old(self).index().insert(key, token),
            !old(self).records().records().dom().contains(token.slot()),
            !old(self).records().spent(token),
            final(self).holds(token, key, value, hint, hash, weight, deposit, 1),
            final(self).record(token).in_eviction(),
            final(self).records().records().dom() == old(self).records().records().dom().insert(
                token.slot(),
            ),
            forall|slot: usize| final(self).records().generation(slot)
                == old(self).records().generation(slot),
            forall|slot: usize|
                old(self).records().records().dom().contains(slot) ==> same_entry(
                    old(self).records().records()[slot],
                    #[trigger] final(self).records().records()[slot],
                ),
            final(self).eviction().members() == old(self).eviction().members().insert(token.slot()),
            old(self).placed(final(self), token, key, value, hint, hash, weight, deposit),
    {
        let ghost before = *self;
        let ghost before_metas = metas(&self.records);
        let mut record = Record::new();
        record.set(RecordData { key, value, hint, state: LfuState::default(), hash, weight });
        record.set_in_indexer(true);
        record.set_deposit(deposit);
        record.inc_refs();
        let token = self.records.insert(record);
        let ghost slot = token.slot();
        self.indexer.insert(hash, self.records.resolve(token).key(), token);
        self.usage = self.usage + weight;
        self.slots = Ghost(self.slots@.push(slot));
        proof {
            let added_metas = metas(&self.records);
            before.lemma_wf();
            let meta = Meta { queue: Queue::Untracked, link: None, weight, hash, flagged: false };
            assert(added_metas =~= before_metas.insert(slot, meta));
            before.eviction.lemma_wf(before_metas);
            before.eviction.lemma_with_idle(before_metas, slot, meta);
            assert(!before.slots@.contains(slot));
            assert forall|other: usize| self.records.records().dom().contains(other)
                <==> self.slots@.contains(
                other,
            ) by {
                assert(before.records.records().dom().contains(other)
                    <==> before.slots@.contains(other));
                if self.slots@.contains(other) {
                    let i = self.slots@.index_of(other);
                    if i < before.slots@.len() {
                        assert(before.slots@[i] == other);
                    }
                }
                if before.slots@.contains(other) {
                    let i = before.slots@.index_of(other);
                    assert(self.slots@[i] == other);
                }
                if other == slot {
                    assert(self.slots@[before.slots@.len() as int] == slot);
                }
            }
            assert forall|other: usize| self.records.records().dom().contains(other) implies #[trigger] self.kept(
                other,
            ) by {
                if other != slot {
                    assert(before.kept(other));
                    let record = before.records.records()[other];
                    if record.in_indexer() {
                        assert(before.index().dom().contains(record.data().unwrap().key));
                    }
                }
            }
            assert forall|other: K| self.indexer.view().dom().contains(other) implies
                #[trigger] self.indexed(
                other,
            ) by {
                if other != key {
                    assert(before.indexed(other));
                }
            }
            lemma_total_weight_frame(before_metas, added_metas, before.slots@);
            lemma_total_weight_push(added_metas, before.slots@, slot);
            assert(self.wf());
            self.lemma_room(slot);
        }
        let ghost added = *self;
        self.eviction.push(&mut self.records, token);
        proof {
            self.lemma_policy_wrote(added, Some(slot));
            assert(same_entry(added.records.records()[slot], self.records.records()[slot]));
            assert(added.records.generation(slot) == self.records.generation(slot));
            assert forall|other: usize| before.records().records().dom().contains(other) implies same_entry(
                before.records().records()[other],
                #[trigger] self.records().records()[other],
            ) by {
                assert(before.kept(other));
                assert(added.records.records().dom().contains(other));
                assert(same_entry(added.records.records()[other], self.records.records()[other]));
            }
            assert forall|other: usize| self.records().generation(other)
                == before.records().generation(
                other,
            ) by {
                assert(added.records.generation(other) == self.records.generation(other));
            }
            self.eviction.lemma_wf(metas(&self.records));
            assert(self.eviction.members().contains(slot));
            assert(metas(&self.records)[slot].flagged) by {
                let held = self.eviction;
                if held.window().contains(slot) {
                    let i = held.window().index_of(slot);
                    assert(held.slots(Queue::Window)[i] == slot);
                } else if held.probation().contains(slot) {
                    let i = held.probation().index_of(slot);
                    assert(held.slots(Queue::Probation)[i] == slot);
                } else {
                    let i = held.protected().index_of(slot);
                    assert(held.slots(Queue::Protected)[i] == slot);
                }
            }
        }
        token
    }
}

impl<K, V, H, I: Indexer<K>> GenericCacheShard<K, V, H, I> {
    /// Gives the record of an indexed key a new entry, one more handle, and a new place in
    /// the policy, as a record that was just admitted. The entry that it held is handed out.
    fn replace(
        &mut self,
        token: RecordToken,
        key: K,
        value: V,
        hint: H,
        hash: u64,
        weight: usize,
        deposit: bool,
    ) -> (replaced: (K, V, H, usize))
        requires
            old(self).wf(),
            old(self).index().dom().contains(key),
            old(self).index()[key] == token,
            old(self).record(token).ref_count() < usize::MAX,
            old(self).usage() + weight <= usize::MAX,
        ensures
            final(self).wf(),
            replaced == payload_of(old(self).record(token)),
            final(self).capacity() == old(self).capacity(),
            final(self).usage() + old(self).record(token).data().unwrap().weight
                == old(self).usage()
                + weight,
            final(self).index() == old(self).index(),
            final(self).holds(
                token,
                key,
                value,
                hint,
                hash,
                weight,
                deposit,
                old(self).record(token).ref_count() + 1,
            ),
            final(self).record(token).in_eviction(),
            final(self).records().records().dom() == old(self).records().records().dom(),
            forall|slot: usize| final(self).records().generation(slot)
                == old(self).records().generation(slot),
            forall|slot: usize|
                slot != token.slot() && old(self).records().records().dom().contains(slot) ==>
                    same_entry(
                    old(self).records().records()[slot],
                    #[trigger] final(self).records().records()[slot],
                ),
            final(self).eviction().members() == old(self).eviction().members().insert(token.slot()),
            old(self).placed(final(self), token, key, value, hint, hash, weight, deposit),
    {
        let ghost before = *self;
        let ghost slot = token.slot();
        proof {
            before.lemma_wf();
            assert(before.indexed(key));
            assert(before.kept(slot));
            before.eviction.lemma_wf(metas(&before.records));
        }
        let held = self.records.resolve(token).is_in_eviction();
        if held {
            self.eviction.remove(&mut self.records, token);
            proof {
                self.lemma_policy_wrote(before, None);
            }
        } else {
            proof {
                before.eviction.lemma_without_idle(metas(&before.records), slot);
                before.eviction.lemma_without_idle_same(metas(&before.records), slot);
                assert(before.eviction.members().remove(slot) =~= before.eviction.members());
            }
        }
        let ghost detached = *self;
        let ghost detached_metas = metas(&self.records);
        proof {
            assert(before.eviction.without(&detached.eviction, slot));
            assert(detached.eviction.slots(Queue::Window) == dropped(before.eviction.window(), slot));
            assert(detached.eviction.slots(Queue::Probation) == dropped(
                before.eviction.probation(),
                slot,
            ));
            assert(detached.eviction.slots(Queue::Protected) == dropped(
                before.eviction.protected(),
                slot,
            ));
        }
        proof {
            assert(before.records.generation(slot) == detached.records.generation(slot));
            assert(same_entry(before.records.records()[slot], detached.records.records()[slot]));
            detached.lemma_wf();
            assert(detached.kept(slot));
            assert(detached.slots@.contains(slot));
        }
        let ghost at = self.slots@.index_of(slot);
        let record = self.records.resolve_mut(token);
        let replaced = record.take();
        record.set(RecordData { key, value, hint, state: LfuState::default(), hash, weight });
        record.set_deposit(deposit);
        record.inc_refs();
        proof {
            lemma_total_weight_remove(detached_metas, self.slots@, at);
        }
        self.usage = self.usage - replaced.weight + weight;
        proof {
            let swapped_metas = metas(&self.records);
            let meta = Meta { queue: Queue::Untracked, link: None, weight, hash, flagged: false };
            assert(swapped_metas =~= detached_metas.insert(slot, meta));
            detached.eviction.lemma_wf(detached_metas);
            detached.eviction.lemma_with_idle(detached_metas, slot, meta);
            assert(self.records.records().dom() =~= detached.records.records().dom());
            assert forall|other: usize| self.records.records().dom().contains(other)
                <==> self.slots@.contains(
                other,
            ) by {
                assert(detached.records.records().dom().contains(other)
                    <==> detached.slots@.contains(
                    other,
                ));
            }
            assert forall|other: usize| self.records.records().dom().contains(other) implies #[trigger] self.kept(
                other,
            ) by {
                assert(detached.kept(other));
            }
            assert forall|other: K| self.indexer.view().dom().contains(other) implies
                #[trigger] self.indexed(
                other,
            ) by {
                assert(detached.indexed(other));
            }
            lemma_total_weight_update(detached_metas, swapped_metas, self.slots@, at);
            assert(self.wf());
            self.lemma_room(slot);
        }
        let ghost swapped = *self;
        self.eviction.push(&mut self.records, token);
        proof {
            self.lemma_policy_wrote(swapped, Some(slot));
            assert(swapped.records.records().dom().contains(slot));
            assert(same_entry(swapped.records.records()[slot], self.records.records()[slot]));
            assert(swapped.records.generation(slot) == self.records.generation(slot));
            assert forall|other: usize|
                other != slot && before.records().records().dom().contains(other) implies
                    same_entry(
                before.records().records()[other],
                #[trigger] self.records().records()[other],
            ) by {
                assert(before.kept(other));
                assert(detached.records.records().dom().contains(other));
                assert(swapped.records.records().dom().contains(other));
                if held {
                    assert(same_entry(before.records.records()[other], detached.records.records()[other]));
                }
                assert(same_entry(swapped.records.records()[other], self.records.records()[other]));
            }
            assert forall|other: usize| self.records().generation(other)
                == before.records().generation(
                other,
            ) by {
                assert(swapped.records.generation(other) == self.records.generation(other));
                assert(before.records.generation(other) == detached.records.generation(other));
            }
            self.eviction.lemma_wf(metas(&self.records));
            assert(self.eviction.members().contains(slot));
            assert(metas(&self.records)[slot].flagged) by {
                let holder = self.eviction;
                if holder.window().contains(slot) {
                    let i = holder.window().index_of(slot);
                    assert(holder.slots(Queue::Window)[i] == slot);
                } else if holder.probation().contains(slot) {
                    let i = holder.probation().index_of(slot);
                    assert(holder.slots(Queue::Probation)[i] == slot);
                } else {
                    let i = holder.protected().index_of(slot);
                    assert(holder.slots(Queue::Protected)[i] == slot);
                }
            }
            assert(self.eviction.members() =~= before.eviction.members().insert(slot));
            let meta = Meta { queue: Queue::Untracked, link: None, weight, hash, flagged: false };
            assert(metas(&swapped.records) =~= metas(&before.records).insert(slot, meta));
            assert(before.eviction.readmitted(
                &self.eviction,
                metas(&before.records).insert(slot, meta),
                slot,
            ));
            assert(before.index().insert(key, token) =~= before.index());
            assert(before.records().records().dom().insert(slot) =~= before.records().records().dom());
        }
        (replaced.key, replaced.value, replaced.hint, replaced.weight)
    }
}

impl<K, V, H, I: Indexer<K>> GenericCacheShard<K, V, H, I> {
    /// Stores an entry and returns the token of its record, with one more handle on it. The
    /// record of a key that is indexed already keeps its token and its handles and gets the
    /// new entry; the entry that it held is added to `to_release`. For any other key a new
    /// record is stored and indexed. Either way the record enters the policy as the most
    /// recently admitted. After that, records are evicted as by [`Self::evict`] until the
    /// usage is within the capacity or the policy tracks no record.
    pub fn emplace(
        &mut self,
        key: K,
        value: V,
        hint: H,
        hash: u64,
        weight: usize,
        deposit: bool,
        to_release: &mut Vec<(K, V, H, usize)>,
    ) -> (token: RecordToken)
        requires
            old(self).wf(),
            old(self).usage() + weight <= usize::MAX,
            old(self).index().dom().contains(key) ==>
                old(self).record(old(self).index()[key]).ref_count()
                < usize::MAX,
        ensures
            final(self).wf(),
            final(self).capacity() == old(self).capacity(),
            final(self).usage() <= final(self).capacity() || final(self).order().len() == 0,
            final(self).usage() <= old(self).usage() + weight,
            old(self).index().dom().contains(key) ==> token == old(self).index()[key],
            !old(self).index().dom().contains(key) ==> !old(self).records().live(token)
                && !old(self).records().spent(token),
            final(self).index().dom().contains(key) && final(self).index()[key] == token,
            final(self).records().live(token),
            final(self).record(token).data() matches Some(data) && data.key == key
                && data.value == value
                && data.hint == hint && data.hash == hash && data.weight == weight,
            final(self).record(token).in_indexer(),
            final(self).record(token).deposit() == deposit,
            final(self).record(token).ref_count() == (if old(self).index().dom().contains(key) {
                old(self).record(token).ref_count() + 1
            } else {
                1
            }),
            forall|other: RecordToken|
                other != token && #[trigger] final(self).records().live(other) ==>
                    old(self).records().live(other)
                        && same_entry(old(self).record(other), final(self).record(other)),
            forall|other: RecordToken|
                other != token && old(self).records().live(other)
                    && !(#[trigger] final(self).records().live(other)) ==>
                        old(self).record(other).ref_count() == 0
                            && final(self).records().spent(other),
            forall|other: K|
                other != key && #[trigger] final(self).index().dom().contains(other) ==>
                    old(self).index().dom().contains(other)
                        && final(self).index()[other] == old(self).index()[other],
            exists|stored: Self|
                {
                    &&& #[trigger] old(self).placed(&stored, token, key, value, hint, hash, weight, deposit)
                    &&& stored.wf()
                    &&& stored.evicted(
                        final(self),
                        0,
                        old(to_release)@ + old(self).replaced(key),
                        final(to_release)@,
                    )
                    &&& final(self).record(token).in_eviction() || stored.order().take(
                        stored.order().len() - final(self).order().len(),
                    ).contains(token.slot())
                },
            old(to_release)@.len() <= final(to_release)@.len(),
            final(to_release)@.take(old(to_release)@.len() as int) == old(to_release)@,
            forall|i: int|
                old(to_release)@.len() <= i < final(to_release)@.len() ==> old(self).freed(
                    final(self),
                    #[trigger] final(to_release)@[i],
                ) || (old(self).index().dom().contains(key) && final(to_release)@[i] == payload_of(
                    old(self).record(token),
                )),
    {
        let ghost before = *self;
        let ghost released = to_release@;
        proof {
            before.lemma_wf();
        }
        let token = match self.indexer.lookup(hash, &key) {
            Some(token) => {
                proof {
                    assert(before.indexed(key));
                    assert(before.kept(token.slot()));
                }
                let replaced = self.replace(token, key, value, hint, hash, weight, deposit);
                to_release.push(replaced);
                token
            },
            None => self.store(key, value, hint, hash, weight, deposit),
        };
        let ghost stored = *self;
        let ghost filled = to_release@;
        proof {
            assert(filled =~= released + before.replaced(key));
            assert(filled.take(released.len() as int) =~= released);
            assert(stored.kept(token.slot())) by {
                stored.lemma_wf();
            }
        }
        self.evict(0, to_release);
        proof {
            stored.lemma_order_holds(token);
            assert(self.records().live(token)) by {
                if !self.records().live(token) {
                    assert(stored.record(token).ref_count() == 0);
                }
            }
            self.lemma_order_holds(token);
            let victims = stored.order().len() - self.order().len();
            let at = stored.order().index_of(token.slot());
            if at < victims {
                assert(stored.order().take(victims)[at] == token.slot());
            } else {
                assert(self.order()[at - victims] == token.slot());
            }
            assert(before.placed(&stored, token, key, value, hint, hash, weight, deposit));
            self.lemma_wf();
            assert(to_release@.take(released.len() as int) =~= to_release@.take(filled.len() as int).take(
                released.len() as int,
            ));
            // The record of the entry has a handle, and so it was not freed.
            assert(self.records().live(token)) by {
                if !self.records().live(token) {
                    assert(stored.record(token).ref_count() == 0);
                }
            }
            assert(same_entry(stored.record(token), self.record(token)));
            assert(self.kept(token.slot()));
            assert(self.indexed(key)) by {
                if !self.index().dom().contains(key) {
                    assert(!self.records().live(stored.index()[key]));
                }
            }
            assert forall|other: RecordToken|
                other != token && #[trigger] self.records().live(other) implies
                    before.records().live(
                other,
            ) && same_entry(before.record(other), self.record(other)) by {
                assert(stored.records().live(other));
                if other.slot() == token.slot() {
                    other.lemma_identity(token);
                }
                assert(before.records().generation(other.slot()) == stored.records().generation(
                    other.slot(),
                ));
                assert(before.records().records().dom().contains(other.slot()));
                assert(same_entry(
                    before.records().records()[other.slot()],
                    stored.records().records()[other.slot()],
                ));
            }
            assert forall|other: RecordToken|
                other != token && before.records().live(other) && !(#[trigger] self.records().live(
                    other,
                )) implies before.record(other).ref_count() == 0 && self.records().spent(other) by {
                assert(before.records().generation(other.slot()) == stored.records().generation(
                    other.slot(),
                ));
                assert(stored.records().live(other));
                if other.slot() == token.slot() {
                    other.lemma_identity(token);
                }
                assert(same_entry(
                    before.records().records()[other.slot()],
                    stored.records().records()[other.slot()],
                ));
            }
            assert forall|i: int| released.len() <= i < to_release@.len() implies before.freed(
                self,
                #[trigger] to_release@[i],
            ) || (before.index().dom().contains(key) && to_release@[i] == payload_of(
                before.record(token),
            )) by {
                if i < filled.len() {
                    assert(to_release@.take(filled.len() as int)[i] == filled[i]);
                } else {
                    assert(stored.freed(self, to_release@[i]));
                    let witness = choose|witness: RecordToken|
                        {
                            &&& #[trigger] stored.records().live(witness)
                            &&& self.records().spent(witness)
                            &&& to_release@[i] == payload_of(stored.record(witness))
                        };
                    assert(witness != token);
                    assert(before.records().generation(witness.slot())
                        == stored.records().generation(
                        witness.slot(),
                    ));
                    if witness.slot() == token.slot() {
                        witness.lemma_identity(token);
                    }
                    assert(before.records().live(witness));
                    assert(same_entry(
                        before.records().records()[witness.slot()],
                        stored.records().records()[witness.slot()],
                    ));
                    assert(before.kept(witness.slot()));
                    assert(stored.kept(witness.slot())) by {
                        stored.lemma_wf();
                    }
                }
            }
        }
        token
    }
}

} // verus!
