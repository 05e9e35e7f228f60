//! Records, the flags they carry, and the tokens that address them.
//!
//! A record is owned by one shard, and every access to it goes through that owner: the
//! reference count and the flags are plain words that change only under the owner's exclusive
//! borrow. A handle is therefore counted and given up under the lock of its shard: there is
//! no path that changes a count without the lock.

use vstd::prelude::*;

verus! {

/// The bit of the flag "the indexer maps a key to this record".
pub const IN_INDEXER: u64 = 0b0000_0001;

/// The bit of the flag "the eviction engine tracks this record".
pub const IN_EVICTION: u64 = 0b0000_0010;

/// The bit of the flag "this record is a placeholder for a value that is still being loaded".
pub const DEPOSIT: u64 = 0b0000_0100;

/// A set of record flags, one bit each.
#[derive(Debug, Clone, Copy, PartialEq, Eq, Structural)]
pub struct Flags {
    bits: u64,
}

impl View for Flags {
    type V = u64;

    /// The bits of the flags in the set.
    closed spec fn view(&self) -> u64 {
        self.bits
    }
}

impl Flags {
    /// The set that holds exactly the flags whose bits are given.
    pub fn from_bits(bits: u64) -> (flags: Self)
        ensures
            flags@ == bits,
    {
        Self { bits }
    }

    /// The set that holds `IN_INDEXER` alone.
    pub fn in_indexer() -> (flags: Self)
        ensures
            flags@ == IN_INDEXER,
    {
        Self { bits: IN_INDEXER }
    }

    /// The set that holds `IN_EVICTION` alone.
    pub fn in_eviction() -> (flags: Self)
        ensures
            flags@ == IN_EVICTION,
    {
        Self { bits: IN_EVICTION }
    }

    /// The set that holds `DEPOSIT` alone.
    pub fn deposit() -> (flags: Self)
        ensures
            flags@ == DEPOSIT,
    {
        Self { bits: DEPOSIT }
    }

    /// The bits of the flags in the set.
    pub fn bits(&self) -> (bits: u64)
        ensures
            bits == self@,
    {
        self.bits
    }

    /// The set of the flags that are in either set.
    pub fn union(self, other: Self) -> (flags: Self)
        ensures
            flags@ == self@ | other@,
    {
        Self { bits: self.bits | other.bits }
    }
}

/// What a record holds of its entry.
pub struct RecordData<K, V, H, S> {
    pub key: K,
    pub value: V,
    pub hint: H,
    pub state: S,
    pub hash: u64,
    pub weight: usize,
}

/// What a record holds of its entry.
pub type Data<K, V, H, S> = RecordData<K, V, H, S>;

/// One slot of per-entry data: the payload, the number of handles that refer to it, and its
/// flags. The payload is absent before the first `set` and after `take`.
pub struct Record<K, V, H, S> {
    data: Option<RecordData<K, V, H, S>>,
    refs: usize,
    flags: u64,
}

impl<K, V, H, S> Record<K, V, H, S> {
    /// The payload, if the record holds one.
    pub closed spec fn data(&self) -> Option<RecordData<K, V, H, S>> {
        self.data
    }

    /// The number of handles that refer to the record.
    pub closed spec fn ref_count(&self) -> usize {
        self.refs
    }

    /// The flags word.
    pub closed spec fn flag_bits(&self) -> u64 {
        self.flags
    }

    /// At least one of the given flags is set.
    pub open spec fn has(&self, flags: Flags) -> bool {
        self.flag_bits() & flags@ != 0
    }

    /// The flag `IN_INDEXER` is set.
    pub open spec fn in_indexer(&self) -> bool {
        self.flag_bits() & IN_INDEXER != 0
    }

    /// The flag `IN_EVICTION` is set.
    pub open spec fn in_eviction(&self) -> bool {
        self.flag_bits() & IN_EVICTION != 0
    }

    /// The flag `DEPOSIT` is set.
    pub open spec fn deposit(&self) -> bool {
        self.flag_bits() & DEPOSIT != 0
    }

    /// A record without a payload, without a handle and without a flag.
    pub fn new() -> (record: Self)
        ensures
            record.data() is None,
            record.ref_count() == 0,
            record.flag_bits() == 0,
            !record.in_indexer(),
            !record.in_eviction(),
            !record.deposit(),
    {
        assert(0u64 & 1 == 0 && 0u64 & 2 == 0 && 0u64 & 4 == 0) by (bit_vector);
        Self { data: None, refs: 0, flags: 0 }
    }

    /// Gives the record its payload. The record must hold none.
    pub fn set(&mut self, data: RecordData<K, V, H, S>)
        requires
            old(self).data() is None,
        ensures
            final(self).data() == Some(data),
            final(self).ref_count() == old(self).ref_count(),
            final(self).flag_bits() == old(self).flag_bits(),
    {
        self.data = Some(data);
    }

    /// Takes the payload out of the record. The record must hold one.
    pub fn take(&mut self) -> (data: RecordData<K, V, H, S>)
        requires
            old(self).data() is Some,
        ensures
            Some(data) == old(self).data(),
            final(self).data() is None,
            final(self).ref_count() == old(self).ref_count(),
            final(self).flag_bits() == old(self).flag_bits(),
    {
        match self.data.take() {
            Some(data) => data,
            None => vstd::pervasive::unreached(),
        }
    }

    /// The key of the entry. The record must hold a payload.
    pub fn key(&self) -> (key: &K)
        requires
            self.data() is Some,
        ensures
            *key == self.data().unwrap().key,
    {
        match &self.data {
            Some(data) => &data.key,
            None => vstd::pervasive::unreached(),
        }
    }

    /// The value of the entry. The record must hold a payload.
    pub fn value(&self) -> (value: &V)
        requires
            self.data() is Some,
        ensures
            *value == self.data().unwrap().value,
    {
        match &self.data {
            Some(data) => &data.value,
            None => vstd::pervasive::unreached(),
        }
    }

    /// The hint that came with the entry. The record must hold a payload.
    pub fn hint(&self) -> (hint: &H)
        requires
            self.data() is Some,
        ensures
            *hint == self.data().unwrap().hint,
    {
        match &self.data {
            Some(data) => &data.hint,
            None => vstd::pervasive::unreached(),
        }
    }

    /// The state that the eviction policy keeps with the record. The record must hold a
    /// payload.
    pub fn state(&self) -> (state: &S)
        requires
            self.data() is Some,
        ensures
            *state == self.data().unwrap().state,
    {
        match &self.data {
            Some(data) => &data.state,
            None => vstd::pervasive::unreached(),
        }
    }

    /// A mutable borrow of the state. Writing through it changes the state and nothing else.
    pub fn state_mut(&mut self) -> (state: &mut S)
        requires
            old(self).data() is Some,
        ensures
            *state == old(self).data().unwrap().state,
            final(self).data() == Some(
                (RecordData { state: *final(state), ..old(self).data().unwrap() }),
            ),
            final(self).ref_count() == old(self).ref_count(),
            final(self).flag_bits() == old(self).flag_bits(),
    {
        match &mut self.data {
            Some(data) => &mut data.state,
            None => vstd::pervasive::unreached(),
        }
    }

    /// The hash of the key. The record must hold a payload.
    pub fn hash(&self) -> (hash: u64)
        requires
            self.data() is Some,
        ensures
            hash == self.data().unwrap().hash,
    {
        match &self.data {
            Some(data) => data.hash,
            None => vstd::pervasive::unreached(),
        }
    }

    /// The weight of the entry. The record must hold a payload.
    pub fn weight(&self) -> (weight: usize)
        requires
            self.data() is Some,
        ensures
            weight == self.data().unwrap().weight,
    {
        match &self.data {
            Some(data) => data.weight,
            None => vstd::pervasive::unreached(),
        }
    }

    /// The number of handles that refer to the record.
    pub fn refs(&self) -> (refs: usize)
        ensures
            refs == self.ref_count(),
    {
        self.refs
    }

    /// Counts one more handle. The count must not be at its maximum.
    pub fn inc_refs(&mut self) -> (refs: usize)
        requires
            old(self).ref_count() < usize::MAX,
        ensures
            refs == old(self).ref_count() + 1,
            final(self).ref_count() == refs,
            final(self).data() == old(self).data(),
            final(self).flag_bits() == old(self).flag_bits(),
    {
        self.refs = self.refs + 1;
        self.refs
    }

    /// Counts one handle less. There must be a handle to give up.
    pub fn dec_refs(&mut self) -> (refs: usize)
        requires
            old(self).ref_count() > 0,
        ensures
            refs == old(self).ref_count() - 1,
            final(self).ref_count() == refs,
            final(self).data() == old(self).data(),
            final(self).flag_bits() == old(self).flag_bits(),
    {
        self.refs = self.refs - 1;
        self.refs
    }

    /// The flags word.
    pub fn flags(&self) -> (flags: u64)
        ensures
            flags == self.flag_bits(),
    {
        self.flags
    }

    /// Sets or clears the flag `IN_INDEXER`. No other flag changes.
    pub fn set_in_indexer(&mut self, val: bool)
        ensures
            final(self).flag_bits() == (if val {
                old(self).flag_bits() | IN_INDEXER
            } else {
                old(self).flag_bits() & !IN_INDEXER
            }),
            final(self).in_indexer() == val,
            final(self).in_eviction() == old(self).in_eviction(),
            final(self).deposit() == old(self).deposit(),
            final(self).data() == old(self).data(),
            final(self).ref_count() == old(self).ref_count(),
    {
        let ghost before = self.flags;
        self.set_flags(Flags::in_indexer(), val);
        proof {
            let after = self.flags;
            assert(after & 1 != 0 <==> val) by (bit_vector)
                requires
                    after == (if val { before | 1 } else { before & !1u64 }),
            ;
            assert((after & 2 != 0 <==> before & 2 != 0) && (after & 4 != 0 <==> before & 4 != 0))
                by (bit_vector)
                requires
                    after == (if val { before | 1 } else { before & !1u64 }),
            ;
        }
    }

    /// Whether the flag `IN_INDEXER` is set.
    pub fn is_in_indexer(&self) -> (set: bool)
        ensures
            set == self.in_indexer(),
    {
        self.get_flags(Flags::in_indexer())
    }

    /// Sets or clears the flag `IN_EVICTION`. No other flag changes.
    pub fn set_in_eviction(&mut self, val: bool)
        ensures
            final(self).flag_bits() == (if val {
                old(self).flag_bits() | IN_EVICTION
            } else {
                old(self).flag_bits() & !IN_EVICTION
            }),
            final(self).in_eviction() == val,
            final(self).in_indexer() == old(self).in_indexer(),
            final(self).deposit() == old(self).deposit(),
            final(self).data() == old(self).data(),
            final(self).ref_count() == old(self).ref_count(),
    {
        let ghost before = self.flags;
        self.set_flags(Flags::in_eviction(), val);
        proof {
            let after = self.flags;
            assert(after & 2 != 0 <==> val) by (bit_vector)
                requires
                    after == (if val { before | 2 } else { before & !2u64 }),
            ;
            assert((after & 1 != 0 <==> before & 1 != 0) && (after & 4 != 0 <==> before & 4 != 0))
                by (bit_vector)
                requires
                    after == (if val { before | 2 } else { before & !2u64 }),
            ;
        }
    }

    /// Whether the flag `IN_EVICTION` is set.
    pub fn is_in_eviction(&self) -> (set: bool)
        ensures
            set == self.in_eviction(),
    {
        self.get_flags(Flags::in_eviction())
    }

    /// Sets or clears the flag `DEPOSIT`. No other flag changes.
    pub fn set_deposit(&mut self, val: bool)
        ensures
            final(self).flag_bits() == (if val {
                old(self).flag_bits() | DEPOSIT
            } else {
                old(self).flag_bits() & !DEPOSIT
            }),
            final(self).deposit() == val,
            final(self).in_indexer() == old(self).in_indexer(),
            final(self).in_eviction() == old(self).in_eviction(),
            final(self).data() == old(self).data(),
            final(self).ref_count() == old(self).ref_count(),
    {
        let ghost before = self.flags;
        self.set_flags(Flags::deposit(), val);
        proof {
            let after = self.flags;
            assert(after & 4 != 0 <==> val) by (bit_vector)
                requires
                    after == (if val { before | 4 } else { before & !4u64 }),
            ;
            assert((after & 1 != 0 <==> before & 1 != 0) && (after & 2 != 0 <==> before & 2 != 0))
                by (bit_vector)
                requires
                    after == (if val { before | 4 } else { before & !4u64 }),
            ;
        }
    }

    /// Whether the flag `DEPOSIT` is set.
    pub fn is_deposit(&self) -> (set: bool)
        ensures
            set == self.deposit(),
    {
        self.get_flags(Flags::deposit())
    }

    /// Sets the given flags if `val` holds, and clears them if not. No other flag changes.
    pub fn set_flags(&mut self, flags: Flags, val: bool)
        ensures
            final(self).flag_bits() == (if val {
                old(self).flag_bits() | flags@
            } else {
                old(self).flag_bits() & !flags@
            }),
            final(self).data() == old(self).data(),
            final(self).ref_count() == old(self).ref_count(),
    {
        if val {
            self.flags = self.flags | flags.bits();
        } else {
            self.flags = self.flags & !flags.bits();
        }
    }

    /// Whether at least one of the given flags is set. The flags word is left as it is.
    pub fn get_flags(&self, flags: Flags) -> (set: bool)
        ensures
            set == self.has(flags),
    {
        self.flags & flags.bits() != 0
    }
}

/// The address of a record: the slot that holds it and the generation of that slot at the time
/// the record was stored. A token carries no ownership.
#[derive(Debug, Clone, Copy, PartialEq, Eq, Structural)]
pub struct RecordToken {
    slot: usize,
    generation: u64,
}

impl RecordToken {
    /// The slot that the token names.
    pub closed spec fn slot(self) -> usize {
        self.slot
    }

    /// The generation of the slot that the token names.
    pub closed spec fn generation(self) -> u64 {
        self.generation
    }

    /// Two tokens with the same slot and generation are the same token.
    pub proof fn lemma_identity(self, other: Self)
        requires
            self.slot() == other.slot(),
            self.generation() == other.generation(),
        ensures
            self == other,
    {
    }

    /// The slot that the token names.
    pub fn index(&self) -> (slot: usize)
        ensures
            slot == self.slot(),
    {
        self.slot
    }
}

struct Entry<K, V, H, S> {
    generation: u64,
    record: Option<Record<K, V, H, S>>,
}

/// The arena that owns the records and resolves tokens to them.
///
/// Whoever holds the resolver mutably holds every record mutably: a token alone reaches
/// nothing. A slot that was freed is given out again only under a later generation, so a token
/// never comes to name a record other than the one it was issued for.
pub struct RecordResolver<K, V, H, S> {
    entries: Vec<Entry<K, V, H, S>>,
    vacant: Vec<usize>,
}

impl<K, V, H, S> RecordResolver<K, V, H, S> {
    /// The records in the arena, each under its slot.
    pub closed spec fn records(&self) -> Map<usize, Record<K, V, H, S>> {
        Map::new(
            |slot: usize| slot < self.entries@.len() && self.entries@[slot as int].record is Some,
            |slot: usize| self.entries@[slot as int].record.unwrap(),
        )
    }

    /// The generation that a slot is in. It never decreases.
    pub closed spec fn generation(&self, slot: usize) -> u64 {
        if slot < self.entries@.len() {
            self.entries@[slot as int].generation
        } else {
            0
        }
    }

    /// The token names a record that the arena holds now.
    pub open spec fn live(&self, token: RecordToken) -> bool {
        self.records().dom().contains(token.slot()) && self.generation(token.slot())
            == token.generation()
    }

    /// The record that a live token names.
    pub open spec fn record(&self, token: RecordToken) -> Record<K, V, H, S> {
        self.records()[token.slot()]
    }

    /// The record that the token named was removed. Such a token is never live again.
    pub open spec fn spent(&self, token: RecordToken) -> bool {
        self.generation(token.slot()) > token.generation()
    }

    /// The arena's invariant: the vacant list names each reusable slot once.
    pub closed spec fn wf(&self) -> bool {
        &&& self.vacant@.no_duplicates()
        &&& forall|i: int|
            0 <= i < self.vacant@.len() ==> {
                &&& (#[trigger] self.vacant@[i]) < self.entries@.len()
                &&& self.entries@[self.vacant@[i] as int].record is None
                &&& self.entries@[self.vacant@[i] as int].generation < u64::MAX
            }
        &&& forall|slot: int|
            0 <= slot < self.entries@.len() && (#[trigger] self.entries@[slot]).record is Some
                ==> self.entries@[slot].generation < u64::MAX
    }

    /// Every slot in use lies below the largest index there is.
    pub proof fn lemma_slot_bound(&self, slot: usize)
        requires
            self.records().dom().contains(slot),
        ensures
            slot < usize::MAX,
    {
        assert(self.entries@.len() == self.entries.len());
    }

    /// An arena without any record.
    pub fn new() -> (resolver: Self)
        ensures
            resolver.wf(),
            resolver.records() == Map::<usize, Record<K, V, H, S>>::empty(),
    {
        let resolver = Self { entries: Vec::new(), vacant: Vec::new() };
        assert(resolver.records() =~= Map::<usize, Record<K, V, H, S>>::empty());
        resolver
    }

    /// Stores a record and returns the token that names it from now on. The token was not
    /// live before, and was never issued for the slot's earlier records.
    pub fn insert(&mut self, record: Record<K, V, H, S>) -> (token: RecordToken)
        requires
            old(self).wf(),
        ensures
            final(self).wf(),
            !old(self).records().dom().contains(token.slot()),
            !old(self).spent(token),
            final(self).live(token),
            final(self).records() == old(self).records().insert(token.slot(), record),
            forall|slot: usize| final(self).generation(slot) == old(self).generation(slot),
    {
        let ghost before = *self;
        match self.vacant.pop() {
            Some(slot) => {
                assert(before.vacant@[before.vacant@.len() - 1] == slot);
                let generation = self.entries[slot].generation;
                self.entries[slot].record = Some(record);
                proof {
                    assert forall|i: int| 0 <= i < self.vacant@.len() implies {
                        &&& (#[trigger] self.vacant@[i]) < self.entries@.len()
                        &&& self.entries@[self.vacant@[i] as int].record is None
                        &&& self.entries@[self.vacant@[i] as int].generation < u64::MAX
                    } by {
                        assert(before.vacant@[i] == self.vacant@[i]);
                    }
                    assert(self.records() =~= before.records().insert(slot, record));
                }
                RecordToken { slot, generation }
            },
            None => {
                let slot = self.entries.len();
                self.entries.push(Entry { generation: 0, record: Some(record) });
                proof {
                    assert(self.records() =~= before.records().insert(slot, record));
                }
                RecordToken { slot, generation: 0 }
            },
        }
    }

    /// Takes the record that the token names out of the arena. The token is spent from then
    /// on; every other token stays as it was.
    pub fn remove(&mut self, token: RecordToken) -> (record: Record<K, V, H, S>)
        requires
            old(self).wf(),
            old(self).live(token),
        ensures
            final(self).wf(),
            record == old(self).record(token),
            final(self).records() == old(self).records().remove(token.slot()),
            final(self).spent(token),
            forall|slot: usize|
                slot != token.slot() ==> final(self).generation(slot) == old(self).generation(slot),
    {
        let ghost before = *self;
        let slot = token.slot;
        let record = match self.entries[slot].record.take() {
            Some(record) => record,
            None => vstd::pervasive::unreached(),
        };
        let generation = self.entries[slot].generation + 1;
        self.entries[slot].generation = generation;
        if generation < u64::MAX {
            proof {
                if self.vacant@.contains(slot) {
                    let i = self.vacant@.index_of(slot);
                    assert(before.entries@[before.vacant@[i] as int].record is None);
                }
            }
            self.vacant.push(slot);
        }
        proof {
            assert(self.records() =~= before.records().remove(slot));
        }
        record
    }

    /// Whether the token names a record that the arena holds now.
    pub fn contains(&self, token: RecordToken) -> (live: bool)
        ensures
            live == self.live(token),
    {
        token.slot < self.entries.len() && self.entries[token.slot].record.is_some()
            && self.entries[token.slot].generation == token.generation
    }

    /// The token of the record in a slot.
    pub fn token_at(&self, slot: usize) -> (token: RecordToken)
        requires
            self.records().dom().contains(slot),
        ensures
            self.live(token),
            token.slot() == slot,
    {
        RecordToken { slot, generation: self.entries[slot].generation }
    }

    /// The record that the token names. The token must be live.
    pub fn resolve(&self, token: RecordToken) -> (record: &Record<K, V, H, S>)
        requires
            self.live(token),
        ensures
            *record == self.record(token),
    {
        match &self.entries[token.slot].record {
            Some(record) => record,
            None => vstd::pervasive::unreached(),
        }
    }

    /// A mutable borrow of the record that the token names. The token must be live. Whatever
    /// is written through the borrow is what the arena holds afterwards for that token; no
    /// other record changes.
    pub fn resolve_mut(&mut self, token: RecordToken) -> (record: &mut Record<K, V, H, S>)
        requires
            old(self).wf(),
            old(self).live(token),
        ensures
            *record == old(self).record(token),
            final(self).wf(),
            final(self).records() == old(self).records().insert(token.slot(), *final(record)),
            forall|slot: usize| final(self).generation(slot) == old(self).generation(slot),
    {
        let ghost before = *self;
        let slot = token.slot;
        let record = match &mut self.entries[slot].record {
            Some(record) => record,
            None => vstd::pervasive::unreached(),
        };
        record
    }
}

/// Two records differ at most in what an eviction policy writes: the state and the flag
/// `IN_EVICTION`.
pub open spec fn same_entry<K, V, H, S>(
    before: Record<K, V, H, S>,
    after: Record<K, V, H, S>,
) -> bool {
    &&& before.ref_count() == after.ref_count()
    &&& before.in_indexer() == after.in_indexer()
    &&& before.deposit() == after.deposit()
    &&& match (before.data(), after.data()) {
        (Some(before), Some(after)) => {
            &&& before.key == after.key
            &&& before.value == after.value
            &&& before.hint == after.hint
            &&& before.hash == after.hash
            &&& before.weight == after.weight
        },
        (None, None) => true,
        _ => false,
    }
}

/// Two arenas hold the same records under the same tokens, but for what the policy writes.
pub open spec fn same_entries<K, V, H, S>(
    before: &RecordResolver<K, V, H, S>,
    after: &RecordResolver<K, V, H, S>,
) -> bool {
    &&& before.records().dom() == after.records().dom()
    &&& forall|slot: usize| #[trigger] before.generation(slot) == after.generation(slot)
    &&& forall|slot: usize| #[trigger]
        before.records().dom().contains(slot) ==> same_entry(
            before.records()[slot],
            after.records()[slot],
        )
}

} // verus!
