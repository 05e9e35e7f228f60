//! Eviction policies over record tokens.

use crate::record::{same_entries, RecordResolver, RecordToken};
use vstd::prelude::*;

pub mod lfu;

verus! {

/// What a caller may say of an entry to the eviction policy.
pub trait Hint: Send + Sync + 'static + Default {

}

impl<T> Hint for T where T: Send + Sync + 'static + Default {

}

/// What an eviction policy keeps with each record.
pub trait State: Send + Sync + 'static + Default {

}

impl<T> State for T where T: Send + Sync + 'static + Default {

}

/// What an eviction policy is configured with.
pub trait Config: Send + Sync + 'static + Clone + Default {

}

impl<T> Config for T where T: Send + Sync + 'static + Clone + Default {

}

/// Whether an operation of a policy needs the policy mutably.
pub enum Operator {
    Mutable,
    Immutable,
}

/// An eviction policy over the records of an arena.
///
/// A policy tracks records by their slots and decides which of them goes first. It owns no
/// record: it reads the hash and the weight of a record, and writes the state that it keeps
/// with the record and the flag `IN_EVICTION`. Every operation needs the policy and the arena
/// under exclusive access.
pub trait Eviction<K, V>: Sized {
    /// What a caller may say of an entry to the policy.
    type Hint: Hint;

    /// What the policy keeps with each record.
    type State: State;

    /// The slots of the records that the policy tracks.
    spec fn members(&self) -> Set<usize>;

    /// The policy's invariant over the records that it is used with.
    spec fn wf(&self, records: &RecordResolver<K, V, Self::Hint, Self::State>) -> bool;

    /// The part of the invariant that holds whatever the records are.
    spec fn inv(&self) -> bool;

    /// The policy can take the record in: there is room in its counters for the record.
    spec fn accepts(&self, records: &RecordResolver<K, V, Self::Hint, Self::State>, token: RecordToken) -> bool;

    /// What `acquire` needs of the policy: a policy that says `Immutable` is left as it is
    /// by every `acquire`.
    spec fn acquire_mode() -> Operator;

    /// What `release` needs of the policy: a policy that says `Immutable` is left as it is
    /// by every `release` of a record that it tracks.
    spec fn release_mode() -> Operator;

    /// Whether `acquire` changes the policy.
    fn acquire_op() -> (op: Operator)
        ensures
            op == Self::acquire_mode(),
    ;

    /// Whether `release` changes the policy.
    fn release_op() -> (op: Operator)
        ensures
            op == Self::release_mode(),
    ;

    /// Admits a record that the policy does not track.
    fn push(&mut self, records: &mut RecordResolver<K, V, Self::Hint, Self::State>, token: RecordToken)
        requires
            old(records).wf(),
            old(self).wf(old(records)),
            old(records).live(token),
            old(records).record(token).data() is Some,
            !old(self).members().contains(token.slot()),
            old(self).accepts(old(records), token),
        ensures
            final(records).wf(),
            final(self).wf(final(records)),
            final(self).inv(),
            same_entries(old(records), final(records)),
            final(self).members() == old(self).members().insert(token.slot()),
            final(records).record(token).in_eviction(),
    ;

    /// Selects a victim and stops tracking it. Returns nothing only if no record is tracked.
    fn pop(&mut self, records: &mut RecordResolver<K, V, Self::Hint, Self::State>) -> (evicted: Option<
        RecordToken,
    >)
        requires
            old(records).wf(),
            old(self).wf(old(records)),
        ensures
            final(records).wf(),
            final(self).wf(final(records)),
            final(self).inv(),
            same_entries(old(records), final(records)),
            match evicted {
                Some(token) => {
                    &&& final(records).live(token)
                    &&& old(self).members().contains(token.slot())
                    &&& final(self).members() == old(self).members().remove(token.slot())
                    &&& !final(records).record(token).in_eviction()
                },
                None => old(self).members() == Set::<usize>::empty()
                    && final(self).members() == old(self).members(),
            },
    ;

    /// Stops tracking a record that the policy tracks.
    fn remove(&mut self, records: &mut RecordResolver<K, V, Self::Hint, Self::State>, token: RecordToken)
        requires
            old(records).wf(),
            old(self).wf(old(records)),
            old(records).live(token),
            old(self).members().contains(token.slot()),
        ensures
            final(records).wf(),
            final(self).wf(final(records)),
            final(self).inv(),
            same_entries(old(records), final(records)),
            final(self).members() == old(self).members().remove(token.slot()),
            !final(records).record(token).in_eviction(),
    ;

    /// Records an access to a record. The same records are tracked afterwards.
    fn acquire(&mut self, records: &RecordResolver<K, V, Self::Hint, Self::State>, token: RecordToken)
        requires
            old(self).wf(records),
            records.wf(),
            records.live(token),
            records.record(token).data() is Some,
        ensures
            final(self).wf(records),
            final(self).inv(),
            final(self).members() == old(self).members(),
            Self::acquire_mode() is Immutable ==> *final(self) == *old(self),
    ;

    /// Takes a record back after an access: a record that the policy tracks may change its
    /// place, and any other record is admitted.
    fn release(&mut self, records: &mut RecordResolver<K, V, Self::Hint, Self::State>, token: RecordToken)
        requires
            old(records).wf(),
            old(self).wf(old(records)),
            old(records).live(token),
            old(records).record(token).data() is Some,
            old(self).members().contains(token.slot()) || old(self).accepts(old(records), token),
        ensures
            final(records).wf(),
            final(self).wf(final(records)),
            final(self).inv(),
            same_entries(old(records), final(records)),
            final(self).members() == old(self).members().insert(token.slot()),
            final(records).record(token).in_eviction(),
            Self::release_mode() is Immutable && old(self).members().contains(token.slot()) ==> *final(self)
                == *old(self),
    ;

    /// The number of records that the policy tracks.
    fn len(&self) -> (len: usize)
        requires
            self.inv(),
        ensures
            self.members().finite(),
            len == self.members().len(),
    ;

    /// Whether the policy tracks no record.
    fn is_empty(&self) -> (empty: bool)
        requires
            self.inv(),
        ensures
            empty <==> self.members() == Set::<usize>::empty(),
    ;

    /// Stops tracking every record, and returns the tokens of the records in the order of
    /// eviction.
    fn clear(&mut self, records: &mut RecordResolver<K, V, Self::Hint, Self::State>) -> (evicted: Vec<
        RecordToken,
    >)
        requires
            old(records).wf(),
            old(self).wf(old(records)),
        ensures
            final(records).wf(),
            final(self).wf(final(records)),
            final(self).inv(),
            same_entries(old(records), final(records)),
            final(self).members() == Set::<usize>::empty(),
            forall|slot: usize|
                old(self).members().contains(slot) <==> exists|i: int|
                    0 <= i < evicted@.len() && (#[trigger] evicted@[i]).slot() == slot,
            forall|i: int|
                0 <= i < evicted@.len() ==> final(records).live(#[trigger] evicted@[i])
                    && !final(records).record(evicted@[i]).in_eviction(),
    ;
}

} // verus!
