use foyer_memory::eviction::lfu::LfuState;
use foyer_memory::record::{Flags, Record, RecordData, RecordResolver, DEPOSIT, IN_EVICTION, IN_INDEXER};

fn data(key: u64, weight: usize) -> RecordData<u64, String, (), LfuState> {
    RecordData {
        key,
        value: format!("value-{key}"),
        hint: (),
        state: LfuState::default(),
        hash: key * 31,
        weight,
    }
}

#[test]
fn test_record_payload() {
    let mut record = Record::new();
    assert_eq!(record.refs(), 0);
    assert_eq!(record.flags(), 0);
    record.set(data(3, 7));
    assert_eq!(*record.key(), 3);
    assert_eq!(record.value(), "value-3");
    assert_eq!(*record.hint(), ());
    assert_eq!(record.hash(), 93);
    assert_eq!(record.weight(), 7);
    let taken = record.take();
    assert_eq!(taken.key, 3);
    assert_eq!(taken.weight, 7);
    record.set(data(4, 1));
    assert_eq!(*record.key(), 4);
}

#[test]
fn test_record_state_mut() {
    let mut record: Record<u64, u64, (), u32> = Record::new();
    record.set(RecordData { key: 1, value: 2, hint: (), state: 5, hash: 1, weight: 1 });
    *record.state_mut() = 9;
    assert_eq!(*record.state(), 9);
    assert_eq!(*record.value(), 2);
}

#[test]
fn test_record_flags_are_independent() {
    let mut record: Record<u64, u64, (), ()> = Record::new();
    assert!(!record.is_in_indexer() && !record.is_in_eviction() && !record.is_deposit());

    record.set_in_eviction(true);
    assert!(!record.is_in_indexer());
    assert!(record.is_in_eviction());
    assert!(!record.is_deposit());
    assert_eq!(record.flags(), IN_EVICTION);

    record.set_in_indexer(true);
    record.set_deposit(true);
    assert_eq!(record.flags(), IN_INDEXER | IN_EVICTION | DEPOSIT);
    // Reading a flag leaves the others as they are.
    assert!(record.is_in_indexer());
    assert!(record.is_in_eviction());
    assert!(record.is_deposit());

    record.set_in_eviction(false);
    assert!(record.is_in_indexer());
    assert!(!record.is_in_eviction());
    assert!(record.is_deposit());
    assert_eq!(record.flags(), IN_INDEXER | DEPOSIT);
}

#[test]
fn test_record_flag_sets() {
    let mut record: Record<u64, u64, (), ()> = Record::new();
    let both = Flags::in_indexer().union(Flags::deposit());
    assert_eq!(both.bits(), 0b101);
    assert_eq!(both, Flags::from_bits(5));
    assert!(!record.get_flags(both));
    record.set_flags(Flags::deposit(), true);
    assert!(record.get_flags(both));
    assert!(!record.get_flags(Flags::in_eviction()));
    record.set_flags(both, false);
    assert_eq!(record.flags(), 0);
}

#[test]
fn test_record_refs() {
    let mut record: Record<u64, u64, (), ()> = Record::new();
    assert_eq!(record.inc_refs(), 1);
    assert_eq!(record.inc_refs(), 2);
    assert_eq!(record.dec_refs(), 1);
    assert_eq!(record.refs(), 1);
}

#[test]
fn test_resolver_tokens() {
    let mut records: RecordResolver<u64, String, (), LfuState> = RecordResolver::new();
    let mut first = Record::new();
    first.set(data(1, 1));
    let mut second = Record::new();
    second.set(data(2, 1));
    let a = records.insert(first);
    let b = records.insert(second);
    assert_ne!(a, b);
    assert!(records.contains(a) && records.contains(b));
    assert_eq!(*records.resolve(a).key(), 1);
    assert_eq!(*records.resolve(b).key(), 2);
    assert_eq!(records.token_at(b.index()), b);

    records.resolve_mut(a).set_in_indexer(true);
    assert!(records.resolve(a).is_in_indexer());
    assert!(!records.resolve(b).is_in_indexer());

    let removed = records.remove(a);
    assert_eq!(*removed.key(), 1);
    assert!(!records.contains(a));
    assert!(records.contains(b));

    // The slot is used again, under a token of its own.
    let mut third = Record::new();
    third.set(data(3, 1));
    let c = records.insert(third);
    assert_eq!(c.index(), a.index());
    assert_ne!(c, a);
    assert!(!records.contains(a));
    assert_eq!(*records.resolve(c).key(), 3);
}
