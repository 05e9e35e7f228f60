use cmsketch::CMSketchU16;
use foyer_memory::eviction::lfu::{Lfu, LfuConfig, Ratio};
use foyer_memory::generic::{shard_of, GenericCacheShard};
use foyer_memory::waiters::{Role, WaitList};
use foyer_memory::indexer::{HashIndexer, Indexer};
use foyer_memory::record::RecordToken;

type Shard = GenericCacheShard<u64, u64, (), HashIndexer<u64>>;

fn shard(capacity: usize) -> Shard {
    let config = LfuConfig {
        window_capacity_ratio: Ratio { numerator: 2, denominator: 10 },
        protected_capacity_ratio: Ratio { numerator: 6, denominator: 10 },
    };
    let eviction = Lfu::new(capacity, &config, CMSketchU16::new(0.01, 0.95));
    Shard::new(capacity, eviction, HashIndexer::new())
}

fn keys(shard: &Shard) -> Vec<u64> {
    let mut keys = Vec::new();
    for token in shard.dump() {
        keys.push(*shard.resolve(token).key());
    }
    keys
}

#[test]
fn test() {
    println!("{}", std::mem::size_of::<u64>());
    println!("{}", std::mem::size_of::<Option<u64>>());
}

#[test]
fn test_emplace_and_get() {
    let mut shard = shard(10);
    let mut released = Vec::new();
    let token = shard.emplace(7, 70, (), 7, 1, false, &mut released);
    assert!(released.is_empty());
    assert_eq!(shard.get_usage(), 1);
    assert!(shard.contains(token));
    assert_eq!(*shard.resolve(token).key(), 7);
    assert_eq!(*shard.resolve(token).value(), 70);
    assert_eq!(shard.resolve(token).refs(), 1);
    assert!(shard.resolve(token).is_in_indexer());
    assert!(shard.resolve(token).is_in_eviction());

    assert_eq!(shard.get(7, &7), Some(token));
    assert_eq!(shard.resolve(token).refs(), 2);
    assert_eq!(shard.get(8, &8), None);
    assert!(shard.policy().estimate(7) >= 2);
}

#[test]
fn test_emplace_replaces_in_place() {
    let mut shard = shard(10);
    let mut released = Vec::new();
    let first = shard.emplace(1, 10, (), 1, 2, false, &mut released);
    let second = shard.emplace(1, 11, (), 1, 3, false, &mut released);
    assert_eq!(first, second);
    assert_eq!(released, vec![(1, 10, (), 2)]);
    assert_eq!(*shard.resolve(first).value(), 11);
    assert_eq!(shard.resolve(first).weight(), 3);
    assert_eq!(shard.resolve(first).refs(), 2);
    assert_eq!(shard.get_usage(), 3);
}

#[test]
fn test_evict_frees_records_without_handles() {
    let mut shard = shard(4);
    let mut released = Vec::new();
    let mut tokens: Vec<RecordToken> = Vec::new();
    for key in 0..4u64 {
        let token = shard.emplace(key, key * 10, (), key, 1, false, &mut released);
        assert_eq!(shard.release(token), None);
        tokens.push(token);
    }
    assert_eq!(shard.get_usage(), 4);
    assert!(released.is_empty());

    // One more entry does not fit: the policy's first victim goes.
    let token = shard.emplace(4, 40, (), 4, 1, false, &mut released);
    assert_eq!(shard.get_usage(), 4);
    assert_eq!(released.len(), 1);
    let (key, value, _, weight) = released[0];
    assert_eq!(value, key * 10);
    assert_eq!(weight, 1);
    assert!(!shard.contains(tokens[key as usize]));
    assert_eq!(shard.get(key, &key), None);
    assert!(shard.contains(token));
}

#[test]
fn test_evict_keeps_records_with_handles() {
    let mut shard = shard(2);
    let mut released = Vec::new();
    let a = shard.emplace(1, 10, (), 1, 1, false, &mut released);
    let b = shard.emplace(2, 20, (), 2, 1, false, &mut released);
    // Both entries are held by their handles: nothing can be freed for a third.
    let c = shard.emplace(3, 30, (), 3, 1, false, &mut released);
    assert!(released.is_empty());
    assert_eq!(shard.get_usage(), 3);
    assert_eq!(shard.policy().len(), 0);
    assert!(shard.contains(a) && shard.contains(b) && shard.contains(c));
    assert!(!shard.resolve(a).is_in_eviction());

    // A released record goes back to the policy.
    assert_eq!(shard.release(a), None);
    assert!(shard.resolve(a).is_in_eviction());
    assert_eq!(shard.policy().len(), 1);
}

#[test]
fn test_release_frees_a_removed_record() {
    let mut shard = shard(10);
    let mut released = Vec::new();
    let token = shard.emplace(5, 50, (), 5, 2, false, &mut released);
    assert_eq!(shard.remove(5, &5), Some((token, None)));
    assert!(shard.contains(token));
    assert!(!shard.resolve(token).is_in_indexer());
    assert!(!shard.resolve(token).is_in_eviction());
    assert_eq!(shard.get(5, &5), None);
    assert_eq!(shard.get_usage(), 2);

    assert_eq!(shard.release(token), Some((5, 50, (), 2)));
    assert!(!shard.contains(token));
    assert_eq!(shard.get_usage(), 0);
}

#[test]
fn test_remove_frees_a_record_without_handles() {
    let mut shard = shard(10);
    let mut released = Vec::new();
    let token = shard.emplace(5, 50, (), 5, 2, false, &mut released);
    assert_eq!(shard.release(token), None);
    assert_eq!(shard.remove(5, &5), Some((token, Some((5, 50, (), 2)))));
    assert!(!shard.contains(token));
    assert_eq!(shard.remove(5, &5), None);
    assert_eq!(shard.get_usage(), 0);
}

#[test]
fn test_deposit_is_dropped_when_never_read() {
    let mut shard = shard(10);
    let mut released = Vec::new();
    let token = shard.emplace(9, 90, (), 9, 1, true, &mut released);
    assert!(shard.resolve(token).is_deposit());
    assert_eq!(shard.release(token), Some((9, 90, (), 1)));
    assert_eq!(shard.get(9, &9), None);
    assert_eq!(shard.get_usage(), 0);
}

#[test]
fn test_deposit_is_kept_once_read() {
    let mut shard = shard(10);
    let mut released = Vec::new();
    let token = shard.emplace(9, 90, (), 9, 1, true, &mut released);
    assert_eq!(shard.get(9, &9), Some(token));
    assert!(!shard.resolve(token).is_deposit());
    assert_eq!(shard.release(token), None);
    assert_eq!(shard.release(token), None);
    assert!(shard.contains(token));
    assert_eq!(keys(&shard), vec![9]);
}

#[test]
fn test_token_is_not_reused() {
    let mut shard = shard(10);
    let mut released = Vec::new();
    let first = shard.emplace(1, 10, (), 1, 1, false, &mut released);
    assert_eq!(shard.release(first), None);
    assert_eq!(shard.remove(1, &1), Some((first, Some((1, 10, (), 1)))));
    let second = shard.emplace(2, 20, (), 2, 1, false, &mut released);
    assert_ne!(first, second);
    assert!(!shard.contains(first));
    assert!(shard.contains(second));
}

#[test]
fn test_retain_counts_a_handle() {
    let mut shard = shard(10);
    let mut released = Vec::new();
    let token = shard.emplace(1, 10, (), 1, 1, false, &mut released);
    shard.retain(token);
    assert_eq!(shard.resolve(token).refs(), 2);
    assert_eq!(shard.release(token), None);
    assert_eq!(shard.release(token), None);
    assert_eq!(shard.resolve(token).refs(), 0);
}

#[test]
fn test_hash_indexer() {
    let mut shard = shard(10);
    let mut released = Vec::new();
    let a = shard.emplace(1, 10, (), 1, 1, false, &mut released);
    let b = shard.emplace(2, 20, (), 2, 1, false, &mut released);
    let mut indexer: HashIndexer<u64> = HashIndexer::new();
    assert_eq!(indexer.insert(1, &1, a), None);
    assert_eq!(indexer.insert(1, &1, b), Some(a));
    assert_eq!(indexer.lookup(1, &1), Some(b));
    assert_eq!(indexer.lookup(2, &2), None);
    assert_eq!(indexer.len(), 1);
    assert_eq!(indexer.remove(1, &1), Some(b));
    assert_eq!(indexer.remove(1, &1), None);
    assert_eq!(indexer.len(), 0);
}

#[test]
fn test_shard_of() {
    assert_eq!(shard_of(0, 1), 0);
    assert_eq!(shard_of(17, 4), 1);
    assert_eq!(shard_of(u64::MAX, 7), (u64::MAX % 7) as usize);
    for hash in 0..32 {
        assert!(shard_of(hash, 3) < 3);
    }
}

#[test]
fn test_wait_list() {
    let mut waiters: WaitList<u64> = WaitList::new();
    assert_eq!(waiters.waiting(&1), None);
    assert_eq!(waiters.join(&1), Some(Role::Leader));
    assert_eq!(waiters.join(&1), Some(Role::Waiter(0)));
    assert_eq!(waiters.join(&1), Some(Role::Waiter(1)));
    assert_eq!(waiters.join(&2), Some(Role::Leader));
    assert_eq!(waiters.waiting(&1), Some(2));
    assert_eq!(waiters.finish(&1), Some(2));
    assert_eq!(waiters.finish(&1), None);
    assert_eq!(waiters.join(&1), Some(Role::Leader));
    assert_eq!(waiters.finish(&2), Some(0));
}

#[test]
fn test_shard_lookup_counts_nothing() {
    let mut shard = shard(10);
    let mut released = Vec::new();
    let token = shard.emplace(1, 10, (), 1, 1, true, &mut released);
    let before = shard.policy().estimate(1);
    assert_eq!(shard.lookup(1, &1), Some(token));
    assert_eq!(shard.lookup(2, &2), None);
    assert_eq!(shard.policy().estimate(1), before);
    assert_eq!(shard.resolve(token).refs(), 1);
    assert!(shard.resolve(token).is_deposit());
}
