use cmsketch::CMSketchU16;
use foyer_memory::eviction::lfu::{Lfu, LfuConfig, LfuHint, LfuState, Ratio};
use foyer_memory::eviction::{Eviction, Operator};
use foyer_memory::record::{Record, RecordData, RecordResolver, RecordToken};

type Records = RecordResolver<u64, u64, (), LfuState>;

fn records(n: u64) -> (Records, Vec<RecordToken>) {
    let mut records = Records::new();
    let mut tokens = Vec::new();
    for i in 0..n {
        let mut record = Record::new();
        record.set(RecordData {
            key: i,
            value: i,
            hint: (),
            state: LfuState::default(),
            hash: i,
            weight: 1,
        });
        tokens.push(records.insert(record));
    }
    (records, tokens)
}

fn config() -> LfuConfig {
    // window: 2, probation: 2, protected: 6
    LfuConfig {
        window_capacity_ratio: Ratio { numerator: 2, denominator: 10 },
        protected_capacity_ratio: Ratio { numerator: 6, denominator: 10 },
    }
}

fn dump(lfu: &Lfu, records: &Records) -> Vec<u64> {
    lfu.dump(records).into_iter().map(|token| *records.resolve(token).key()).collect()
}

fn assert_test_lfu(
    lfu: &Lfu,
    records: &Records,
    len: usize,
    window: usize,
    probation: usize,
    protected: usize,
    entries: Vec<u64>,
) {
    assert_eq!(lfu.len(), len);
    let usage = lfu.usage();
    assert_eq!(usage[0], (window, window));
    assert_eq!(usage[1], (probation, probation));
    assert_eq!(usage[2], (protected, protected));
    assert_eq!(dump(lfu, records), entries);
}

fn assert_min_frequency(lfu: &Lfu, hash: u64, count: usize) {
    let freq = lfu.estimate(hash);
    assert!(freq >= count as u16, "assert {freq} >= {count} failed for {hash}");
}

#[test]
fn test_lfu() {
    let (mut records, ptrs) = records(100);
    let mut lfu = Lfu::new(10, &config(), CMSketchU16::new(0.01, 0.95));

    assert_eq!(lfu.window_capacity(), 2);
    assert_eq!(lfu.protected_capacity(), 6);

    lfu.push(&mut records, ptrs[0]);
    lfu.push(&mut records, ptrs[1]);
    assert_test_lfu(&lfu, &records, 2, 2, 0, 0, vec![0, 1]);

    lfu.push(&mut records, ptrs[2]);
    lfu.push(&mut records, ptrs[3]);
    assert_test_lfu(&lfu, &records, 4, 2, 2, 0, vec![2, 3, 0, 1]);

    (4..10).for_each(|i| lfu.push(&mut records, ptrs[i]));
    assert_test_lfu(&lfu, &records, 10, 2, 8, 0, vec![8, 9, 0, 1, 2, 3, 4, 5, 6, 7]);

    (0..10).for_each(|i| assert_min_frequency(&lfu, i, 1));

    // [8, 9] [1, 2, 3, 4, 5, 6, 7]
    let zero = lfu.pop(&mut records).unwrap();
    assert_eq!(zero, ptrs[0]);

    // [9, 0] [1, 2, 3, 4, 5, 6, 7, 8]
    lfu.release(&mut records, zero);
    assert_test_lfu(&lfu, &records, 10, 2, 8, 0, vec![9, 0, 1, 2, 3, 4, 5, 6, 7, 8]);

    // [0, 9] [1, 2, 3, 4, 5, 6, 7, 8]
    lfu.release(&mut records, ptrs[9]);
    assert_test_lfu(&lfu, &records, 10, 2, 8, 0, vec![0, 9, 1, 2, 3, 4, 5, 6, 7, 8]);

    // [0, 9] [1, 2, 7, 8] [3, 4, 5, 6]
    (3..7).for_each(|i| lfu.release(&mut records, ptrs[i]));
    assert_test_lfu(&lfu, &records, 10, 2, 4, 4, vec![0, 9, 1, 2, 7, 8, 3, 4, 5, 6]);

    // [0, 9] [1, 2, 7, 8] [5, 6, 3, 4]
    (3..5).for_each(|i| lfu.release(&mut records, ptrs[i]));
    assert_test_lfu(&lfu, &records, 10, 2, 4, 4, vec![0, 9, 1, 2, 7, 8, 5, 6, 3, 4]);

    // [0, 9] [5, 6] [3, 4, 1, 2, 7, 8]
    [1, 2, 7, 8].into_iter().for_each(|i| lfu.release(&mut records, ptrs[i]));
    assert_test_lfu(&lfu, &records, 10, 2, 2, 6, vec![0, 9, 5, 6, 3, 4, 1, 2, 7, 8]);

    // [0, 9] [6] [3, 4, 1, 2, 7, 8]
    let five = lfu.pop(&mut records).unwrap();
    assert_eq!(five, ptrs[5]);
    assert_test_lfu(&lfu, &records, 9, 2, 1, 6, vec![0, 9, 6, 3, 4, 1, 2, 7, 8]);

    (10..13).for_each(|i| lfu.push(&mut records, ptrs[i]));

    // [11, 12] [6, 0, 9, 10] [3, 4, 1, 2, 7, 8]
    assert_test_lfu(&lfu, &records, 12, 2, 4, 6, vec![11, 12, 6, 0, 9, 10, 3, 4, 1, 2, 7, 8]);
    (1..13).for_each(|i| assert_min_frequency(&lfu, i, 0));
    lfu.acquire(&records, ptrs[0]);
    assert_min_frequency(&lfu, 0, 2);

    // evict 11 because freq(11) < freq(0)
    // [12] [0, 9, 10] [3, 4, 1, 2, 7, 8]
    let six = lfu.pop(&mut records).unwrap();
    let eleven = lfu.pop(&mut records).unwrap();
    assert_eq!(six, ptrs[6]);
    assert_eq!(eleven, ptrs[11]);
    assert_test_lfu(&lfu, &records, 10, 1, 3, 6, vec![12, 0, 9, 10, 3, 4, 1, 2, 7, 8]);

    assert_eq!(
        lfu.clear(&mut records),
        [12, 0, 9, 10, 3, 4, 1, 2, 7, 8].into_iter().map(|i| ptrs[i]).collect::<Vec<_>>()
    );
}

fn filled() -> (Lfu, Records, Vec<RecordToken>) {
    let (mut records, ptrs) = records(10);
    let mut lfu = Lfu::new(10, &config(), CMSketchU16::new(0.01, 0.95));
    for token in &ptrs {
        lfu.push(&mut records, *token);
    }
    (lfu, records, ptrs)
}

#[test]
fn test_capacities_are_floors() {
    let sketch = || CMSketchU16::new(0.01, 0.95);
    let lfu = Lfu::new(10, &config(), sketch());
    assert_eq!((lfu.window_capacity(), lfu.protected_capacity()), (2, 6));
    let lfu = Lfu::new(19, &config(), sketch());
    assert_eq!((lfu.window_capacity(), lfu.protected_capacity()), (3, 11));
    let lfu = Lfu::new(4, &config(), sketch());
    assert_eq!((lfu.window_capacity(), lfu.protected_capacity()), (0, 2));
    let lfu = Lfu::new(usize::MAX, &LfuConfig::default(), sketch());
    assert_eq!(lfu.window_capacity(), usize::MAX / 10);
    assert_eq!(lfu.protected_capacity(), (usize::MAX as u128 * 8 / 10) as usize);
    let ratio = Ratio { numerator: 1, denominator: 3 };
    assert_eq!(ratio.apply(10), 3);
    assert_eq!(ratio.apply(0), 0);
}

#[test]
fn test_config_validity() {
    assert!(LfuConfig::default().is_valid());
    assert!(config().is_valid());
    let ratio = |numerator, denominator| Ratio { numerator, denominator };
    let invalid = [
        (ratio(0, 10), ratio(6, 10)),
        (ratio(10, 10), ratio(6, 10)),
        (ratio(2, 10), ratio(0, 10)),
        (ratio(2, 10), ratio(11, 10)),
        (ratio(4, 10), ratio(6, 10)),
        (ratio(1, 2), ratio(2, 3)),
        (ratio(1, 0), ratio(1, 2)),
    ];
    for (window_capacity_ratio, protected_capacity_ratio) in invalid {
        let config = LfuConfig { window_capacity_ratio, protected_capacity_ratio };
        assert!(!config.is_valid());
        assert!(Lfu::try_new(10, &config, CMSketchU16::new(0.01, 0.95)).is_none());
    }
    assert!(Lfu::try_new(10, &config(), CMSketchU16::new(0.01, 0.95)).is_some());
}

#[test]
fn test_push_ten_keys() {
    let (lfu, records, _) = filled();
    assert_eq!(lfu.len(), 10);
    assert_eq!(lfu.usage(), [(2, 2), (8, 8), (0, 0)]);
    assert_eq!(dump(&lfu, &records), vec![8, 9, 0, 1, 2, 3, 4, 5, 6, 7]);
}

#[test]
fn test_pop_takes_probation_first_on_a_tie() {
    let (mut lfu, mut records, ptrs) = filled();
    (0..10).for_each(|hash| assert_eq!(lfu.estimate(hash), 1));
    assert_eq!(lfu.pop(&mut records), Some(ptrs[0]));
    assert!(!records.resolve(ptrs[0]).is_in_eviction());
    assert_eq!(dump(&lfu, &records), vec![8, 9, 1, 2, 3, 4, 5, 6, 7]);
}

#[test]
fn test_pop_takes_the_lower_frequency() {
    let (mut lfu, mut records, ptrs) = filled();
    // The front of probation is accessed: the front of window has the lower estimate.
    lfu.acquire(&records, ptrs[0]);
    assert_eq!(lfu.pop(&mut records), Some(ptrs[8]));
    assert_eq!(dump(&lfu, &records), vec![9, 0, 1, 2, 3, 4, 5, 6, 7]);
    assert_eq!(lfu.usage(), [(1, 1), (8, 8), (0, 0)]);
}

#[test]
fn test_pop_takes_protected_last() {
    let (mut records, ptrs) = records(3);
    let mut lfu = Lfu::new(10, &config(), CMSketchU16::new(0.01, 0.95));
    assert_eq!(lfu.pop(&mut records), None);
    lfu.push(&mut records, ptrs[0]);
    lfu.push(&mut records, ptrs[1]);
    lfu.push(&mut records, ptrs[2]);
    // [1, 2] [0] []
    lfu.release(&mut records, ptrs[0]);
    // [1, 2] [] [0]
    assert_eq!(lfu.usage(), [(2, 2), (0, 0), (1, 1)]);
    assert_eq!(lfu.pop(&mut records), Some(ptrs[1]));
    assert_eq!(lfu.pop(&mut records), Some(ptrs[2]));
    assert_eq!(lfu.pop(&mut records), Some(ptrs[0]));
    assert_eq!(lfu.pop(&mut records), None);
    assert!(lfu.is_empty());
}

#[test]
fn test_release_promotes_and_overflows() {
    let (mut lfu, mut records, ptrs) = filled();
    // [8, 9] [0, 1, 2, 3, 4, 5, 6, 7] []
    for key in 0..6 {
        lfu.release(&mut records, ptrs[key]);
        assert!(lfu.usage()[2].1 <= lfu.protected_capacity());
    }
    assert_eq!(lfu.usage(), [(2, 2), (2, 2), (6, 6)]);
    assert_eq!(dump(&lfu, &records), vec![8, 9, 6, 7, 0, 1, 2, 3, 4, 5]);
    // One more promotion sends the least recently used of protected back to probation.
    lfu.release(&mut records, ptrs[6]);
    assert_eq!(lfu.usage(), [(2, 2), (2, 2), (6, 6)]);
    assert_eq!(dump(&lfu, &records), vec![8, 9, 7, 0, 1, 2, 3, 4, 5, 6]);
    // In window and in protected a release only moves the record to the end.
    lfu.release(&mut records, ptrs[8]);
    lfu.release(&mut records, ptrs[2]);
    assert_eq!(dump(&lfu, &records), vec![9, 8, 7, 0, 1, 3, 4, 5, 6, 2]);
}

#[test]
fn test_release_with_heavy_records() {
    let mut records = Records::new();
    let mut tokens = Vec::new();
    for (key, weight) in [(0u64, 3usize), (1, 4), (2, 1)] {
        let mut record = Record::new();
        record.set(RecordData { key, value: key, hint: (), state: LfuState::default(), hash: key, weight });
        tokens.push(records.insert(record));
    }
    let mut lfu = Lfu::new(10, &config(), CMSketchU16::new(0.01, 0.95));
    // A record heavier than window goes through to probation.
    lfu.push(&mut records, tokens[0]);
    assert_eq!(lfu.usage(), [(0, 0), (1, 3), (0, 0)]);
    lfu.push(&mut records, tokens[1]);
    lfu.push(&mut records, tokens[2]);
    assert_eq!(lfu.usage(), [(1, 1), (2, 7), (0, 0)]);
    lfu.release(&mut records, tokens[0]);
    lfu.release(&mut records, tokens[1]);
    // 3 + 4 is more than protected may hold: the older of the two goes back.
    assert_eq!(lfu.usage(), [(1, 1), (1, 3), (1, 4)]);
    assert_eq!(dump(&lfu, &records), vec![2, 0, 1]);
}

#[test]
fn test_acquire_counts_accesses() {
    let (mut lfu, records, ptrs) = filled();
    let before: Vec<u16> = (0..10).map(|hash| lfu.estimate(hash)).collect();
    lfu.acquire(&records, ptrs[3]);
    lfu.acquire(&records, ptrs[3]);
    for hash in 0..10u64 {
        assert!(lfu.estimate(hash) >= before[hash as usize]);
    }
    assert_eq!(lfu.estimate(3), before[3] + 2);
    assert_eq!(dump(&lfu, &records), vec![8, 9, 0, 1, 2, 3, 4, 5, 6, 7]);
}

#[test]
fn test_estimates_are_halved_at_the_width_of_the_sketch() {
    let (mut records, ptrs) = records(1);
    // Four columns: every fourth access halves the counts.
    let sketch = CMSketchU16::new(0.5, 0.5);
    assert_eq!(sketch.width(), 4);
    let mut lfu = Lfu::new(10, &config(), sketch);
    lfu.push(&mut records, ptrs[0]);
    assert_eq!(lfu.estimate(0), 1);
    lfu.acquire(&records, ptrs[0]);
    lfu.acquire(&records, ptrs[0]);
    assert_eq!(lfu.estimate(0), 3);
    lfu.acquire(&records, ptrs[0]);
    assert_eq!(lfu.estimate(0), 2);
    lfu.acquire(&records, ptrs[0]);
    assert_eq!(lfu.estimate(0), 3);
    lfu.acquire(&records, ptrs[0]);
    assert_eq!(lfu.estimate(0), 2);
}

#[test]
fn test_remove_from_each_segment() {
    let (mut lfu, mut records, ptrs) = filled();
    lfu.release(&mut records, ptrs[0]);
    // [8, 9] [1, 2, 3, 4, 5, 6, 7] [0]
    lfu.remove(&mut records, ptrs[9]);
    lfu.remove(&mut records, ptrs[4]);
    lfu.remove(&mut records, ptrs[0]);
    assert_eq!(lfu.usage(), [(1, 1), (6, 6), (0, 0)]);
    assert_eq!(dump(&lfu, &records), vec![8, 1, 2, 3, 5, 6, 7]);
    for key in [9, 4, 0] {
        assert!(!records.resolve(ptrs[key]).is_in_eviction());
    }
    assert!(records.resolve(ptrs[8]).is_in_eviction());
    // A record that was removed is admitted again by a release.
    lfu.release(&mut records, ptrs[4]);
    assert_eq!(dump(&lfu, &records), vec![8, 4, 1, 2, 3, 5, 6, 7]);
}

#[test]
fn test_members_are_in_one_segment() {
    let (mut lfu, mut records, ptrs) = filled();
    for key in [3, 4, 5, 6, 3, 4, 1, 2, 7, 8, 9, 0] {
        lfu.release(&mut records, ptrs[key]);
        let mut keys = dump(&lfu, &records);
        keys.sort();
        assert_eq!(keys, (0..10).collect::<Vec<u64>>());
        let usage = lfu.usage();
        assert_eq!(usage[0].1 + usage[1].1 + usage[2].1, 10);
    }
}

#[test]
fn test_policy_through_its_trait() {
    fn drain<E: Eviction<u64, u64>>(
        policy: &mut E,
        records: &mut RecordResolver<u64, u64, E::Hint, E::State>,
    ) -> Vec<RecordToken> {
        let mut tokens = Vec::new();
        while let Some(token) = policy.pop(records) {
            tokens.push(token);
        }
        assert!(policy.is_empty());
        tokens
    }
    let mut records: RecordResolver<u64, u64, LfuHint, LfuState> = RecordResolver::new();
    let mut tokens = Vec::new();
    for key in 0..3u64 {
        let mut record = Record::new();
        record.set(RecordData {
            key,
            value: key,
            hint: LfuHint,
            state: LfuState::default(),
            hash: key,
            weight: 1,
        });
        tokens.push(records.insert(record));
    }
    let mut lfu = Lfu::new(10, &config(), CMSketchU16::new(0.01, 0.95));
    for token in &tokens {
        Eviction::push(&mut lfu, &mut records, *token);
    }
    assert_eq!(Eviction::<u64, u64>::len(&lfu), 3);
    assert!(matches!(<Lfu as Eviction<u64, u64>>::acquire_op(), Operator::Mutable));
    assert!(matches!(<Lfu as Eviction<u64, u64>>::release_op(), Operator::Mutable));
    assert_eq!(drain(&mut lfu, &mut records), vec![tokens[0], tokens[1], tokens[2]]);
}
