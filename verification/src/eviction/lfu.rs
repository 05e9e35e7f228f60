//! The w-TinyLFU eviction policy.
//!
//! A new and hot entry is kept in `window`. When `window` is full, entries from it overflow to
//! `probation`. When an entry in `probation` is accessed, it is promoted to `protected`. When
//! `protected` is full, entries from it overflow to `probation`. When evicting, the entry with
//! the lower frequency from `window` or `probation` is evicted first, then from `protected`.

use crate::dlist::{raw_of, SlabLinkedList, SlabToken};
use crate::eviction::{Eviction, Operator};
use crate::record::{same_entries, same_entry, Record, RecordResolver, RecordToken};
use cmsketch::CMSketchU16;
use vstd::prelude::*;

verus! {

/// `cmsketch::CMSketchU16`, as a type of which Verus knows nothing but what
/// [`sketch_estimates`], [`sketch_width`] and [`sketch_depth`] name.
#[verifier::external_type_specification]
#[verifier::external_body]
pub struct ExCMSketchU16(CMSketchU16);

/// The estimates of a count-min sketch: for each hash, what `estimate` returns for it.
pub uninterp spec fn sketch_estimates(sketch: CMSketchU16) -> Map<u64, u16>;

/// The number of columns that a count-min sketch was made with.
pub uninterp spec fn sketch_width(sketch: CMSketchU16) -> usize;

/// The number of rows that a count-min sketch was made with.
pub uninterp spec fn sketch_depth(sketch: CMSketchU16) -> usize;

/// `CMSketchU16::width` returns the number of columns.
pub assume_specification[ CMSketchU16::width ](sketch: &CMSketchU16) -> (width: usize)
    ensures
        width == sketch_width(*sketch),
;

/// `CMSketchU16::depth` returns the number of rows.
pub assume_specification[ CMSketchU16::depth ](sketch: &CMSketchU16) -> (depth: usize)
    ensures
        depth == sketch_depth(*sketch),
;

/// `CMSketchU16::estimate` returns the least of the counters that the hash selects, one in
/// each row. It needs a row to look at and a column to select.
pub assume_specification[ CMSketchU16::estimate ](sketch: &CMSketchU16, hash: u64) -> (estimate:
    u16)
    requires
        sketch_width(*sketch) > 0,
        sketch_depth(*sketch) > 0,
    ensures
        estimate == sketch_estimates(*sketch)[hash],
;

/// `CMSketchU16::inc` adds one, saturating, to the counter that the hash selects in each row.
/// The estimate of that hash grows by one unless it is at its maximum; the estimate of any
/// other hash stays or, where it shares counters with the hash, grows by one.
pub assume_specification[ CMSketchU16::inc ](sketch: &mut CMSketchU16, hash: u64)
    requires
        sketch_width(*old(sketch)) > 0,
        sketch_depth(*old(sketch)) > 0,
    ensures
        sketch_estimates(*final(sketch))[hash]
            == saturating_inc(sketch_estimates(*old(sketch))[hash]),
        forall|other: u64|
            sketch_estimates(*old(sketch))[other] <= #[trigger] sketch_estimates(*final(sketch))[other]
                <= sketch_estimates(*old(sketch))[other] + 1,
        sketch_width(*final(sketch)) == sketch_width(*old(sketch)),
        sketch_depth(*final(sketch)) == sketch_depth(*old(sketch)),
;

/// `CMSketchU16::halve` shifts every counter right by one bit, which halves every estimate.
pub assume_specification[ CMSketchU16::halve ](sketch: &mut CMSketchU16)
    ensures
        forall|hash: u64| #[trigger]
            sketch_estimates(*final(sketch))[hash] == sketch_estimates(*old(sketch))[hash] / 2,
        sketch_width(*final(sketch)) == sketch_width(*old(sketch)),
        sketch_depth(*final(sketch)) == sketch_depth(*old(sketch)),
;

/// One more than the count, unless the count is the largest there is.
pub open spec fn saturating_inc(count: u16) -> u16 {
    if count < u16::MAX {
        (count + 1) as u16
    } else {
        count
    }
}

/// A ratio between 0 and 1, as a fraction of two integers.
#[derive(Debug, Clone, Copy)]
pub struct Ratio {
    pub numerator: u32,
    pub denominator: u32,
}

impl Ratio {
    /// The largest whole number that is at most `amount` times the ratio.
    pub open spec fn floor_of(self, amount: usize) -> int {
        (amount as int * self.numerator as int) / (self.denominator as int)
    }

    /// The ratio lies strictly between 0 and 1.
    pub open spec fn proper(self) -> bool {
        0 < self.numerator < self.denominator
    }

    /// The largest whole number that is at most `amount` times the ratio.
    pub fn apply(&self, amount: usize) -> (part: usize)
        requires
            self.proper(),
        ensures
            part == self.floor_of(amount),
            part <= amount,
    {
        proof {
            let a = amount as int;
            let n = self.numerator as int;
            assert(0 <= a * n <= 0xffff_ffff_ffff_ffff * 0xffff_ffff) by (nonlinear_arith)
                requires
                    0 <= a <= 0xffff_ffff_ffff_ffff,
                    0 <= n <= 0xffff_ffff,
            ;
        }
        let product: u128 = (amount as u128) * (self.numerator as u128);
        let part: u128 = product / (self.denominator as u128);
        proof {
            let a = amount as int;
            let n = self.numerator as int;
            let d = self.denominator as int;
            assert(a * n <= a * d) by (nonlinear_arith)
                requires
                    0 <= a,
                    0 <= n < d,
            ;
            assert((a * n) / d <= a) by (nonlinear_arith)
                requires
                    0 <= a * n <= a * d,
                    0 < d,
            ;
        }
        part as usize
    }
}

/// w-TinyLFU eviction algorithm config.
#[derive(Debug, Clone, Copy)]
pub struct LfuConfig {
    /// `window` capacity ratio of the total cache capacity.
    ///
    /// Must be in (0, 1).
    ///
    /// Must guarantee `window_capacity_ratio + protected_capacity_ratio < 1`.
    pub window_capacity_ratio: Ratio,
    /// `protected` capacity ratio of the total cache capacity.
    ///
    /// Must be in (0, 1).
    ///
    /// Must guarantee `window_capacity_ratio + protected_capacity_ratio < 1`.
    pub protected_capacity_ratio: Ratio,
}

impl LfuConfig {
    /// Both ratios lie strictly between 0 and 1, and so does their sum.
    pub open spec fn valid(&self) -> bool {
        &&& self.window_capacity_ratio.proper()
        &&& self.protected_capacity_ratio.proper()
        &&& self.window_capacity_ratio.numerator * self.protected_capacity_ratio.denominator
            + self.protected_capacity_ratio.numerator * self.window_capacity_ratio.denominator
            < self.window_capacity_ratio.denominator * self.protected_capacity_ratio.denominator
    }

    /// Whether the config is valid.
    pub fn is_valid(&self) -> (valid: bool)
        ensures
            valid == self.valid(),
    {
        let window = self.window_capacity_ratio;
        let protected = self.protected_capacity_ratio;
        if !(0 < window.numerator && window.numerator < window.denominator) {
            return false;
        }
        if !(0 < protected.numerator && protected.numerator < protected.denominator) {
            return false;
        }
        let wn: u128 = window.numerator as u128;
        let wd: u128 = window.denominator as u128;
        let pn: u128 = protected.numerator as u128;
        let pd: u128 = protected.denominator as u128;
        proof {
            assert(0 <= wn * pd <= 0xffff_ffff * 0xffff_ffff) by (nonlinear_arith)
                requires
                    0 <= wn <= 0xffff_ffff,
                    0 <= pd <= 0xffff_ffff,
            ;
            assert(0 <= pn * wd <= 0xffff_ffff * 0xffff_ffff) by (nonlinear_arith)
                requires
                    0 <= pn <= 0xffff_ffff,
                    0 <= wd <= 0xffff_ffff,
            ;
            assert(0 <= wd * pd <= 0xffff_ffff * 0xffff_ffff) by (nonlinear_arith)
                requires
                    0 <= wd <= 0xffff_ffff,
                    0 <= pd <= 0xffff_ffff,
            ;
        }
        wn * pd + pn * wd < wd * pd
    }
}

impl Default for LfuConfig {
    /// A tenth of the capacity for `window` and eight tenths for `protected`.
    fn default() -> (config: Self)
        ensures
            config.valid(),
            config.window_capacity_ratio.numerator == 1,
            config.window_capacity_ratio.denominator == 10,
            config.protected_capacity_ratio.numerator == 8,
            config.protected_capacity_ratio.denominator == 10,
    {
        Self {
            window_capacity_ratio: Ratio { numerator: 1, denominator: 10 },
            protected_capacity_ratio: Ratio { numerator: 8, denominator: 10 },
        }
    }
}

/// The segment that holds a record, if any.
#[derive(Debug, Clone, Copy, PartialEq, Eq, Structural)]
pub enum Queue {
    Untracked,
    Window,
    Probation,
    Protected,
}

/// What the policy keeps with each record: the segment that holds it and the node that holds
/// it there.
#[derive(Debug)]
pub struct LfuState {
    queue: Queue,
    link: Option<SlabToken>,
}

impl LfuState {
    /// The segment that holds the record.
    pub closed spec fn queue(&self) -> Queue {
        self.queue
    }

    /// The slab key of the node that holds the record in its segment.
    pub closed spec fn link(&self) -> Option<usize> {
        raw_of(self.link)
    }
}

impl Default for LfuState {
    /// The state of a record that no segment holds.
    fn default() -> (state: Self)
        ensures
            state.queue() == Queue::Untracked,
            state.link() is None,
    {
        Self { queue: Queue::Untracked, link: None }
    }
}

/// What the policy reads of a record.
pub struct Meta {
    pub queue: Queue,
    pub link: Option<usize>,
    pub weight: usize,
    pub hash: u64,
    pub flagged: bool,
}

/// What the policy reads of a record that holds a payload.
pub open spec fn meta_of<K, V, H>(record: Record<K, V, H, LfuState>) -> Meta
    recommends
        record.data() is Some,
{
    Meta {
        queue: record.data().unwrap().state.queue(),
        link: record.data().unwrap().state.link(),
        weight: record.data().unwrap().weight,
        hash: record.data().unwrap().hash,
        flagged: record.in_eviction(),
    }
}

/// What the policy reads of the records in an arena: one entry for each record with a payload.
pub open spec fn metas<K, V, H>(records: &RecordResolver<K, V, H, LfuState>) -> Map<usize, Meta> {
    Map::new(
        |slot: usize| records.records().dom().contains(slot)
            && records.records()[slot].data() is Some,
        |slot: usize| meta_of(records.records()[slot]),
    )
}

/// The sum of the weights of the records in the given slots.
pub open spec fn total_weight(metas: Map<usize, Meta>, slots: Seq<usize>) -> nat
    decreases slots.len(),
{
    if slots.len() == 0 {
        0
    } else {
        total_weight(metas, slots.drop_last()) + metas[slots.last()].weight as nat
    }
}

/// Records with the same weights have the same total weight.
pub proof fn lemma_total_weight_frame(before: Map<usize, Meta>, after: Map<usize, Meta>, slots: Seq<usize>)
    requires
        forall|i: int| 0 <= i < slots.len() ==>
            before[#[trigger] slots[i]].weight == after[slots[i]].weight,
    ensures
        total_weight(before, slots) == total_weight(after, slots),
    decreases slots.len(),
{
    if slots.len() > 0 {
        lemma_total_weight_frame(before, after, slots.drop_last());
    }
}

/// A slot that is added at the back adds its weight.
pub proof fn lemma_total_weight_push(metas: Map<usize, Meta>, slots: Seq<usize>, slot: usize)
    ensures
        total_weight(metas, slots.push(slot)) == total_weight(metas, slots) + metas[slot].weight,
{
    assert(slots.push(slot).drop_last() =~= slots);
}

/// A slot that is taken out takes its weight with it.
pub proof fn lemma_total_weight_remove(metas: Map<usize, Meta>, slots: Seq<usize>, at: int)
    requires
        0 <= at < slots.len(),
    ensures
        total_weight(metas, slots.remove(at)) + metas[slots[at]].weight
            == total_weight(metas, slots),
    decreases slots.len(),
{
    if at == slots.len() - 1 {
        assert(slots.remove(at) =~= slots.drop_last());
    } else {
        lemma_total_weight_remove(metas, slots.drop_last(), at);
        assert(slots.remove(at).drop_last() =~= slots.drop_last().remove(at));
    }
}

/// The total weight of two runs of slots is the sum of their total weights.
pub proof fn lemma_total_weight_add(metas: Map<usize, Meta>, left: Seq<usize>, right: Seq<usize>)
    ensures
        total_weight(metas, left + right) == total_weight(metas, left) + total_weight(metas, right),
    decreases right.len(),
{
    if right.len() == 0 {
        assert(left + right =~= left);
    } else {
        lemma_total_weight_add(metas, left, right.drop_last());
        assert((left + right).drop_last() =~= left + right.drop_last());
    }
}

/// What the policy reads of the record in a slot.
fn read<K, V, H>(records: &RecordResolver<K, V, H, LfuState>, slot: usize) -> (found: (
    u64,
    usize,
    Queue,
    Option<SlabToken>,
))
    requires
        metas(records).dom().contains(slot),
    ensures
        found.0 == metas(records)[slot].hash,
        found.1 == metas(records)[slot].weight,
        found.2 == metas(records)[slot].queue,
        raw_of(found.3) == metas(records)[slot].link,
{
    let record = records.resolve(records.token_at(slot));
    let state = record.state();
    (record.hash(), record.weight(), state.queue, state.link)
}

/// Writes the segment, the node and the flag `IN_EVICTION` of the record in a slot.
fn write<K, V, H>(
    records: &mut RecordResolver<K, V, H, LfuState>,
    slot: usize,
    queue: Queue,
    link: Option<SlabToken>,
    flagged: bool,
)
    requires
        old(records).wf(),
        metas(old(records)).dom().contains(slot),
    ensures
        final(records).wf(),
        same_entries(old(records), final(records)),
        metas(final(records)) == metas(old(records)).insert(
            slot,
            (Meta { queue, link: raw_of(link), flagged, ..metas(old(records))[slot] }),
        ),
{
    let ghost before = *records;
    let token = records.token_at(slot);
    let record = records.resolve_mut(token);
    record.set_in_eviction(flagged);
    let state = record.state_mut();
    state.queue = queue;
    state.link = link;
    proof {
        assert(metas(records) =~= metas(&before).insert(
            slot,
            (Meta { queue, link: raw_of(link), flagged, ..metas(&before)[slot] }),
        ));
        assert(before.records().dom() =~= records.records().dom());
        assert forall|other: usize| #[trigger]
            before.records().dom().contains(other) implies same_entry(
            before.records()[other],
            records.records()[other],
        ) by {
            if other == slot {
                assert(same_entry(before.records()[slot], records.records()[slot]));
            }
        }
    }
}

/// The w-TinyLFU policy: three segments of record slots, each ordered from the least to the
/// most recently used, their weights, and a sketch of how often each hash was seen.
pub struct Lfu {
    window: SlabLinkedList,
    probation: SlabLinkedList,
    protected: SlabLinkedList,
    window_weight: usize,
    probation_weight: usize,
    protected_weight: usize,
    window_weight_capacity: usize,
    protected_weight_capacity: usize,
    frequencies: CMSketchU16,
    step: usize,
    decay: usize,
}

/// The record at position `i` of a segment says that this segment holds it, at this node.
spec fn seated(metas: Map<usize, Meta>, list: SlabLinkedList, queue: Queue, i: int) -> bool {
    &&& metas.dom().contains(list@[i])
    &&& metas[list@[i]].queue == queue
    &&& metas[list@[i]].link == Some(list.keys()[i])
    &&& metas[list@[i]].flagged
    &&& list@[i] < usize::MAX
}

/// Every record of a segment says that this segment holds it, and the segment does not hold
/// the slot that is being moved.
spec fn segment_ok(metas: Map<usize, Meta>, list: SlabLinkedList, queue: Queue, hole: Option<usize>) -> bool {
    &&& list.wf()
    &&& forall|i: int| 0 <= i < list@.len() ==> #[trigger] seated(metas, list, queue, i)
    &&& hole matches Some(slot) ==> !list@.contains(slot)
}

impl Lfu {
    /// The slots in `window`, from the least to the most recently used.
    pub closed spec fn window(&self) -> Seq<usize> {
        self.window@
    }

    /// The slots in `probation`, from the least to the most recently used.
    pub closed spec fn probation(&self) -> Seq<usize> {
        self.probation@
    }

    /// The slots in `protected`, from the least to the most recently used.
    pub closed spec fn protected(&self) -> Seq<usize> {
        self.protected@
    }

    /// The weight that `window` may hold.
    pub closed spec fn window_weight_capacity(&self) -> usize {
        self.window_weight_capacity
    }

    /// The weight that `protected` may hold.
    pub closed spec fn protected_weight_capacity(&self) -> usize {
        self.protected_weight_capacity
    }

    /// The weight that `window` holds.
    pub closed spec fn window_weight(&self) -> usize {
        self.window_weight
    }

    /// The weight that `probation` holds.
    pub closed spec fn probation_weight(&self) -> usize {
        self.probation_weight
    }

    /// The weight that `protected` holds.
    pub closed spec fn protected_weight(&self) -> usize {
        self.protected_weight
    }

    /// The frequency estimate of each hash.
    pub closed spec fn estimates(&self) -> Map<u64, u16> {
        sketch_estimates(self.frequencies)
    }

    /// The number of accesses counted since the estimates were last halved, halved with them.
    pub closed spec fn step(&self) -> usize {
        self.step
    }

    /// The number of steps after which the estimates are halved: the width of the sketch.
    pub closed spec fn decay(&self) -> usize {
        self.decay
    }

    /// The slots that the policy holds in its segments.
    pub open spec fn members(&self) -> Set<usize> {
        self.window().to_set() + self.probation().to_set() + self.protected().to_set()
    }

    /// The weight of all the records that the policy tracks.
    pub open spec fn weight(&self) -> int {
        self.window_weight() + self.probation_weight() + self.protected_weight()
    }

    /// The list of a segment.
    spec fn segment(&self, queue: Queue) -> SlabLinkedList {
        match queue {
            Queue::Window => self.window,
            Queue::Probation => self.probation,
            _ => self.protected,
        }
    }

    /// A record outside the segments says so, and a record that names a segment is in it.
    spec fn placed(&self, metas: Map<usize, Meta>, slot: usize) -> bool {
        match metas[slot].queue {
            Queue::Untracked => !metas[slot].flagged,
            Queue::Window => self.window@.contains(slot),
            Queue::Probation => self.probation@.contains(slot),
            Queue::Protected => self.protected@.contains(slot),
        }
    }

    /// The segments and the records agree, but for the record in `hole`, which is in no
    /// segment whatever it says.
    spec fn structure(&self, metas: Map<usize, Meta>, hole: Option<usize>) -> bool {
        &&& segment_ok(metas, self.window, Queue::Window, hole)
        &&& segment_ok(metas, self.probation, Queue::Probation, hole)
        &&& segment_ok(metas, self.protected, Queue::Protected, hole)
        &&& forall|slot: usize|
            metas.dom().contains(slot) && Some(slot) != hole ==> #[trigger] self.placed(metas, slot)
        &&& self.window_weight == total_weight(metas, self.window@)
        &&& self.probation_weight == total_weight(metas, self.probation@)
        &&& self.protected_weight == total_weight(metas, self.protected@)
        &&& self.window_weight + self.probation_weight + self.protected_weight <= usize::MAX
        &&& self.step < self.decay
        &&& self.decay == sketch_width(self.frequencies)
        &&& sketch_depth(self.frequencies) > 0
    }

    /// The policy's invariant over the records that it is used with: each segment holds
    /// records that name it and the node that holds them, every record that names a segment
    /// is in it, each weight is the sum over its segment, and `window` and `protected` are
    /// within their capacities.
    pub closed spec fn wf(&self, metas: Map<usize, Meta>) -> bool {
        &&& self.structure(metas, None)
        &&& self.window_weight <= self.window_weight_capacity
        &&& self.protected_weight <= self.protected_weight_capacity
    }

    /// The slots of one segment are distinct.
    proof fn lemma_distinct(metas: Map<usize, Meta>, list: SlabLinkedList, queue: Queue, hole: Option<usize>)
        requires
            segment_ok(metas, list, queue, hole),
        ensures
            list@.no_duplicates(),
            list.keys().no_duplicates(),
            list.keys().len() == list@.len(),
    {
        list.lemma_keys();
        assert forall|i: int, j: int| 0 <= i < list@.len() && 0 <= j < list@.len()
            && i != j implies list@[i]
            != list@[j] by {
            assert(seated(metas, list, queue, i));
            assert(seated(metas, list, queue, j));
        }
    }

    /// Takes the least recently used slot out of a segment. Its record is left as it is.
    fn detach_front<K, V, H>(&mut self, records: &RecordResolver<K, V, H, LfuState>, queue: Queue) -> (slot:
        usize)
        requires
            old(self).structure(metas(records), None),
            queue != Queue::Untracked,
            old(self).segment(queue)@.len() > 0,
        ensures
            final(self).structure(metas(records), Some(slot)),
            slot == old(self).segment(queue)@[0],
            metas(records).dom().contains(slot),
            metas(records)[slot].queue == queue,
            final(self).segment(queue)@ == old(self).segment(queue)@.drop_first(),
            forall|other: Queue|
                other != queue && other != Queue::Untracked ==> final(self).segment(other) == old(
                    self,
                ).segment(other),
            final(self).frequencies == old(self).frequencies,
            final(self).step == old(self).step,
            final(self).decay == old(self).decay,
            final(self).window_weight_capacity == old(self).window_weight_capacity,
            final(self).protected_weight_capacity == old(self).protected_weight_capacity,
            final(self).weight() + metas(records)[slot].weight == old(self).weight(),
            final(self).window_weight <= old(self).window_weight,
            final(self).protected_weight <= old(self).protected_weight,
    {
        let ghost metas = metas(records);
        let ghost before = *self;
        let ghost list = self.segment(queue);
        proof {
            Self::lemma_distinct(metas, self.window, Queue::Window, None);
            Self::lemma_distinct(metas, self.probation, Queue::Probation, None);
            Self::lemma_distinct(metas, self.protected, Queue::Protected, None);
            assert(seated(metas, list, queue, 0));
            lemma_total_weight_remove(metas, list@, 0);
            assert(list@.remove(0) =~= list@.drop_first());
        }
        let popped = match queue {
            Queue::Window => self.window.pop_front(),
            Queue::Probation => self.probation.pop_front(),
            _ => self.protected.pop_front(),
        };
        let slot = match popped {
            Some(slot) => slot,
            None => vstd::pervasive::unreached(),
        };
        let weight = read(records, slot).1;
        match queue {
            Queue::Window => self.window_weight -= weight,
            Queue::Probation => self.probation_weight -= weight,
            _ => self.protected_weight -= weight,
        }
        proof {
            let rest = self.segment(queue);
            assert forall|i: int| 0 <= i < rest@.len() implies
                #[trigger] seated(metas, rest, queue, i) by {
                assert(seated(metas, list, queue, i + 1));
            }
            assert(!rest@.contains(slot)) by {
                if rest@.contains(slot) {
                    let i = rest@.index_of(slot);
                    assert(list@[i + 1] == slot);
                }
            }
            assert forall|other: Queue| other != queue && other != Queue::Untracked implies
                !before.segment(
                other,
            )@.contains(slot) by {
                if before.segment(other)@.contains(slot) {
                    let i = before.segment(other)@.index_of(slot);
                    assert(seated(metas, before.segment(other), other, i));
                }
            }
            assert(!before.segment(Queue::Window)@.contains(slot) || queue == Queue::Window);
            assert(!before.segment(Queue::Probation)@.contains(slot) || queue == Queue::Probation);
            assert(!before.segment(Queue::Protected)@.contains(slot) || queue == Queue::Protected);
            assert forall|other: usize| metas.dom().contains(other)
                && other != slot implies #[trigger] self.placed(
                metas,
                other,
            ) by {
                assert(before.placed(metas, other));
                if metas[other].queue == queue {
                    let i = list@.index_of(other);
                    assert(list@[i] == other);
                    assert(rest@[i - 1] == other);
                }
            }
        }
        slot
    }
}

impl Lfu {
    /// Takes the slot out of the segment that holds it. Its record is left as it is.
    fn detach<K, V, H>(&mut self, records: &RecordResolver<K, V, H, LfuState>, slot: usize) -> (queue: Queue)
        requires
            old(self).structure(metas(records), None),
            metas(records).dom().contains(slot),
            metas(records)[slot].queue != Queue::Untracked,
        ensures
            final(self).structure(metas(records), Some(slot)),
            queue == metas(records)[slot].queue,
            old(self).segment(queue)@.contains(slot),
            final(self).segment(queue)@ == old(self).segment(queue)@.remove(
                old(self).segment(queue)@.index_of(slot),
            ),
            forall|other: Queue|
                other != queue && other != Queue::Untracked ==> final(self).segment(other) == old(
                    self,
                ).segment(other),
            final(self).frequencies == old(self).frequencies,
            final(self).step == old(self).step,
            final(self).decay == old(self).decay,
            final(self).window_weight_capacity == old(self).window_weight_capacity,
            final(self).protected_weight_capacity == old(self).protected_weight_capacity,
            final(self).weight() + metas(records)[slot].weight == old(self).weight(),
            final(self).window_weight <= old(self).window_weight,
            final(self).protected_weight <= old(self).protected_weight,
    {
        let ghost metas = metas(records);
        let ghost before = *self;
        let (_, weight, queue, link) = read(records, slot);
        let ghost list = self.segment(queue);
        let ghost at = list@.index_of(slot);
        proof {
            Self::lemma_distinct(metas, self.window, Queue::Window, None);
            Self::lemma_distinct(metas, self.probation, Queue::Probation, None);
            Self::lemma_distinct(metas, self.protected, Queue::Protected, None);
            assert(self.placed(metas, slot));
            assert(list@.contains(slot));
            assert(seated(metas, list, queue, at));
            assert(list.keys()[at] == raw_of(link).unwrap());
            assert(list.keys().contains(list.keys()[at]));
            assert(list.keys().index_of(list.keys()[at]) == at);
            lemma_total_weight_remove(metas, list@, at);
        }
        let token = match link {
            Some(token) => token,
            None => vstd::pervasive::unreached(),
        };
        match queue {
            Queue::Window => {
                self.window.remove_raw(token);
                self.window_weight -= weight;
            },
            Queue::Probation => {
                self.probation.remove_raw(token);
                self.probation_weight -= weight;
            },
            _ => {
                self.protected.remove_raw(token);
                self.protected_weight -= weight;
            },
        }
        proof {
            let rest = self.segment(queue);
            assert forall|i: int| 0 <= i < rest@.len() implies
                #[trigger] seated(metas, rest, queue, i) by {
                if i < at {
                    assert(seated(metas, list, queue, i));
                } else {
                    assert(seated(metas, list, queue, i + 1));
                }
            }
            assert(!rest@.contains(slot)) by {
                if rest@.contains(slot) {
                    let i = rest@.index_of(slot);
                    if i < at {
                        assert(list@[i] == slot);
                    } else {
                        assert(list@[i + 1] == slot);
                    }
                }
            }
            assert forall|other: Queue| other != queue && other != Queue::Untracked implies
                !before.segment(
                other,
            )@.contains(slot) by {
                if before.segment(other)@.contains(slot) {
                    let i = before.segment(other)@.index_of(slot);
                    assert(seated(metas, before.segment(other), other, i));
                }
            }
            assert(!before.segment(Queue::Window)@.contains(slot) || queue == Queue::Window);
            assert(!before.segment(Queue::Probation)@.contains(slot) || queue == Queue::Probation);
            assert(!before.segment(Queue::Protected)@.contains(slot) || queue == Queue::Protected);
            assert forall|other: usize| metas.dom().contains(other)
                && other != slot implies #[trigger] self.placed(
                metas,
                other,
            ) by {
                assert(before.placed(metas, other));
                if metas[other].queue == queue {
                    let i = list@.index_of(other);
                    assert(list@[i] == other);
                    if i < at {
                        assert(rest@[i] == other);
                    } else {
                        assert(rest@[i - 1] == other);
                    }
                }
            }
        }
        queue
    }

    /// Puts a slot that is in no segment at the most recently used end of a segment, and
    /// writes the segment, the node and the flag to its record.
    fn attach<K, V, H>(&mut self, records: &mut RecordResolver<K, V, H, LfuState>, slot: usize, queue: Queue)
        requires
            old(records).wf(),
            old(self).structure(metas(old(records)), Some(slot)),
            metas(old(records)).dom().contains(slot),
            queue != Queue::Untracked,
            old(self).weight() + metas(old(records))[slot].weight <= usize::MAX,
        ensures
            final(records).wf(),
            same_entries(old(records), final(records)),
            metas(final(records)).dom() == metas(old(records)).dom(),
            forall|other: usize|
                other != slot ==> #[trigger] metas(final(records))[other]
                    == metas(old(records))[other],
            metas(final(records))[slot].queue == queue,
            final(self).structure(metas(final(records)), None),
            final(self).segment(queue)@ == old(self).segment(queue)@.push(slot),
            forall|other: Queue|
                other != queue && other != Queue::Untracked ==> final(self).segment(other) == old(
                    self,
                ).segment(other),
            final(self).frequencies == old(self).frequencies,
            final(self).step == old(self).step,
            final(self).decay == old(self).decay,
            final(self).window_weight_capacity == old(self).window_weight_capacity,
            final(self).protected_weight_capacity == old(self).protected_weight_capacity,
            final(self).weight() == old(self).weight() + metas(old(records))[slot].weight,
            queue != Queue::Window ==> final(self).window_weight == old(self).window_weight,
            queue != Queue::Protected ==>
                final(self).protected_weight == old(self).protected_weight,
    {
        let ghost before_metas = metas(records);
        let ghost before = *self;
        let ghost list = self.segment(queue);
        proof {
            records.lemma_slot_bound(slot);
            list.lemma_keys();
            lemma_total_weight_push(before_metas, list@, slot);
        }
        let weight = read(records, slot).1;
        let link = match queue {
            Queue::Window => {
                self.window.push_back(slot);
                self.window_weight += weight;
                self.window.back_token()
            },
            Queue::Probation => {
                self.probation.push_back(slot);
                self.probation_weight += weight;
                self.probation.back_token()
            },
            _ => {
                self.protected.push_back(slot);
                self.protected_weight += weight;
                self.protected.back_token()
            },
        };
        write(records, slot, queue, link, true);
        proof {
            let after_metas = metas(records);
            let grown = self.segment(queue);
            let n = list@.len() as int;
            assert(grown.keys()[n] == raw_of(link).unwrap());
            assert forall|i: int| 0 <= i < grown@.len() implies
                #[trigger] seated(after_metas, grown, queue, i) by {
                if i < n {
                    assert(seated(before_metas, list, queue, i));
                    assert(list@.contains(list@[i]));
                }
            }
            assert forall|other: Queue| other != queue && other != Queue::Untracked implies
                segment_ok(
                after_metas,
                self.segment(other),
                other,
                None,
            ) by {
                let same = self.segment(other);
                assert(segment_ok(before_metas, same, other, Some(slot)));
                assert forall|i: int| 0 <= i < same@.len() implies
                    #[trigger] seated(after_metas, same, other, i) by {
                    assert(seated(before_metas, same, other, i));
                    assert(same@.contains(same@[i]));
                }
            }
            assert(segment_ok(after_metas, self.segment(Queue::Window), Queue::Window, None));
            assert(segment_ok(after_metas, self.segment(Queue::Probation), Queue::Probation, None));
            assert(segment_ok(after_metas, self.segment(Queue::Protected), Queue::Protected, None));
            assert forall|other: usize| after_metas.dom().contains(other) implies
                #[trigger] self.placed(
                after_metas,
                other,
            ) by {
                if other == slot {
                    assert(grown@[n] == slot);
                } else {
                    assert(before.placed(before_metas, other));
                    if before_metas[other].queue == queue {
                        let i = list@.index_of(other);
                        assert(list@[i] == other);
                        assert(grown@[i] == other);
                    }
                }
            }
            assert forall|other: Queue| other != Queue::Untracked implies total_weight(
                after_metas,
                before.segment(other)@,
            ) == total_weight(before_metas, before.segment(other)@) by {
                let same = before.segment(other);
                assert forall|i: int| 0 <= i < same@.len() implies
                    before_metas[#[trigger] same@[i]].weight
                    == after_metas[same@[i]].weight by {
                    assert(same@.contains(same@[i]));
                }
                lemma_total_weight_frame(before_metas, after_metas, same@);
            }
            assert(total_weight(after_metas, before.segment(Queue::Window)@) == total_weight(
                before_metas,
                before.segment(Queue::Window)@,
            ));
            assert(total_weight(after_metas, before.segment(Queue::Probation)@) == total_weight(
                before_metas,
                before.segment(Queue::Probation)@,
            ));
            assert(total_weight(after_metas, before.segment(Queue::Protected)@) == total_weight(
                before_metas,
                before.segment(Queue::Protected)@,
            ));
            lemma_total_weight_push(after_metas, list@, slot);
        }
    }

    /// Writes to the record of a slot that is in no segment that no segment holds it.
    fn forget<K, V, H>(&self, records: &mut RecordResolver<K, V, H, LfuState>, slot: usize)
        requires
            old(records).wf(),
            self.structure(metas(old(records)), Some(slot)),
            metas(old(records)).dom().contains(slot),
        ensures
            final(records).wf(),
            same_entries(old(records), final(records)),
            metas(final(records)).dom() == metas(old(records)).dom(),
            forall|other: usize|
                other != slot ==> #[trigger] metas(final(records))[other]
                    == metas(old(records))[other],
            metas(final(records))[slot].queue == Queue::Untracked,
            !metas(final(records))[slot].flagged,
            metas(final(records))[slot].hash == metas(old(records))[slot].hash,
            metas(final(records))[slot].weight == metas(old(records))[slot].weight,
            self.structure(metas(final(records)), None),
    {
        let ghost before_metas = metas(records);
        write(records, slot, Queue::Untracked, None, false);
        proof {
            let after_metas = metas(records);
            assert forall|other: Queue| other != Queue::Untracked implies segment_ok(
                after_metas,
                self.segment(other),
                other,
                None,
            ) && total_weight(after_metas, self.segment(other)@) == total_weight(
                before_metas,
                self.segment(other)@,
            ) by {
                let same = self.segment(other);
                assert(segment_ok(before_metas, same, other, Some(slot)));
                assert forall|i: int| 0 <= i < same@.len() implies
                    #[trigger] seated(after_metas, same, other, i) by {
                    assert(seated(before_metas, same, other, i));
                    assert(same@.contains(same@[i]));
                }
                assert forall|i: int| 0 <= i < same@.len() implies
                    before_metas[#[trigger] same@[i]].weight
                    == after_metas[same@[i]].weight by {
                    assert(same@.contains(same@[i]));
                }
                lemma_total_weight_frame(before_metas, after_metas, same@);
            }
            assert(segment_ok(after_metas, self.segment(Queue::Window), Queue::Window, None));
            assert(segment_ok(after_metas, self.segment(Queue::Probation), Queue::Probation, None));
            assert(segment_ok(after_metas, self.segment(Queue::Protected), Queue::Protected, None));
            assert forall|other: usize| after_metas.dom().contains(other) implies
                #[trigger] self.placed(
                after_metas,
                other,
            ) by {
                if other != slot {
                    assert(self.placed(before_metas, other));
                }
            }
        }
    }
}

/// The slots without the given slot, if it is among them.
pub open spec fn dropped(slots: Seq<usize>, slot: usize) -> Seq<usize> {
    if slots.contains(slot) {
        slots.remove(slots.index_of(slot))
    } else {
        slots
    }
}

/// What is left of two segments once the first has overflowed into the second: while the
/// first weighs more than its capacity, its least recently used slot moves to the most
/// recently used end of the second.
pub open spec fn overflow(metas: Map<usize, Meta>, from: Seq<usize>, to: Seq<usize>, capacity: usize) -> (
    Seq<usize>,
    Seq<usize>,
)
    decreases from.len(),
{
    if from.len() > 0 && total_weight(metas, from) > capacity {
        overflow(metas, from.drop_first(), to.push(from[0]), capacity)
    } else {
        (from, to)
    }
}

/// Overflowing depends on the weights of the records only.
pub proof fn lemma_overflow_frame(
    before: Map<usize, Meta>,
    after: Map<usize, Meta>,
    from: Seq<usize>,
    to: Seq<usize>,
    capacity: usize,
)
    requires
        forall|slot: usize| before[slot].weight == after[slot].weight,
    ensures
        overflow(before, from, to, capacity) == overflow(after, from, to, capacity),
    decreases from.len(),
{
    lemma_total_weight_frame(before, after, from);
    if from.len() > 0 && total_weight(before, from) > capacity {
        lemma_overflow_frame(before, after, from.drop_first(), to.push(from[0]), capacity);
    }
}

/// Overflowing moves slots from one segment to the other and loses none.
pub proof fn lemma_overflow_members(metas: Map<usize, Meta>, from: Seq<usize>, to: Seq<usize>, capacity: usize)
    ensures
        overflow(metas, from, to, capacity).0.to_set()
            + overflow(metas, from, to, capacity).1.to_set()
            == from.to_set() + to.to_set(),
        total_weight(metas, overflow(metas, from, to, capacity).0) <= capacity,
    decreases from.len(),
{
    if from.len() > 0 && total_weight(metas, from) > capacity {
        let rest = from.drop_first();
        let more = to.push(from[0]);
        lemma_overflow_members(metas, rest, more, capacity);
        assert(rest.to_set() + more.to_set() =~= from.to_set() + to.to_set()) by {
            assert forall|slot: usize| (rest.to_set()
                + more.to_set()).contains(slot) implies (from.to_set()
                + to.to_set()).contains(slot) by {
                if rest.contains(slot) {
                    let i = rest.index_of(slot);
                    assert(from[i + 1] == slot);
                } else {
                    let i = more.index_of(slot);
                    if i < to.len() {
                        assert(to[i] == slot);
                    } else {
                        assert(from[0] == slot);
                    }
                }
            }
            assert forall|slot: usize| (from.to_set() + to.to_set()).contains(slot) implies
                (rest.to_set()
                + more.to_set()).contains(slot) by {
                if from.contains(slot) {
                    let i = from.index_of(slot);
                    if i == 0 {
                        assert(more[to.len() as int] == slot);
                    } else {
                        assert(rest[i - 1] == slot);
                    }
                } else {
                    let i = to.index_of(slot);
                    assert(more[i] == slot);
                }
            }
        }
    }
}

/// A count after the estimates were halved, if they were.
pub open spec fn aged(count: u16, halved: bool) -> u16 {
    if halved {
        count / 2
    } else {
        count
    }
}

/// The segment that the next victim is taken from: `window` if both `window` and `probation`
/// hold a record and the least recently used of `window` has the lower frequency estimate;
/// else `probation` if it holds a record; else `window`; else `protected`; and none if all
/// three are empty.
pub open spec fn victim(
    metas: Map<usize, Meta>,
    estimates: Map<u64, u16>,
    window: Seq<usize>,
    probation: Seq<usize>,
    protected: Seq<usize>,
) -> Queue {
    if window.len() > 0 && probation.len() > 0 {
        if estimates[metas[window[0]].hash] < estimates[metas[probation[0]].hash] {
            Queue::Window
        } else {
            Queue::Probation
        }
    } else if probation.len() > 0 {
        Queue::Probation
    } else if window.len() > 0 {
        Queue::Window
    } else if protected.len() > 0 {
        Queue::Protected
    } else {
        Queue::Untracked
    }
}

/// The slots in the order in which they are evicted when nothing else happens in between.
pub open spec fn eviction_order(
    metas: Map<usize, Meta>,
    estimates: Map<u64, u16>,
    window: Seq<usize>,
    probation: Seq<usize>,
    protected: Seq<usize>,
) -> Seq<usize>
    decreases window.len() + probation.len() + protected.len(),
{
    match victim(metas, estimates, window, probation, protected) {
        Queue::Window => seq![window[0]] + eviction_order(
            metas,
            estimates,
            window.drop_first(),
            probation,
            protected,
        ),
        Queue::Probation => seq![probation[0]] + eviction_order(
            metas,
            estimates,
            window,
            probation.drop_first(),
            protected,
        ),
        Queue::Protected => seq![protected[0]] + eviction_order(
            metas,
            estimates,
            window,
            probation,
            protected.drop_first(),
        ),
        Queue::Untracked => Seq::empty(),
    }
}

/// The order of eviction depends on the hashes of the records in the segments only.
pub proof fn lemma_eviction_order_frame(
    before: Map<usize, Meta>,
    after: Map<usize, Meta>,
    estimates: Map<u64, u16>,
    window: Seq<usize>,
    probation: Seq<usize>,
    protected: Seq<usize>,
)
    requires
        forall|i: int| 0 <= i < window.len() ==>
            before[#[trigger] window[i]].hash == after[window[i]].hash,
        forall|i: int|
            0 <= i < probation.len() ==>
                before[#[trigger] probation[i]].hash == after[probation[i]].hash,
        forall|i: int|
            0 <= i < protected.len() ==>
                before[#[trigger] protected[i]].hash == after[protected[i]].hash,
    ensures
        eviction_order(before, estimates, window, probation, protected) == eviction_order(
            after,
            estimates,
            window,
            probation,
            protected,
        ),
    decreases window.len() + probation.len() + protected.len(),
{
    match victim(before, estimates, window, probation, protected) {
        Queue::Window => lemma_eviction_order_frame(
            before,
            after,
            estimates,
            window.drop_first(),
            probation,
            protected,
        ),
        Queue::Probation => lemma_eviction_order_frame(
            before,
            after,
            estimates,
            window,
            probation.drop_first(),
            protected,
        ),
        Queue::Protected => lemma_eviction_order_frame(
            before,
            after,
            estimates,
            window,
            probation,
            protected.drop_first(),
        ),
        Queue::Untracked => {},
    }
}

impl Lfu {
    /// The slots in a segment, from the least to the most recently used.
    pub open spec fn slots(&self, queue: Queue) -> Seq<usize> {
        match queue {
            Queue::Window => self.window(),
            Queue::Probation => self.probation(),
            Queue::Protected => self.protected(),
            Queue::Untracked => Seq::empty(),
        }
    }

    /// The sketch and the step counter after one more access to `hash`: the estimate of the
    /// hash grew by one, saturating; no estimate shrank, and none grew by more than one; and
    /// if that was the step at which the counter reached the width of the sketch, every
    /// estimate and the counter were halved after that.
    pub open spec fn bumped(&self, after: &Lfu, hash: u64) -> bool {
        let halved = self.step() + 1 >= self.decay();
        &&& after.decay() == self.decay()
        &&& after.step() == (if halved {
            (self.step() + 1) / 2
        } else {
            self.step() + 1
        })
        &&& after.estimates()[hash] == aged(saturating_inc(self.estimates()[hash]), halved)
        &&& forall|other: u64|
            aged(self.estimates()[other], halved) <= #[trigger] after.estimates()[other] <= aged(
                saturating_inc(self.estimates()[other]),
                halved,
            )
    }

    /// The sketch and the step counter are the same.
    pub open spec fn same_frequencies(&self, after: &Lfu) -> bool {
        &&& after.estimates() == self.estimates()
        &&& after.step() == self.step()
        &&& after.decay() == self.decay()
    }

    /// The capacities are the same.
    pub open spec fn same_capacities(&self, after: &Lfu) -> bool {
        &&& after.window_weight_capacity() == self.window_weight_capacity()
        &&& after.protected_weight_capacity() == self.protected_weight_capacity()
    }

    /// The part of the invariant that holds whatever the records are: no slot is in two places.
    pub closed spec fn inv(&self) -> bool {
        &&& self.window.wf()
        &&& self.probation.wf()
        &&& self.protected.wf()
        &&& (self.window@ + self.probation@ + self.protected@).no_duplicates()
        &&& forall|i: int|
            0 <= i < (self.window@ + self.probation@ + self.protected@).len() ==> (self.window@
                + self.probation@ + self.protected@)[i] < usize::MAX
        &&& self.step < self.decay
        &&& self.decay == sketch_width(self.frequencies)
        &&& sketch_depth(self.frequencies) > 0
    }

    /// What the invariant says: no slot is in two places, a record is in a segment exactly if
    /// it names that segment, the weights are the sums over the segments, and `window` and
    /// `protected` are within their capacities.
    pub proof fn lemma_wf(&self, metas: Map<usize, Meta>)
        requires
            self.wf(metas),
        ensures
            self.inv(),
            (self.window() + self.probation() + self.protected()).no_duplicates(),
            forall|queue: Queue, i: int|
                0 <= i < self.slots(queue).len() ==> metas.dom().contains(
                    #[trigger] self.slots(queue)[i],
                ) && metas[self.slots(queue)[i]].queue == queue
                    && metas[self.slots(queue)[i]].flagged,
            forall|slot: usize|
                metas.dom().contains(slot) ==> (#[trigger] metas[slot]).queue == Queue::Untracked
                    || self.slots(metas[slot].queue).contains(slot),
            forall|slot: usize|
                metas.dom().contains(slot) && (#[trigger] metas[slot]).queue == Queue::Untracked
                    ==> !metas[slot].flagged,
            self.window_weight() == total_weight(metas, self.window()),
            self.probation_weight() == total_weight(metas, self.probation()),
            self.protected_weight() == total_weight(metas, self.protected()),
            self.weight() == total_weight(metas, self.window() + self.probation()
                + self.protected()),
            self.weight() <= usize::MAX,
            self.window_weight() <= self.window_weight_capacity(),
            self.protected_weight() <= self.protected_weight_capacity(),
            self.step() < self.decay(),
    {
        Self::lemma_distinct(metas, self.window, Queue::Window, None);
        Self::lemma_distinct(metas, self.probation, Queue::Probation, None);
        Self::lemma_distinct(metas, self.protected, Queue::Protected, None);
        let all = self.window@ + self.probation@ + self.protected@;
        let w = self.window@.len() as int;
        let p = self.probation@.len() as int;
        assert forall|i: int| 0 <= i < all.len() implies all[i] < usize::MAX
            && metas[all[i]].queue == (if i
            < w {
            Queue::Window
        } else if i < w + p {
            Queue::Probation
        } else {
            Queue::Protected
        }) by {
            if i < w {
                assert(seated(metas, self.window, Queue::Window, i));
            } else if i < w + p {
                assert(seated(metas, self.probation, Queue::Probation, i - w));
            } else {
                assert(seated(metas, self.protected, Queue::Protected, i - w - p));
            }
        }
        assert forall|i: int, j: int| 0 <= i < all.len() && 0 <= j < all.len()
            && i != j implies all[i]
            != all[j] by {
            assert(metas[all[i]].queue == metas[all[j]].queue || all[i] != all[j]);
            if i < w {
                assert(all[i] == self.window@[i]);
                if j < w {
                    assert(all[j] == self.window@[j]);
                }
            } else if i < w + p {
                assert(all[i] == self.probation@[i - w]);
                if w <= j < w + p {
                    assert(all[j] == self.probation@[j - w]);
                }
            } else {
                assert(all[i] == self.protected@[i - w - p]);
                if w + p <= j {
                    assert(all[j] == self.protected@[j - w - p]);
                }
            }
        }
        assert forall|queue: Queue, i: int| 0 <= i < self.slots(queue).len() implies
            metas.dom().contains(
            #[trigger] self.slots(queue)[i],
        ) && metas[self.slots(queue)[i]].queue == queue && metas[self.slots(queue)[i]].flagged by {
            assert(seated(metas, self.segment(queue), queue, i));
        }
        assert forall|slot: usize| metas.dom().contains(slot) implies (#[trigger] metas[slot]).queue
            == Queue::Untracked || self.slots(metas[slot].queue).contains(slot) by {
            assert(self.placed(metas, slot));
        }
        assert forall|slot: usize|
            metas.dom().contains(slot)
                && (#[trigger] metas[slot]).queue == Queue::Untracked implies
                    !metas[slot].flagged by {
            assert(self.placed(metas, slot));
        }
        lemma_total_weight_add(metas, self.window@, self.probation@);
        lemma_total_weight_add(metas, self.window@ + self.probation@, self.protected@);
    }

    /// Whether a sketch can serve the policy: it has a row and a column.
    pub open spec fn usable(frequencies: CMSketchU16) -> bool {
        sketch_width(frequencies) > 0 && sketch_depth(frequencies) > 0
    }

    /// A policy for a cache of the given capacity, without any record. The config must be
    /// valid and the sketch must have a row and a column.
    pub fn new(capacity: usize, config: &LfuConfig, frequencies: CMSketchU16) -> (lfu: Self)
        requires
            config.valid(),
            Self::usable(frequencies),
        ensures
            lfu.inv(),
            forall|metas: Map<usize, Meta>|
                (forall|slot: usize|
                    metas.dom().contains(slot) ==>
                        (#[trigger] metas[slot]).queue == Queue::Untracked
                        && !metas[slot].flagged) ==> #[trigger] lfu.wf(metas),
            lfu.window() == Seq::<usize>::empty(),
            lfu.probation() == Seq::<usize>::empty(),
            lfu.protected() == Seq::<usize>::empty(),
            lfu.window_weight_capacity() == config.window_capacity_ratio.floor_of(capacity),
            lfu.protected_weight_capacity() == config.protected_capacity_ratio.floor_of(capacity),
            lfu.window_weight() == 0,
            lfu.probation_weight() == 0,
            lfu.protected_weight() == 0,
            lfu.estimates() == sketch_estimates(frequencies),
            lfu.step() == 0,
            lfu.decay() == sketch_width(frequencies),
    {
        let window_weight_capacity = config.window_capacity_ratio.apply(capacity);
        let protected_weight_capacity = config.protected_capacity_ratio.apply(capacity);
        let decay = frequencies.width();
        let lfu = Self {
            window: SlabLinkedList::new(),
            probation: SlabLinkedList::new(),
            protected: SlabLinkedList::new(),
            window_weight: 0,
            probation_weight: 0,
            protected_weight: 0,
            window_weight_capacity,
            protected_weight_capacity,
            frequencies,
            step: 0,
            decay,
        };
        proof {
            assert(lfu.window@ + lfu.probation@ + lfu.protected@ =~= Seq::<usize>::empty());
            assert forall|metas: Map<usize, Meta>|
                (forall|slot: usize|
                    metas.dom().contains(slot) ==>
                        (#[trigger] metas[slot]).queue == Queue::Untracked
                        && !metas[slot].flagged) implies #[trigger] lfu.wf(metas) by {
                assert forall|slot: usize| metas.dom().contains(slot) implies
                    #[trigger] lfu.placed(metas, slot) by {
                    assert(metas[slot].queue == Queue::Untracked);
                }
            }
        }
        lfu
    }

    /// A policy for a cache of the given capacity, if the config is valid and the sketch has a
    /// row and a column.
    pub fn try_new(capacity: usize, config: &LfuConfig, frequencies: CMSketchU16) -> (lfu: Option<Self>)
        ensures
            lfu is Some <==> config.valid() && Self::usable(frequencies),
            lfu matches Some(lfu) ==> {
                &&& lfu.inv()
                &&& forall|metas: Map<usize, Meta>|
                    (forall|slot: usize|
                        metas.dom().contains(slot) ==> (#[trigger] metas[slot]).queue
                            == Queue::Untracked && !metas[slot].flagged) ==>
                                #[trigger] lfu.wf(metas)
                &&& lfu.window() == Seq::<usize>::empty()
                &&& lfu.probation() == Seq::<usize>::empty()
                &&& lfu.protected() == Seq::<usize>::empty()
                &&& lfu.window_weight_capacity() == config.window_capacity_ratio.floor_of(capacity)
                &&& lfu.protected_weight_capacity() == config.protected_capacity_ratio.floor_of(
                    capacity,
                )
                &&& lfu.estimates() == sketch_estimates(frequencies)
                &&& lfu.step() == 0
                &&& lfu.decay() == sketch_width(frequencies)
            },
    {
        if config.is_valid() && frequencies.width() > 0 && frequencies.depth() > 0 {
            Some(Self::new(capacity, config, frequencies))
        } else {
            None
        }
    }

    /// Counts one access to the hash, and halves every count once as many accesses were
    /// counted as the sketch is wide.
    fn update_frequencies(&mut self, hash: u64)
        requires
            old(self).step < old(self).decay,
            old(self).decay == sketch_width(old(self).frequencies),
            sketch_depth(old(self).frequencies) > 0,
        ensures
            old(self).bumped(final(self), hash),
            final(self).step < final(self).decay,
            final(self).decay == sketch_width(final(self).frequencies),
            sketch_depth(final(self).frequencies) > 0,
            final(self).window == old(self).window,
            final(self).probation == old(self).probation,
            final(self).protected == old(self).protected,
            final(self).window_weight == old(self).window_weight,
            final(self).probation_weight == old(self).probation_weight,
            final(self).protected_weight == old(self).protected_weight,
            final(self).window_weight_capacity == old(self).window_weight_capacity,
            final(self).protected_weight_capacity == old(self).protected_weight_capacity,
    {
        let ghost before = sketch_estimates(self.frequencies);
        self.frequencies.inc(hash);
        let ghost counted = sketch_estimates(self.frequencies);
        self.step += 1;
        if self.step >= self.decay {
            let step = self.step;
            assert(step >> 1 == step / 2) by (bit_vector);
            self.step >>= 1;
            self.frequencies.halve();
            proof {
                assert forall|other: u64|
                    aged(before[other], true) <= #[trigger] sketch_estimates(self.frequencies)[other] <= aged(
                        saturating_inc(before[other]),
                        true,
                    ) by {
                    assert(before[other] <= counted[other] <= before[other] + 1);
                }
            }
        } else {
            proof {
                assert forall|other: u64|
                    aged(before[other], false) <= #[trigger] sketch_estimates(self.frequencies)[other] <= aged(
                        saturating_inc(before[other]),
                        false,
                    ) by {
                    assert(before[other] <= counted[other] <= before[other] + 1);
                }
            }
        }
    }

    /// The frequency estimate of a hash.
    pub fn estimate(&self, hash: u64) -> (estimate: u16)
        requires
            self.inv(),
        ensures
            estimate == self.estimates()[hash],
    {
        self.frequencies.estimate(hash)
    }
}

impl Lfu {
    /// Admits a record that no segment holds: it enters `window` as the most recently used,
    /// its hash is counted, and `window` overflows into `probation`.
    pub fn push<K, V, H>(&mut self, records: &mut RecordResolver<K, V, H, LfuState>, token: RecordToken)
        requires
            old(records).wf(),
            old(self).wf(metas(old(records))),
            old(records).live(token),
            metas(old(records)).dom().contains(token.slot()),
            metas(old(records))[token.slot()].queue == Queue::Untracked,
            old(self).weight() + metas(old(records))[token.slot()].weight <= usize::MAX,
        ensures
            final(records).wf(),
            final(self).wf(metas(final(records))),
            same_entries(old(records), final(records)),
            (final(self).window(), final(self).probation()) == overflow(
                metas(old(records)),
                old(self).window().push(token.slot()),
                old(self).probation(),
                old(self).window_weight_capacity(),
            ),
            final(self).protected() == old(self).protected(),
            final(self).members() == old(self).members().insert(token.slot()),
            final(self).weight() == old(self).weight() + metas(old(records))[token.slot()].weight,
            old(self).bumped(final(self), metas(old(records))[token.slot()].hash),
            old(self).same_capacities(final(self)),
    {
        let ghost before = *self;
        let ghost before_metas = metas(records);
        let slot = token.index();
        proof {
            assert(self.placed(before_metas, slot));
            assert forall|queue: Queue| queue != Queue::Untracked implies
                !self.segment(queue)@.contains(slot) by {
                if self.segment(queue)@.contains(slot) {
                    let i = self.segment(queue)@.index_of(slot);
                    assert(seated(before_metas, self.segment(queue), queue, i));
                }
            }
            assert(!self.segment(Queue::Window)@.contains(slot));
            assert(!self.segment(Queue::Probation)@.contains(slot));
            assert(!self.segment(Queue::Protected)@.contains(slot));
        }
        self.attach(records, slot, Queue::Window);
        let hash = read(records, slot).0;
        let ghost attached = *self;
        self.update_frequencies(hash);
        proof {
            let now = metas(records);
            assert forall|other: usize| now.dom().contains(other) implies
                #[trigger] self.placed(now, other) by {
                assert(attached.placed(now, other));
            }
            assert(self.structure(now, None));
        }
        let ghost goal = overflow(
            before_metas,
            before.window@.push(slot),
            before.probation@,
            before.window_weight_capacity,
        );
        proof {
            lemma_overflow_frame(
                before_metas,
                metas(records),
                self.window@,
                self.probation@,
                self.window_weight_capacity,
            );
        }
        self.overflow_from(records, Queue::Window, Ghost(before_metas));
        proof {
            lemma_overflow_members(
                before_metas,
                before.window@.push(slot),
                before.probation@,
                before.window_weight_capacity,
            );
            assert(before.window@.push(slot).to_set() =~= before.window@.to_set().insert(slot)) by {
                assert forall|other: usize| before.window@.push(slot).to_set().contains(other) implies before.window@.to_set().insert(
                    slot,
                ).contains(other) by {
                    let i = before.window@.push(slot).index_of(other);
                    if i < before.window@.len() {
                        assert(before.window@[i] == other);
                    }
                }
                assert forall|other: usize| before.window@.to_set().insert(slot).contains(other) implies before.window@.push(
                    slot,
                ).to_set().contains(other) by {
                    if other == slot {
                        assert(before.window@.push(slot)[before.window@.len() as int] == slot);
                    } else {
                        let i = before.window@.index_of(other);
                        assert(before.window@.push(slot)[i] == other);
                    }
                }
            }
            assert(self.members() =~= before.members().insert(slot));
        }
    }

    /// The weight that `window` holds, or `protected` if that is asked for.
    fn held(&self, from: Queue) -> (weight: usize)
        ensures
            weight == (if from == Queue::Window {
                self.window_weight
            } else {
                self.protected_weight
            }),
    {
        match from {
            Queue::Window => self.window_weight,
            _ => self.protected_weight,
        }
    }

    /// Moves the least recently used records of `window` or `protected` to the most recently
    /// used end of `probation` until the segment is within its capacity.
    fn overflow_from<K, V, H>(
        &mut self,
        records: &mut RecordResolver<K, V, H, LfuState>,
        from: Queue,
        Ghost(weights): Ghost<Map<usize, Meta>>,
    )
        requires
            old(records).wf(),
            old(self).structure(metas(old(records)), None),
            from == Queue::Window || from == Queue::Protected,
            forall|slot: usize| weights[slot].weight == metas(old(records))[slot].weight,
            from == Queue::Window ==>
                old(self).protected_weight <= old(self).protected_weight_capacity,
            from == Queue::Protected ==>
                old(self).window_weight <= old(self).window_weight_capacity,
        ensures
            final(records).wf(),
            final(self).wf(metas(final(records))),
            same_entries(old(records), final(records)),
            forall|slot: usize| weights[slot].weight == metas(final(records))[slot].weight,
            forall|slot: usize| metas(old(records))[slot].hash == metas(final(records))[slot].hash,
            metas(final(records)).dom() == metas(old(records)).dom(),
            (final(self).segment(from)@, final(self).probation@) == overflow(
                weights,
                old(self).segment(from)@,
                old(self).probation@,
                (if from == Queue::Window {
                    old(self).window_weight_capacity
                } else {
                    old(self).protected_weight_capacity
                }),
            ),
            from == Queue::Window ==> final(self).protected == old(self).protected,
            from == Queue::Protected ==> final(self).window == old(self).window,
            final(self).frequencies == old(self).frequencies,
            final(self).step == old(self).step,
            final(self).decay == old(self).decay,
            final(self).window_weight_capacity == old(self).window_weight_capacity,
            final(self).protected_weight_capacity == old(self).protected_weight_capacity,
            final(self).weight() == old(self).weight(),
    {
        let ghost before = *self;
        let ghost before_records = *records;
        let capacity = if from == Queue::Window {
            self.window_weight_capacity
        } else {
            self.protected_weight_capacity
        };
        let ghost goal = overflow(weights, self.segment(from)@, self.probation@, capacity);
        proof {
            lemma_total_weight_frame(weights, metas(records), self.segment(from)@);
        }
        while self.held(from) > capacity
            invariant
                records.wf(),
                self.structure(metas(records), None),
                same_entries(&before_records, records),
                from == Queue::Window || from == Queue::Protected,
                forall|slot: usize| weights[slot].weight == metas(records)[slot].weight,
                forall|slot: usize| metas(&before_records)[slot].hash == metas(records)[slot].hash,
                metas(records).dom() == metas(&before_records).dom(),
                overflow(weights, self.segment(from)@, self.probation@, capacity) == goal,
                from == Queue::Window ==> self.protected == before.protected,
                from == Queue::Protected ==> self.window == before.window,
                from == Queue::Window ==> self.protected_weight <= self.protected_weight_capacity,
                from == Queue::Protected ==> self.window_weight <= self.window_weight_capacity,
                capacity == (if from == Queue::Window {
                    self.window_weight_capacity
                } else {
                    self.protected_weight_capacity
                }),
                self.frequencies == before.frequencies,
                self.step == before.step,
                self.decay == before.decay,
                self.window_weight_capacity == before.window_weight_capacity,
                self.protected_weight_capacity == before.protected_weight_capacity,
                self.weight() == before.weight(),
            decreases self.segment(from)@.len(),
        {
            let ghost round_metas = metas(records);
            let ghost round_from = self.segment(from)@;
            let ghost round_to = self.probation@;
            proof {
                lemma_total_weight_frame(weights, round_metas, round_from);
            }
            let ghost round = *self;
            let slot = self.detach_front(records, from);
            let ghost halfway = *self;
            self.attach(records, slot, Queue::Probation);
            proof {
                assert(same_entry(before_records.records()[slot], records.records()[slot]));
                assert(halfway.segment(Queue::Protected) == round.segment(Queue::Protected) || from
                    == Queue::Protected);
                assert(halfway.segment(Queue::Window) == round.segment(Queue::Window) || from
                    == Queue::Window);
                assert(self.segment(Queue::Protected) == halfway.segment(Queue::Protected));
                assert(self.segment(Queue::Window) == halfway.segment(Queue::Window));
                assert(halfway.segment(Queue::Probation) == round.segment(Queue::Probation));
                assert(round_from.len() > 0);
                lemma_overflow_frame(weights, weights, round_from, round_to, capacity);
            }
        }
        proof {
            lemma_total_weight_frame(weights, metas(records), self.segment(from)@);
        }
    }
}

impl Lfu {
    /// Counts an access to the record. No segment changes.
    pub fn acquire<K, V, H>(&mut self, records: &RecordResolver<K, V, H, LfuState>, token: RecordToken)
        requires
            old(self).wf(metas(records)),
            records.live(token),
            metas(records).dom().contains(token.slot()),
        ensures
            final(self).wf(metas(records)),
            old(self).bumped(final(self), metas(records)[token.slot()].hash),
            old(self).step() + 1 < old(self).decay() ==> forall|hash: u64|
                final(self).estimates()[hash] >= #[trigger] old(self).estimates()[hash],
            final(self).window() == old(self).window(),
            final(self).probation() == old(self).probation(),
            final(self).protected() == old(self).protected(),
            final(self).weight() == old(self).weight(),
            old(self).same_capacities(final(self)),
    {
        let ghost before = *self;
        let hash = read(records, token.index()).0;
        self.update_frequencies(hash);
        proof {
            let now = metas(records);
            assert forall|other: usize| now.dom().contains(other) implies
                #[trigger] self.placed(now, other) by {
                assert(before.placed(now, other));
            }
            if before.step() + 1 < before.decay() {
                assert forall|other: u64|
                    self.estimates()[other] >= #[trigger] before.estimates()[other] by {
                    assert(aged(before.estimates()[other], false) <= self.estimates()[other]);
                }
            }
        }
    }

    /// The number of records in the segments.
    pub fn len(&self) -> (len: usize)
        requires
            self.inv(),
        ensures
            len == self.window().len() + self.probation().len() + self.protected().len(),
    {
        proof {
            let all = self.window@ + self.probation@ + self.protected@;
            crate::dlist::lemma_distinct_below(all, usize::MAX as nat);
        }
        self.window.len() + self.probation.len() + self.protected.len()
    }

    /// Whether the segments are empty.
    pub fn is_empty(&self) -> (empty: bool)
        requires
            self.inv(),
        ensures
            empty <==> self.window().len() + self.probation().len() + self.protected().len() == 0,
    {
        self.len() == 0
    }

    /// The weight that `window` may hold.
    pub fn window_capacity(&self) -> (capacity: usize)
        ensures
            capacity == self.window_weight_capacity(),
    {
        self.window_weight_capacity
    }

    /// The weight that `protected` may hold.
    pub fn protected_capacity(&self) -> (capacity: usize)
        ensures
            capacity == self.protected_weight_capacity(),
    {
        self.protected_weight_capacity
    }

    /// The number of records and the weight in each segment: `window`, `probation`,
    /// `protected`.
    pub fn usage(&self) -> (usage: [(usize, usize); 3])
        requires
            self.inv(),
        ensures
            usage[0] == (self.window().len() as usize, self.window_weight()),
            usage[1] == (self.probation().len() as usize, self.probation_weight()),
            usage[2] == (self.protected().len() as usize, self.protected_weight()),
    {
        [
            (self.window.len(), self.window_weight),
            (self.probation.len(), self.probation_weight),
            (self.protected.len(), self.protected_weight),
        ]
    }
}

impl Lfu {
    /// A slot that left a segment is no longer among the members, and the rest are.
    proof fn lemma_members_without(before: Seq<usize>, at: int)
        requires
            before.no_duplicates(),
            0 <= at < before.len(),
        ensures
            before.remove(at).to_set() == before.to_set().remove(before[at]),
    {
        let rest = before.remove(at);
        assert forall|slot: usize| rest.to_set().contains(slot)
            <==> before.to_set().remove(before[at]).contains(
            slot,
        ) by {
            if rest.contains(slot) {
                let i = rest.index_of(slot);
                if i < at {
                    assert(before[i] == slot);
                } else {
                    assert(before[i + 1] == slot);
                }
            }
            if before.contains(slot) && slot != before[at] {
                let i = before.index_of(slot);
                if i < at {
                    assert(rest[i] == slot);
                } else {
                    assert(rest[i - 1] == slot);
                }
            }
        }
        assert(rest.to_set() =~= before.to_set().remove(before[at]));
    }

    /// A slot that entered a segment at the back is among the members, with the rest.
    proof fn lemma_members_with(before: Seq<usize>, slot: usize)
        ensures
            before.push(slot).to_set() == before.to_set().insert(slot),
    {
        let more = before.push(slot);
        assert forall|other: usize| more.to_set().contains(other)
            <==> before.to_set().insert(slot).contains(
            other,
        ) by {
            if more.contains(other) {
                let i = more.index_of(other);
                if i < before.len() {
                    assert(before[i] == other);
                }
            }
            if before.contains(other) {
                let i = before.index_of(other);
                assert(more[i] == other);
            }
            if other == slot {
                assert(more[before.len() as int] == slot);
            }
        }
        assert(more.to_set() =~= before.to_set().insert(slot));
    }

    /// Selects a victim and takes it out of its segment: the least recently used record of
    /// the segment that [`victim`] names. Returns nothing only if all segments are empty.
    pub fn pop<K, V, H>(&mut self, records: &mut RecordResolver<K, V, H, LfuState>) -> (evicted: Option<
        RecordToken,
    >)
        requires
            old(records).wf(),
            old(self).wf(metas(old(records))),
        ensures
            final(records).wf(),
            final(self).wf(metas(final(records))),
            same_entries(old(records), final(records)),
            old(self).same_frequencies(final(self)),
            old(self).same_capacities(final(self)),
            metas(final(records)).dom() == metas(old(records)).dom(),
            forall|slot: usize| metas(final(records))[slot].hash == metas(old(records))[slot].hash,
            forall|slot: usize| metas(final(records))[slot].weight
                == metas(old(records))[slot].weight,
            match evicted {
                Some(token) => {
                    let queue = victim(
                        metas(old(records)),
                        old(self).estimates(),
                        old(self).window(),
                        old(self).probation(),
                        old(self).protected(),
                    );
                    &&& queue != Queue::Untracked
                    &&& final(records).live(token)
                    &&& token.slot() == old(self).slots(queue)[0]
                    &&& final(self).slots(queue) == old(self).slots(queue).drop_first()
                    &&& forall|other: Queue| other != queue ==>
                        final(self).slots(other) == old(self).slots(other)
                    &&& final(self).members() == old(self).members().remove(token.slot())
                    &&& forall|other: usize|
                        other != token.slot() ==> #[trigger] metas(final(records))[other] == metas(
                            old(records),
                        )[other]
                    &&& metas(final(records))[token.slot()].queue == Queue::Untracked
                    &&& !metas(final(records))[token.slot()].flagged
                    &&& final(self).weight() + metas(old(records))[token.slot()].weight
                        == old(self).weight()
                },
                None => {
                    &&& old(self).window().len() == 0
                    &&& old(self).probation().len() == 0
                    &&& old(self).protected().len() == 0
                    &&& final(self).window() == old(self).window()
                    &&& final(self).probation() == old(self).probation()
                    &&& final(self).protected() == old(self).protected()
                    &&& metas(final(records)) == metas(old(records))
                },
            },
    {
        let ghost before = *self;
        let ghost before_metas = metas(records);
        proof {
            self.lemma_wf(before_metas);
            if self.window@.len() > 0 {
                assert(seated(before_metas, self.window, Queue::Window, 0));
            }
            if self.probation@.len() > 0 {
                assert(seated(before_metas, self.probation, Queue::Probation, 0));
            }
        }
        // Compare the frequency of the front element of `window` and `probation` queue, and evict
        // the lower one. If both `window` and `probation` are empty, try evict from `protected`.
        let window = match self.window.front() {
            Some(slot) => Some(*slot),
            None => None,
        };
        let probation = match self.probation.front() {
            Some(slot) => Some(*slot),
            None => None,
        };
        let queue = match (window, probation) {
            (None, None) => {
                if self.protected.is_empty() {
                    return None;
                }
                Queue::Protected
            },
            (None, Some(_)) => Queue::Probation,
            (Some(_), None) => Queue::Window,
            (Some(window), Some(probation)) => {
                let window_hash = read(records, window).0;
                let probation_hash = read(records, probation).0;
                if self.frequencies.estimate(window_hash) < self.frequencies.estimate(probation_hash) {
                    Queue::Window
                } else {
                    Queue::Probation
                }
            },
        };
        let slot = self.detach_front(records, queue);
        self.forget(records, slot);
        proof {
            Self::lemma_distinct(before_metas, before.segment(queue), queue, None);
            Self::lemma_members_without(before.segment(queue)@, 0);
            assert(before.segment(queue)@.remove(0) =~= before.segment(queue)@.drop_first());
            assert(self.segment(Queue::Window) == before.segment(Queue::Window) || queue
                == Queue::Window);
            assert(self.segment(Queue::Probation) == before.segment(Queue::Probation) || queue
                == Queue::Probation);
            assert(self.segment(Queue::Protected) == before.segment(Queue::Protected) || queue
                == Queue::Protected);
            assert forall|other: Queue| other != queue && other != Queue::Untracked implies
                !before.slots(
                other,
            ).contains(slot) by {
                if before.slots(other).contains(slot) {
                    let i = before.slots(other).index_of(slot);
                    assert(before.slots(other)[i] == slot);
                }
            }
            assert(!before.slots(Queue::Window).contains(slot) || queue == Queue::Window);
            assert(!before.slots(Queue::Probation).contains(slot) || queue == Queue::Probation);
            assert(!before.slots(Queue::Protected).contains(slot) || queue == Queue::Protected);
            assert(self.members() =~= before.members().remove(slot));
        }
        Some(records.token_at(slot))
    }

    /// Takes a record out of the segment that holds it. The record must be in a segment.
    pub fn remove<K, V, H>(&mut self, records: &mut RecordResolver<K, V, H, LfuState>, token: RecordToken)
        requires
            old(records).wf(),
            old(self).wf(metas(old(records))),
            old(records).live(token),
            metas(old(records)).dom().contains(token.slot()),
            metas(old(records))[token.slot()].queue != Queue::Untracked,
        ensures
            final(records).wf(),
            final(self).wf(metas(final(records))),
            same_entries(old(records), final(records)),
            old(self).same_frequencies(final(self)),
            old(self).same_capacities(final(self)),
            old(self).slots(metas(old(records))[token.slot()].queue).contains(token.slot()),
            final(self).slots(metas(old(records))[token.slot()].queue) == old(self).slots(
                metas(old(records))[token.slot()].queue,
            ).remove(old(self).slots(metas(old(records))[token.slot()].queue).index_of(token.slot())),
            forall|other: Queue|
                other != metas(old(records))[token.slot()].queue ==>
                    final(self).slots(other) == old(
                    self,
                ).slots(other),
            final(self).members() == old(self).members().remove(token.slot()),
            old(self).without(final(self), token.slot()),
            metas(final(records)).dom() == metas(old(records)).dom(),
            forall|other: usize|
                other != token.slot() ==>
                    #[trigger] metas(final(records))[other] == metas(old(records))[other],
            metas(final(records))[token.slot()].queue == Queue::Untracked,
            !metas(final(records))[token.slot()].flagged,
            final(self).weight() + metas(old(records))[token.slot()].weight == old(self).weight(),
    {
        let ghost before = *self;
        let ghost before_metas = metas(records);
        let slot = token.index();
        let queue = self.detach(records, slot);
        self.forget(records, slot);
        proof {
            before.lemma_wf(before_metas);
            Self::lemma_distinct(before_metas, before.segment(queue), queue, None);
            Self::lemma_members_without(before.segment(queue)@, before.segment(queue)@.index_of(slot));
            assert(self.segment(Queue::Window) == before.segment(Queue::Window) || queue
                == Queue::Window);
            assert(self.segment(Queue::Probation) == before.segment(Queue::Probation) || queue
                == Queue::Probation);
            assert(self.segment(Queue::Protected) == before.segment(Queue::Protected) || queue
                == Queue::Protected);
            assert forall|other: Queue| other != queue && other != Queue::Untracked implies
                !before.slots(
                other,
            ).contains(slot) by {
                if before.slots(other).contains(slot) {
                    let i = before.slots(other).index_of(slot);
                    assert(before.slots(other)[i] == slot);
                }
            }
            assert(!before.slots(Queue::Window).contains(slot) || queue == Queue::Window);
            assert(!before.slots(Queue::Probation).contains(slot) || queue == Queue::Probation);
            assert(!before.slots(Queue::Protected).contains(slot) || queue == Queue::Protected);
            assert(self.members() =~= before.members().remove(slot));
            assert forall|other: Queue|
                #![trigger self.slots(other)]
                self.slots(other) == (if before.slots(other).contains(slot) {
                    before.slots(other).remove(before.slots(other).index_of(slot))
                } else {
                    before.slots(other)
                }) by {
                if other == Queue::Untracked {
                    assert(!before.slots(other).contains(slot));
                }
            }
        }
    }

    /// A policy that does not track a record is as it is without the record.
    pub proof fn lemma_without_idle_same(&self, metas: Map<usize, Meta>, slot: usize)
        requires
            self.wf(metas),
            metas.dom().contains(slot),
            metas[slot].queue == Queue::Untracked,
        ensures
            self.without(self, slot),
    {
        self.lemma_without_idle(metas, slot);
        assert forall|queue: Queue| !self.slots(queue).contains(slot) by {
            if self.slots(queue).contains(slot) {
                let i = self.slots(queue).index_of(slot);
                assert(self.slots(queue)[i] == slot);
            }
        }
    }
}

impl Lfu {
    /// The policy after the record in `slot` was taken out of its segment, if it was in one,
    /// and admitted again with what `metas` says of it: it entered `window` as the most
    /// recently used, its hash was counted, and `window` overflowed into `probation`.
    pub open spec fn readmitted(&self, after: &Lfu, metas: Map<usize, Meta>, slot: usize) -> bool {
        &&& self.same_capacities(after)
        &&& (after.window(), after.probation()) == overflow(
            metas,
            dropped(self.window(), slot).push(slot),
            dropped(self.probation(), slot),
            self.window_weight_capacity(),
        )
        &&& after.protected() == dropped(self.protected(), slot)
        &&& self.bumped(after, metas[slot].hash)
    }

    /// The policy after it stopped tracking the record in `slot`, if it tracked it: the slot
    /// left its segment, and nothing else changed.
    pub open spec fn without(&self, after: &Lfu, slot: usize) -> bool {
        &&& self.same_frequencies(after)
        &&& self.same_capacities(after)
        &&& forall|queue: Queue|
            #![trigger after.slots(queue)]
            after.slots(queue) == (if self.slots(queue).contains(slot) {
                self.slots(queue).remove(self.slots(queue).index_of(slot))
            } else {
                self.slots(queue)
            })
    }

    /// What a release of the record in `slot` makes of the policy, by the segment that held
    /// the record. A record that no segment held is admitted: it enters `window` as the most
    /// recently used, its hash is counted, and `window` overflows into `probation`. A record
    /// in `window` or `protected` becomes the most recently used of its segment. A record in
    /// `probation` is promoted to the most recently used end of `protected`, which then
    /// overflows into `probation`.
    pub open spec fn released(&self, after: &Lfu, metas: Map<usize, Meta>, slot: usize) -> bool {
        &&& self.same_capacities(after)
        &&& after.protected_weight() <= after.protected_weight_capacity()
        &&& after.members() == self.members().insert(slot)
        &&& match metas[slot].queue {
            Queue::Untracked => {
                &&& (after.window(), after.probation()) == overflow(
                    metas,
                    self.window().push(slot),
                    self.probation(),
                    self.window_weight_capacity(),
                )
                &&& after.protected() == self.protected()
                &&& self.bumped(after, metas[slot].hash)
                &&& after.weight() == self.weight() + metas[slot].weight
            },
            Queue::Window => {
                &&& self.window().contains(slot)
                &&& after.window() == self.window().remove(self.window().index_of(slot)).push(slot)
                &&& after.probation() == self.probation()
                &&& after.protected() == self.protected()
                &&& self.same_frequencies(after)
                &&& after.weight() == self.weight()
            },
            Queue::Probation => {
                &&& self.probation().contains(slot)
                &&& (after.protected(), after.probation()) == overflow(
                    metas,
                    self.protected().push(slot),
                    self.probation().remove(self.probation().index_of(slot)),
                    self.protected_weight_capacity(),
                )
                &&& after.window() == self.window()
                &&& self.same_frequencies(after)
                &&& after.weight() == self.weight()
            },
            Queue::Protected => {
                &&& self.protected().contains(slot)
                &&& after.protected()
                    == self.protected().remove(self.protected().index_of(slot)).push(
                    slot,
                )
                &&& after.window() == self.window()
                &&& after.probation() == self.probation()
                &&& self.same_frequencies(after)
                &&& after.weight() == self.weight()
            },
        }
    }

    /// Takes a record back after an access, as [`Lfu::released`] says.
    pub fn release<K, V, H>(&mut self, records: &mut RecordResolver<K, V, H, LfuState>, token: RecordToken)
        requires
            old(records).wf(),
            old(self).wf(metas(old(records))),
            old(records).live(token),
            metas(old(records)).dom().contains(token.slot()),
            metas(old(records))[token.slot()].queue == Queue::Untracked ==>
                old(self).weight() + metas(
                old(records),
            )[token.slot()].weight <= usize::MAX,
        ensures
            final(records).wf(),
            final(self).wf(metas(final(records))),
            same_entries(old(records), final(records)),
            old(self).released(final(self), metas(old(records)), token.slot()),
            final(self).protected_weight() <= final(self).protected_weight_capacity(),
            final(self).members() == old(self).members().insert(token.slot()),
    {
        let ghost before = *self;
        let ghost before_metas = metas(records);
        let slot = token.index();
        let queue = read(records, slot).2;
        proof {
            before.lemma_wf(before_metas);
            Self::lemma_distinct(before_metas, before.window, Queue::Window, None);
            Self::lemma_distinct(before_metas, before.probation, Queue::Probation, None);
            Self::lemma_distinct(before_metas, before.protected, Queue::Protected, None);
        }
        match queue {
            Queue::Untracked => {
                self.push(records, token);
            },
            Queue::Window => {
                // Move to MRU position of `window`.
                self.detach(records, slot);
                self.attach(records, slot, Queue::Window);
                proof {
                    let at = before.window@.index_of(slot);
                    Self::lemma_members_without(before.window@, at);
                    Self::lemma_members_with(before.window@.remove(at), slot);
                    assert(self.segment(Queue::Probation) == before.segment(Queue::Probation));
                    assert(self.segment(Queue::Protected) == before.segment(Queue::Protected));
                    assert(self.members() =~= before.members().insert(slot));
                    lemma_total_weight_remove(before_metas, before.window@, at);
                    lemma_total_weight_push(before_metas, before.window@.remove(at), slot);
                    lemma_total_weight_frame(before_metas, metas(records), self.window@);
                }
            },
            Queue::Probation => {
                // Promote to MRU position of `protected`.
                self.detach(records, slot);
                let ghost detached = *self;
                self.attach(records, slot, Queue::Protected);
                proof {
                    assert(detached.segment(Queue::Window) == before.segment(Queue::Window));
                    assert(detached.segment(Queue::Protected) == before.segment(Queue::Protected));
                    assert(self.segment(Queue::Window) == detached.segment(Queue::Window));
                    assert(self.segment(Queue::Probation) == detached.segment(Queue::Probation));
                    lemma_overflow_frame(
                        before_metas,
                        metas(records),
                        self.protected@,
                        self.probation@,
                        self.protected_weight_capacity,
                    );
                }
                // If `protected` weight exceeds the capacity, overflow entry from `protected` to
                // `probation`.
                self.overflow_from(records, Queue::Protected, Ghost(before_metas));
                proof {
                    let at = before.probation@.index_of(slot);
                    Self::lemma_members_without(before.probation@, at);
                    Self::lemma_members_with(before.protected@, slot);
                    lemma_overflow_members(
                        before_metas,
                        before.protected@.push(slot),
                        before.probation@.remove(at),
                        before.protected_weight_capacity,
                    );
                    let moved = overflow(
                        before_metas,
                        before.protected@.push(slot),
                        before.probation@.remove(at),
                        before.protected_weight_capacity,
                    );
                    assert(self.protected@ == moved.0 && self.probation@ == moved.1);
                    assert(self.window@ == before.window@);
                    assert(before.probation@[at] == slot);
                    let both = self.protected@.to_set() + self.probation@.to_set();
                    assert(both == before.protected@.to_set().insert(slot)
                        + before.probation@.to_set().remove(
                        slot,
                    ));
                    assert forall|other: usize| self.members().contains(other)
                        <==> before.members().insert(
                        slot,
                    ).contains(other) by {
                        assert(both.contains(other) <==> (before.protected@.to_set().insert(slot)
                            + before.probation@.to_set().remove(slot)).contains(other));
                    }
                    assert(self.members() =~= before.members().insert(slot));
                }
            },
            Queue::Protected => {
                // Move to MRU position of `protected`.
                self.detach(records, slot);
                self.attach(records, slot, Queue::Protected);
                proof {
                    let at = before.protected@.index_of(slot);
                    Self::lemma_members_without(before.protected@, at);
                    Self::lemma_members_with(before.protected@.remove(at), slot);
                    assert(self.segment(Queue::Window) == before.segment(Queue::Window));
                    assert(self.segment(Queue::Probation) == before.segment(Queue::Probation));
                    assert(self.members() =~= before.members().insert(slot));
                    lemma_total_weight_remove(before_metas, before.protected@, at);
                    lemma_total_weight_push(before_metas, before.protected@.remove(at), slot);
                    lemma_total_weight_frame(before_metas, metas(records), self.protected@);
                }
            },
        }
    }
}

/// The slots that the tokens name, in the same order.
pub open spec fn slots_of(tokens: Seq<RecordToken>) -> Seq<usize> {
    Seq::new(tokens.len(), |i: int| tokens[i].slot())
}

impl Lfu {
    /// Evicts every record, and returns their tokens in the order of eviction.
    pub fn clear<K, V, H>(&mut self, records: &mut RecordResolver<K, V, H, LfuState>) -> (evicted: Vec<
        RecordToken,
    >)
        requires
            old(records).wf(),
            old(self).wf(metas(old(records))),
        ensures
            final(records).wf(),
            final(self).wf(metas(final(records))),
            same_entries(old(records), final(records)),
            old(self).same_frequencies(final(self)),
            old(self).same_capacities(final(self)),
            final(self).window().len() == 0,
            final(self).probation().len() == 0,
            final(self).protected().len() == 0,
            final(self).weight() == 0,
            slots_of(evicted@) == eviction_order(
                metas(old(records)),
                old(self).estimates(),
                old(self).window(),
                old(self).probation(),
                old(self).protected(),
            ),
            forall|i: int|
                0 <= i < evicted@.len() ==> {
                    &&& final(records).live(#[trigger] evicted@[i])
                    &&& metas(final(records)).dom().contains(evicted@[i].slot())
                    &&& metas(final(records))[evicted@[i].slot()].queue == Queue::Untracked
                    &&& !metas(final(records))[evicted@[i].slot()].flagged
                },
    {
        let ghost before = *self;
        let ghost before_records = *records;
        let ghost order = eviction_order(
            metas(records),
            self.estimates(),
            self.window(),
            self.probation(),
            self.protected(),
        );
        proof {
            self.lemma_wf(metas(records));
        }
        let mut res: Vec<RecordToken> = Vec::with_capacity(self.len());
        proof {
            assert(slots_of(res@) + order =~= order);
        }
        while !self.is_empty()
            invariant
                records.wf(),
                self.wf(metas(records)),
                self.inv(),
                same_entries(&before_records, records),
                before.same_frequencies(self),
                before.same_capacities(self),
                slots_of(res@) + eviction_order(
                    metas(records),
                    self.estimates(),
                    self.window(),
                    self.probation(),
                    self.protected(),
                ) == order,
                forall|i: int|
                    0 <= i < res@.len() ==> {
                        &&& records.live(#[trigger] res@[i])
                        &&& metas(records).dom().contains(res@[i].slot())
                        &&& metas(records)[res@[i].slot()].queue == Queue::Untracked
                        &&& !metas(records)[res@[i].slot()].flagged
                    },
            decreases self.window().len() + self.probation().len() + self.protected().len(),
        {
            let ghost round = *self;
            let ghost round_metas = metas(records);
            let ghost done = res@;
            let ghost rest = eviction_order(
                round_metas,
                self.estimates(),
                self.window(),
                self.probation(),
                self.protected(),
            );
            match self.pop(records) {
                Some(token) => {
                    res.push(token);
                    proof {
                        let queue = victim(
                            round_metas,
                            round.estimates(),
                            round.window(),
                            round.probation(),
                            round.protected(),
                        );
                        lemma_eviction_order_frame(
                            round_metas,
                            metas(records),
                            self.estimates(),
                            self.window(),
                            self.probation(),
                            self.protected(),
                        );
                        let tail = eviction_order(
                            metas(records),
                            self.estimates(),
                            self.window(),
                            self.probation(),
                            self.protected(),
                        );
                        assert(self.slots(Queue::Window) == round.slots(Queue::Window) || queue
                            == Queue::Window);
                        assert(self.slots(Queue::Probation)
                            == round.slots(Queue::Probation) || queue
                            == Queue::Probation);
                        assert(self.slots(Queue::Protected)
                            == round.slots(Queue::Protected) || queue
                            == Queue::Protected);
                        assert(rest =~= seq![token.slot()] + tail);
                        assert(slots_of(res@) =~= slots_of(done).push(token.slot()));
                        assert(slots_of(res@) + tail =~= slots_of(done) + rest);
                        self.lemma_wf(metas(records));
                        round.lemma_wf(round_metas);
                        assert(round.slots(queue)[0] == token.slot());
                        assert forall|i: int| 0 <= i < res@.len() implies {
                            &&& records.live(#[trigger] res@[i])
                            &&& metas(records).dom().contains(res@[i].slot())
                            &&& metas(records)[res@[i].slot()].queue == Queue::Untracked
                            &&& !metas(records)[res@[i].slot()].flagged
                        } by {
                            if i < done.len() {
                                assert(res@[i] == done[i]);
                                if done[i].slot() == token.slot() {
                                    assert(metas(records)[token.slot()].queue == Queue::Untracked);
                                }
                            }
                        }
                    }
                },
                None => vstd::pervasive::unreached(),
            }
        }
        proof {
            self.lemma_wf(metas(records));
            assert(self.window().len() == 0 && self.probation().len() == 0
                && self.protected().len() == 0);
            let tail = eviction_order(
                metas(records),
                self.estimates(),
                self.window(),
                self.probation(),
                self.protected(),
            );
            assert(tail =~= Seq::<usize>::empty());
            assert(slots_of(res@) + tail =~= slots_of(res@));
        }
        res
    }

    /// The tokens of the records in `window`, `probation` and `protected`, in this order, each
    /// segment from the least to the most recently used.
    pub fn dump<K, V, H>(&self, records: &RecordResolver<K, V, H, LfuState>) -> (tokens: Vec<RecordToken>)
        requires
            self.wf(metas(records)),
        ensures
            slots_of(tokens@) == self.window() + self.probation() + self.protected(),
            forall|i: int| 0 <= i < tokens@.len() ==> records.live(#[trigger] tokens@[i]),
    {
        proof {
            self.lemma_wf(metas(records));
        }
        let window = self.window.to_vec();
        let probation = self.probation.to_vec();
        let protected = self.protected.to_vec();
        let mut slots: Vec<usize> = window;
        let mut rest: Vec<usize> = probation;
        slots.append(&mut rest);
        let mut rest: Vec<usize> = protected;
        slots.append(&mut rest);
        let ghost all = self.window() + self.probation() + self.protected();
        assert(slots@ =~= all);
        let mut tokens: Vec<RecordToken> = Vec::new();
        let mut i: usize = 0;
        while i < slots.len()
            invariant
                0 <= i <= slots@.len(),
                slots@ == all,
                all == self.window() + self.probation() + self.protected(),
                self.wf(metas(records)),
                tokens@.len() == i,
                slots_of(tokens@) == all.take(i as int),
                forall|k: int| 0 <= k < tokens@.len() ==> records.live(#[trigger] tokens@[k]),
            decreases slots@.len() - i,
        {
            let slot = slots[i];
            proof {
                self.lemma_wf(metas(records));
                let w = self.window().len() as int;
                let p = self.probation().len() as int;
                if i < w {
                    assert(self.slots(Queue::Window)[i as int] == slot);
                } else if i < w + p {
                    assert(self.slots(Queue::Probation)[i - w] == slot);
                } else {
                    assert(self.slots(Queue::Protected)[i - w - p] == slot);
                }
                assert(metas(records).dom().contains(slot));
            }
            let ghost so_far = tokens@;
            tokens.push(records.token_at(slot));
            i += 1;
            proof {
                assert(slots_of(tokens@) =~= slots_of(so_far).push(slot));
                assert(all.take(i as int) =~= all.take(i - 1).push(slot));
            }
        }
        proof {
            assert(all.take(all.len() as int) =~= all);
        }
        tokens
    }
}

impl Lfu {
    /// The invariant does not depend on records that no segment holds: such a record may
    /// leave the arena.
    pub proof fn lemma_without_idle(&self, metas: Map<usize, Meta>, slot: usize)
        requires
            self.wf(metas),
            metas.dom().contains(slot),
            metas[slot].queue == Queue::Untracked,
        ensures
            self.wf(metas.remove(slot)),
            !self.members().contains(slot),
    {
        let rest = metas.remove(slot);
        assert(self.placed(metas, slot));
        assert forall|queue: Queue| queue != Queue::Untracked implies segment_ok(
            rest,
            self.segment(queue),
            queue,
            None,
        ) && total_weight(rest, self.segment(queue)@) == total_weight(metas, self.segment(queue)@)
            && !self.segment(queue)@.contains(slot) by {
            let list = self.segment(queue);
            assert(segment_ok(metas, list, queue, None));
            assert forall|i: int| 0 <= i < list@.len() implies
                #[trigger] seated(rest, list, queue, i)
                && list@[i] != slot by {
                assert(seated(metas, list, queue, i));
            }
            if list@.contains(slot) {
                let i = list@.index_of(slot);
                assert(seated(rest, list, queue, i));
            }
            assert forall|i: int| 0 <= i < list@.len() implies metas[#[trigger] list@[i]].weight
                == rest[list@[i]].weight by {
                assert(seated(metas, list, queue, i));
            }
            lemma_total_weight_frame(metas, rest, list@);
        }
        assert(segment_ok(rest, self.segment(Queue::Window), Queue::Window, None));
        assert(segment_ok(rest, self.segment(Queue::Probation), Queue::Probation, None));
        assert(segment_ok(rest, self.segment(Queue::Protected), Queue::Protected, None));
        assert(!self.segment(Queue::Window)@.contains(slot));
        assert(!self.segment(Queue::Probation)@.contains(slot));
        assert(!self.segment(Queue::Protected)@.contains(slot));
        assert forall|other: usize| rest.dom().contains(other) implies
            #[trigger] self.placed(rest, other) by {
            assert(self.placed(metas, other));
        }
    }

    /// The invariant does not depend on records that no segment holds: such a record may
    /// enter the arena, or take the place of another.
    pub proof fn lemma_with_idle(&self, metas: Map<usize, Meta>, slot: usize, meta: Meta)
        requires
            self.wf(metas),
            metas.dom().contains(slot) ==> metas[slot].queue == Queue::Untracked,
            meta.queue == Queue::Untracked,
            !meta.flagged,
        ensures
            self.wf(metas.insert(slot, meta)),
            !self.members().contains(slot),
    {
        let more = metas.insert(slot, meta);
        if metas.dom().contains(slot) {
            assert(self.placed(metas, slot));
        }
        assert forall|queue: Queue| queue != Queue::Untracked implies segment_ok(
            more,
            self.segment(queue),
            queue,
            None,
        ) && total_weight(more, self.segment(queue)@) == total_weight(metas, self.segment(queue)@)
            && !self.segment(queue)@.contains(slot) by {
            let list = self.segment(queue);
            assert(segment_ok(metas, list, queue, None));
            assert forall|i: int| 0 <= i < list@.len() implies
                #[trigger] seated(more, list, queue, i)
                && list@[i] != slot by {
                assert(seated(metas, list, queue, i));
            }
            if list@.contains(slot) {
                let i = list@.index_of(slot);
                assert(seated(more, list, queue, i));
            }
            assert forall|i: int| 0 <= i < list@.len() implies metas[#[trigger] list@[i]].weight
                == more[list@[i]].weight by {
                assert(seated(metas, list, queue, i));
            }
            lemma_total_weight_frame(metas, more, list@);
        }
        assert(segment_ok(more, self.segment(Queue::Window), Queue::Window, None));
        assert(segment_ok(more, self.segment(Queue::Probation), Queue::Probation, None));
        assert(segment_ok(more, self.segment(Queue::Protected), Queue::Protected, None));
        assert(!self.segment(Queue::Window)@.contains(slot));
        assert(!self.segment(Queue::Probation)@.contains(slot));
        assert(!self.segment(Queue::Protected)@.contains(slot));
        assert forall|other: usize| more.dom().contains(other) implies
            #[trigger] self.placed(more, other) by {
            if other != slot {
                assert(self.placed(metas, other));
            }
        }
    }
}

impl Lfu {
    /// Every record that the policy tracks is in exactly one segment, once, and the weights
    /// of the segments add up to the weight of all the records that the policy tracks.
    pub proof fn law_member_in_one_segment(&self, metas: Map<usize, Meta>, slot: usize)
        requires
            self.wf(metas),
            self.members().contains(slot),
        ensures
            self.window().contains(slot) ==> !self.probation().contains(slot)
                && !self.protected().contains(slot),
            self.probation().contains(slot) ==> !self.protected().contains(slot),
            self.window().contains(slot) || self.probation().contains(slot) || self.protected().contains(slot),
            self.window().no_duplicates(),
            self.probation().no_duplicates(),
            self.protected().no_duplicates(),
            self.window_weight() + self.probation_weight() + self.protected_weight()
                == total_weight(
                metas,
                self.window() + self.probation() + self.protected(),
            ),
    {
        self.lemma_wf(metas);
        Self::lemma_distinct(metas, self.window, Queue::Window, None);
        Self::lemma_distinct(metas, self.probation, Queue::Probation, None);
        Self::lemma_distinct(metas, self.protected, Queue::Protected, None);
        if self.window().contains(slot) {
            let i = self.window().index_of(slot);
            assert(self.slots(Queue::Window)[i] == slot);
        }
        if self.probation().contains(slot) {
            let i = self.probation().index_of(slot);
            assert(self.slots(Queue::Probation)[i] == slot);
        }
        if self.protected().contains(slot) {
            let i = self.protected().index_of(slot);
            assert(self.slots(Queue::Protected)[i] == slot);
        }
    }

    /// An access that does not fall on the step at which the estimates are halved lowers no
    /// estimate, and raises the estimate of the hash that was accessed unless that is at its
    /// maximum.
    pub proof fn law_access_counts(&self, after: &Lfu, hash: u64)
        requires
            self.bumped(after, hash),
            self.step() + 1 < self.decay(),
        ensures
            forall|other: u64| after.estimates()[other] >= #[trigger] self.estimates()[other],
            after.estimates()[hash] == saturating_inc(self.estimates()[hash]),
    {
        assert forall|other: u64| after.estimates()[other] >= #[trigger] self.estimates()[other] by {
            assert(aged(self.estimates()[other], false) <= after.estimates()[other]);
        }
    }

    /// The capacities of the segments are the parts of the capacity of the cache that the
    /// config gives them, rounded down; together they are less than the whole.
    pub proof fn law_capacities(capacity: usize, config: LfuConfig)
        requires
            config.valid(),
        ensures
            config.window_capacity_ratio.floor_of(capacity)
                + config.protected_capacity_ratio.floor_of(
                capacity,
            ) <= capacity,
            0 <= config.window_capacity_ratio.floor_of(capacity) <= capacity,
            0 <= config.protected_capacity_ratio.floor_of(capacity) <= capacity,
    {
        let c = capacity as int;
        let wn = config.window_capacity_ratio.numerator as int;
        let wd = config.window_capacity_ratio.denominator as int;
        let pn = config.protected_capacity_ratio.numerator as int;
        let pd = config.protected_capacity_ratio.denominator as int;
        let w = (c * wn) / wd;
        let p = (c * pn) / pd;
        assert(w * wd <= c * wn && 0 <= w) by (nonlinear_arith)
            requires
                w == (c * wn) / wd,
                wd > 0,
                c >= 0,
                wn >= 0,
        ;
        assert(p * pd <= c * pn && 0 <= p) by (nonlinear_arith)
            requires
                p == (c * pn) / pd,
                pd > 0,
                c >= 0,
                pn >= 0,
        ;
        assert((w + p) * (wd * pd) <= c * (wd * pd)) by (nonlinear_arith)
            requires
                w * wd <= c * wn,
                p * pd <= c * pn,
                wn * pd + pn * wd < wd * pd,
                wd > 0,
                pd > 0,
                c >= 0,
                0 <= w,
                0 <= p,
        ;
        assert(w + p <= c) by (nonlinear_arith)
            requires
                (w + p) * (wd * pd) <= c * (wd * pd),
                wd > 0,
                pd > 0,
        ;
    }
}

/// The hint that the w-TinyLFU policy takes with an entry: none.
#[derive(Debug, Clone, Copy)]
pub struct LfuHint;

impl Default for LfuHint {
    fn default() -> (hint: Self) {
        LfuHint
    }
}

/// The slots in the order of eviction are the slots in the segments.
pub proof fn lemma_eviction_order_members(
    metas: Map<usize, Meta>,
    estimates: Map<u64, u16>,
    window: Seq<usize>,
    probation: Seq<usize>,
    protected: Seq<usize>,
)
    ensures
        eviction_order(metas, estimates, window, probation, protected).to_set() == window.to_set()
            + probation.to_set() + protected.to_set(),
    decreases window.len() + probation.len() + protected.len(),
{
    let order = eviction_order(metas, estimates, window, probation, protected);
    let all = window.to_set() + probation.to_set() + protected.to_set();
    let queue = victim(metas, estimates, window, probation, protected);
    let (first, rest, fewer): (usize, Seq<usize>, Set<usize>) = match queue {
        Queue::Window => {
            lemma_eviction_order_members(metas, estimates, window.drop_first(), probation, protected);
            (
                window[0],
                eviction_order(metas, estimates, window.drop_first(), probation, protected),
                window.drop_first().to_set() + probation.to_set() + protected.to_set(),
            )
        },
        Queue::Probation => {
            lemma_eviction_order_members(metas, estimates, window, probation.drop_first(), protected);
            (
                probation[0],
                eviction_order(metas, estimates, window, probation.drop_first(), protected),
                window.to_set() + probation.drop_first().to_set() + protected.to_set(),
            )
        },
        Queue::Protected => {
            lemma_eviction_order_members(metas, estimates, window, probation, protected.drop_first());
            (
                protected[0],
                eviction_order(metas, estimates, window, probation, protected.drop_first()),
                window.to_set() + probation.to_set() + protected.drop_first().to_set(),
            )
        },
        Queue::Untracked => {
            assert(order.to_set() =~= all);
            return ;
        },
    };
    let from = match queue {
        Queue::Window => window,
        Queue::Probation => probation,
        _ => protected,
    };
    assert(order =~= seq![first] + rest);
    assert(from.to_set() =~= from.drop_first().to_set().insert(first)) by {
        assert forall|slot: usize| from.to_set().contains(slot)
            <==> from.drop_first().to_set().insert(
            first,
        ).contains(slot) by {
            if from.contains(slot) {
                let i = from.index_of(slot);
                if i > 0 {
                    assert(from.drop_first()[i - 1] == slot);
                }
            }
            if from.drop_first().contains(slot) {
                let i = from.drop_first().index_of(slot);
                assert(from[i + 1] == slot);
            }
            if slot == first {
                assert(from[0] == slot);
            }
        }
    }
    assert(order.to_set() =~= rest.to_set().insert(first)) by {
        assert forall|slot: usize| order.to_set().contains(slot)
            <==> rest.to_set().insert(first).contains(
            slot,
        ) by {
            if order.contains(slot) {
                let i = order.index_of(slot);
                if i > 0 {
                    assert(rest[i - 1] == slot);
                }
            }
            if rest.contains(slot) {
                let i = rest.index_of(slot);
                assert(order[i + 1] == slot);
            }
            if slot == first {
                assert(order[0] == slot);
            }
        }
    }
    assert(order.to_set() =~= all);
}

impl Lfu {
    /// The members of the policy are the slots of its segments, each counted once.
    proof fn lemma_members(&self)
        requires
            self.inv(),
        ensures
            self.members().finite(),
            self.members().len() == self.window().len() + self.probation().len()
                + self.protected().len(),
            self.members() == (self.window() + self.probation() + self.protected()).to_set(),
    {
        broadcast use vstd::seq_lib::seq_to_set_is_finite;

        let all = self.window@ + self.probation@ + self.protected@;
        all.unique_seq_to_set();
        assert(all.to_set() =~= self.members()) by {
            assert forall|slot: usize| all.to_set().contains(slot)
                <==> self.members().contains(slot) by {
                let w = self.window@.len() as int;
                let p = self.probation@.len() as int;
                if all.contains(slot) {
                    let i = all.index_of(slot);
                    if i < w {
                        assert(self.window@[i] == slot);
                    } else if i < w + p {
                        assert(self.probation@[i - w] == slot);
                    } else {
                        assert(self.protected@[i - w - p] == slot);
                    }
                }
                if self.window@.contains(slot) {
                    let i = self.window@.index_of(slot);
                    assert(all[i] == slot);
                }
                if self.probation@.contains(slot) {
                    let i = self.probation@.index_of(slot);
                    assert(all[w + i] == slot);
                }
                if self.protected@.contains(slot) {
                    let i = self.protected@.index_of(slot);
                    assert(all[w + p + i] == slot);
                }
            }
        }
    }

    /// A record is a member exactly if it names a segment.
    pub proof fn lemma_member(&self, metas: Map<usize, Meta>, slot: usize)
        requires
            self.wf(metas),
            metas.dom().contains(slot),
        ensures
            self.members().contains(slot) <==> metas[slot].queue != Queue::Untracked,
            self.members().contains(slot) <==> metas[slot].flagged,
    {
        self.lemma_wf(metas);
        if self.window().contains(slot) {
            let i = self.window().index_of(slot);
            assert(self.slots(Queue::Window)[i] == slot);
        }
        if self.probation().contains(slot) {
            let i = self.probation().index_of(slot);
            assert(self.slots(Queue::Probation)[i] == slot);
        }
        if self.protected().contains(slot) {
            let i = self.protected().index_of(slot);
            assert(self.slots(Queue::Protected)[i] == slot);
        }
        assert(self.placed(metas, slot));
    }
}

impl<K, V> Eviction<K, V> for Lfu {
    type Hint = LfuHint;

    type State = LfuState;

    open spec fn members(&self) -> Set<usize> {
        Lfu::members(self)
    }

    open spec fn wf(&self, records: &RecordResolver<K, V, LfuHint, LfuState>) -> bool {
        Lfu::wf(self, metas(records))
    }

    open spec fn inv(&self) -> bool {
        Lfu::inv(self)
    }

    open spec fn accepts(&self, records: &RecordResolver<K, V, LfuHint, LfuState>, token: RecordToken) -> bool {
        self.weight() + metas(records)[token.slot()].weight <= usize::MAX
    }

    /// An access is counted in the sketch: `acquire` changes the policy.
    open spec fn acquire_mode() -> Operator {
        Operator::Mutable
    }

    /// A release moves the record within the segments: `release` changes the policy.
    open spec fn release_mode() -> Operator {
        Operator::Mutable
    }

    fn acquire_op() -> (op: Operator) {
        Operator::Mutable
    }

    fn release_op() -> (op: Operator) {
        Operator::Mutable
    }

    fn push(&mut self, records: &mut RecordResolver<K, V, LfuHint, LfuState>, token: RecordToken) {
        proof {
            self.lemma_member(metas(records), token.slot());
        }
        Lfu::push(self, records, token);
        proof {
            self.lemma_wf(metas(records));
            self.lemma_member(metas(records), token.slot());
        }
    }

    fn pop(&mut self, records: &mut RecordResolver<K, V, LfuHint, LfuState>) -> (evicted: Option<RecordToken>) {
        let ghost before = *self;
        proof {
            before.lemma_wf(metas(records));
        }
        let evicted = Lfu::pop(self, records);
        proof {
            self.lemma_wf(metas(records));
            match evicted {
                Some(token) => {
                    let queue = victim(
                        metas(old(records)),
                        before.estimates(),
                        before.window(),
                        before.probation(),
                        before.protected(),
                    );
                    assert(before.slots(queue)[0] == token.slot());
                    assert(before.slots(queue).contains(token.slot()));
                },
                None => {
                    assert(before.members() =~= Set::<usize>::empty());
                },
            }
        }
        evicted
    }

    fn remove(&mut self, records: &mut RecordResolver<K, V, LfuHint, LfuState>, token: RecordToken) {
        proof {
            self.lemma_wf(metas(records));
            assert(metas(records).dom().contains(token.slot())) by {
                if self.window().contains(token.slot()) {
                    let i = self.window().index_of(token.slot());
                    assert(self.slots(Queue::Window)[i] == token.slot());
                } else if self.probation().contains(token.slot()) {
                    let i = self.probation().index_of(token.slot());
                    assert(self.slots(Queue::Probation)[i] == token.slot());
                } else {
                    let i = self.protected().index_of(token.slot());
                    assert(self.slots(Queue::Protected)[i] == token.slot());
                }
            }
            self.lemma_member(metas(records), token.slot());
        }
        Lfu::remove(self, records, token);
        proof {
            self.lemma_wf(metas(records));
        }
    }

    fn acquire(&mut self, records: &RecordResolver<K, V, LfuHint, LfuState>, token: RecordToken) {
        Lfu::acquire(self, records, token);
        proof {
            self.lemma_wf(metas(records));
        }
    }

    fn release(&mut self, records: &mut RecordResolver<K, V, LfuHint, LfuState>, token: RecordToken) {
        proof {
            self.lemma_member(metas(records), token.slot());
        }
        Lfu::release(self, records, token);
        proof {
            self.lemma_wf(metas(records));
            self.lemma_member(metas(records), token.slot());
        }
    }

    fn len(&self) -> (len: usize) {
        proof {
            self.lemma_members();
        }
        Lfu::len(self)
    }

    fn is_empty(&self) -> (empty: bool) {
        proof {
            self.lemma_members();
            if self.members().len() == 0 {
                self.members().lemma_len0_is_empty();
            }
        }
        Lfu::is_empty(self)
    }

    fn clear(&mut self, records: &mut RecordResolver<K, V, LfuHint, LfuState>) -> (evicted: Vec<RecordToken>) {
        let ghost before = *self;
        let ghost before_metas = metas(records);
        let evicted = Lfu::clear(self, records);
        proof {
            self.lemma_wf(metas(records));
            assert(self.members() =~= Set::<usize>::empty());
            lemma_eviction_order_members(
                before_metas,
                before.estimates(),
                before.window(),
                before.probation(),
                before.protected(),
            );
            let order = slots_of(evicted@);
            assert forall|slot: usize|
                before.members().contains(slot) <==> exists|i: int|
                    0 <= i < evicted@.len() && (#[trigger] evicted@[i]).slot() == slot by {
                if before.members().contains(slot) {
                    assert(order.to_set().contains(slot));
                    let i = order.index_of(slot);
                    assert(evicted@[i].slot() == slot);
                }
                if exists|i: int| 0 <= i < evicted@.len()
                    && (#[trigger] evicted@[i]).slot() == slot {
                    let i = choose|i: int| 0 <= i < evicted@.len()
                        && (#[trigger] evicted@[i]).slot() == slot;
                    assert(order[i] == slot);
                    assert(order.contains(slot));
                }
            }
        }
        evicted
    }
}

} // verus!
