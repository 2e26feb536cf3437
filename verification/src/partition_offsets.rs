//! The watermark history of each partition, and the lag estimates that are
//! read off it.
//!
//! A history is a bounded queue of samples `(offset, at)`. It is kept sorted:
//! a later sample has neither a smaller offset nor an earlier time. The
//! estimates are defined on the history as a plain sequence, by the spec
//! functions [`offset_lag`], [`production_time`] and [`time_lag`].

use crate::clock::{Duration, Timestamp};
use crate::kafka_types::TopicPartition;
use crate::ordered_map::{Key, OrderedMap};
use std::collections::VecDeque;
use vstd::prelude::*;

verus! {

/// One observation of a partition's high watermark: the offset one past the
/// last message, and when it was read.
#[derive(Clone, Copy, Debug, PartialEq, Eq, Structural)]
pub struct TrackedOffset {
    pub offset: u64,
    pub at: Timestamp,
}

/// Why a query on the register has no answer.
#[derive(Clone, Copy, Debug, PartialEq, Eq, Structural)]
pub enum PartitionOffsetsError {
    /// The partition is unknown or its history is empty.
    NoData,
}

/// A later sample has neither a smaller offset nor an earlier time.
pub open spec fn sorted(h: Seq<TrackedOffset>) -> bool {
    forall|i: int, j: int|
        0 <= i <= j < h.len() ==> h[i].offset <= h[j].offset && h[i].at.millis <= h[j].at.millis
}

/// Messages between the committed offset and the latest watermark; zero when
/// the commit is at or past it.
pub open spec fn offset_lag(h: Seq<TrackedOffset>, committed: u64) -> int
    recommends
        h.len() > 0,
{
    if h.last().offset > committed {
        h.last().offset - committed
    } else {
        0
    }
}

/// The last position whose sample has an offset of at most `committed`;
/// `-1` when there is none.
pub open spec fn floor_index(h: Seq<TrackedOffset>, committed: u64) -> int
    decreases h.len(),
{
    if h.len() == 0 {
        -1
    } else if h.last().offset <= committed {
        h.len() - 1
    } else {
        floor_index(h.drop_last(), committed)
    }
}

/// The time between `lo` and `hi` that lies as far along as `committed` lies
/// between their offsets, rounded down to the millisecond.
pub open spec fn interpolate(lo: TrackedOffset, hi: TrackedOffset, committed: u64) -> int
    recommends
        lo.offset <= committed < hi.offset,
        lo.at.millis <= hi.at.millis,
{
    lo.at.millis + ((hi.at.millis - lo.at.millis) * (committed - lo.offset)) / (hi.offset
        - lo.offset)
}

/// When the message at the committed offset was produced, as far as the
/// history tells: the latest time for a commit at or past the latest
/// watermark, the earliest time for one before the earliest, and otherwise
/// the interpolation between the two samples around it.
pub open spec fn production_time(h: Seq<TrackedOffset>, committed: u64) -> int
    recommends
        h.len() > 0,
{
    if committed >= h.last().offset {
        h.last().at.millis as int
    } else if committed < h.first().offset {
        h.first().at.millis as int
    } else {
        let i = floor_index(h, committed);
        interpolate(h[i], h[i + 1], committed)
    }
}

/// The time from the production of the committed message to the latest
/// sample, in milliseconds.
pub open spec fn time_lag(h: Seq<TrackedOffset>, committed: u64) -> int
    recommends
        h.len() > 0,
{
    h.last().at.millis - production_time(h, committed)
}

/// A span of milliseconds as a `Duration` holds it: spans beyond the largest
/// `i64` are cut to it.
pub open spec fn saturated(millis: int) -> int {
    if millis > i64::MAX {
        i64::MAX as int
    } else {
        millis
    }
}

proof fn lemma_floor_index_found(h: Seq<TrackedOffset>, committed: u64, i: int)
    requires
        sorted(h),
        0 <= i < h.len() - 1,
        h[i].offset <= committed < h[i + 1].offset,
    ensures
        floor_index(h, committed) == i,
    decreases h.len(),
{
    if h.last().offset <= committed {
        assert(h[i + 1].offset <= h.last().offset);
    } else {
        let g = h.drop_last();
        if i == g.len() - 1 {
            assert(g.last() == h[i]);
            assert(floor_index(g, committed) == g.len() - 1);
        } else {
            assert(g[i] == h[i] && g[i + 1] == h[i + 1]);
            lemma_floor_index_found(g, committed, i);
        }
    }
}

proof fn lemma_floor_index_brackets(h: Seq<TrackedOffset>, committed: u64)
    requires
        sorted(h),
        h.len() > 0,
        h.first().offset <= committed < h.last().offset,
    ensures
        0 <= floor_index(h, committed) < h.len() - 1,
        h[floor_index(h, committed)].offset <= committed,
        committed < h[floor_index(h, committed) + 1].offset,
    decreases h.len(),
{
    let g = h.drop_last();
    assert(h.len() >= 2) by {
        if h.len() == 1 {
            assert(h.first() == h.last());
        }
    }
    assert(g.first() == h.first());
    if g.last().offset <= committed {
        assert(floor_index(g, committed) == g.len() - 1);
        assert(g.last() == h[h.len() - 2]);
    } else {
        lemma_floor_index_brackets(g, committed);
        let i = floor_index(g, committed);
        assert(g[i] == h[i] && g[i + 1] == h[i + 1]);
    }
}

proof fn lemma_scaled_part(span: int, part: int, whole: int)
    by (nonlinear_arith)
    requires
        0 <= span,
        0 <= part <= whole,
        0 < whole,
    ensures
        0 <= (span * part) / whole <= span,
        0 <= span * part <= span * whole,
{
}

proof fn lemma_scaled_part_monotone(span: int, p1: int, p2: int, whole: int)
    by (nonlinear_arith)
    requires
        0 <= span,
        0 <= p1 <= p2,
        0 < whole,
    ensures
        (span * p1) / whole <= (span * p2) / whole,
{
}

/// Between the first and the last offset, the estimate lies between the
/// times of the two samples around the committed offset.
proof fn lemma_production_time_within_bracket(h: Seq<TrackedOffset>, committed: u64)
    requires
        sorted(h),
        h.len() > 0,
        h.first().offset <= committed < h.last().offset,
    ensures
        h[floor_index(h, committed)].at.millis <= production_time(h, committed),
        production_time(h, committed) <= h[floor_index(h, committed) + 1].at.millis,
{
    lemma_floor_index_brackets(h, committed);
    let i = floor_index(h, committed);
    let lo = h[i];
    let hi = h[i + 1];
    lemma_scaled_part(
        hi.at.millis - lo.at.millis,
        committed - lo.offset,
        hi.offset - lo.offset,
    );
}

/// The estimate of the production time lies within the history's times.
pub proof fn lemma_production_time_bounds(h: Seq<TrackedOffset>, committed: u64)
    requires
        sorted(h),
        h.len() > 0,
    ensures
        h.first().at.millis <= production_time(h, committed) <= h.last().at.millis,
        0 <= time_lag(h, committed) <= h.last().at.millis - h.first().at.millis,
{
    if committed >= h.last().offset {
    } else if committed < h.first().offset {
    } else {
        lemma_floor_index_brackets(h, committed);
        lemma_production_time_within_bracket(h, committed);
    }
}

/// The estimate of the production time never falls as the committed offset
/// advances.
pub proof fn lemma_production_time_monotone(h: Seq<TrackedOffset>, c1: u64, c2: u64)
    requires
        sorted(h),
        h.len() > 0,
        c1 <= c2,
    ensures
        production_time(h, c1) <= production_time(h, c2),
{
    lemma_production_time_bounds(h, c1);
    lemma_production_time_bounds(h, c2);
    if c2 >= h.last().offset {
    } else if c1 < h.first().offset {
    } else {
        lemma_floor_index_brackets(h, c1);
        lemma_floor_index_brackets(h, c2);
        lemma_production_time_within_bracket(h, c1);
        lemma_production_time_within_bracket(h, c2);
        let i1 = floor_index(h, c1);
        let i2 = floor_index(h, c2);
        if i1 == i2 {
            let lo = h[i1];
            let hi = h[i1 + 1];
            lemma_scaled_part_monotone(
                hi.at.millis - lo.at.millis,
                c1 - lo.offset,
                c2 - lo.offset,
                hi.offset - lo.offset,
            );
        } else if i1 < i2 {
            assert(h[i1 + 1].at.millis <= h[i2].at.millis);
        } else {
            assert(h[i2 + 1].offset <= h[i1].offset);
        }
    }
}

/// With a history in hand, the time lag never grows as the committed offset
/// advances.
pub proof fn lemma_time_lag_monotone(h: Seq<TrackedOffset>, c1: u64, c2: u64)
    requires
        sorted(h),
        h.len() > 0,
        c1 <= c2,
    ensures
        time_lag(h, c1) >= time_lag(h, c2),
        saturated(time_lag(h, c1)) >= saturated(time_lag(h, c2)),
{
    lemma_production_time_monotone(h, c1, c2);
}

/// Whether a history with room for `capacity` samples takes `sample`: it has
/// room for one at all, and the sample is not older than the latest, neither
/// by offset nor by time.
pub open spec fn accepts(h: Seq<TrackedOffset>, capacity: nat, sample: TrackedOffset) -> bool {
    &&& capacity > 0
    &&& h.len() > 0 ==> h.last().offset <= sample.offset && h.last().at.millis <= sample.at.millis
}

/// The history after `sample` was offered to it: unchanged when the sample is
/// not accepted; else the sample is last, and the oldest sample has left if
/// the history was full.
pub open spec fn appended(h: Seq<TrackedOffset>, capacity: nat, sample: TrackedOffset) -> Seq<
    TrackedOffset,
> {
    if !accepts(h, capacity, sample) {
        h
    } else if h.len() >= capacity {
        h.drop_first().push(sample)
    } else {
        h.push(sample)
    }
}

/// A commit at the offset of the only sample lags by nothing, in offsets and
/// in time.
pub proof fn lemma_single_sample_no_lag(sample: TrackedOffset)
    ensures
        offset_lag(seq![sample], sample.offset) == 0,
        time_lag(seq![sample], sample.offset) == 0,
{
}

/// The bounded, sorted watermark history of one partition.
#[derive(Debug)]
pub struct PartitionHistory {
    samples: VecDeque<TrackedOffset>,
    capacity: usize,
}

impl View for PartitionHistory {
    type V = Seq<TrackedOffset>;

    /// The samples, oldest first.
    closed spec fn view(&self) -> Seq<TrackedOffset> {
        self.samples@
    }
}

impl PartitionHistory {
    /// How many samples the history keeps at most.
    pub closed spec fn capacity(&self) -> nat {
        self.capacity as nat
    }

    /// The history is within its bound and sorted.
    pub open spec fn wf(&self) -> bool {
        &&& self@.len() <= self.capacity()
        &&& sorted(self@)
    }

    pub fn new(capacity: usize) -> (h: Self)
        ensures
            h.wf(),
            h@ == Seq::<TrackedOffset>::empty(),
            h.capacity() == capacity,
    {
        PartitionHistory { samples: VecDeque::new(), capacity }
    }

    /// Offers a sample to the history and says whether it was kept.
    pub fn record(&mut self, sample: TrackedOffset) -> (kept: bool)
        requires
            old(self).wf(),
        ensures
            final(self).wf(),
            final(self).capacity() == old(self).capacity(),
            kept == accepts(old(self)@, old(self).capacity(), sample),
            final(self)@ == appended(old(self)@, old(self).capacity(), sample),
    {
        broadcast use vstd::std_specs::vecdeque::axiom_spec_len;

        let n = self.samples.len();
        if self.capacity == 0 {
            return false;
        }
        if n > 0 {
            let last = self.samples[n - 1];
            if sample.offset < last.offset || sample.at.millis < last.at.millis {
                return false;
            }
        }
        if n >= self.capacity {
            let _ = self.samples.pop_front();
        }
        self.samples.push_back(sample);
        proof {
            let before = old(self)@;
            let after = self@;
            assert forall|i: int, j: int| 0 <= i <= j < after.len() implies after[i].offset
                <= after[j].offset && after[i].at.millis <= after[j].at.millis by {
                let shift: int = if n >= self.capacity { 1 } else { 0 };
                if j < after.len() - 1 {
                    assert(after[i] == before[i + shift] && after[j] == before[j + shift]);
                } else if i < after.len() - 1 {
                    assert(after[i] == before[i + shift]);
                    assert(before[i + shift].offset <= before.last().offset);
                }
            }
        }
        true
    }

    /// The most recent sample, if there is one.
    pub fn latest(&self) -> (r: Option<TrackedOffset>)
        ensures
            match r {
                Some(s) => self@.len() > 0 && s == self@.last(),
                None => self@.len() == 0,
            },
    {
        broadcast use vstd::std_specs::vecdeque::axiom_spec_len;

        let n = self.samples.len();
        if n == 0 {
            None
        } else {
            Some(self.samples[n - 1])
        }
    }

    /// The offset lag of a commit at `committed`; `None` without samples.
    pub fn estimate_offset_lag(&self, committed: u64) -> (r: Option<u64>)
        ensures
            match r {
                Some(lag) => self@.len() > 0 && lag == offset_lag(self@, committed),
                None => self@.len() == 0,
            },
    {
        match self.latest() {
            Some(last) => Some(
                if last.offset > committed {
                    last.offset - committed
                } else {
                    0
                },
            ),
            None => None,
        }
    }

    /// The position of the sample just below the committed offset, found by
    /// halving the range between the first and the last sample.
    fn bracket(&self, committed: u64) -> (i: usize)
        requires
            self.wf(),
            self@.len() > 0,
            self@.first().offset <= committed < self@.last().offset,
        ensures
            i == floor_index(self@, committed),
            i + 1 < self@.len(),
            self@[i as int].offset <= committed < self@[i + 1].offset,
    {
        broadcast use vstd::std_specs::vecdeque::axiom_spec_len;

        let mut lo: usize = 0;
        let mut hi: usize = self.samples.len() - 1;
        while hi - lo > 1
            invariant
                self.wf(),
                0 <= lo < hi < self@.len(),
                self@[lo as int].offset <= committed < self@[hi as int].offset,
            decreases hi - lo,
        {
            let mid = lo + (hi - lo) / 2;
            if self.samples[mid].offset <= committed {
                lo = mid;
            } else {
                hi = mid;
            }
        }
        proof {
            lemma_floor_index_found(self@, committed, lo as int);
        }
        lo
    }

    /// The time lag of a commit at `committed`; `None` without samples. A lag
    /// beyond the largest `Duration` is cut to it.
    pub fn estimate_time_lag(&self, committed: u64) -> (r: Option<Duration>)
        requires
            self.wf(),
        ensures
            match r {
                Some(lag) => self@.len() > 0 && lag.millis == saturated(time_lag(self@, committed)),
                None => self@.len() == 0,
            },
    {
        broadcast use vstd::std_specs::vecdeque::axiom_spec_len;

        let n = self.samples.len();
        if n == 0 {
            return None;
        }
        let first = self.samples[0];
        let last = self.samples[n - 1];
        proof {
            lemma_production_time_bounds(self@, committed);
        }
        let produced: i64 = if committed >= last.offset {
            last.at.millis
        } else if committed < first.offset {
            first.at.millis
        } else {
            let i = self.bracket(committed);
            let lo = self.samples[i];
            let hi = self.samples[i + 1];
            let span: u128 = (hi.at.millis as i128 - lo.at.millis as i128) as u128;
            let part: u128 = (committed - lo.offset) as u128;
            let whole: u128 = (hi.offset - lo.offset) as u128;
            proof {
                lemma_scaled_part(span as int, part as int, whole as int);
                lemma_product_fits(span as int, part as int);
            }
            let shift: u128 = span * part / whole;
            (lo.at.millis as i128 + shift as i128) as i64
        };
        let lag: i128 = last.at.millis as i128 - produced as i128;
        let millis: i64 = if lag > i64::MAX as i128 {
            i64::MAX
        } else {
            lag as i64
        };
        Some(Duration { millis })
    }
}

/// The watermark histories of all partitions that were ever tracked, each
/// bounded by the same number of samples.
#[derive(Debug)]
pub struct PartitionOffsetsRegister {
    histories: OrderedMap<TopicPartition, PartitionHistory>,
    offsets_history: usize,
}

impl PartitionOffsetsRegister {
    /// The bound on each partition's history.
    pub closed spec fn offsets_history(&self) -> nat {
        self.offsets_history as nat
    }

    /// The history of a partition, oldest sample first; empty for a
    /// partition that was never tracked.
    pub closed spec fn history(&self, tp: (Seq<char>, u32)) -> Seq<TrackedOffset> {
        if self.histories@.contains_key(tp) {
            self.histories@[tp]@
        } else {
            Seq::empty()
        }
    }

    /// No partition occurs twice, and each history is sorted and within the
    /// register's bound.
    pub closed spec fn wf(&self) -> bool {
        &&& self.histories.wf()
        &&& forall|tp: (Seq<char>, u32)| #[trigger]
            self.histories@.contains_key(tp) ==> self.histories@[tp].wf()
                && self.histories@[tp].capacity() == self.offsets_history()
    }

    /// In a well-formed register every history is sorted and within the
    /// bound.
    pub proof fn lemma_history_sorted(&self, tp: (Seq<char>, u32))
        requires
            self.wf(),
        ensures
            sorted(self.history(tp)),
            self.history(tp).len() <= self.offsets_history(),
    {
    }

    /// A register without samples that will keep up to `offsets_history`
    /// samples of each partition.
    pub fn new(offsets_history: usize) -> (r: Self)
        ensures
            r.wf(),
            r.offsets_history() == offsets_history,
            forall|tp: (Seq<char>, u32)| r.history(tp) == Seq::<TrackedOffset>::empty(),
    {
        PartitionOffsetsRegister { histories: OrderedMap::new(), offsets_history }
    }

    /// Offers one watermark sample of `tp` to its history, and says whether
    /// it was kept. Other partitions are not touched.
    pub fn track(&mut self, tp: &TopicPartition, offset: u64, at: Timestamp) -> (kept: bool)
        requires
            old(self).wf(),
        ensures
            final(self).wf(),
            final(self).offsets_history() == old(self).offsets_history(),
            kept == accepts(
                old(self).history(tp@),
                old(self).offsets_history(),
                TrackedOffset { offset, at },
            ),
            final(self).history(tp@) == appended(
                old(self).history(tp@),
                old(self).offsets_history(),
                TrackedOffset { offset, at },
            ),
            forall|other: (Seq<char>, u32)|
                other != tp@ ==> final(self).history(other) == old(self).history(other),
    {
        let sample = TrackedOffset { offset, at };
        match self.histories.position(tp) {
            Some(i) => {
                proof {
                    self.histories.lemma_entry(i as int);
                }
                let history = self.histories.value_mut(i);
                let kept = history.record(sample);
                proof {
                    OrderedMap::lemma_update(
                        old(self).histories,
                        self.histories,
                        i as int,
                        self.histories.values()[i as int],
                    );
                }
                kept
            },
            None => {
                let mut history = PartitionHistory::new(self.offsets_history);
                let kept = history.record(sample);
                if kept {
                    self.histories.insert(tp.duplicate(), history);
                }
                kept
            },
        }
    }

    /// The most recent sample of `tp`. Fails with `NoData` exactly when the
    /// partition has no sample.
    pub fn get_latest_tracked_offset(&self, tp: &TopicPartition) -> (r: Result<
        TrackedOffset,
        PartitionOffsetsError,
    >)
        requires
            self.wf(),
        ensures
            match r {
                Ok(sample) => self.history(tp@).len() > 0 && sample == self.history(tp@).last(),
                Err(e) => self.history(tp@).len() == 0 && e == PartitionOffsetsError::NoData,
            },
    {
        match self.histories.get(tp) {
            Some(history) => match history.latest() {
                Some(sample) => Ok(sample),
                None => Err(PartitionOffsetsError::NoData),
            },
            None => Err(PartitionOffsetsError::NoData),
        }
    }

    /// How many messages lie between a commit at `committed` and the latest
    /// watermark of `tp`. Fails with `NoData` exactly when the partition has
    /// no sample.
    pub fn estimate_offset_lag(&self, tp: &TopicPartition, committed: u64) -> (r: Result<
        u64,
        PartitionOffsetsError,
    >)
        requires
            self.wf(),
        ensures
            match r {
                Ok(lag) => self.history(tp@).len() > 0 && lag == offset_lag(
                    self.history(tp@),
                    committed,
                ),
                Err(e) => self.history(tp@).len() == 0 && e == PartitionOffsetsError::NoData,
            },
    {
        match self.histories.get(tp) {
            Some(history) => match history.estimate_offset_lag(committed) {
                Some(lag) => Ok(lag),
                None => Err(PartitionOffsetsError::NoData),
            },
            None => Err(PartitionOffsetsError::NoData),
        }
    }

    /// How long before the latest sample of `tp` the message at `committed`
    /// was produced, as far as the history tells. The time of the commit is
    /// taken for the caller's sake and does not enter the estimate. Fails
    /// with `NoData` exactly when the partition has no sample.
    pub fn estimate_time_lag(
        &self,
        tp: &TopicPartition,
        committed: u64,
        committed_at: Timestamp,
    ) -> (r: Result<Duration, PartitionOffsetsError>)
        requires
            self.wf(),
        ensures
            match r {
                Ok(lag) => self.history(tp@).len() > 0 && lag.millis == saturated(
                    time_lag(self.history(tp@), committed),
                ),
                Err(e) => self.history(tp@).len() == 0 && e == PartitionOffsetsError::NoData,
            },
            r.is_ok() ==> 0 <= r.unwrap().millis,
    {
        proof {
            self.lemma_history_sorted(tp@);
            if self.history(tp@).len() > 0 {
                lemma_production_time_bounds(self.history(tp@), committed);
            }
        }
        match self.histories.get(tp) {
            Some(history) => match history.estimate_time_lag(committed) {
                Some(lag) => Ok(lag),
                None => Err(PartitionOffsetsError::NoData),
            },
            None => Err(PartitionOffsetsError::NoData),
        }
    }
}

proof fn lemma_product_fits(a: int, b: int)
    by (nonlinear_arith)
    requires
        0 <= a <= u64::MAX,
        0 <= b <= u64::MAX,
    ensures
        a * b <= u128::MAX,
{
}

} // verus!
