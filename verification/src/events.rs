use vstd::prelude::*;
use vstd::pervasive::VecAdditionalExecFns;

verus! {

/// Error raised by the event store.
#[derive(Clone, Copy, PartialEq, Eq, Structural, Debug)]
pub enum EventStoreError {
    /// A bucket counter reached its maximum and one more event cannot be
    /// counted.
    CounterSaturated,
    /// A date string could not be read as an RFC 3339 instant at or after
    /// the epoch.
    InvalidDate,
}

/// The fixed span of one event-store bucket.
#[derive(Clone, Copy, PartialEq, Eq, Structural, Debug)]
pub enum Interval {
    Day,
    Week,
    Month,
}

/// The aggregate a query computes over its window of buckets.
#[derive(Clone, Copy, PartialEq, Eq, Structural, Debug)]
pub enum EventQueryType {
    /// Total events in the window.
    Sum,
    /// Total events in the window (each recorded event counts one).
    Count,
    /// Total events in the window divided by the number of buckets asked
    /// for, rounded down.
    Average,
    /// Buckets elapsed since the most recent non-empty bucket in the window,
    /// or `LAST_SEEN_SENTINEL` if every bucket in the window is empty.
    LastSeen,
}

/// The value `LastSeen` queries return when no non-empty bucket lies in the
/// queried window.
pub const LAST_SEEN_SENTINEL: u64 = u64::MAX;

impl Interval {
    /// The length of one bucket of this interval, in seconds. A month is a
    /// fixed span of 28 days.
    pub open spec fn spec_seconds(self) -> u64 {
        match self {
            Interval::Day => 86400,
            Interval::Week => 604800,
            Interval::Month => 2419200,
        }
    }

    /// How many buckets of this interval the store retains.
    pub open spec fn spec_capacity(self) -> usize {
        match self {
            Interval::Day => 28,
            Interval::Week => 52,
            Interval::Month => 12,
        }
    }

    pub fn seconds(&self) -> (r: u64)
        ensures
            r == self.spec_seconds(),
    {
        match self {
            Interval::Day => 86400,
            Interval::Week => 604800,
            Interval::Month => 2419200,
        }
    }

    pub fn capacity(&self) -> (r: usize)
        ensures
            r == self.spec_capacity(),
    {
        match self {
            Interval::Day => 28,
            Interval::Week => 52,
            Interval::Month => 12,
        }
    }
}

/// The sum of a sequence of bucket counts.
pub open spec fn sum_seq(s: Seq<u64>) -> int
    decreases s.len(),
{
    if s.len() == 0 {
        0
    } else {
        s[0] + sum_seq(s.drop_first())
    }
}

pub proof fn lemma_sum_nonneg(s: Seq<u64>)
    ensures
        0 <= sum_seq(s),
    decreases s.len(),
{
    if s.len() > 0 {
        lemma_sum_nonneg(s.drop_first());
    }
}

pub proof fn lemma_sum_push(s: Seq<u64>, x: u64)
    ensures
        sum_seq(s.push(x)) == sum_seq(s) + x,
    decreases s.len(),
{
    if s.len() == 0 {
        assert(s.push(x).drop_first() =~= Seq::<u64>::empty());
        assert(s.push(x)[0] == x);
        assert(sum_seq(Seq::<u64>::empty()) == 0);
    } else {
        assert(s.push(x).drop_first() =~= s.drop_first().push(x));
        assert(s.push(x)[0] == s[0]);
        lemma_sum_push(s.drop_first(), x);
    }
}

pub proof fn lemma_sum_split(s: Seq<u64>, k: int)
    requires
        0 <= k <= s.len(),
    ensures
        sum_seq(s) == sum_seq(s.take(k)) + sum_seq(s.skip(k)),
    decreases k,
{
    if k == 0 {
        assert(s.take(0) =~= Seq::<u64>::empty());
        assert(s.skip(0) =~= s);
    } else {
        lemma_sum_split(s, k - 1);
        assert(s.take(k) =~= s.take(k - 1).push(s[k - 1]));
        lemma_sum_push(s.take(k - 1), s[k - 1]);
        assert(s.skip(k - 1).drop_first() =~= s.skip(k));
        assert(s.skip(k - 1)[0] == s[k - 1]);
    }
}

pub proof fn lemma_sum_subrange_le(s: Seq<u64>, l: int, h: int)
    requires
        0 <= l <= h <= s.len(),
    ensures
        0 <= sum_seq(s.subrange(l, h)) <= sum_seq(s),
{
    let t = s.skip(l);
    assert(s.subrange(l, h) =~= t.take(h - l));
    lemma_sum_split(s, l);
    lemma_sum_split(t, h - l);
    lemma_sum_nonneg(s.take(l));
    lemma_sum_nonneg(t.take(h - l));
    lemma_sum_nonneg(t.skip(h - l));
}

pub proof fn lemma_sum_concat(a: Seq<u64>, b: Seq<u64>)
    ensures
        sum_seq(a + b) == sum_seq(a) + sum_seq(b),
{
    lemma_sum_split(a + b, a.len() as int);
    assert((a + b).take(a.len() as int) =~= a);
    assert((a + b).skip(a.len() as int) =~= b);
}

pub proof fn lemma_sum_update(s: Seq<u64>, i: int, v: u64)
    requires
        0 <= i < s.len(),
    ensures
        sum_seq(s.update(i, v)) == sum_seq(s) - s[i] + v,
    decreases i,
{
    if i == 0 {
        assert(s.update(0, v).drop_first() =~= s.drop_first());
    } else {
        assert(s.update(i, v).drop_first() =~= s.drop_first().update(i - 1, v));
        lemma_sum_update(s.drop_first(), i - 1, v);
    }
}

pub proof fn lemma_sum_all_zero(s: Seq<u64>)
    requires
        forall|i: int| 0 <= i < s.len() ==> s[i] == 0,
    ensures
        sum_seq(s) == 0,
    decreases s.len(),
{
    if s.len() > 0 {
        lemma_sum_all_zero(s.drop_first());
    }
}

/// The lower bound of a query window, clamped into `[0, len]`.
pub open spec fn clamp_lo(len: int, lo: int) -> int {
    if lo < 0 {
        0
    } else if lo > len {
        len
    } else {
        lo
    }
}

/// The upper bound of a query window, clamped into `[clamp_lo(len, lo), len]`.
pub open spec fn clamp_hi(len: int, lo: int, hi: int) -> int {
    let l = clamp_lo(len, lo);
    if hi < l {
        l
    } else if hi > len {
        len
    } else {
        hi
    }
}

/// The sum over bucket indices `[lo, hi)` of `counts`, both bounds clamped
/// into the sequence; indices outside the retained series count zero.
pub open spec fn spec_window_sum(counts: Seq<u64>, lo: int, hi: int) -> int {
    sum_seq(counts.subrange(clamp_lo(counts.len() as int, lo), clamp_hi(counts.len() as int, lo, hi)))
}

/// The smallest index in `[lo, hi)` (clamped into the sequence) holding a
/// non-zero count, or `None` if all counts there are zero.
pub open spec fn spec_first_nonzero(counts: Seq<u64>, lo: int, hi: int) -> Option<int>
    decreases hi - lo,
{
    if lo >= hi || lo >= counts.len() || hi <= 0 {
        None
    } else if lo < 0 {
        spec_first_nonzero(counts, 0, hi)
    } else if counts[lo] > 0 {
        Some(lo)
    } else {
        spec_first_nonzero(counts, lo + 1, hi)
    }
}

/// The retained bucket series for one event and one interval: `counts[i]`
/// is the number of events in the bucket `i` steps before the newest one.
pub struct IntervalData {
    /// Bucket counts, newest first; always exactly `cap` of them.
    pub counts: Vec<u64>,
    /// The absolute index (instant divided by the bucket length) of the
    /// newest bucket, the one `counts[0]` belongs to.
    pub latest: u64,
    /// The sum of all retained counts.
    pub total: u64,
    /// How many buckets this series retains.
    pub cap: usize,
}

/// The mathematical content of an interval series.
pub ghost struct IntervalDataV {
    pub counts: Seq<u64>,
    pub latest: u64,
}

impl View for IntervalData {
    type V = IntervalDataV;

    open spec fn view(&self) -> IntervalDataV {
        IntervalDataV { counts: self.counts@, latest: self.latest }
    }
}

/// A sequence of `n` empty buckets.
pub open spec fn zero_seq(n: int) -> Seq<u64> {
    Seq::new(n as nat, |i: int| 0u64)
}

/// Rolling a series forward so that its newest bucket is `cur`: new empty
/// buckets are shifted in at the front and the oldest fall off; an instant
/// not newer than the current one changes nothing.
pub open spec fn spec_advance(d: IntervalDataV, cap: int, cur: u64) -> IntervalDataV {
    if cur <= d.latest {
        d
    } else {
        let shift = if cur - d.latest > cap {
            cap
        } else {
            cur - d.latest
        };
        IntervalDataV { counts: (zero_seq(shift) + d.counts).take(cap), latest: cur }
    }
}

/// Recording one event at absolute bucket index `idx`: the series first
/// rolls forward to cover `idx` if it is newer, then the bucket covering
/// `idx` gains one count; an event older than the retention horizon is
/// dropped.
pub open spec fn spec_record(d: IntervalDataV, cap: int, idx: u64) -> IntervalDataV {
    let a = spec_advance(d, cap, idx);
    let off = a.latest - idx;
    if off < a.counts.len() {
        IntervalDataV { counts: a.counts.update(off as int, (a.counts[off as int] + 1) as u64), latest: a.latest }
    } else {
        a
    }
}

/// What a query computes from one interval series. `now` only moves the
/// window: buckets between the newest recorded bucket and `now` are empty.
/// Window `[sb, sb + nb)` is counted in buckets backward from `now`;
/// `sb == 0` means the window ends at the bucket covering `now`.
pub open spec fn spec_query_data(d: IntervalDataV, sb: int, nb: int, now_idx: int, qt: EventQueryType) -> int {
    let dist = if now_idx > d.latest {
        now_idx - d.latest
    } else {
        0
    };
    let lo = sb - dist;
    let hi = sb + nb - dist;
    match qt {
        EventQueryType::Sum => spec_window_sum(d.counts, lo, hi),
        EventQueryType::Count => spec_window_sum(d.counts, lo, hi),
        EventQueryType::Average => if nb == 0 {
            0
        } else {
            spec_window_sum(d.counts, lo, hi) / nb
        },
        EventQueryType::LastSeen => match spec_first_nonzero(
            d.counts,
            clamp_lo(d.counts.len() as int, lo),
            clamp_hi(d.counts.len() as int, lo, hi),
        ) {
            Some(i) => if dist + i >= LAST_SEEN_SENTINEL {
                LAST_SEEN_SENTINEL as int
            } else {
                dist + i
            },
            None => LAST_SEEN_SENTINEL as int,
        },
    }
}

impl IntervalData {
    /// A well-formed series holds exactly `cap` buckets and a running total
    /// equal to their sum.
    pub open spec fn wf(self) -> bool {
        &&& self.counts@.len() == self.cap
        &&& 1 <= self.cap
        &&& sum_seq(self.counts@) == self.total as int
    }

    /// A fresh, all-empty series whose newest bucket is `idx`.
    pub fn new(cap: usize, idx: u64) -> (r: Self)
        requires
            1 <= cap,
        ensures
            r.wf(),
            r.cap == cap,
            r@.counts =~= zero_seq(cap as int),
            r@.latest == idx,
    {
        let counts: Vec<u64> = vec![0u64; cap];
        proof {
            assert(counts@ =~= zero_seq(cap as int));
            lemma_sum_all_zero(counts@);
        }
        IntervalData { counts, latest: idx, total: 0, cap }
    }

    /// Roll the series forward so its newest bucket covers `cur`.
    pub fn advance(&mut self, cur: u64)
        requires
            old(self).wf(),
        ensures
            final(self).wf(),
            final(self).cap == old(self).cap,
            final(self)@ == spec_advance(old(self)@, old(self).cap as int, cur),
    {
        if cur <= self.latest {
            return ;
        }
        let shift64: u64 = cur - self.latest;
        let k: usize = if shift64 >= self.cap as u64 {
            self.cap
        } else {
            shift64 as usize
        };
        let keep: usize = self.cap - k;
        let mut newc: Vec<u64> = Vec::new();
        let mut i: usize = 0;
        while i < k
            invariant
                i <= k <= self.cap,
                newc@ =~= zero_seq(i as int),
            decreases k - i,
        {
            newc.push(0u64);
            proof {
                assert(newc@ =~= zero_seq(i + 1));
            }
            i = i + 1;
        }
        let mut newtotal: u64 = 0;
        let mut j: usize = 0;
        while j < keep
            invariant
                j <= keep,
                keep == self.cap - k,
                self == old(self),
                old(self).wf(),
                newc@ =~= zero_seq(k as int) + self.counts@.take(j as int),
                newtotal == sum_seq(self.counts@.take(j as int)),
                newtotal <= self.total,
            decreases keep - j,
        {
            let c = self.counts[j];
            proof {
                assert(self.counts@.take(j + 1) =~= self.counts@.take(j as int).push(c));
                lemma_sum_push(self.counts@.take(j as int), c);
                lemma_sum_subrange_le(self.counts@, 0, j + 1);
                assert(self.counts@.subrange(0, j + 1) =~= self.counts@.take(j + 1));
            }
            newtotal = newtotal + c;
            newc.push(c);
            proof {
                assert(newc@ =~= zero_seq(k as int) + self.counts@.take(j + 1));
            }
            j = j + 1;
        }
        proof {
            let shift = if cur - self.latest > self.cap as int {
                self.cap as int
            } else {
                cur - self.latest
            };
            assert(shift == k as int);
            assert(newc@ =~= (zero_seq(shift) + self.counts@).take(self.cap as int));
            lemma_sum_concat(zero_seq(k as int), self.counts@.take(keep as int));
            lemma_sum_all_zero(zero_seq(k as int));
        }
        self.counts = newc;
        self.latest = cur;
        self.total = newtotal;
    }
}


pub proof fn lemma_sum_elem(s: Seq<u64>, i: int)
    requires
        0 <= i < s.len(),
    ensures
        s[i] <= sum_seq(s),
{
    lemma_sum_subrange_le(s, i, i + 1);
    let t = s.subrange(i, i + 1);
    assert(t.drop_first() =~= Seq::<u64>::empty());
    assert(sum_seq(Seq::<u64>::empty()) == 0);
    assert(sum_seq(t) == t[0]);
}

impl IntervalData {
    /// Count one event whose instant falls in the bucket with absolute
    /// index `idx`. The series first rolls forward if `idx` is newer than
    /// its newest bucket; an event older than the retention horizon is
    /// dropped silently. Fails, changing nothing, exactly when the running
    /// total is already saturated.
    pub fn record_at(&mut self, idx: u64) -> (r: Result<(), EventStoreError>)
        requires
            old(self).wf(),
        ensures
            final(self).wf(),
            final(self).cap == old(self).cap,
            r is Err <==> old(self).total == u64::MAX,
            r is Err ==> final(self)@ == old(self)@ && r == Err::<(), EventStoreError>(
                EventStoreError::CounterSaturated,
            ),
            r is Ok ==> final(self)@ == spec_record(old(self)@, old(self).cap as int, idx),
    {
        if self.total == u64::MAX {
            return Err(EventStoreError::CounterSaturated);
        }
        let ghost pre = self@;
        let ghost pretotal = self.total;
        self.advance(idx);
        proof {
            if idx > pre.latest {
                let shift = if idx - pre.latest > self.cap as int {
                    self.cap as int
                } else {
                    idx - pre.latest
                };
                let keep = self.cap - shift;
                assert(self.counts@ =~= zero_seq(shift) + pre.counts.take(keep));
                lemma_sum_concat(zero_seq(shift), pre.counts.take(keep));
                lemma_sum_all_zero(zero_seq(shift));
                lemma_sum_subrange_le(pre.counts, 0, keep);
                assert(pre.counts.subrange(0, keep) =~= pre.counts.take(keep));
            }
            assert(sum_seq(self.counts@) <= pretotal);
        }
        assert(self.total < u64::MAX);
        if self.latest - idx < self.cap as u64 {
            let off: usize = (self.latest - idx) as usize;
            let c: u64 = self.counts[off];
            proof {
                lemma_sum_elem(self.counts@, off as int);
                lemma_sum_update(self.counts@, off as int, (c + 1) as u64);
            }
            self.counts.set(off, c + 1);
            self.total = self.total + 1;
        }
        Ok(())
    }

    /// Answer one query over this series; pure in the series and the
    /// arguments.
    pub fn query_data(
        &self,
        num_buckets: usize,
        starting_bucket: usize,
        qt: EventQueryType,
        now_idx: u64,
    ) -> (r: u64)
        requires
            self.wf(),
        ensures
            r as int == spec_query_data(
                self@,
                starting_bucket as int,
                num_buckets as int,
                now_idx as int,
                qt,
            ),
    {
        let dist: u64 = if now_idx > self.latest {
            now_idx - self.latest
        } else {
            0
        };
        let len: usize = self.counts.len();
        let lo128: u128 = starting_bucket as u128;
        let hi128: u128 = starting_bucket as u128 + num_buckets as u128;
        let d128: u128 = dist as u128;
        let lraw: u128 = if lo128 > d128 {
            lo128 - d128
        } else {
            0
        };
        let hraw: u128 = if hi128 > d128 {
            hi128 - d128
        } else {
            0
        };
        let l: usize = if lraw > len as u128 {
            len
        } else {
            lraw as usize
        };
        let mut h: usize = if hraw > len as u128 {
            len
        } else {
            hraw as usize
        };
        if h < l {
            h = l;
        }
        proof {
            let slo = starting_bucket - dist;
            let shi = starting_bucket + num_buckets - dist;
            assert(l == clamp_lo(self.counts@.len() as int, slo));
            assert(h == clamp_hi(self.counts@.len() as int, slo, shi));
        }
        match qt {
            EventQueryType::Sum | EventQueryType::Count => self.window_sum(l, h),
            EventQueryType::Average => {
                let s = self.window_sum(l, h);
                if num_buckets == 0 {
                    0
                } else {
                    s / num_buckets as u64
                }
            },
            EventQueryType::LastSeen => {
                let mut i: usize = l;
                let mut found: bool = false;
                let mut res: u64 = LAST_SEEN_SENTINEL;
                while i < h && !found
                    invariant
                        l <= i <= h <= self.counts@.len(),
                        self.wf(),
                        dist == if now_idx > self.latest {
                            now_idx - self.latest
                        } else {
                            0
                        },
                        l as int == clamp_lo(self.counts@.len() as int, starting_bucket - dist),
                        h as int == clamp_hi(
                            self.counts@.len() as int,
                            starting_bucket - dist,
                            starting_bucket + num_buckets - dist,
                        ),
                        !found ==> res == LAST_SEEN_SENTINEL,
                        !found ==> spec_first_nonzero(self.counts@, l as int, h as int)
                            == spec_first_nonzero(self.counts@, i as int, h as int),
                        found ==> spec_first_nonzero(self.counts@, l as int, h as int)
                            == Some((i - 1) as int) && res as int == (if dist + i - 1
                            >= LAST_SEEN_SENTINEL {
                            LAST_SEEN_SENTINEL as int
                        } else {
                            dist + i - 1
                        }),
                    decreases h - i + (if found { 0int } else { 1int }),
                {
                    if self.counts[i] > 0 {
                        found = true;
                        if dist >= LAST_SEEN_SENTINEL - (i as u64) {
                            res = LAST_SEEN_SENTINEL;
                        } else {
                            res = dist + i as u64;
                        }
                        proof {
                            assert(spec_first_nonzero(self.counts@, i as int, h as int)
                                == Some(i as int));
                        }
                    } else {
                        proof {
                            assert(spec_first_nonzero(self.counts@, i as int, h as int)
                                == spec_first_nonzero(self.counts@, i + 1, h as int));
                        }
                    }
                    i = i + 1;
                }
                proof {
                    if !found {
                        assert(spec_first_nonzero(self.counts@, h as int, h as int) is None);
                    }
                }
                res
            },
        }
    }

    /// Sum the counts at indices `[l, h)`.
    fn window_sum(&self, l: usize, h: usize) -> (r: u64)
        requires
            self.wf(),
            l <= h <= self.counts@.len(),
        ensures
            r as int == sum_seq(self.counts@.subrange(l as int, h as int)),
    {
        let mut acc: u64 = 0;
        let mut i: usize = l;
        proof {
            assert(self.counts@.subrange(l as int, l as int) =~= Seq::<u64>::empty());
            assert(sum_seq(Seq::<u64>::empty()) == 0);
        }
        while i < h
            invariant
                l <= i <= h <= self.counts@.len(),
                self.wf(),
                acc as int == sum_seq(self.counts@.subrange(l as int, i as int)),
            decreases h - i,
        {
            let c = self.counts[i];
            proof {
                assert(self.counts@.subrange(l as int, i + 1) =~= self.counts@.subrange(
                    l as int,
                    i as int,
                ).push(c));
                lemma_sum_push(self.counts@.subrange(l as int, i as int), c);
                lemma_sum_subrange_le(self.counts@, l as int, i + 1);
            }
            acc = acc + c;
            i = i + 1;
        }
        acc
    }
}

/// The bucket series of one event, one per interval length.
pub struct EventData {
    pub days: IntervalData,
    pub weeks: IntervalData,
    pub months: IntervalData,
}

/// The mathematical content of one event's series.
pub ghost struct EventDataV {
    pub days: IntervalDataV,
    pub weeks: IntervalDataV,
    pub months: IntervalDataV,
}

impl View for EventData {
    type V = EventDataV;

    open spec fn view(&self) -> EventDataV {
        EventDataV { days: self.days@, weeks: self.weeks@, months: self.months@ }
    }
}

/// The series an event starts with: all buckets empty, the newest bucket of
/// each interval covering `at`.
pub open spec fn spec_ed_new(at: u64) -> EventDataV {
    EventDataV {
        days: IntervalDataV {
            counts: zero_seq(Interval::Day.spec_capacity() as int),
            latest: (at / Interval::Day.spec_seconds()) as u64,
        },
        weeks: IntervalDataV {
            counts: zero_seq(Interval::Week.spec_capacity() as int),
            latest: (at / Interval::Week.spec_seconds()) as u64,
        },
        months: IntervalDataV {
            counts: zero_seq(Interval::Month.spec_capacity() as int),
            latest: (at / Interval::Month.spec_seconds()) as u64,
        },
    }
}

/// Recording one event at instant `at` counts it once in every interval's
/// series.
pub open spec fn spec_ed_record(d: EventDataV, at: u64) -> EventDataV {
    EventDataV {
        days: spec_record(
            d.days,
            Interval::Day.spec_capacity() as int,
            (at / Interval::Day.spec_seconds()) as u64,
        ),
        weeks: spec_record(
            d.weeks,
            Interval::Week.spec_capacity() as int,
            (at / Interval::Week.spec_seconds()) as u64,
        ),
        months: spec_record(
            d.months,
            Interval::Month.spec_capacity() as int,
            (at / Interval::Month.spec_seconds()) as u64,
        ),
    }
}

/// True when some series of this event can count no further event.
pub open spec fn spec_ed_saturated(d: EventDataV) -> bool {
    ||| sum_seq(d.days.counts) == u64::MAX
    ||| sum_seq(d.weeks.counts) == u64::MAX
    ||| sum_seq(d.months.counts) == u64::MAX
}

impl EventData {
    pub open spec fn wf(self) -> bool {
        &&& self.days.wf()
        &&& self.days.cap == Interval::Day.spec_capacity()
        &&& self.weeks.wf()
        &&& self.weeks.cap == Interval::Week.spec_capacity()
        &&& self.months.wf()
        &&& self.months.cap == Interval::Month.spec_capacity()
    }

    /// The series for one interval length.
    pub open spec fn spec_interval(self, iv: Interval) -> IntervalData {
        match iv {
            Interval::Day => self.days,
            Interval::Week => self.weeks,
            Interval::Month => self.months,
        }
    }

    pub fn new(at: u64) -> (r: Self)
        ensures
            r.wf(),
            r@ == spec_ed_new(at),
    {
        let days = IntervalData::new(Interval::Day.capacity(), at / Interval::Day.seconds());
        let weeks = IntervalData::new(Interval::Week.capacity(), at / Interval::Week.seconds());
        let months = IntervalData::new(
            Interval::Month.capacity(),
            at / Interval::Month.seconds(),
        );
        let r = EventData { days, weeks, months };
        proof {
            assert(r@.days.counts =~= spec_ed_new(at).days.counts);
            assert(r@.weeks.counts =~= spec_ed_new(at).weeks.counts);
            assert(r@.months.counts =~= spec_ed_new(at).months.counts);
        }
        r
    }

    /// Count one event at instant `at` in all three interval series, or fail
    /// changing nothing when one of them is saturated.
    pub fn record_at(&mut self, at: u64) -> (r: Result<(), EventStoreError>)
        requires
            old(self).wf(),
        ensures
            final(self).wf(),
            r is Err <==> spec_ed_saturated(old(self)@),
            r is Err ==> final(self)@ == old(self)@ && r == Err::<(), EventStoreError>(
                EventStoreError::CounterSaturated,
            ),
            r is Ok ==> final(self)@ == spec_ed_record(old(self)@, at),
    {
        if self.days.total == u64::MAX || self.weeks.total == u64::MAX || self.months.total
            == u64::MAX {
            return Err(EventStoreError::CounterSaturated);
        }
        let r1 = self.days.record_at(at / Interval::Day.seconds());
        proof {
            assert(r1 is Ok);
        }
        let r2 = self.weeks.record_at(at / Interval::Week.seconds());
        proof {
            assert(r2 is Ok);
        }
        let r3 = self.months.record_at(at / Interval::Month.seconds());
        proof {
            assert(r3 is Ok);
        }
        Ok(())
    }
}


/// The first index in a store view whose key is `id`, if any.
pub open spec fn spec_find_event(s: Seq<(Seq<char>, EventDataV)>, id: Seq<char>) -> Option<int>
    decreases s.len(),
{
    if s.len() == 0 {
        None
    } else if s[0].0 == id {
        Some(0)
    } else {
        match spec_find_event(s.drop_first(), id) {
            Some(i) => Some(i + 1),
            None => None,
        }
    }
}

pub proof fn lemma_find_event_skip(s: Seq<(Seq<char>, EventDataV)>, id: Seq<char>, k: int)
    requires
        0 <= k <= s.len(),
        forall|j: int| 0 <= j < k ==> s[j].0 != id,
    ensures
        spec_find_event(s, id) == match spec_find_event(s.skip(k), id) {
            Some(i) => Some(i + k),
            None => None::<int>,
        },
    decreases k,
{
    if k == 0 {
        assert(s.skip(0) =~= s);
    } else {
        assert(s.drop_first() =~= s.skip(1));
        assert(s.skip(1).skip(k - 1) =~= s.skip(k));
        lemma_find_event_skip(s.skip(1), id, k - 1);
    }
}

pub proof fn lemma_find_event_some(s: Seq<(Seq<char>, EventDataV)>, id: Seq<char>, i: int)
    requires
        spec_find_event(s, id) == Some(i),
    ensures
        0 <= i < s.len(),
        s[i].0 == id,
    decreases s.len(),
{
    if s.len() > 0 && s[0].0 != id {
        lemma_find_event_some(s.drop_first(), id, i - 1);
    }
}

pub proof fn lemma_find_event_none(s: Seq<(Seq<char>, EventDataV)>, id: Seq<char>)
    requires
        spec_find_event(s, id) is None,
    ensures
        forall|j: int| 0 <= j < s.len() ==> (#[trigger] s[j]).0 != id,
    decreases s.len(),
{
    if s.len() > 0 {
        lemma_find_event_none(s.drop_first(), id);
        assert(forall|j: int|
            1 <= j < s.len() ==> (#[trigger] s[j]).0 == s.drop_first()[j - 1].0);
    }
}

/// Records timestamped occurrences of named events and answers aggregate
/// queries over fixed-size time buckets. An unknown event id is not an
/// error: it behaves as an all-zero series. Instants are seconds since the
/// Unix epoch and are always passed in, never read from a clock.
pub struct EventStore {
    pub events: Vec<(String, EventData)>,
}

impl View for EventStore {
    type V = Seq<(Seq<char>, EventDataV)>;

    open spec fn view(&self) -> Seq<(Seq<char>, EventDataV)> {
        self.events@.map(|i: int, e: (String, EventData)| (e.0@, e.1@))
    }
}

/// The store after one event is recorded: the matching entry gains one
/// count in each interval series, or a fresh entry is appended for a
/// never-seen id.
pub open spec fn spec_store_record(
    s: Seq<(Seq<char>, EventDataV)>,
    id: Seq<char>,
    at: u64,
) -> Seq<(Seq<char>, EventDataV)> {
    match spec_find_event(s, id) {
        Some(i) => s.update(i, (id, spec_ed_record(s[i].1, at))),
        None => s.push((id, spec_ed_record(spec_ed_new(at), at))),
    }
}

/// True when recording `id` would overflow one of its saturated counters.
pub open spec fn spec_store_saturated(s: Seq<(Seq<char>, EventDataV)>, id: Seq<char>) -> bool {
    match spec_find_event(s, id) {
        Some(i) => spec_ed_saturated(s[i].1),
        None => false,
    }
}

/// What a query returns on a store view: the aggregate over the addressed
/// window of the addressed series, an all-zero series for an unknown id.
pub open spec fn spec_store_query(
    s: Seq<(Seq<char>, EventDataV)>,
    id: Seq<char>,
    iv: Interval,
    nb: int,
    sb: int,
    qt: EventQueryType,
    now: u64,
) -> int {
    match spec_find_event(s, id) {
        Some(i) => spec_query_data(
            spec_edv_interval(s[i].1, iv),
            sb,
            nb,
            (now / iv.spec_seconds()) as int,
            qt,
        ),
        None => if qt is LastSeen {
            LAST_SEEN_SENTINEL as int
        } else {
            0
        },
    }
}

/// The series of one interval length in an event's view.
pub open spec fn spec_edv_interval(d: EventDataV, iv: Interval) -> IntervalDataV {
    match iv {
        Interval::Day => d.days,
        Interval::Week => d.weeks,
        Interval::Month => d.months,
    }
}

impl EventStore {
    /// A well-formed store: every entry's series are well formed and event
    /// ids are unique.
    pub open spec fn wf(self) -> bool {
        &&& forall|i: int| 0 <= i < self.events@.len() ==> (#[trigger] self.events@[i]).1.wf()
        &&& forall|i: int, j: int|
            0 <= i < j < self.events@.len() ==> (#[trigger] self.events@[i]).0@ != (
            #[trigger] self.events@[j]).0@
    }

    /// An empty store: no event has been recorded.
    pub fn new() -> (r: Self)
        ensures
            r.wf(),
            r@ =~= Seq::<(Seq<char>, EventDataV)>::empty(),
    {
        EventStore { events: Vec::new() }
    }

    /// The index of the entry for `event_id`, if one exists.
    fn find(&self, event_id: &str) -> (r: Option<usize>)
        ensures
            match r {
                Some(i) => i < self.events@.len() && spec_find_event(self@, event_id@) == Some(
                    i as int,
                ),
                None => spec_find_event(self@, event_id@) is None,
            },
    {
        let key: String = event_id.to_owned();
        let mut i: usize = 0;
        while i < self.events.len()
            invariant
                i <= self.events@.len(),
                key@ == event_id@,
                forall|j: int| 0 <= j < i ==> (#[trigger] self.events@[j]).0@ != event_id@,
            decreases self.events@.len() - i,
        {
            if self.events[i].0 == key {
                proof {
                    lemma_find_event_skip(self@, event_id@, i as int);
                    assert(self@.skip(i as int)[0] == self@[i as int]);
                }
                return Some(i);
            }
            proof {
                assert(self@[i as int].0 == self.events@[i as int].0@);
            }
            i = i + 1;
        }
        proof {
            lemma_find_event_skip(self@, event_id@, self@.len() as int);
            assert(self@.skip(self@.len() as int) =~= Seq::<(Seq<char>, EventDataV)>::empty());
        }
        None
    }

    /// Record one occurrence of `event_id` at instant `at`: one count is
    /// added to the bucket covering `at` in every interval series of that
    /// event, rolling the series forward and aging out buckets past the
    /// retention horizon if `at` is newer than anything seen. Fails,
    /// changing nothing, exactly when a counter of that event is saturated.
    pub fn record_event(&mut self, event_id: &str, at: u64) -> (r: Result<(), EventStoreError>)
        requires
            old(self).wf(),
        ensures
            final(self).wf(),
            r is Err <==> spec_store_saturated(old(self)@, event_id@),
            r is Err ==> final(self)@ == old(self)@ && r == Err::<(), EventStoreError>(
                EventStoreError::CounterSaturated,
            ),
            r is Ok ==> final(self)@ =~= spec_store_record(old(self)@, event_id@, at),
    {
        let found = self.find(event_id);
        match found {
            Some(i) => {
                let mut entry = self.events.remove(i);
                let r = entry.1.record_at(at);
                match r {
                    Ok(_) => {
                        self.events.insert(i, entry);
                        proof {
                            lemma_find_event_some(old(self)@, event_id@, i as int);
                            assert(self.events@ =~= old(self).events@.update(i as int, entry));
                            assert(self@ =~= old(self)@.update(
                                i as int,
                                (event_id@, spec_ed_record(old(self)@[i as int].1, at)),
                            ));
                        }
                        Ok(())
                    },
                    Err(e) => {
                        self.events.insert(i, entry);
                        proof {
                            assert(self.events@ =~= old(self).events@.update(i as int, entry));
                            assert(self@ =~= old(self)@);
                        }
                        Err(e)
                    },
                }
            },
            None => {
                let mut data = EventData::new(at);
                proof {
                    lemma_sum_all_zero(zero_seq(Interval::Day.spec_capacity() as int));
                    lemma_sum_all_zero(zero_seq(Interval::Week.spec_capacity() as int));
                    lemma_sum_all_zero(zero_seq(Interval::Month.spec_capacity() as int));
                }
                let r = data.record_at(at);
                proof {
                    assert(r is Ok);
                }
                self.events.push((event_id.to_owned(), data));
                proof {
                    lemma_find_event_none(old(self)@, event_id@);
                    assert(forall|j: int|
                        0 <= j < old(self).events@.len() ==> (#[trigger] old(
                            self,
                        ).events@[j]).0@ == old(self)@[j].0);
                    assert(self@ =~= old(self)@.push(
                        (event_id@, spec_ed_record(spec_ed_new(at), at)),
                    ));
                }
                Ok(())
            },
        }
    }

    /// Aggregate over the window of `num_buckets` buckets that starts
    /// `starting_bucket` buckets before the bucket covering `now` (a
    /// `starting_bucket` of zero means the window ends at "now"). A window
    /// of zero buckets, an unknown id, or a window wholly outside the
    /// retained horizon yields `0` (the `LastSeen` sentinel for `LastSeen`
    /// queries), never an error.
    pub fn query(
        &self,
        event_id: &str,
        interval: Interval,
        num_buckets: usize,
        starting_bucket: usize,
        query_type: EventQueryType,
        now: u64,
    ) -> (r: u64)
        requires
            self.wf(),
        ensures
            r as int == spec_store_query(
                self@,
                event_id@,
                interval,
                num_buckets as int,
                starting_bucket as int,
                query_type,
                now,
            ),
    {
        let found = self.find(event_id);
        match found {
            Some(i) => {
                let data: &EventData = &self.events[i].1;
                let series: &IntervalData = match interval {
                    Interval::Day => &data.days,
                    Interval::Week => &data.weeks,
                    Interval::Month => &data.months,
                };
                let now_idx = now / interval.seconds();
                series.query_data(num_buckets, starting_bucket, query_type, now_idx)
            },
            None => {
                match query_type {
                    EventQueryType::LastSeen => LAST_SEEN_SENTINEL,
                    _ => 0,
                }
            },
        }
    }
}

/// The instant, in seconds since the Unix epoch, that the RFC 3339 grammar
/// assigns to a string, or `None` where the string is not a valid RFC 3339
/// date-time; a fixed function of the characters alone.
pub uninterp spec fn rfc3339_epoch(s: Seq<char>) -> Option<i64>;

/// Relies on `chrono::DateTime::parse_from_rfc3339` and
/// `chrono::DateTime::timestamp`: parses an RFC 3339 date-time and returns
/// its epoch second; both are functions of the string alone.
#[verifier::external_body]
fn parse_rfc3339_epoch(s: &str) -> (r: Option<i64>)
    ensures
        r == rfc3339_epoch(s@),
{
    chrono::DateTime::parse_from_rfc3339(s).ok().map(|d| d.timestamp())
}

impl EventStore {
    /// Record one occurrence of `event_id` at the instant named by an
    /// RFC 3339 date-time string. A string that does not parse, or one
    /// before the epoch, is rejected with `InvalidDate` and changes
    /// nothing.
    pub fn record_event_at_date(&mut self, event_id: &str, date: &str) -> (r: Result<
        (),
        EventStoreError,
    >)
        requires
            old(self).wf(),
        ensures
            final(self).wf(),
            match rfc3339_epoch(date@) {
                Some(t) => t >= 0 ==> {
                    &&& (r is Err <==> spec_store_saturated(old(self)@, event_id@))
                    &&& (r is Ok ==> final(self)@ =~= spec_store_record(
                        old(self)@,
                        event_id@,
                        t as u64,
                    ))
                    &&& (r is Err ==> final(self)@ == old(self)@)
                },
                None => r == Err::<(), EventStoreError>(EventStoreError::InvalidDate)
                    && final(self)@ == old(self)@,
            },
            rfc3339_epoch(date@) matches Some(t) && t < 0 ==> r == Err::<(), EventStoreError>(
                EventStoreError::InvalidDate,
            ) && final(self)@ == old(self)@,
    {
        match parse_rfc3339_epoch(date) {
            Some(t) => {
                if t >= 0 {
                    self.record_event(event_id, t as u64)
                } else {
                    Err(EventStoreError::InvalidDate)
                }
            },
            None => Err(EventStoreError::InvalidDate),
        }
    }
}


/// A query over a window of zero buckets returns `0`, or the `LastSeen`
/// sentinel, for any event id, any starting offset and any instant.
pub proof fn lemma_query_zero_window(
    s: Seq<(Seq<char>, EventDataV)>,
    id: Seq<char>,
    iv: Interval,
    sb: int,
    qt: EventQueryType,
    now: u64,
)
    ensures
        qt is LastSeen ==> spec_store_query(s, id, iv, 0, sb, qt, now) == LAST_SEEN_SENTINEL as int,
        !(qt is LastSeen) ==> spec_store_query(s, id, iv, 0, sb, qt, now) == 0,
{
    match spec_find_event(s, id) {
        Some(i) => {
            let d = spec_edv_interval(s[i].1, iv);
            let now_idx = (now / iv.spec_seconds()) as int;
            let dist = if now_idx > d.latest {
                now_idx - d.latest
            } else {
                0
            };
            let lo = sb - dist;
            let l = clamp_lo(d.counts.len() as int, lo);
            let h = clamp_hi(d.counts.len() as int, lo, lo);
            assert(l == h);
            assert(d.counts.subrange(l, h) =~= Seq::<u64>::empty());
            assert(sum_seq(Seq::<u64>::empty()) == 0);
            assert(spec_first_nonzero(d.counts, l, h) is None);
        },
        None => {},
    }
}

/// The series after recording each bucket index of `idxs` in turn.
pub open spec fn spec_record_all(d: IntervalDataV, cap: int, idxs: Seq<u64>) -> IntervalDataV
    decreases idxs.len(),
{
    if idxs.len() == 0 {
        d
    } else {
        spec_record_all(spec_record(d, cap, idxs[0]), cap, idxs.drop_first())
    }
}

/// The event's series after recording each instant of `ts` in turn.
pub open spec fn spec_ed_record_all(d: EventDataV, ts: Seq<u64>) -> EventDataV
    decreases ts.len(),
{
    if ts.len() == 0 {
        d
    } else {
        spec_ed_record_all(spec_ed_record(d, ts[0]), ts.drop_first())
    }
}

/// The store after recording each instant of `ts` for one event id.
pub open spec fn spec_store_record_all(
    s: Seq<(Seq<char>, EventDataV)>,
    id: Seq<char>,
    ts: Seq<u64>,
) -> Seq<(Seq<char>, EventDataV)>
    decreases ts.len(),
{
    if ts.len() == 0 {
        s
    } else {
        spec_store_record_all(spec_store_record(s, id, ts[0]), id, ts.drop_first())
    }
}

/// Repeated event recording touches one interval series at a time: the
/// series of one interval after a run of records is that interval's bucket
/// indices recorded in turn.
pub proof fn lemma_ed_record_all_series(d: EventDataV, ts: Seq<u64>, iv: Interval)
    ensures
        spec_edv_interval(spec_ed_record_all(d, ts), iv) == spec_record_all(
            spec_edv_interval(d, iv),
            iv.spec_capacity() as int,
            ts.map_values(|t: u64| (t / iv.spec_seconds()) as u64),
        ),
    decreases ts.len(),
{
    let m = ts.map_values(|t: u64| (t / iv.spec_seconds()) as u64);
    if ts.len() == 0 {
        assert(m.len() == 0);
    } else {
        lemma_ed_record_all_series(spec_ed_record(d, ts[0]), ts.drop_first(), iv);
        assert(ts.drop_first().map_values(|t: u64| (t / iv.spec_seconds()) as u64)
            =~= m.drop_first());
        assert(m[0] == (ts[0] / iv.spec_seconds()) as u64);
        assert(spec_edv_interval(spec_ed_record(d, ts[0]), iv) == spec_record(
            spec_edv_interval(d, iv),
            iv.spec_capacity() as int,
            (ts[0] / iv.spec_seconds()) as u64,
        ));
    }
}

/// Lookup depends only on the keys.
pub proof fn lemma_find_keys_equal(
    s: Seq<(Seq<char>, EventDataV)>,
    t: Seq<(Seq<char>, EventDataV)>,
    id: Seq<char>,
)
    requires
        s.len() == t.len(),
        forall|j: int| 0 <= j < s.len() ==> (#[trigger] s[j]).0 == t[j].0,
    ensures
        spec_find_event(s, id) == spec_find_event(t, id),
    decreases s.len(),
{
    if s.len() > 0 {
        assert(forall|j: int|
            0 <= j < s.drop_first().len() ==> (#[trigger] s.drop_first()[j]) == s[j + 1]);
        assert(forall|j: int|
            0 <= j < t.drop_first().len() ==> (#[trigger] t.drop_first()[j]) == t[j + 1]);
        lemma_find_keys_equal(s.drop_first(), t.drop_first(), id);
    }
}

/// A fresh entry is found at the end.
pub proof fn lemma_find_push_new(
    s: Seq<(Seq<char>, EventDataV)>,
    id: Seq<char>,
    d: EventDataV,
)
    requires
        spec_find_event(s, id) is None,
    ensures
        spec_find_event(s.push((id, d)), id) == Some(s.len() as int),
    decreases s.len(),
{
    if s.len() == 0 {
        assert(s.push((id, d))[0] == (id, d));
    } else {
        assert(s.push((id, d))[0] == s[0]);
        assert(s.push((id, d)).drop_first() =~= s.drop_first().push((id, d)));
        lemma_find_push_new(s.drop_first(), id, d);
    }
}

/// Recording a run of instants for an id already in the store leaves it at
/// its index, with all the instants recorded into its series.
pub proof fn lemma_store_record_all_present(
    s: Seq<(Seq<char>, EventDataV)>,
    id: Seq<char>,
    i: int,
    ts: Seq<u64>,
)
    requires
        spec_find_event(s, id) == Some(i),
    ensures
        spec_find_event(spec_store_record_all(s, id, ts), id) == Some(i),
        0 <= i < spec_store_record_all(s, id, ts).len(),
        spec_store_record_all(s, id, ts)[i].1 == spec_ed_record_all(s[i].1, ts),
    decreases ts.len(),
{
    lemma_find_event_some(s, id, i);
    if ts.len() > 0 {
        let s1 = spec_store_record(s, id, ts[0]);
        assert(s1 == s.update(i, (id, spec_ed_record(s[i].1, ts[0]))));
        lemma_find_keys_equal(s1, s, id);
        lemma_store_record_all_present(s1, id, i, ts.drop_first());
    }
}

/// Each record with a newer, in-retention bucket index keeps every earlier
/// count, adds one, and leaves no count older than `lo_idx`.
pub proof fn lemma_record_all_invariant(d: IntervalDataV, cap: int, idxs: Seq<u64>, lo_idx: u64)
    requires
        1 <= cap,
        d.counts.len() == cap,
        lo_idx <= d.latest,
        d.latest - lo_idx < cap,
        sum_seq(d.counts) + idxs.len() <= u64::MAX,
        forall|k: int| 0 <= k < d.counts.len() ==> (#[trigger] d.counts[k]) != 0 ==> k <= d.latest
            - lo_idx,
        forall|i: int| 0 <= i < idxs.len() ==> (#[trigger] idxs[i]) >= d.latest,
        forall|i: int, j: int| 0 <= i <= j < idxs.len() ==> (#[trigger] idxs[i]) <= (
        #[trigger] idxs[j]),
        idxs.len() > 0 ==> idxs.last() - lo_idx < cap,
    ensures
        spec_record_all(d, cap, idxs).counts.len() == cap,
        spec_record_all(d, cap, idxs).latest == if idxs.len() == 0 {
            d.latest
        } else {
            idxs.last()
        },
        sum_seq(spec_record_all(d, cap, idxs).counts) == sum_seq(d.counts) + idxs.len(),
        forall|k: int|
            0 <= k < cap ==> (#[trigger] spec_record_all(d, cap, idxs).counts[k]) != 0 ==> k
                <= spec_record_all(d, cap, idxs).latest - lo_idx,
        spec_record_all(d, cap, idxs).latest >= d.latest,
    decreases idxs.len(),
{
    if idxs.len() > 0 {
        let idx = idxs[0];
        let a = spec_advance(d, cap, idx);
        lemma_sum_nonneg(d.counts);
        if idx > d.latest {
            let shift = if idx - d.latest > cap {
                cap
            } else {
                idx - d.latest
            };
            assert(idx - lo_idx < cap) by {
                assert(idxs.last() - lo_idx < cap);
                assert(idx <= idxs.last());
            }
            assert(shift == idx - d.latest);
            let keep = cap - shift;
            assert(a.counts =~= zero_seq(shift) + d.counts.take(keep));
            lemma_sum_concat(zero_seq(shift), d.counts.take(keep));
            lemma_sum_all_zero(zero_seq(shift));
            lemma_sum_split(d.counts, keep);
            assert(forall|k: int|
                0 <= k < d.counts.skip(keep).len() ==> (#[trigger] d.counts.skip(keep)[k])
                    == d.counts[k + keep]);
            lemma_sum_all_zero(d.counts.skip(keep));
            assert(sum_seq(a.counts) == sum_seq(d.counts));
        } else {
            assert(a == d);
        }
        assert(a.latest == idx);
        assert(a.counts.len() == cap);
        assert(forall|k: int|
            0 <= k < cap ==> (#[trigger] a.counts[k]) != 0 ==> k <= a.latest - lo_idx);
        let d1 = spec_record(d, cap, idx);
        assert(a.latest - idx == 0);
        lemma_sum_elem(a.counts, 0);
        assert(a.counts[0] + 1 <= u64::MAX);
        assert(d1.counts == a.counts.update(0, (a.counts[0] + 1) as u64));
        lemma_sum_update(a.counts, 0, (a.counts[0] + 1) as u64);
        assert(sum_seq(d1.counts) == sum_seq(d.counts) + 1);
        assert(forall|k: int|
            0 <= k < cap ==> (#[trigger] d1.counts[k]) != 0 ==> k <= d1.latest - lo_idx);
        assert(forall|i: int|
            0 <= i < idxs.drop_first().len() ==> (#[trigger] idxs.drop_first()[i])
                == idxs[i + 1]);
        lemma_record_all_invariant(d1, cap, idxs.drop_first(), lo_idx);
        if idxs.drop_first().len() == 0 {
            assert(spec_record_all(d, cap, idxs) == spec_record_all(
                d1,
                cap,
                idxs.drop_first(),
            ));
        } else {
            assert(idxs.drop_first().last() == idxs.last());
        }
    }
}

/// A window that covers every non-empty bucket of a series counts its
/// whole total.
pub proof fn lemma_covering_window(
    d: IntervalDataV,
    cap: int,
    lo_idx: u64,
    sb: int,
    nb: int,
    now_idx: int,
)
    requires
        1 <= cap,
        d.counts.len() == cap,
        lo_idx <= d.latest,
        d.latest - lo_idx < cap,
        now_idx >= d.latest,
        forall|k: int| 0 <= k < cap ==> (#[trigger] d.counts[k]) != 0 ==> k <= d.latest - lo_idx,
        sb <= now_idx - d.latest,
        sb + nb >= now_idx - lo_idx + 1,
    ensures
        spec_query_data(d, sb, nb, now_idx, EventQueryType::Count) == sum_seq(d.counts),
{
    let dist = if now_idx > d.latest {
        now_idx - d.latest
    } else {
        0
    };
    let lo = sb - dist;
    let hi = sb + nb - dist;
    let l = clamp_lo(cap, lo);
    let h = clamp_hi(cap, lo, hi);
    assert(l == 0);
    assert(h > d.latest - lo_idx);
    lemma_sum_split(d.counts, h);
    assert(forall|k: int|
        0 <= k < d.counts.skip(h).len() ==> (#[trigger] d.counts.skip(h)[k]) == d.counts[k + h]);
    lemma_sum_all_zero(d.counts.skip(h));
    assert(d.counts.subrange(0, h) =~= d.counts.take(h));
}

/// Recording timestamps `t1 <= … <= tn` of a never-seen event id, and then
/// counting over any window that covers all of them, yields exactly `n` —
/// provided the whole run of instants fits inside the retention horizon of
/// the queried interval.
pub proof fn lemma_count_all_recorded(
    s: Seq<(Seq<char>, EventDataV)>,
    id: Seq<char>,
    ts: Seq<u64>,
    iv: Interval,
    sb: int,
    nb: int,
    now: u64,
)
    requires
        spec_find_event(s, id) is None,
        1 <= ts.len() <= u64::MAX - 1,
        forall|i: int, j: int| 0 <= i <= j < ts.len() ==> (#[trigger] ts[i]) <= (#[trigger] ts[j]),
        ts.last() / iv.spec_seconds() - ts[0] / iv.spec_seconds() < iv.spec_capacity(),
        now >= ts.last(),
        sb <= now / iv.spec_seconds() - ts.last() / iv.spec_seconds(),
        sb + nb >= now / iv.spec_seconds() - ts[0] / iv.spec_seconds() + 1,
    ensures
        spec_store_query(
            spec_store_record_all(s, id, ts),
            id,
            iv,
            nb,
            sb,
            EventQueryType::Count,
            now,
        ) == ts.len(),
{
    let ivs = iv.spec_seconds();
    let cap = iv.spec_capacity() as int;
    let t0 = ts[0];
    let d0 = spec_ed_record(spec_ed_new(t0), t0);
    let s1 = spec_store_record(s, id, t0);
    assert(s1 == s.push((id, d0)));
    lemma_find_push_new(s, id, d0);
    let rest = ts.drop_first();
    lemma_store_record_all_present(s1, id, s.len() as int, rest);
    let sfin = spec_store_record_all(s1, id, rest);
    assert(spec_store_record_all(s, id, ts) == sfin);
    let edfin = spec_ed_record_all(d0, rest);
    assert(sfin[s.len() as int].1 == edfin);
    lemma_ed_record_all_series(d0, rest, iv);
    let series0 = spec_edv_interval(d0, iv);
    let idx0 = (t0 / ivs) as u64;
    // the first record makes a fresh series: one count in the newest bucket
    let fresh = spec_edv_interval(spec_ed_new(t0), iv);
    assert(fresh.counts =~= zero_seq(cap));
    assert(fresh.latest == idx0);
    assert(series0 == spec_record(fresh, cap, idx0));
    assert(spec_advance(fresh, cap, idx0) == fresh);
    lemma_sum_all_zero(zero_seq(cap));
    assert(series0.counts == fresh.counts.update(0, (fresh.counts[0] + 1) as u64));
    lemma_sum_update(fresh.counts, 0, (fresh.counts[0] + 1) as u64);
    assert(sum_seq(series0.counts) == 1);
    assert(series0.latest == idx0);
    let m = rest.map_values(|t: u64| (t / ivs) as u64);
    assert(forall|i: int| 0 <= i < m.len() ==> (#[trigger] m[i]) == (rest[i] / ivs) as u64);
    assert forall|i: int| 0 <= i < m.len() implies (#[trigger] m[i]) >= idx0 by {
        assert(rest[i] == ts[i + 1]);
        vstd::arithmetic::div_mod::lemma_div_is_ordered(t0 as int, rest[i] as int, ivs as int);
    }
    assert forall|i: int, j: int| 0 <= i <= j < m.len() implies (#[trigger] m[i]) <= (
    #[trigger] m[j]) by {
        assert(rest[i] == ts[i + 1]);
        assert(rest[j] == ts[j + 1]);
        vstd::arithmetic::div_mod::lemma_div_is_ordered(
            rest[i] as int,
            rest[j] as int,
            ivs as int,
        );
    }
    if m.len() > 0 {
        assert(m.last() == (rest.last() / ivs) as u64);
        assert(rest.last() == ts.last());
    }
    assert(forall|k: int|
        0 <= k < series0.counts.len() ==> (#[trigger] series0.counts[k]) != 0 ==> k
            <= series0.latest - idx0);
    lemma_record_all_invariant(series0, cap, m, idx0);
    let serfin = spec_record_all(series0, cap, m);
    assert(spec_edv_interval(edfin, iv) == serfin);
    assert(sum_seq(serfin.counts) == ts.len());
    assert(serfin.latest == (ts.last() / ivs) as u64);
    let now_idx = (now / ivs) as int;
    vstd::arithmetic::div_mod::lemma_div_is_ordered(ts.last() as int, now as int, ivs as int);
    lemma_covering_window(serfin, cap, idx0, sb, nb, now_idx);
    assert(spec_store_query(sfin, id, iv, nb, sb, EventQueryType::Count, now) == sum_seq(
        serfin.counts,
    ));
}

} // verus!
