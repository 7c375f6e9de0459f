//! Counters and the rolling average of waiting times.

use vstd::prelude::*;

verus! {

/// How many waiting times the average runs over.
pub const AVG_WAIT_SAMPLES: usize = 100;

/// The longest waiting time in milliseconds: one that fits 64 bits in
/// nanoseconds.
pub const MAX_WAIT_MS: u64 = 18_446_744_073_709;

/// The latest waiting times in milliseconds, in a ring, and their sum.
pub struct WaitStats {
    samples: [u64; 100],
    idx: usize,
    len: usize,
    sum: u64,
}

/// What the ring holds: the latest waiting times, the oldest first, and the
/// running sum.
#[verifier::ext_equal]
pub struct WaitStatsView {
    pub recent: Seq<u64>,
    pub sum: u64,
}

/// The sum of a sequence.
pub open spec fn total(values: Seq<u64>) -> int
    decreases values.len(),
{
    if values.len() == 0 {
        0
    } else {
        total(values.drop_last()) + values.last()
    }
}

/// The latest of all waiting times: as many as the average runs over.
pub open spec fn latest(all: Seq<u64>) -> Seq<u64> {
    if all.len() <= AVG_WAIT_SAMPLES {
        all
    } else {
        all.skip(all.len() - AVG_WAIT_SAMPLES)
    }
}

/// The sum, at most the largest number that fits.
pub open spec fn plus(a: u64, b: u64) -> u64 {
    if a + b > u64::MAX {
        u64::MAX
    } else {
        (a + b) as u64
    }
}

/// The difference, at least zero.
pub open spec fn minus(a: u64, b: u64) -> u64 {
    if a < b {
        0
    } else {
        (a - b) as u64
    }
}

impl WaitStatsView {
    /// The ring after one more waiting time. When it is full the oldest one
    /// makes room.
    pub open spec fn recorded(self, wait_ms: u64) -> WaitStatsView {
        if self.recent.len() < AVG_WAIT_SAMPLES {
            WaitStatsView { recent: self.recent.push(wait_ms), sum: plus(self.sum, wait_ms) }
        } else {
            WaitStatsView {
                recent: self.recent.drop_first().push(wait_ms),
                sum: plus(minus(self.sum, self.recent[0]), wait_ms),
            }
        }
    }

    /// The ring after several more waiting times.
    pub open spec fn recorded_all(self, waits_ms: Seq<u64>) -> WaitStatsView
        decreases waits_ms.len(),
    {
        if waits_ms.len() == 0 {
            self
        } else {
            self.recorded_all(waits_ms.drop_last()).recorded(waits_ms.last())
        }
    }

    /// The average waiting time, rounded down.
    pub open spec fn average(self) -> u64 {
        if self.recent.len() == 0 {
            0
        } else {
            (self.sum / self.recent.len() as u64) as u64
        }
    }

    /// Whether the running sum is the sum of the ring.
    pub open spec fn exact(self) -> bool {
        self.sum == total(self.recent)
    }

    /// Whether the ring holds waiting times whose sum always fits.
    pub open spec fn sound(self) -> bool {
        &&& self.recent.len() <= AVG_WAIT_SAMPLES
        &&& self.exact()
        &&& forall|i: int| 0 <= i < self.recent.len() ==> #[trigger] self.recent[i] <= MAX_WAIT_MS
    }

    /// The waiting time that makes room for the next one, if the ring is full.
    pub open spec fn given_up(self) -> u64 {
        if self.recent.len() < AVG_WAIT_SAMPLES {
            0
        } else {
            self.recent[0]
        }
    }

    /// The running sum stays the sum of the ring, as long as it fits: it loses
    /// the waiting time that makes room and gains the new one.
    pub proof fn law_sum_stays_exact(self, wait_ms: u64)
        requires
            self.recent.len() <= AVG_WAIT_SAMPLES,
            self.exact(),
            self.sum - self.given_up() + wait_ms <= u64::MAX,
        ensures
            self.recorded(wait_ms).exact(),
            self.recorded(wait_ms).sum == self.sum - self.given_up() + wait_ms,
    {
        let next = self.recorded(wait_ms);
        if self.recent.len() < AVG_WAIT_SAMPLES {
            assert(next.recent.drop_last() =~= self.recent);
        } else {
            let rest = self.recent.drop_first();
            lemma_total_first(self.recent);
            lemma_total_is_not_negative(rest);
            assert(next.recent.drop_last() =~= rest);
        }
    }

    /// The sum of waiting times that fit 64 bits in nanoseconds always fits.
    pub proof fn law_sum_of_waits_fits(self, wait_ms: u64)
        requires
            self.sound(),
            wait_ms <= MAX_WAIT_MS,
        ensures
            self.recorded(wait_ms).sound(),
    {
        let next = self.recorded(wait_ms);
        lemma_total_bound(self.recent);
        if self.recent.len() == AVG_WAIT_SAMPLES {
            assert forall|i: int| 0 <= i < next.recent.len() implies #[trigger] next.recent[i]
                <= MAX_WAIT_MS by {
                if i < AVG_WAIT_SAMPLES - 1 {
                    assert(next.recent[i] == self.recent[i + 1]);
                }
            }
        }
        self.law_sum_stays_exact(wait_ms);
    }

    /// The ring holds the latest waiting times: all of them, or as many as it
    /// has room for.
    pub proof fn law_ring_keeps_the_latest(self, waits_ms: Seq<u64>)
        requires
            self.recent.len() <= AVG_WAIT_SAMPLES,
        ensures
            self.recorded_all(waits_ms).recent == latest(self.recent + waits_ms),
        decreases waits_ms.len(),
    {
        if waits_ms.len() == 0 {
            assert(self.recent + waits_ms =~= self.recent);
        } else {
            let front = waits_ms.drop_last();
            let all = self.recent + waits_ms;
            self.law_ring_keeps_the_latest(front);
            assert(all =~= (self.recent + front).push(waits_ms.last()));
            assert(self.recorded_all(waits_ms).recent =~= latest(all));
        }
    }

    /// The average is that of the latest waiting times, rounded down, as long as
    /// their sum has always fitted.
    pub proof fn law_average_is_that_of_the_latest(self, waits_ms: Seq<u64>)
        requires
            self.recent.len() <= AVG_WAIT_SAMPLES,
            self.exact(),
            forall|n: int|
                0 <= n <= waits_ms.len() ==> total(
                    latest(self.recent + #[trigger] waits_ms.take(n)),
                ) <= u64::MAX,
        ensures
            self.recorded_all(waits_ms).exact(),
            self.recorded_all(waits_ms).average() == {
                let held = latest(self.recent + waits_ms);
                if held.len() == 0 {
                    0
                } else {
                    total(held) / (held.len() as int)
                }
            },
        decreases waits_ms.len(),
    {
        self.law_ring_keeps_the_latest(waits_ms);
        if waits_ms.len() > 0 {
            let front = waits_ms.drop_last();
            let (before, last) = (self.recorded_all(front), waits_ms.last());
            assert forall|n: int| 0 <= n <= front.len() implies total(
                latest(self.recent + #[trigger] front.take(n)),
            ) <= u64::MAX by {
                assert(front.take(n) =~= waits_ms.take(n));
            }
            self.law_average_is_that_of_the_latest(front);
            self.law_ring_keeps_the_latest(front);
            assert(waits_ms.take(waits_ms.len() as int) =~= waits_ms);
            before.lemma_total_recorded(last);
            before.law_sum_stays_exact(last);
        }
        lemma_total_is_not_negative(self.recorded_all(waits_ms).recent);
    }

    /// What the ring adds up to after one more waiting time.
    proof fn lemma_total_recorded(self, wait_ms: u64)
        requires
            self.recent.len() <= AVG_WAIT_SAMPLES,
        ensures
            total(self.recorded(wait_ms).recent) == total(self.recent) - self.given_up() + wait_ms,
    {
        let next = self.recorded(wait_ms);
        if self.recent.len() < AVG_WAIT_SAMPLES {
            assert(next.recent.drop_last() =~= self.recent);
        } else {
            lemma_total_first(self.recent);
            assert(next.recent.drop_last() =~= self.recent.drop_first());
        }
    }

    /// The sum of many waiting times that fit 64 bits in nanoseconds fits, too.
    pub proof fn law_sum_of_many_waits_fits(self, waits_ms: Seq<u64>)
        requires
            self.sound(),
            forall|i: int| 0 <= i < waits_ms.len() ==> #[trigger] waits_ms[i] <= MAX_WAIT_MS,
        ensures
            self.recorded_all(waits_ms).sound(),
        decreases waits_ms.len(),
    {
        if waits_ms.len() > 0 {
            let front = waits_ms.drop_last();
            assert forall|i: int| 0 <= i < front.len() implies #[trigger] front[i]
                <= MAX_WAIT_MS by {
                assert(front[i] == waits_ms[i]);
            }
            self.law_sum_of_many_waits_fits(front);
            assert(waits_ms[waits_ms.len() - 1] <= MAX_WAIT_MS);
            self.recorded_all(front).law_sum_of_waits_fits(waits_ms.last());
        }
    }
}

/// The sum of waiting times is bounded by their number.
proof fn lemma_total_bound(values: Seq<u64>)
    requires
        forall|i: int| 0 <= i < values.len() ==> #[trigger] values[i] <= MAX_WAIT_MS,
    ensures
        0 <= total(values) <= values.len() * MAX_WAIT_MS,
    decreases values.len(),
{
    if values.len() > 0 {
        let rest = values.drop_last();
        assert forall|i: int| 0 <= i < rest.len() implies #[trigger] rest[i] <= MAX_WAIT_MS by {
            assert(rest[i] == values[i]);
        }
        lemma_total_bound(rest);
        assert(values[values.len() - 1] <= MAX_WAIT_MS);
        assert(values.len() * MAX_WAIT_MS == rest.len() * MAX_WAIT_MS + MAX_WAIT_MS)
            by (nonlinear_arith)
            requires
                values.len() == rest.len() + 1,
        ;
    }
}

/// A sum is not negative.
proof fn lemma_total_is_not_negative(values: Seq<u64>)
    ensures
        total(values) >= 0,
    decreases values.len(),
{
    if values.len() > 0 {
        lemma_total_is_not_negative(values.drop_last());
    }
}

/// The sum of two parts is the sum of the whole.
proof fn lemma_total_of_parts(a: Seq<u64>, b: Seq<u64>)
    ensures
        total(a + b) == total(a) + total(b),
    decreases b.len(),
{
    if b.len() == 0 {
        assert(a + b =~= a);
    } else {
        lemma_total_of_parts(a, b.drop_last());
        assert((a + b).drop_last() =~= a + b.drop_last());
    }
}

/// Zeros add up to nothing.
proof fn lemma_total_of_zeros(values: Seq<u64>)
    requires
        forall|i: int| 0 <= i < values.len() ==> #[trigger] values[i] == 0,
    ensures
        total(values) == 0,
    decreases values.len(),
{
    if values.len() > 0 {
        assert(values[values.len() - 1] == 0);
        let rest = values.drop_last();
        assert forall|i: int| 0 <= i < rest.len() implies #[trigger] rest[i] == 0 by {
            assert(values[i] == 0);
        }
        lemma_total_of_zeros(rest);
    }
}

/// A sum is its first value and the rest.
proof fn lemma_total_first(values: Seq<u64>)
    requires
        values.len() > 0,
    ensures
        total(values) == values[0] + total(values.drop_first()),
    decreases values.len(),
{
    let rest = values.drop_first();
    if values.len() == 1 {
        assert(values.drop_last() =~= Seq::empty());
        assert(rest =~= Seq::empty());
    } else {
        lemma_total_first(values.drop_last());
        assert(rest.drop_last() =~= values.drop_last().drop_first());
    }
}

impl View for WaitStats {
    type V = WaitStatsView;

    closed spec fn view(&self) -> WaitStatsView {
        WaitStatsView {
            recent: if self.len < AVG_WAIT_SAMPLES {
                self.samples@.take(self.len as int)
            } else {
                self.samples@.skip(self.idx as int) + self.samples@.take(self.idx as int)
            },
            sum: self.sum,
        }
    }
}

impl WaitStats {
    /// The slots of the ring.
    pub closed spec fn slots(self) -> Seq<u64> {
        self.samples@
    }

    /// The slot that the next waiting time goes to.
    pub closed spec fn position(self) -> int {
        self.idx as int
    }

    /// How many slots are in use.
    pub closed spec fn filled(self) -> int {
        self.len as int
    }

    /// The next sample goes behind the latest one, and unused slots are zero.
    pub closed spec fn wf(self) -> bool {
        &&& self.idx < AVG_WAIT_SAMPLES
        &&& self.len <= AVG_WAIT_SAMPLES
        &&& self.len < AVG_WAIT_SAMPLES ==> self.idx == self.len
        &&& forall|i: int| self.len <= i < AVG_WAIT_SAMPLES ==> #[trigger] self.samples@[i] == 0
    }

    /// How the slots hold the latest waiting times: from the first one on while
    /// there is room, with zeros behind them, and from then on round from the
    /// position. All slots together add up to what is held.
    pub proof fn law_slots_hold_the_latest(self)
        requires
            self.wf(),
        ensures
            self.slots().len() == AVG_WAIT_SAMPLES,
            0 <= self.position() < AVG_WAIT_SAMPLES,
            self.filled() == self@.recent.len() <= AVG_WAIT_SAMPLES,
            self.filled() < AVG_WAIT_SAMPLES ==> self.position() == self.filled() && self@.recent
                == self.slots().take(self.filled()),
            self.filled() == AVG_WAIT_SAMPLES ==> self@.recent == self.slots().skip(self.position())
                + self.slots().take(self.position()) && self@.given_up() == self.slots()[self.position()],
            forall|i: int|
                self.filled() <= i < AVG_WAIT_SAMPLES ==> #[trigger] self.slots()[i] == 0,
            total(self.slots()) == total(self@.recent),
    {
        let slots = self.slots();
        let at = if self.len < AVG_WAIT_SAMPLES {
            self.len as int
        } else {
            self.idx as int
        };
        assert(slots =~= slots.take(at) + slots.skip(at));
        lemma_total_of_parts(slots.take(at), slots.skip(at));
        lemma_total_of_parts(slots.skip(at), slots.take(at));
        if self.len < AVG_WAIT_SAMPLES {
            lemma_total_of_zeros(slots.skip(at));
        }
    }

    /// The running sum stays the sum of all slots, as long as it fits: it loses
    /// what stood in the slot that is filled and gains the new waiting time.
    pub proof fn law_sum_is_that_of_the_slots(self, next: WaitStats, wait_ms: u64)
        requires
            self.wf(),
            next.wf(),
            next@ == self@.recorded(wait_ms),
            self@.sum == total(self.slots()),
            self@.sum - self.slots()[self.position()] + wait_ms <= u64::MAX,
        ensures
            next@.sum == total(next.slots()),
            next@.sum == self@.sum - self.slots()[self.position()] + wait_ms,
    {
        self.law_slots_hold_the_latest();
        next.law_slots_hold_the_latest();
        self@.law_sum_stays_exact(wait_ms);
    }

    /// An empty ring.
    pub fn new() -> (stats: Self)
        ensures
            stats.wf(),
            stats@.recent == Seq::<u64>::empty(),
            stats@.sum == 0,
            stats.filled() == 0,
            stats.position() == 0,
    {
        let stats = WaitStats { samples: [0; 100], idx: 0, len: 0, sum: 0 };
        assert(stats@.recent =~= Seq::empty());
        stats
    }

    /// Adds a waiting time.
    pub fn record(&mut self, wait_ms: u64)
        requires
            old(self).wf(),
        ensures
            final(self).wf(),
            final(self)@ == old(self)@.recorded(wait_ms),
            final(self).slots() == old(self).slots().update(old(self).position(), wait_ms),
            final(self).position() == (old(self).position() + 1) % (AVG_WAIT_SAMPLES as int),
            final(self).filled() == if old(self).filled() < AVG_WAIT_SAMPLES {
                old(self).filled() + 1
            } else {
                old(self).filled()
            },
    {
        if self.len < AVG_WAIT_SAMPLES {
            self.len = self.len + 1;
        } else {
            self.sum = self.sum.saturating_sub(self.samples[self.idx]);
        }
        self.samples[self.idx] = wait_ms;
        self.sum = self.sum.saturating_add(wait_ms);
        self.idx = (self.idx + 1) % AVG_WAIT_SAMPLES;
        assert(self@.recent =~= old(self)@.recorded(wait_ms).recent);
    }

    /// The average waiting time, rounded down; zero while there is none.
    pub fn average(&self) -> (average: u64)
        requires
            self.wf(),
        ensures
            average == self@.average(),
    {
        if self.len == 0 {
            0
        } else {
            self.sum / self.len as u64
        }
    }
}

/// The counters, and the waiting times behind the average.
pub struct Metrics {
    pub total_matches_formed: u64,
    pub total_players_queued: u64,
    pub queue_depth: u64,
    pub wait_stats: WaitStats,
}

/// What the metrics hold.
#[verifier::ext_equal]
pub struct MetricsView {
    pub total_matches_formed: u64,
    pub total_players_queued: u64,
    pub queue_depth: u64,
    pub waits: WaitStatsView,
}

/// The metrics as they are reported.
#[derive(Clone, Copy, Debug, PartialEq, Eq, Structural)]
pub struct MetricsSnapshot {
    pub total_matches_formed: u64,
    pub total_players_queued: u64,
    pub avg_wait_ms: u64,
    pub queue_depth: u64,
}

impl View for Metrics {
    type V = MetricsView;

    open spec fn view(&self) -> MetricsView {
        MetricsView {
            total_matches_formed: self.total_matches_formed,
            total_players_queued: self.total_players_queued,
            queue_depth: self.queue_depth,
            waits: self.wait_stats@,
        }
    }
}

impl MetricsView {
    /// The report on these metrics.
    pub open spec fn report(self) -> MetricsSnapshot {
        MetricsSnapshot {
            total_matches_formed: self.total_matches_formed,
            total_players_queued: self.total_players_queued,
            avg_wait_ms: self.waits.average(),
            queue_depth: self.queue_depth,
        }
    }
}

impl Metrics {
    /// The waiting times are in order.
    pub open spec fn wf(self) -> bool {
        self.wait_stats.wf()
    }

    /// Metrics before anything has happened.
    pub fn new() -> (metrics: Self)
        ensures
            metrics.wf(),
            metrics.total_matches_formed == 0,
            metrics.total_players_queued == 0,
            metrics.queue_depth == 0,
            metrics@.waits.recent == Seq::<u64>::empty(),
            metrics@.waits.sum == 0,
    {
        Metrics {
            total_matches_formed: 0,
            total_players_queued: 0,
            queue_depth: 0,
            wait_stats: WaitStats::new(),
        }
    }

    /// A report on the metrics.
    pub fn snapshot(&self) -> (snapshot: MetricsSnapshot)
        requires
            self.wf(),
        ensures
            snapshot == self@.report(),
    {
        let avg_wait_ms: u64 = self.wait_stats.average();
        MetricsSnapshot {
            total_matches_formed: self.total_matches_formed,
            total_players_queued: self.total_players_queued,
            avg_wait_ms,
            queue_depth: self.queue_depth,
        }
    }

    /// Adds a waiting time.
    pub fn record_wait_ms(&mut self, wait_ms: u64)
        requires
            old(self).wf(),
        ensures
            final(self).wf(),
            final(self)@ == (MetricsView {
                waits: old(self)@.waits.recorded(wait_ms),
                ..old(self)@
            }),
    {
        self.wait_stats.record(wait_ms);
    }
}

} // verus!
