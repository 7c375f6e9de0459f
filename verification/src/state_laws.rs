//! How the state changes when players join, leave and are matched, and what is
//! reported of it.

use crate::arithmetic_laws::law_ratings_are_kept_in_range;
use crate::metrics::{total, MetricsView, WaitStatsView};
use crate::model::{described, ids_of, MatchmakerView};
use crate::player::PlayerEntry;
use crate::rating::OrdF64;
use crate::shard::shard_of;
use crate::shortlist::Candidate;
use vstd::arithmetic::div_mod::lemma_fundamental_div_mod;
use vstd::prelude::*;

verus! {

impl MatchmakerView {
    /// Who joins is queued with what they said, from now on, under the next
    /// ticket. Their rating is kept from zero to 3000. Everybody else is queued
    /// as before.
    pub proof fn law_joining_adds_one_player(
        self,
        id: u64,
        skill_rating: OrdF64,
        region: Seq<char>,
        now: u64,
        other: u64,
    )
        requires
            skill_rating.finite(),
            other != id,
        ensures
            ({
                let after = self.joined(id, skill_rating, region, now);
                let rating = after.queue[id].skill_rating;
                &&& after.queue.contains_key(id)
                &&& after.queue[id].region == region
                &&& after.queue[id].join_timestamp == now
                &&& after.queue[id].ticket == self.metrics.total_players_queued
                &&& skill_rating.value() < 0 ==> rating == OrdF64::whole(0)
                &&& skill_rating.value() > OrdF64::whole(3000).value() ==> rating == OrdF64::whole(
                    3000,
                )
                &&& 0 <= skill_rating.value() <= OrdF64::whole(3000).value() ==> rating.value()
                    == skill_rating.value()
                &&& rating.finite() && !rating.negative()
                &&& after.queue.contains_key(other) <==> self.queue.contains_key(other)
                &&& self.queue.contains_key(other) ==> after.queue[other] == self.queue[other]
            }),
    {
        law_ratings_are_kept_in_range(skill_rating);
    }

    /// Who joins is counted twice over, among the queued and among those ever
    /// queued. Their region is listed, behind the others where it is new, and
    /// the rest of the state stays.
    pub proof fn law_joining_is_counted(
        self,
        id: u64,
        skill_rating: OrdF64,
        region: Seq<char>,
        now: u64,
    )
        requires
            self.metrics.total_players_queued < 0xffff_ffff_ffff_ffff,
            self.metrics.queue_depth < 0xffff_ffff_ffff_ffff,
        ensures
            ({
                let after = self.joined(id, skill_rating, region, now);
                &&& after.metrics.total_players_queued == self.metrics.total_players_queued + 1
                &&& after.metrics.queue_depth == self.metrics.queue_depth + 1
                &&& after.metrics.total_matches_formed == self.metrics.total_matches_formed
                &&& after.metrics.waits == self.metrics.waits
                &&& after.config == self.config
                &&& after.regions.contains(region)
                &&& after.regions.len() == self.regions.len() + if self.regions.contains(region) {
                    0int
                } else {
                    1
                }
                &&& forall|i: int|
                    0 <= i < self.regions.len() ==> #[trigger] after.regions[i] == self.regions[i]
            }),
    {
        let after = self.joined(id, skill_rating, region, now);
        if !self.regions.contains(region) {
            assert(after.regions[self.regions.len() as int] == region);
        }
    }

    /// Who leaves is not queued any more and is taken off the depth. Everything
    /// else stays.
    pub proof fn law_leaving_takes_one_player(self, id: u64, other: u64)
        requires
            self.metrics.queue_depth > 0,
        ensures
            ({
                let after = self.left(id);
                &&& after.queue.contains_key(other) <==> self.queue.contains_key(other) && other
                    != id
                &&& after.queue.contains_key(other) ==> after.queue[other] == self.queue[other]
                &&& after.metrics.queue_depth == self.metrics.queue_depth - 1
                &&& after.metrics.total_players_queued == self.metrics.total_players_queued
                &&& after.metrics.total_matches_formed == self.metrics.total_matches_formed
                &&& after.metrics.waits == self.metrics.waits
                &&& after.regions == self.regions
                &&& after.config == self.config
            }),
    {
    }

    /// A match takes its ten players out of the queue and off the depth, and is
    /// counted once. Everybody else, those ever queued and the regions stay.
    pub proof fn law_match_is_counted(self, ids: Seq<u64>, now: u64, other: u64)
        requires
            ids.len() == 10,
            self.metrics.queue_depth >= 10,
            self.metrics.total_matches_formed < 0xffff_ffff_ffff_ffff,
        ensures
            ({
                let after = self.matched(ids, now);
                &&& after.queue.contains_key(other) <==> self.queue.contains_key(other)
                    && !ids.contains(other)
                &&& after.queue.contains_key(other) ==> after.queue[other] == self.queue[other]
                &&& after.metrics.queue_depth == self.metrics.queue_depth - 10
                &&& after.metrics.total_matches_formed == self.metrics.total_matches_formed + 1
                &&& after.metrics.total_players_queued == self.metrics.total_players_queued
                &&& after.regions == self.regions
                &&& after.config == self.config
            }),
    {
    }

    /// The waits of a match are recorded in whole milliseconds, in the order of
    /// its players, behind the earlier ones. At most the latest hundred are kept.
    pub proof fn law_waits_are_counted_in_milliseconds(self, ids: Seq<u64>, now: u64)
        requires
            self.metrics.waits.recent.len() <= 100,
            ids.len() == 10,
        ensures
            ({
                let before = self.metrics.waits.recent;
                let after = self.matched(ids, now).metrics.waits.recent;
                let kept = after.len() - 10;
                &&& after.len() == if before.len() < 90 {
                    before.len() + 10
                } else {
                    100
                }
                &&& forall|i: int|
                    0 <= i < 10 ==> {
                        let joined = self.queue[#[trigger] ids[i]].join_timestamp;
                        let wait_ns = if now < joined {
                            0
                        } else {
                            now - joined
                        };
                        after[kept + i] * 1_000_000 <= wait_ns < (after[kept + i] + 1) * 1_000_000
                    }
                &&& forall|i: int|
                    0 <= i < kept ==> #[trigger] after[i] == before[before.len() - kept + i]
            }),
    {
        let waits = ids.map_values(|id: u64| self.wait_ms(id, now));
        let before = self.metrics.waits.recent;
        let after = self.matched(ids, now).metrics.waits.recent;
        let kept = after.len() - 10;
        self.metrics.waits.law_ring_keeps_the_latest(waits);
        assert forall|i: int| 0 <= i < 10 implies ({
            let joined = self.queue[#[trigger] ids[i]].join_timestamp;
            let wait_ns = if now < joined {
                0
            } else {
                now - joined
            };
            after[kept + i] * 1_000_000 <= wait_ns < (after[kept + i] + 1) * 1_000_000
        }) by {
            assert(after[kept + i] == waits[i]);
            assert(waits[i] == self.wait_ms(ids[i], now));
        }
    }

    /// Candidates can be taken where there are ten or more and the first ten are
    /// different players, each queued now under the ticket, the rating, the
    /// region and the time that the candidate says, in the shard that it names.
    pub proof fn law_candidates_are_taken_as_they_are_queued(self, candidates: Seq<Candidate>)
        ensures
            self.can_take(candidates) <==> {
                &&& candidates.len() >= 10
                &&& forall|i: int|
                    0 <= i < 10 ==> {
                        let entry = (#[trigger] candidates[i]).entry;
                        let player = self.queue[entry.id];
                        &&& self.queue.contains_key(entry.id)
                        &&& entry.region < self.regions.len()
                        &&& player.ticket == entry.ticket
                        &&& player.skill_rating == entry.skill_rating
                        &&& player.region == self.regions[entry.region as int]
                        &&& player.join_timestamp == entry.join_timestamp
                        &&& candidates[i].shard_idx == shard_of(
                            entry.skill_rating.bracket(),
                            player.region,
                        )
                    }
                &&& forall|i: int, j: int|
                    0 <= i < j < 10 ==> (#[trigger] candidates[i]).entry.id != (
                    #[trigger] candidates[j]).entry.id
            },
    {
        let ids = ids_of(candidates);
        let first = ids.take(10);
        if candidates.len() >= 10 {
            assert forall|i: int| 0 <= i < 10 implies #[trigger] first[i]
                == candidates[i].entry.id by {}
            if self.can_take(candidates) {
                assert forall|i: int| 0 <= i < 10 implies self.has(#[trigger] candidates[i]) by {}
                assert forall|i: int, j: int| 0 <= i < j < 10 implies (
                #[trigger] candidates[i]).entry.id != (#[trigger] candidates[j]).entry.id by {
                    assert(first[i] != first[j]);
                }
            }
            if forall|i: int, j: int|
                0 <= i < j < 10 ==> (#[trigger] candidates[i]).entry.id != (
                #[trigger] candidates[j]).entry.id {
                assert forall|i: int, j: int|
                    0 <= i < first.len() && 0 <= j < first.len() && i != j implies first[i]
                    != first[j] by {
                    if i < j {
                        assert(candidates[i].entry.id != candidates[j].entry.id);
                    } else {
                        assert(candidates[j].entry.id != candidates[i].entry.id);
                    }
                }
            }
        }
    }

    /// Who has waited longest joined before all others, or at the same instant
    /// under a lower id.
    pub proof fn law_longest_wait_joined_first(self, id: u64)
        ensures
            self.longest_waiting(id) <==> self.queue.contains_key(id) && forall|other: u64|
                #[trigger]
                self.queue.contains_key(other) && other != id ==> self.queue[id].join_timestamp
                    < self.queue[other].join_timestamp || (self.queue[id].join_timestamp
                    == self.queue[other].join_timestamp && id < other),
    {
    }

    /// The entry of a player who joins says what the queue says of them.
    pub proof fn law_entry_describes_the_player(
        self,
        id: u64,
        skill_rating: OrdF64,
        region: Seq<char>,
        now: u64,
    )
        requires
            self.regions.len() < usize::MAX,
        ensures
            ({
                let (entry, after) = (
                    self.entry_of(id, skill_rating, region, now),
                    self.joined(id, skill_rating, region, now),
                );
                &&& entry.id == id
                &&& entry.ticket == self.metrics.total_players_queued
                &&& entry.skill_rating == after.queue[id].skill_rating
                &&& entry.join_timestamp == now
                &&& entry.region < after.regions.len()
                &&& after.regions[entry.region as int] == region
            }),
    {
        if self.regions.contains(region) {
            let i = self.regions.index_of(region);
            assert(self.regions[i] == region);
        }
    }
}

/// The ids of candidates stand in their order.
pub proof fn law_ids_stand_in_order(candidates: Seq<Candidate>)
    ensures
        ids_of(candidates).len() == candidates.len(),
        forall|i: int|
            0 <= i < candidates.len() ==> #[trigger] ids_of(candidates)[i] == candidates[i].entry.id,
{
}

/// What an entry says is said of its player.
pub proof fn law_entries_are_described(entry: PlayerEntry, regions: Seq<Seq<char>>)
    ensures
        described(entry, regions).ticket == entry.ticket,
        described(entry, regions).skill_rating == entry.skill_rating,
        described(entry, regions).region == regions[entry.region as int],
        described(entry, regions).join_timestamp == entry.join_timestamp,
{
}

/// Who joined earlier has waited longer, and of those who joined at the same
/// instant the one with the lower id.
pub proof fn law_older_entries_joined_earlier(a: PlayerEntry, b: PlayerEntry)
    ensures
        a.older(b) <==> a.join_timestamp < b.join_timestamp || (a.join_timestamp
            == b.join_timestamp && a.id < b.id),
{
}

impl WaitStatsView {
    /// One more wait comes behind the others. At most the latest hundred are
    /// kept.
    pub proof fn law_latest_wait_comes_last(self, wait_ms: u64)
        requires
            self.recent.len() <= 100,
        ensures
            ({
                let (before, after) = (self.recent, self.recorded(wait_ms).recent);
                &&& after.len() == if before.len() < 100 {
                    before.len() + 1
                } else {
                    100
                }
                &&& after[after.len() - 1] == wait_ms
                &&& forall|i: int|
                    0 <= i < after.len() - 1 ==> #[trigger] after[i] == before[before.len() - (
                    after.len() - 1) + i]
            }),
    {
    }

    /// The running sum loses the wait that makes room and gains the new one. It
    /// does not go below zero nor beyond what fits 64 bits.
    pub proof fn law_sum_stays_in_range(self, wait_ms: u64)
        requires
            self.recent.len() <= 100,
        ensures
            ({
                let gone = if self.recent.len() < 100 {
                    0
                } else {
                    self.recent[0] as int
                };
                let rest = if self.sum < gone {
                    0
                } else {
                    self.sum - gone
                };
                self.recorded(wait_ms).sum == if rest + wait_ms > 0xffff_ffff_ffff_ffff {
                    0xffff_ffff_ffff_ffff
                } else {
                    rest + wait_ms
                }
            }),
    {
    }

    /// The average is the sum of the waits by their number, rounded down, and
    /// zero while there is none.
    pub proof fn law_average_is_rounded_down(self)
        requires
            self.recent.len() <= 100,
        ensures
            self.recent.len() == 0 ==> self.average() == 0,
            self.recent.len() > 0 ==> self.average() * self.recent.len() <= self.sum < (
            self.average() + 1) * self.recent.len(),
            self.sound() ==> self.sum == total(self.recent),
    {
        let n = self.recent.len() as int;
        if n > 0 {
            lemma_fundamental_div_mod(self.sum as int, n);
            let q = self.sum as int / n;
            assert(q * n <= self.sum < (q + 1) * n) by (nonlinear_arith)
                requires
                    self.sum == n * q + (self.sum as int) % n,
                    0 <= (self.sum as int) % n < n,
            ;
        }
    }
}

/// A sum is counted value by value.
pub proof fn law_totals_add_up(values: Seq<u64>, value: u64)
    ensures
        total(Seq::<u64>::empty()) == 0,
        total(values.push(value)) == total(values) + value,
{
    assert(values.push(value).drop_last() =~= values);
}

impl MetricsView {
    /// A report says what the metrics hold, and the average wait.
    pub proof fn law_report_says_what_is_counted(self)
        ensures
            self.report().total_matches_formed == self.total_matches_formed,
            self.report().total_players_queued == self.total_players_queued,
            self.report().queue_depth == self.queue_depth,
            self.report().avg_wait_ms == self.waits.average(),
    {
    }
}

} // verus!
