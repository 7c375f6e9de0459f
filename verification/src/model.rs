//! The matchmaker as mathematics: a queue, the regions seen, and the metrics.

use crate::clock::seconds;
use crate::config::Config;
use crate::metrics::{minus, MetricsView};
use crate::player::PlayerEntry;
use crate::rating::{kept, max_rating, zero_rating, OrdF64};
use crate::shard::shard_of;
use crate::shortlist::{Candidate, MATCH_SIZE};
use vstd::prelude::*;
use vstd::set_lib::lemma_len_subset;

verus! {

/// One player's stay in the queue.
#[verifier::ext_equal]
pub struct QueuedPlayer {
    pub ticket: u64,
    pub skill_rating: OrdF64,
    pub region: Seq<char>,
    pub join_timestamp: u64,
}

/// The state of a matchmaker.
#[verifier::ext_equal]
pub struct MatchmakerView {
    /// Who is queued, by id.
    pub queue: Map<u64, QueuedPlayer>,
    /// Every region that a player has come from.
    pub regions: Seq<Seq<char>>,
    pub metrics: MetricsView,
    pub config: Config,
}

/// What an entry says, with its region by name.
pub open spec fn described(entry: PlayerEntry, regions: Seq<Seq<char>>) -> QueuedPlayer {
    QueuedPlayer {
        ticket: entry.ticket,
        skill_rating: entry.skill_rating,
        region: regions[entry.region as int],
        join_timestamp: entry.join_timestamp,
    }
}

/// The ids of candidates.
pub open spec fn ids_of(candidates: Seq<Candidate>) -> Seq<u64> {
    candidates.map_values(|candidate: Candidate| candidate.entry.id)
}

impl MatchmakerView {
    /// What holds of every state: the depth counts the queue, everybody in it
    /// has a rating such as it keeps and a ticket that was given out, no region
    /// is listed twice, matched players had been queued before, and the waiting
    /// times add up.
    pub open spec fn sound(self) -> bool {
        &&& self.queue.dom().finite()
        &&& self.metrics.queue_depth == self.queue.len()
        &&& self.metrics.queue_depth + MATCH_SIZE * self.metrics.total_matches_formed
            <= self.metrics.total_players_queued
        &&& forall|id: u64| #[trigger]
            self.queue.contains_key(id) ==> kept(self.queue[id].skill_rating)
                && self.regions.contains(self.queue[id].region) && self.queue[id].ticket
                < self.metrics.total_players_queued
        &&& self.regions.no_duplicates()
        &&& self.regions.len() <= usize::MAX
        &&& self.metrics.waits.sound()
        &&& self.config.wf()
    }

    /// The entry of a player who joins. A region that has not been seen gets the
    /// next number.
    pub open spec fn entry_of(
        self,
        id: u64,
        skill_rating: OrdF64,
        region: Seq<char>,
        now: u64,
    ) -> PlayerEntry {
        PlayerEntry {
            ticket: self.metrics.total_players_queued,
            id,
            skill_rating: skill_rating.clamped(),
            region: if self.regions.contains(region) {
                self.regions.index_of(region) as usize
            } else {
                self.regions.len() as usize
            },
            join_timestamp: now,
        }
    }

    /// The state after a player has joined.
    pub open spec fn joined(
        self,
        id: u64,
        skill_rating: OrdF64,
        region: Seq<char>,
        now: u64,
    ) -> MatchmakerView {
        MatchmakerView {
            queue: self.queue.insert(
                id,
                QueuedPlayer {
                    ticket: self.metrics.total_players_queued,
                    skill_rating: skill_rating.clamped(),
                    region,
                    join_timestamp: now,
                },
            ),
            regions: if self.regions.contains(region) {
                self.regions
            } else {
                self.regions.push(region)
            },
            metrics: MetricsView {
                total_players_queued: (self.metrics.total_players_queued + 1) as u64,
                queue_depth: (self.metrics.queue_depth + 1) as u64,
                ..self.metrics
            },
            ..self
        }
    }

    /// The state after a player has left.
    pub open spec fn left(self, id: u64) -> MatchmakerView {
        MatchmakerView {
            queue: self.queue.remove(id),
            metrics: MetricsView {
                queue_depth: (self.metrics.queue_depth - 1) as u64,
                ..self.metrics
            },
            ..self
        }
    }

    /// Whether queued player `a` has waited longer than queued player `b`.
    /// Players who joined at the same instant are told apart by their ids.
    pub open spec fn waited_longer(self, a: u64, b: u64) -> bool {
        let (pa, pb) = (self.queue[a], self.queue[b]);
        pa.join_timestamp < pb.join_timestamp || (pa.join_timestamp == pb.join_timestamp && a < b)
    }

    /// Whether `id` has waited longest.
    pub open spec fn longest_waiting(self, id: u64) -> bool {
        &&& self.queue.contains_key(id)
        &&& forall|other: u64| #[trigger]
            self.queue.contains_key(other) && other != id ==> self.waited_longer(id, other)
    }

    /// The queued players of one bracket and region.
    pub open spec fn bucket(self, bracket: u32, region: Seq<char>) -> Set<u64> {
        self.queue.dom().filter(
            |id: u64|
                self.queue[id].skill_rating.bracket() == bracket && self.queue[id].region == region,
        )
    }

    /// Whether `rating` is the median of a group: in rating order, that of the
    /// member with half of the group before it. Of an even number of members
    /// it is the upper middle one.
    pub open spec fn is_median(self, group: Set<u64>, rating: OrdF64) -> bool {
        let half = group.len() / 2;
        &&& group.filter(
            |id: u64| self.queue[id].skill_rating.rank() < rating.rank(),
        ).len() <= half
        &&& half < group.filter(
            |id: u64| self.queue[id].skill_rating.rank() <= rating.rank(),
        ).len()
    }

    /// Whether a search at `now` starts from these: the region and the waiting
    /// time, in seconds, of the player who has waited longest, and the median
    /// rating of that player's bucket.
    pub open spec fn is_pivot(
        self,
        now: u64,
        region: Seq<char>,
        median_rating: OrdF64,
        wait_secs: OrdF64,
    ) -> bool {
        exists|id: u64|
            {
                &&& #[trigger] self.longest_waiting(id)
                &&& region == self.queue[id].region
                &&& wait_secs == seconds(minus(now, self.queue[id].join_timestamp))
                &&& self.is_median(
                    self.bucket(self.queue[id].skill_rating.bracket(), region),
                    median_rating,
                )
            }
    }

    /// The queued players that a search may take: those of the region, or of
    /// any region where the search may cross regions, whose ratings lie in the
    /// window around the median.
    pub open spec fn eligible(
        self,
        region: Seq<char>,
        median_rating: OrdF64,
        window: OrdF64,
        cross_region: bool,
    ) -> Set<u64> {
        let low = median_rating.minus(window).larger(zero_rating());
        let high = median_rating.plus(window).smaller(max_rating());
        self.queue.dom().filter(
            |id: u64|
                (cross_region || self.queue[id].region == region) && low.rank()
                    <= self.queue[id].skill_rating.rank() <= high.rank(),
        )
    }

    /// The window of the search around a pivot: the first one, or, where it
    /// holds too few players for a match, the grown one.
    pub open spec fn window_for(
        self,
        region: Seq<char>,
        median_rating: OrdF64,
        wait_secs: OrdF64,
    ) -> OrdF64 {
        let cross_region = self.config.crosses_regions(wait_secs);
        let (base, grown) = (self.config.base_window, self.config.grown(wait_secs));
        let first = self.eligible(region, median_rating, base, cross_region);
        if first.len() < MATCH_SIZE && base.below(grown) {
            grown
        } else {
            base
        }
    }

    /// The queued players that a match around a pivot may take.
    pub open spec fn pool(self, region: Seq<char>, median_rating: OrdF64, wait_secs: OrdF64) -> Set<
        u64,
    > {
        self.eligible(
            region,
            median_rating,
            self.window_for(region, median_rating, wait_secs),
            self.config.crosses_regions(wait_secs),
        )
    }

    /// Whether a match can be formed at `now`.
    pub open spec fn can_match(self, now: u64) -> bool {
        exists|region: Seq<char>, median_rating: OrdF64, wait_secs: OrdF64|
            {
                &&& #[trigger] self.is_pivot(now, region, median_rating, wait_secs)
                &&& self.pool(region, median_rating, wait_secs).len() >= MATCH_SIZE
            }
    }

    /// Whether a match at `now` is of these players: of those that it may take,
    /// the ones who have waited longest.
    pub open spec fn is_match(self, now: u64, ids: Seq<u64>) -> bool {
        exists|region: Seq<char>, median_rating: OrdF64, wait_secs: OrdF64|
            {
                &&& #[trigger] self.is_pivot(now, region, median_rating, wait_secs)
                &&& self.picks(self.pool(region, median_rating, wait_secs), ids)
                &&& ids.len() == MATCH_SIZE
            }
    }

    /// Whether `ids` are the members of a group who have waited longest, at
    /// most one match of them, the longest wait first.
    pub open spec fn picks(self, group: Set<u64>, ids: Seq<u64>) -> bool {
        &&& forall|i: int, j: int| 0 <= i < j < ids.len() ==> self.waited_longer(
            #[trigger] ids[i],
            #[trigger] ids[j],
        )
        &&& forall|i: int| 0 <= i < ids.len() ==> group.contains(#[trigger] ids[i])
        &&& ids.len() == if group.len() < MATCH_SIZE {
            group.len()
        } else {
            MATCH_SIZE as nat
        }
        &&& forall|id: u64| #[trigger]
            group.contains(id) ==> ids.contains(id) || (ids.len() == MATCH_SIZE
                && self.waited_longer(ids.last(), id))
    }

    /// Whether a candidate is queued now, where it says.
    pub open spec fn has(self, candidate: Candidate) -> bool {
        let entry = candidate.entry;
        &&& self.queue.contains_key(entry.id)
        &&& entry.region < self.regions.len()
        &&& self.queue[entry.id] == described(entry, self.regions)
        &&& candidate.shard_idx == shard_of(
            entry.skill_rating.bracket(),
            self.regions[entry.region as int],
        )
    }

    /// Whether the first candidates can be taken for a match: there are
    /// enough, all are queued, and nobody is named twice.
    pub open spec fn can_take(self, candidates: Seq<Candidate>) -> bool {
        let ids = ids_of(candidates);
        &&& candidates.len() >= MATCH_SIZE
        &&& forall|i: int| 0 <= i < MATCH_SIZE ==> self.has(#[trigger] candidates[i])
        &&& ids.take(MATCH_SIZE as int).no_duplicates()
    }

    /// How long a queued player has waited, in whole milliseconds.
    pub open spec fn wait_ms(self, id: u64, now: u64) -> u64 {
        minus(now, self.queue[id].join_timestamp) / 1_000_000
    }

    /// The state after a match of queued players has been formed.
    pub open spec fn matched(self, ids: Seq<u64>, now: u64) -> MatchmakerView {
        MatchmakerView {
            queue: self.queue.remove_keys(ids.to_set()),
            metrics: MetricsView {
                total_matches_formed: (self.metrics.total_matches_formed + 1) as u64,
                queue_depth: (self.metrics.queue_depth - ids.len()) as u64,
                waits: self.metrics.waits.recorded_all(
                    ids.map_values(|id: u64| self.wait_ms(id, now)),
                ),
                ..self.metrics
            },
            ..self
        }
    }

    /// A group has one median.
    pub proof fn lemma_median_is_unique(self, group: Set<u64>, a: OrdF64, b: OrdF64)
        requires
            group.finite(),
            self.is_median(group, a),
            self.is_median(group, b),
        ensures
            a == b,
    {
        if a.rank() < b.rank() {
            self.lemma_median_is_not_above(group, a, b);
        } else if b.rank() < a.rank() {
            self.lemma_median_is_not_above(group, b, a);
        }
    }

    proof fn lemma_median_is_not_above(self, group: Set<u64>, a: OrdF64, b: OrdF64)
        requires
            group.finite(),
            self.is_median(group, a),
            a.rank() < b.rank(),
        ensures
            !self.is_median(group, b),
    {
        let up_to_a = group.filter(|id: u64| self.queue[id].skill_rating.rank() <= a.rank());
        let below_b = group.filter(|id: u64| self.queue[id].skill_rating.rank() < b.rank());
        assert(up_to_a.subset_of(below_b));
        lemma_len_subset(up_to_a, below_b);
    }

    /// A search starts from one place.
    pub proof fn lemma_pivot_is_unique(
        self,
        now: u64,
        region: Seq<char>,
        median_rating: OrdF64,
        wait_secs: OrdF64,
        region2: Seq<char>,
        median_rating2: OrdF64,
        wait_secs2: OrdF64,
    )
        requires
            self.queue.dom().finite(),
            self.is_pivot(now, region, median_rating, wait_secs),
            self.is_pivot(now, region2, median_rating2, wait_secs2),
        ensures
            region == region2,
            median_rating == median_rating2,
            wait_secs == wait_secs2,
    {
        let a = choose|id: u64|
            {
                &&& #[trigger] self.longest_waiting(id)
                &&& region == self.queue[id].region
                &&& wait_secs == seconds(minus(now, self.queue[id].join_timestamp))
                &&& self.is_median(
                    self.bucket(self.queue[id].skill_rating.bracket(), region),
                    median_rating,
                )
            };
        let b = choose|id: u64|
            {
                &&& #[trigger] self.longest_waiting(id)
                &&& region2 == self.queue[id].region
                &&& wait_secs2 == seconds(minus(now, self.queue[id].join_timestamp))
                &&& self.is_median(
                    self.bucket(self.queue[id].skill_rating.bracket(), region2),
                    median_rating2,
                )
            };
        assert(self.queue.contains_key(a) && self.queue.contains_key(b));
        assert(a == b);
        self.lemma_median_is_unique(
            self.bucket(self.queue[a].skill_rating.bracket(), region),
            median_rating,
            median_rating2,
        );
    }
}

} // verus!
