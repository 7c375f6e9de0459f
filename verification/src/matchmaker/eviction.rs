//! Taking the players of a match out of the queue.

use super::{Matchmaker, PlayerLocator};
use crate::draft::{all_in_range, compute_match_result, is_result, ratings_of, MatchResult};
use crate::lists::{lemma_without_nobody, lemma_without_one_more, without_ids};
use crate::metrics::{minus, MetricsView};
use crate::model::{ids_of, MatchmakerView};
use crate::player::Player;
use crate::rating::OrdF64;
use crate::shard::{BucketKey, N_SHARDS};
use crate::shortlist::{Candidate, MATCH_SIZE};
use std::collections::HashSet;
use vstd::prelude::*;

verus! {

/// The record of a match: who was matched, the longest wait first, where from,
/// and how the match came out.
#[derive(Debug)]
pub struct MatchLog {
    pub matched_ids: Vec<u64>,
    pub regions: Vec<String>,
    pub team_a_avg_sr: OrdF64,
    pub team_b_avg_sr: OrdF64,
    pub sr_delta: OrdF64,
    pub match_quality_score: OrdF64,
}

impl MatchLog {
    /// What the record says of the teams.
    pub open spec fn result(self) -> MatchResult {
        MatchResult {
            team_a_avg_sr: self.team_a_avg_sr,
            team_b_avg_sr: self.team_b_avg_sr,
            sr_delta: self.sr_delta,
            match_quality_score: self.match_quality_score,
        }
    }
}

impl MatchmakerView {
    /// Whether a log is the record of a match of these queued players.
    pub open spec fn recorded_in(self, ids: Seq<u64>, log: MatchLog) -> bool {
        &&& log.matched_ids@ == ids
        &&& log.regions@.map_values(|name: String| name@) == ids.map_values(
            |id: u64| self.queue[id].region,
        )
        &&& is_result(
            ids.map_values(|id: u64| self.queue[id].skill_rating),
            self.config.max_window,
            log.result(),
        )
    }

    /// A log lists the players of its match, and at the place of each player the
    /// region under which that player was queued.
    pub proof fn law_log_names_the_regions(self, ids: Seq<u64>, log: MatchLog)
        requires
            self.recorded_in(ids, log),
        ensures
            log.matched_ids@ == ids,
            log.regions@.len() == ids.len(),
            forall|i: int|
                0 <= i < ids.len() ==> log.regions@[i]@ == self.queue[#[trigger] log.matched_ids@[i]].region,
    {
        let names = log.regions@.map_values(|name: String| name@);
        let homes = ids.map_values(|id: u64| self.queue[id].region);
        assert(names.len() == homes.len());
        assert forall|i: int| 0 <= i < ids.len() implies log.regions@[i]@
            == self.queue[#[trigger] log.matched_ids@[i]].region by {
            assert(names[i] == homes[i]);
        }
    }

    /// A log says how the match of its players came out, by the ratings under
    /// which they were queued.
    pub proof fn law_log_tells_the_result(
        self,
        ids: Seq<u64>,
        log: MatchLog,
        ratings: Seq<OrdF64>,
    )
        requires
            self.recorded_in(ids, log),
            ratings.len() == ids.len(),
            forall|i: int|
                0 <= i < ids.len() ==> ratings[i] == self.queue[#[trigger] ids[i]].skill_rating,
        ensures
            is_result(
                ratings,
                self.config.max_window,
                (MatchResult {
                    team_a_avg_sr: log.team_a_avg_sr,
                    team_b_avg_sr: log.team_b_avg_sr,
                    sr_delta: log.sr_delta,
                    match_quality_score: log.match_quality_score,
                }),
            ),
    {
        assert(ids.map_values(|id: u64| self.queue[id].skill_rating) =~= ratings) by {
            assert forall|i: int| 0 <= i < ids.len() implies ratings[i]
                == self.queue[ids[i]].skill_rating by {
                assert(ids[i] == ids[i]);
            }
        }
    }
}

/// How long the candidates that a match takes have waited, in whole
/// milliseconds.
spec fn waits_of(candidates: Seq<Candidate>, now: u64) -> Seq<u64> {
    candidates.take(MATCH_SIZE as int).map_values(
        |candidate: Candidate| minus(now, candidate.entry.join_timestamp) / 1_000_000,
    )
}

/// The ids of the candidates that a match takes.
spec fn chosen(candidates: Seq<Candidate>) -> Seq<u64> {
    ids_of(candidates).take(MATCH_SIZE as int)
}

impl Matchmaker {
    /// Whether the index leads to a candidate.
    spec fn located(self, candidate: Candidate) -> bool {
        &&& self.index@.contains_key(candidate.entry.id)
        &&& self.index@[candidate.entry.id] == (PlayerLocator {
            entry: candidate.entry,
            shard_idx: candidate.shard_idx,
        })
    }

    /// Whether a candidate is still in the shard that it was found in.
    fn candidate_present(&self, candidate: &Candidate) -> (present: bool)
        requires
            self.wf(),
        ensures
            present == self@.has(*candidate),
            present ==> self.located(*candidate),
    {
        let entry = candidate.entry;
        proof {
            self.regions.lemma_distinct();
            if self@.has(*candidate) {
                assert(self.index@.contains_key(entry.id));
                assert(self.index@[entry.id].entry == entry);
                assert(self.live(entry));
                assert(self.shards@[candidate.shard_idx as int]@.contains(entry));
            }
        }
        candidate.shard_idx < N_SHARDS && self.shards[candidate.shard_idx].contains(&entry)
    }

    /// Whether the first candidates can all be claimed for one match.
    fn claim(&self, candidates: &Vec<Candidate>) -> (claimed: bool)
        requires
            self.wf(),
        ensures
            claimed == self@.can_take(candidates@),
            claimed ==> forall|i: int|
                0 <= i < MATCH_SIZE ==> self.located(#[trigger] candidates@[i]),
    {
        if candidates.len() < MATCH_SIZE {
            return false;
        }
        for i in 0..MATCH_SIZE
            invariant
                self.wf(),
                candidates@.len() >= MATCH_SIZE,
                forall|j: int|
                    0 <= j < i ==> self@.has(#[trigger] candidates@[j]) && self.located(
                        candidates@[j],
                    ),
        {
            if !self.candidate_present(&candidates[i]) {
                return false;
            }
        }
        let ghost ids = chosen(candidates@);
        let mut claimed: HashSet<u64> = HashSet::new();
        for i in 0..MATCH_SIZE
            invariant
                candidates@.len() >= MATCH_SIZE,
                ids == chosen(candidates@),
                forall|id: u64| #[trigger]
                    claimed@.contains(id) <==> exists|j: int| 0 <= j < i && ids[j] == id,
                forall|j: int, k: int| 0 <= j < k < i ==> ids[j] != ids[k],
        {
            let id: u64 = candidates[i].entry.id;
            assert(ids[i as int] == id);
            if !claimed.insert(id) {
                return false;
            }
        }
        true
    }

    /// The record of a match of the first candidates.
    fn record(&self, candidates: &Vec<Candidate>) -> (log: MatchLog)
        requires
            self.wf(),
            self@.can_take(candidates@),
        ensures
            self@.recorded_in(chosen(candidates@), log),
    {
        let mut matched_ids: Vec<u64> = Vec::new();
        let mut regions: Vec<String> = Vec::new();
        let mut players: Vec<Player> = Vec::new();
        let ghost ids = chosen(candidates@);
        let ghost region_of = |id: u64| self@.queue[id].region;
        let ghost rating_of = |id: u64| self@.queue[id].skill_rating;
        let ghost names = regions@.map_values(|name: String| name@);
        for i in 0..MATCH_SIZE
            invariant
                self.wf(),
                self@.can_take(candidates@),
                ids == chosen(candidates@),
                region_of == (|id: u64| self@.queue[id].region),
                rating_of == (|id: u64| self@.queue[id].skill_rating),
                matched_ids@ =~= ids.take(i as int),
                names == regions@.map_values(|name: String| name@),
                names =~= ids.take(i as int).map_values(region_of),
                ratings_of(players@) =~= ids.take(i as int).map_values(rating_of),
                all_in_range(ratings_of(players@)),
        {
            let entry = candidates[i].entry;
            proof {
                assert(self@.has(candidates@[i as int]));
                assert(ids[i as int] == entry.id);
                assert(self.index@.contains_key(entry.id));
            }
            matched_ids.push(entry.id);
            regions.push(self.regions.name(entry.region).to_owned());
            let ghost lined_up = players@;
            players.push(
                Player {
                    id: entry.id,
                    skill_rating: entry.skill_rating,
                    ping_region: self.regions.name(entry.region).to_owned(),
                    join_timestamp: entry.join_timestamp,
                },
            );
            proof {
                assert(ratings_of(players@) =~= ratings_of(lined_up).push(entry.skill_rating));
                let earlier = names;
                names = regions@.map_values(|name: String| name@);
                assert(names =~= earlier.push(region_of(entry.id)));
                assert(ids.take(i + 1) =~= ids.take(i as int).push(entry.id));
            }
        }
        assert(ids.take(MATCH_SIZE as int) =~= ids);
        let result = compute_match_result(&mut players, self.config.max_window);
        MatchLog {
            matched_ids,
            regions,
            team_a_avg_sr: result.team_a_avg_sr,
            team_b_avg_sr: result.team_b_avg_sr,
            sr_delta: result.sr_delta,
            match_quality_score: result.match_quality_score,
        }
    }

    /// Takes all of the first candidates out of the queue.
    fn withdraw_all(&mut self, candidates: &Vec<Candidate>)
        requires
            old(self).wf(),
            old(self)@.can_take(candidates@),
            forall|i: int| 0 <= i < MATCH_SIZE ==> old(self).located(#[trigger] candidates@[i]),
        ensures
            final(self).wf(),
            final(self)@ == (MatchmakerView {
                queue: old(self)@.queue.remove_keys(chosen(candidates@).to_set()),
                metrics: MetricsView {
                    queue_depth: (old(self)@.metrics.queue_depth - MATCH_SIZE) as u64,
                    ..old(self)@.metrics
                },
                ..old(self)@
            }),
            old(self)@.metrics.queue_depth >= MATCH_SIZE,
            final(self).lists_without(*old(self), chosen(candidates@)),
    {
        let ghost ids = chosen(candidates@);
        assert forall|s: int, key: BucketKey, rating: OrdF64| 0 <= s < N_SHARDS implies
            #[trigger] self.list(s, key, rating) == without_ids(
            old(self).list(s, key, rating),
            ids.take(0),
        ) by {
            assert(ids.take(0) =~= Seq::empty());
            lemma_without_nobody(self.list(s, key, rating));
        }
        assert(self@.queue =~= old(self)@.queue.remove_keys(ids.take(0).to_set()));
        for i in 0..MATCH_SIZE
            invariant
                self.wf(),
                candidates@.len() >= MATCH_SIZE,
                ids == chosen(candidates@),
                ids.no_duplicates(),
                forall|j: int| i <= j < MATCH_SIZE ==> self.located(#[trigger] candidates@[j]),
                self@.queue == old(self)@.queue.remove_keys(ids.take(i as int).to_set()),
                self@.regions == old(self)@.regions,
                self@.config == old(self)@.config,
                old(self)@.metrics.queue_depth >= i,
                self.lists_without(*old(self), ids.take(i as int)),
                self@.metrics == (MetricsView {
                    queue_depth: (old(self)@.metrics.queue_depth - i) as u64,
                    ..old(self)@.metrics
                }),
        {
            let candidate = candidates[i];
            assert(self.located(candidates@[i as int]));
            let ghost before = *self;
            assert(before.index@.dom().contains(candidate.entry.id));
            self.withdraw(
                PlayerLocator { entry: candidate.entry, shard_idx: candidate.shard_idx },
            );
            proof {
                assert(ids[i as int] == candidate.entry.id);
                assert(ids.take(i + 1) =~= ids.take(i as int).push(ids[i as int]));
                ids.take(i as int).lemma_push_to_set_commute(ids[i as int]);
                assert(self@.queue =~= old(self)@.queue.remove_keys(ids.take(i + 1).to_set()));
                assert forall|j: int| i < j < MATCH_SIZE implies self.located(
                    #[trigger] candidates@[j],
                ) by {
                    assert(before.located(candidates@[j]));
                    assert(ids[j] == candidates@[j].entry.id && ids[j] != ids[i as int]);
                }
                assert forall|s: int, key: BucketKey, rating: OrdF64| 0 <= s < N_SHARDS implies
                    #[trigger] self.list(s, key, rating) == without_ids(
                    old(self).list(s, key, rating),
                    ids.take(i + 1),
                ) by {
                    let list = old(self).list(s, key, rating);
                    assert(before.list(s, key, rating) == without_ids(list, ids.take(i as int)));
                    lemma_without_one_more(list, ids.take(i as int), ids[i as int]);
                }
            }
        }
        assert(ids.take(MATCH_SIZE as int) =~= ids);
    }

    /// Counts a match, and records how long its players have waited.
    fn count_match(&mut self, candidates: &Vec<Candidate>, now: u64)
        requires
            old(self).wf(),
            candidates@.len() >= MATCH_SIZE,
            old(self)@.metrics.queue_depth + MATCH_SIZE * (old(self)@.metrics.total_matches_formed
                + 1) <= old(self)@.metrics.total_players_queued,
        ensures
            final(self).wf(),
            final(self)@ == (MatchmakerView {
                metrics: MetricsView {
                    total_matches_formed: (old(self)@.metrics.total_matches_formed + 1) as u64,
                    waits: old(self)@.metrics.waits.recorded_all(waits_of(candidates@, now)),
                    ..old(self)@.metrics
                },
                ..old(self)@
            }),
            final(self).same_lists(*old(self)),
    {
        let ghost waits = waits_of(candidates@, now);
        let ghost before = *self;
        self.metrics.total_matches_formed = self.metrics.total_matches_formed + 1;
        for i in 0..MATCH_SIZE
            invariant
                candidates@.len() >= MATCH_SIZE,
                waits == waits_of(candidates@, now),
                before.metrics.total_matches_formed < u64::MAX,
                self.metrics.wf(),
                self.metrics@.waits.sound(),
                *self == (Matchmaker { metrics: self.metrics, ..before }),
                self.metrics@ == (MetricsView {
                    total_matches_formed: (before.metrics.total_matches_formed + 1) as u64,
                    waits: before.metrics@.waits.recorded_all(waits.take(i as int)),
                    ..before.metrics@
                }),
        {
            let wait_ns: u64 = now.saturating_sub(candidates[i].entry.join_timestamp);
            proof {
                self.metrics@.waits.law_sum_of_waits_fits(wait_ns / 1_000_000);
            }
            self.metrics.record_wait_ms(wait_ns / 1_000_000);
            assert(waits.take(i + 1).drop_last() =~= waits.take(i as int));
        }
        proof {
            assert(waits.take(MATCH_SIZE as int) =~= waits);
            assert(self.parts_wf());
            assert(self.counts_wf());
            assert(self.index_wf());
            assert(self.pool_wf());
            assert(self.heap_wf());
        }
    }

    /// Takes the first candidates out of the queue, all of them or none, and
    /// makes a match of them.
    pub fn evict_candidates(&mut self, candidates: &Vec<Candidate>, now: u64) -> (formed: Option<
        MatchLog,
    >)
        requires
            old(self).wf(),
        ensures
            final(self).wf(),
            formed is Some <==> old(self)@.can_take(candidates@),
            match formed {
                Some(log) => {
                    let ids = ids_of(candidates@).take(MATCH_SIZE as int);
                    &&& final(self)@ == old(self)@.matched(ids, now)
                    &&& final(self).lists_without(*old(self), ids)
                    &&& old(self)@.recorded_in(ids, log)
                    &&& log.matched_ids@.len() == 10 && log.regions@.len() == 10
                    &&& forall|i: int|
                        0 <= i < 10 ==> {
                            let id = #[trigger] log.matched_ids@[i];
                            &&& id == candidates@[i].entry.id
                            &&& old(self)@.queue.contains_key(id)
                            &&& log.regions@[i]@ == old(self)@.queue[id].region
                        }
                },
                None => final(self)@ == old(self)@ && final(self).same_lists(*old(self)),
            },
    {
        if !self.claim(candidates) {
            return None;
        }
        let log = self.record(candidates);
        self.withdraw_all(candidates);
        self.count_match(candidates, now);
        proof {
            let ids = chosen(candidates@);
            let wait = |id: u64| old(self)@.wait_ms(id, now);
            assert forall|i: int| 0 <= i < MATCH_SIZE implies waits_of(candidates@, now)[i]
                == #[trigger] ids.map_values(wait)[i] by {
                assert(old(self)@.has(candidates@[i]));
            }
            assert(waits_of(candidates@, now) =~= ids.map_values(wait));
            assert(self@ =~= old(self)@.matched(ids, now));
            old(self)@.law_log_names_the_regions(ids, log);
            assert forall|i: int| 0 <= i < 10 implies (#[trigger] log.matched_ids@[i])
                == candidates@[i].entry.id && old(self)@.queue.contains_key(
                log.matched_ids@[i],
            ) by {
                assert(old(self)@.has(candidates@[i]));
            }
        }
        Some(log)
    }
}

} // verus!
