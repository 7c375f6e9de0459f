//! Forming matches.

use super::eviction::MatchLog;
use super::{Matchmaker, Pivot};
use crate::model::{ids_of, MatchmakerView};
use crate::rating::OrdF64;
use crate::shortlist::{Candidate, MATCH_SIZE};
use vstd::prelude::*;
use vstd::set_lib::lemma_len_subset;

verus! {

impl MatchmakerView {
    /// A pool is a part of the queue.
    pub proof fn lemma_pool(self, region: Seq<char>, median_rating: OrdF64, wait_secs: OrdF64)
        requires
            self.queue.dom().finite(),
        ensures
            self.pool(region, median_rating, wait_secs).subset_of(self.queue.dom()),
            self.pool(region, median_rating, wait_secs).len() <= self.queue.len(),
    {
        let pool = self.pool(region, median_rating, wait_secs);
        assert(pool.subset_of(self.queue.dom()));
        lemma_len_subset(pool, self.queue.dom());
    }
}

impl Matchmaker {
    /// The candidates for a match around a pivot. The grown window is searched
    /// only where the first one does not fill a match.
    fn gather(&self, pivot: &Pivot) -> (candidates: Vec<Candidate>)
        requires
            self.wf(),
            pivot.wf(),
        ensures
            self@.picks(
                self@.pool(pivot.region@, pivot.median_rating, pivot.oldest_wait_secs),
                ids_of(candidates@),
            ),
            forall|i: int| 0 <= i < candidates@.len() ==> self@.has(#[trigger] candidates@[i]),
    {
        let allow_cross_region: bool = self.config.allows_cross_region(pivot.oldest_wait_secs);
        let base_window = self.config.base_window;
        let expanded = self.config.expanded_window(pivot.oldest_wait_secs);
        let candidates = self.collect_candidates(pivot, base_window, allow_cross_region);
        if candidates.len() < MATCH_SIZE && base_window.is_below(expanded) {
            return self.collect_candidates(pivot, expanded, allow_cross_region);
        }
        candidates
    }

    /// Forms a match, if one can be formed: starting from the player who has
    /// waited longest, takes those who have waited longest among the players in
    /// reach out of the queue.
    pub fn try_form_match(&mut self, now: u64) -> (formed: Option<MatchLog>)
        requires
            old(self).wf(),
        ensures
            final(self).wf(),
            formed is Some <==> old(self)@.can_match(now),
            match formed {
                Some(log) => {
                    let ids = log.matched_ids@;
                    &&& old(self)@.is_match(now, ids)
                    &&& final(self)@ == old(self)@.matched(ids, now)
                    &&& final(self).lists_without(*old(self), ids)
                    &&& old(self)@.recorded_in(ids, log)
                    &&& ids.len() == 10 && log.regions@.len() == 10
                    &&& forall|i: int|
                        0 <= i < 10 ==> old(self)@.queue.contains_key(#[trigger] ids[i])
                            && log.regions@[i]@ == old(self)@.queue[ids[i]].region
                },
                None => final(self)@ == old(self)@ && final(self).same_lists(*old(self)),
            },
    {
        proof {
            self.law_state_is_sound();
        }
        if self.metrics.queue_depth < MATCH_SIZE as u64 {
            proof {
                assert forall|region: Seq<char>, median: OrdF64, wait: OrdF64|
                    #[trigger] self@.is_pivot(now, region, median, wait) implies self@.pool(
                    region,
                    median,
                    wait,
                ).len() < MATCH_SIZE by {
                    self@.lemma_pool(region, median, wait);
                }
            }
            return None;
        }
        let pivot = match self.find_pivot(now) {
            Some(pivot) => pivot,
            None => {
                return None;
            },
        };
        let candidates = self.gather(&pivot);
        proof {
            assert forall|region: Seq<char>, median: OrdF64, wait: OrdF64|
                #[trigger] self@.is_pivot(now, region, median, wait) implies self@.pool(
                region,
                median,
                wait,
            ) == self@.pool(pivot.region@, pivot.median_rating, pivot.oldest_wait_secs) by {
                self@.lemma_pivot_is_unique(
                    now,
                    region,
                    median,
                    wait,
                    pivot.region@,
                    pivot.median_rating,
                    pivot.oldest_wait_secs,
                );
            }
        }
        if candidates.len() < MATCH_SIZE {
            return None;
        }
        assert(ids_of(candidates@).take(MATCH_SIZE as int) =~= ids_of(candidates@));
        self.evict_candidates(&candidates, now)
    }
}

} // verus!
