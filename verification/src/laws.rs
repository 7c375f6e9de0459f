//! What holds of the queue and of matches as a whole.

use crate::clock::{lemma_seconds, seconds};
use crate::bounds::{lemma_signed, lemma_whole, lemma_whole_is_exact};
use crate::rounding::{
    lemma_nearest_exists, lemma_rounds_at_least, lemma_rounds_at_most, lemma_units_is_units_at,
    lemma_units_of_zero, lemma_units_order, rounded,
};
use crate::metrics::{minus, MetricsView};
use crate::model::MatchmakerView;
use crate::rating::{
    kept, lemma_brackets_follow_order, lemma_top_bracket, max_rating, zero_rating, OrdF64,
    BRACKET_SIZE,
};
use crate::shortlist::{Candidate, MATCH_SIZE};
use vstd::arithmetic::div_mod::{lemma_div_pos_is_pos, lemma_fundamental_div_mod};
use vstd::arithmetic::power2::{lemma_pow2_pos, pow2};
use vstd::prelude::*;

verus! {

impl MatchmakerView {
    /// To leave undoes to join: the queue and its depth are as before, and so
    /// is who has waited longest. That somebody joined stays counted, and their
    /// region stays listed.
    pub proof fn law_leaving_undoes_joining(
        self,
        id: u64,
        skill_rating: OrdF64,
        region: Seq<char>,
        now: u64,
    )
        requires
            !self.queue.contains_key(id),
            self.metrics.queue_depth < u64::MAX,
        ensures
            ({
                let joined = self.joined(id, skill_rating, region, now);
                &&& joined.regions.contains(region)
                &&& joined.left(id) == (MatchmakerView {
                    regions: joined.regions,
                    metrics: MetricsView {
                        total_players_queued: (self.metrics.total_players_queued + 1) as u64,
                        ..self.metrics
                    },
                    ..self
                })
                &&& forall|other: u64|
                    joined.left(id).longest_waiting(other) <==> self.longest_waiting(other)
                &&& !joined.left(id).queue.contains_key(id)
            }),
    {
        let joined = self.joined(id, skill_rating, region, now);
        assert(joined.left(id).queue =~= self.queue);
        if !self.regions.contains(region) {
            assert(joined.regions[self.regions.len() as int] == region);
        }
        assert forall|other: u64|
            joined.left(id).longest_waiting(other) <==> self.longest_waiting(other) by {
            assert(forall|a: u64, b: u64|
                joined.left(id).waited_longer(a, b) == self.waited_longer(a, b));
        }
    }

    /// One player has waited longest.
    pub proof fn law_longest_waiting_is_unique(self, a: u64, b: u64)
        requires
            self.longest_waiting(a),
            self.longest_waiting(b),
        ensures
            a == b,
    {
        assert(self.queue.contains_key(a) && self.queue.contains_key(b));
    }

    /// Whoever has joined is queued, and whoever has left is not.
    pub proof fn law_joined_until_left(
        self,
        id: u64,
        skill_rating: OrdF64,
        region: Seq<char>,
        now: u64,
    )
        ensures
            self.joined(id, skill_rating, region, now).queue.contains_key(id),
            !self.left(id).queue.contains_key(id),
    {
    }

    /// A match takes ten different players, all of them from the queue.
    pub proof fn law_match_takes_ten_of_the_queue(self, now: u64, ids: Seq<u64>)
        requires
            self.is_match(now, ids),
        ensures
            ids.len() == 10,
            ids.no_duplicates(),
            forall|i: int| 0 <= i < ids.len() ==> self.queue.contains_key(#[trigger] ids[i]),
    {
        let (region, median, wait) = choose|region: Seq<char>, median: OrdF64, wait: OrdF64|
            {
                &&& #[trigger] self.is_pivot(now, region, median, wait)
                &&& self.picks(self.pool(region, median, wait), ids)
                &&& ids.len() == MATCH_SIZE
            };
        assert forall|i: int| 0 <= i < ids.len() implies self.queue.contains_key(
            #[trigger] ids[i],
        ) by {
            assert(self.pool(region, median, wait).contains(ids[i]));
        }
        assert forall|i: int, j: int| 0 <= i < j < ids.len() implies ids[i] != ids[j] by {
            assert(self.waited_longer(ids[i], ids[j]));
        }
    }

    /// A match takes its players out of the queue and leaves the others in it.
    pub proof fn law_match_takes_its_players_only(self, ids: Seq<u64>, now: u64, id: u64)
        requires
            self.queue.contains_key(id),
        ensures
            self.matched(ids, now).queue.contains_key(id) <==> !ids.contains(id),
            !ids.contains(id) ==> self.matched(ids, now).queue[id] == self.queue[id],
    {
    }

    /// Nobody is matched twice: a match takes its players out of the queue, and
    /// as long as one of them is not queued, no match has that player.
    pub proof fn law_nobody_is_matched_twice(
        self,
        ids: Seq<u64>,
        now: u64,
        id: u64,
        later: MatchmakerView,
        later_ids: Seq<u64>,
        later_now: u64,
    )
        requires
            ids.contains(id),
            !later.queue.contains_key(id),
            later.is_match(later_now, later_ids),
        ensures
            !self.matched(ids, now).queue.contains_key(id),
            !later_ids.contains(id),
    {
        later.law_match_takes_ten_of_the_queue(later_now, later_ids);
    }

    /// A candidate of an earlier stay in the queue is refused when its player
    /// has joined again.
    pub proof fn law_earlier_candidates_are_refused(
        self,
        candidate: Candidate,
        later: MatchmakerView,
        skill_rating: OrdF64,
        region: Seq<char>,
        now: u64,
        candidates: Seq<Candidate>,
        place: int,
    )
        requires
            self.sound(),
            self.has(candidate),
            self.metrics.total_players_queued <= later.metrics.total_players_queued,
            0 <= place < MATCH_SIZE,
            place < candidates.len(),
            candidates[place] == candidate,
        ensures
            ({
                let again = later.joined(candidate.entry.id, skill_rating, region, now);
                !again.has(candidate) && !again.can_take(candidates)
            }),
    {
        let again = later.joined(candidate.entry.id, skill_rating, region, now);
        assert(self.queue.contains_key(candidate.entry.id));
        if again.can_take(candidates) {
            assert(again.has(candidates[place]));
        }
    }

    /// The grown window is searched only where the first one does not hold
    /// enough players for a match.
    pub proof fn law_window_grows_only_where_needed(
        self,
        region: Seq<char>,
        median: OrdF64,
        wait: OrdF64,
    )
        requires
            self.eligible(
                region,
                median,
                self.config.base_window,
                self.config.crosses_regions(wait),
            ).len() >= MATCH_SIZE,
        ensures
            self.window_for(region, median, wait) == self.config.base_window,
    {
    }

    /// Who is picked from a group is determined.
    pub proof fn law_picks_are_determined(self, group: Set<u64>, a: Seq<u64>, b: Seq<u64>)
        requires
            self.picks(group, a),
            self.picks(group, b),
        ensures
            a == b,
    {
        self.lemma_picks_agree(group, a, b, a.len() as int);
        assert(a =~= b);
    }

    proof fn lemma_picks_agree(self, group: Set<u64>, a: Seq<u64>, b: Seq<u64>, n: int)
        requires
            self.picks(group, a),
            self.picks(group, b),
            0 <= n <= a.len(),
        ensures
            forall|i: int| 0 <= i < n ==> a[i] == b[i],
        decreases n,
    {
        if n > 0 {
            self.lemma_picks_agree(group, a, b, n - 1);
            let k = n - 1;
            if a[k] != b[k] {
                self.lemma_pick_is_longer(group, a, b, k);
                self.lemma_pick_is_longer(group, b, a, k);
            }
        }
    }

    /// Where two picks part, each would have to have waited longer.
    proof fn lemma_pick_is_longer(self, group: Set<u64>, a: Seq<u64>, b: Seq<u64>, k: int)
        requires
            self.picks(group, a),
            self.picks(group, b),
            0 <= k < a.len(),
            forall|i: int| 0 <= i < k ==> a[i] == b[i],
            a[k] != b[k],
        ensures
            self.waited_longer(b[k], a[k]),
    {
        assert(group.contains(a[k]));
        if b.contains(a[k]) {
            let j = choose|j: int| 0 <= j < b.len() && b[j] == a[k];
            if j < k {
                assert(self.waited_longer(a[j], a[k]));
            }
            assert(self.waited_longer(b[k], b[j]));
        } else {
            if k < b.len() - 1 {
                assert(self.waited_longer(b[k], b[b.len() - 1]));
            }
        }
    }

    /// Which match is formed is determined.
    pub proof fn law_match_is_determined(self, now: u64, a: Seq<u64>, b: Seq<u64>)
        requires
            self.sound(),
            self.is_match(now, a),
            self.is_match(now, b),
        ensures
            a == b,
    {
        let (r1, m1, w1) = choose|region: Seq<char>, median: OrdF64, wait: OrdF64|
            {
                &&& #[trigger] self.is_pivot(now, region, median, wait)
                &&& self.picks(self.pool(region, median, wait), a)
                &&& a.len() == MATCH_SIZE
            };
        let (r2, m2, w2) = choose|region: Seq<char>, median: OrdF64, wait: OrdF64|
            {
                &&& #[trigger] self.is_pivot(now, region, median, wait)
                &&& self.picks(self.pool(region, median, wait), b)
                &&& b.len() == MATCH_SIZE
            };
        self.lemma_pivot_is_unique(now, r1, m1, w1, r2, m2, w2);
        self.law_picks_are_determined(self.pool(r1, m1, w1), a, b);
    }

    /// The median of a group is the rating of one of its members.
    pub proof fn law_median_is_a_rating(self, group: Set<u64>, rating: OrdF64)
        requires
            self.is_median(group, rating),
        ensures
            exists|id: u64| #[trigger]
                group.contains(id) && self.queue[id].skill_rating == rating,
    {
        let low = group.filter(|id: u64| self.queue[id].skill_rating.rank() < rating.rank());
        let high = group.filter(|id: u64| self.queue[id].skill_rating.rank() <= rating.rank());
        if forall|id: u64| #[trigger] high.contains(id) ==> low.contains(id) {
            assert(low =~= high);
        }
        let id = choose|id: u64| #[trigger] high.contains(id) && !low.contains(id);
        assert(group.contains(id));
        assert(self.queue[id].skill_rating.rank() == rating.rank());
    }

    /// A window of one bracket or more reaches the player who has waited
    /// longest.
    pub proof fn law_wide_window_reaches_the_longest_waiting(
        self,
        now: u64,
        id: u64,
        region: Seq<char>,
        median: OrdF64,
        wait: OrdF64,
        window: OrdF64,
        cross_region: bool,
    )
        requires
            self.sound(),
            self.longest_waiting(id),
            self.is_pivot(now, region, median, wait),
            window.finite(),
            !window.below(OrdF64::whole(200)),
        ensures
            self.eligible(region, median, window, cross_region).contains(id),
    {
        let rating = self.queue[id].skill_rating;
        let other = choose|other: u64|
            {
                &&& #[trigger] self.longest_waiting(other)
                &&& region == self.queue[other].region
                &&& wait == seconds(minus(now, self.queue[other].join_timestamp))
                &&& self.is_median(
                    self.bucket(self.queue[other].skill_rating.bracket(), region),
                    median,
                )
            };
        assert(self.queue.contains_key(id) && self.queue.contains_key(other));
        assert(id == other);
        let bucket = self.bucket(rating.bracket(), region);
        self.law_median_is_a_rating(bucket, median);
        let member = choose|member: u64| #[trigger]
            bucket.contains(member) && self.queue[member].skill_rating == median;
        assert(self.queue.contains_key(member));
        lemma_window_reaches(rating, median, window);
    }

    /// Where the search has a window of one bracket or more, the player who has
    /// waited longest is the first of the match.
    pub proof fn law_longest_waiting_is_matched(
        self,
        now: u64,
        id: u64,
        region: Seq<char>,
        median: OrdF64,
        wait: OrdF64,
        ids: Seq<u64>,
    )
        requires
            self.sound(),
            self.longest_waiting(id),
            self.is_pivot(now, region, median, wait),
            !self.window_for(region, median, wait).below(OrdF64::whole(200)),
            self.is_match(now, ids),
        ensures
            ids[0] == id,
    {
        let (r, m, w) = choose|region: Seq<char>, median: OrdF64, wait: OrdF64|
            {
                &&& #[trigger] self.is_pivot(now, region, median, wait)
                &&& self.picks(self.pool(region, median, wait), ids)
                &&& ids.len() == MATCH_SIZE
            };
        self.lemma_pivot_is_unique(now, r, m, w, region, median, wait);
        let first = choose|first: u64|
            {
                &&& #[trigger] self.longest_waiting(first)
                &&& region == self.queue[first].region
                &&& wait == seconds(minus(now, self.queue[first].join_timestamp))
                &&& self.is_median(
                    self.bucket(self.queue[first].skill_rating.bracket(), region),
                    median,
                )
            };
        lemma_seconds(minus(now, self.queue[first].join_timestamp));
        self.config.law_window_is_capped(wait);
        self.law_wide_window_reaches_the_longest_waiting(
            now,
            id,
            region,
            median,
            wait,
            self.window_for(region, median, wait),
            self.config.crosses_regions(wait),
        );
        assert(self.pool(region, median, wait).contains(id));
        self.law_match_takes_ten_of_the_queue(now, ids);
        if ids.contains(id) {
            let i = choose|i: int| 0 <= i < ids.len() && ids[i] == id;
            assert(self.queue.contains_key(ids[0]));
            if i > 0 {
                assert(self.waited_longer(ids[0], ids[i]));
            }
        } else {
            assert(self.queue.contains_key(ids[9]));
            assert(self.waited_longer(ids.last(), id));
        }
    }
}

/// Ratings of one bracket lie less than a bracket apart.
proof fn lemma_bracket_mates(a: OrdF64, b: OrdF64)
    requires
        kept(a),
        kept(b),
        a.bracket() == b.bracket(),
    ensures
        a.units() < b.units() + 200 * pow2(1074),
{
    let size = (BRACKET_SIZE * pow2(1074)) as int;
    lemma_pow2_pos(1074);
    lemma_top_bracket();
    lemma_brackets_follow_order(a, max_rating());
    lemma_brackets_follow_order(b, max_rating());
    lemma_kept_units(a);
    lemma_kept_units(b);
    lemma_fundamental_div_mod(a.units(), size);
    lemma_fundamental_div_mod(b.units(), size);
}

/// The bracket of a rating that the queue keeps, by its units.
proof fn lemma_kept_units(a: OrdF64)
    requires
        kept(a),
        a.bracket() <= 15,
    ensures
        a.units() >= 0,
        a.units() / (BRACKET_SIZE * pow2(1074)) as int == a.bracket(),
{
    let size = (BRACKET_SIZE * pow2(1074)) as int;
    lemma_pow2_pos(1074);
    lemma_units_order(a, zero_rating());
    lemma_units_of_zero();
    lemma_div_pos_is_pos(a.units(), size);
}

/// A window of one bracket or more around a rating reaches its bracket mates.
proof fn lemma_window_reaches(rating: OrdF64, median: OrdF64, window: OrdF64)
    requires
        kept(rating),
        kept(median),
        rating.bracket() == median.bracket(),
        window.finite(),
        !window.below(OrdF64::whole(200)),
    ensures
        median.minus(window).larger(zero_rating()).rank() <= rating.rank(),
        rating.rank() <= median.plus(window).smaller(max_rating()).rank(),
{
    let (low, high) = (median.minus(window), median.plus(window));
    lemma_bracket_mates(rating, median);
    lemma_bracket_mates(median, rating);
    lemma_whole(200);
    lemma_whole_is_exact(200);
    lemma_units_order(OrdF64::whole(200), window);
    lemma_units_order(median, zero_rating());
    lemma_units_order(rating, zero_rating());
    lemma_units_of_zero();
    lemma_units_is_units_at(rating);
    lemma_pow2_pos(1074);
    lemma_signed(true, window.magnitude());
    lemma_units_is_units_at(window);
    let down = median.units() - window.units();
    let up = median.units() + window.units();
    lemma_nearest_exists(up, 1);
    lemma_rounds_at_least(up, 1, rounded(up, 1), rating.magnitude());
    lemma_signed(false, rounded(up, 1));
    if down > 0 {
        lemma_nearest_exists(down, 1);
        lemma_rounds_at_most(down, 1, rounded(down, 1), rating.magnitude());
        lemma_signed(false, rounded(down, 1));
    } else if down < 0 {
        lemma_nearest_exists(-down, 1);
        lemma_signed(true, rounded(-down, 1));
    }
}

} // verus!
