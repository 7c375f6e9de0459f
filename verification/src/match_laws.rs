//! Where a search for a match starts, whom it reaches, and whom it takes.

use crate::arithmetic_laws::{
    distance, law_arithmetic_on_whole_numbers, law_sums_are_nearest,
};
use crate::bounds::{lemma_signed, lemma_sum_order, lemma_whole, lemma_whole_is_exact};
use crate::clock::{law_seconds_are_reached_in_time, lemma_seconds, seconds};
use crate::metrics::minus;
use crate::model::MatchmakerView;
use crate::rating::{kept, max_rating, zero_rating, OrdF64};
use crate::rounding::{
    lemma_rounding_keeps_order, lemma_rounds_at_least, lemma_rounds_at_most,
    lemma_units_is_units_at, lemma_units_of_zero, lemma_units_order,
};
use crate::shortlist::MATCH_SIZE;
use vstd::arithmetic::power2::{lemma_pow2_pos, pow2};
use vstd::prelude::*;
use vstd::set_lib::{lemma_len_subset, lemma_set_disjoint_lens};

verus! {

/// Ratings that lie no farther apart than the window, counted exactly, are in
/// reach of each other.
proof fn lemma_in_reach(rating: OrdF64, median: OrdF64, window: OrdF64)
    requires
        kept(rating),
        kept(median),
        !window.nan(),
        !window.below(zero_rating()),
        window.finite() ==> distance(rating.units(), median.units()) <= window.units(),
    ensures
        median.minus(window).larger(zero_rating()).rank() <= rating.rank(),
        rating.rank() <= median.plus(window).smaller(max_rating()).rank(),
{
    let (low, high) = (median.minus(window), median.plus(window));
    lemma_units_of_zero();
    lemma_units_order(median, zero_rating());
    lemma_units_order(rating, zero_rating());
    lemma_units_is_units_at(rating);
    lemma_signed(!window.negative(), window.magnitude());
    if window.finite() {
        let (down, up) = (median.units() - window.units(), median.units() + window.units());
        lemma_units_order(window, zero_rating());
        law_sums_are_nearest(median, window);
        lemma_signed(false, 0);
        lemma_rounds_at_least(up, 1, high.magnitude(), rating.magnitude());
        if down >= 0 {
            lemma_rounds_at_most(down, 1, low.magnitude(), rating.magnitude());
        }
    }
}

impl MatchmakerView {
    /// A search starts from the player who joined first, of equals the one with
    /// the lowest id: from that player's region and wait, and from a rating that
    /// splits the players of that region and bracket in half. At most half of
    /// them are rated lower, and fewer than half are rated higher.
    pub proof fn law_search_starts_in_the_middle(
        self,
        now: u64,
        region: Seq<char>,
        median: OrdF64,
        wait: OrdF64,
        first: u64,
        mates: Set<u64>,
        lower: Set<u64>,
        higher: Set<u64>,
    )
        requires
            self.sound(),
            self.queue.contains_key(first),
            forall|id: u64| #[trigger]
                self.queue.contains_key(id) && id != first ==> self.queue[first].join_timestamp
                    < self.queue[id].join_timestamp || (self.queue[first].join_timestamp
                    == self.queue[id].join_timestamp && first < id),
            forall|id: u64| #[trigger]
                mates.contains(id) <==> self.queue.contains_key(id) && self.queue[id].region
                    == self.queue[first].region && self.queue[id].skill_rating.bracket()
                    == self.queue[first].skill_rating.bracket(),
            forall|id: u64| #[trigger]
                lower.contains(id) <==> mates.contains(id) && self.queue[id].skill_rating.value()
                    < median.value(),
            forall|id: u64| #[trigger]
                higher.contains(id) <==> mates.contains(id) && self.queue[id].skill_rating.value()
                    > median.value(),
        ensures
            self.is_pivot(now, region, median, wait) <==> {
                &&& region == self.queue[first].region
                &&& wait == seconds(
                    if now < self.queue[first].join_timestamp {
                        0
                    } else {
                        (now - self.queue[first].join_timestamp) as u64
                    },
                )
                &&& kept(median)
                &&& 2 * lower.len() <= mates.len()
                &&& 2 * higher.len() < mates.len()
            },
    {
        let bracket = self.queue[first].skill_rating.bracket();
        let home = self.queue[first].region;
        let group = self.bucket(bracket, home);
        let low = group.filter(|id: u64| self.queue[id].skill_rating.rank() < median.rank());
        let most = group.filter(|id: u64| self.queue[id].skill_rating.rank() <= median.rank());
        assert(self.longest_waiting(first));
        assert forall|id: u64| #[trigger] self.longest_waiting(id) implies id == first by {
            self.law_longest_waiting_is_unique(id, first);
        }
        assert(group =~= mates);
        lemma_len_subset(mates, self.queue.dom());
        if self.is_median(group, median) {
            self.law_median_is_a_rating(group, median);
            let id = choose|id: u64| #[trigger]
                group.contains(id) && self.queue[id].skill_rating == median;
            assert(self.queue.contains_key(id));
        }
        if kept(median) {
            assert forall|id: u64| #[trigger] mates.contains(id) implies (
            self.queue[id].skill_rating.rank() < median.rank()
                <==> self.queue[id].skill_rating.value() < median.value()) && (
            self.queue[id].skill_rating.rank() <= median.rank()
                <==> self.queue[id].skill_rating.value() <= median.value()) by {
                assert(self.queue.contains_key(id));
                lemma_kept_order(self.queue[id].skill_rating, median);
            }
            assert(low =~= lower);
            assert(most.union(higher) =~= mates);
            assert(most.disjoint(higher));
            lemma_len_subset(most, mates);
            lemma_len_subset(higher, mates);
            lemma_set_disjoint_lens(most, higher);
        }
    }

    /// Every queue that is not empty has a player from whom a search starts.
    pub proof fn law_somebody_has_waited_longest(self) -> (first: u64)
        requires
            self.queue.dom().finite(),
            !self.queue.is_empty(),
        ensures
            self.queue.contains_key(first),
            forall|id: u64| #[trigger]
                self.queue.contains_key(id) && id != first ==> self.queue[first].join_timestamp
                    < self.queue[id].join_timestamp || (self.queue[first].join_timestamp
                    == self.queue[id].join_timestamp && first < id),
    {
        let some = choose|id: u64| #[trigger] self.queue.dom().contains(id);
        assert(self.queue.dom().contains(some)) by {
            if forall|id: u64| !(#[trigger] self.queue.dom().contains(id)) {
                assert(self.queue =~= Map::empty());
            }
        }
        self.lemma_first_of(self.queue.dom(), some)
    }

    proof fn lemma_first_of(self, group: Set<u64>, some: u64) -> (first: u64)
        requires
            group.finite(),
            group.contains(some),
        ensures
            group.contains(first),
            forall|id: u64| #[trigger]
                group.contains(id) && id != first ==> self.queue[first].join_timestamp
                    < self.queue[id].join_timestamp || (self.queue[first].join_timestamp
                    == self.queue[id].join_timestamp && first < id),
        decreases group.len(),
    {
        let rest = group.remove(some);
        if forall|id: u64| !(#[trigger] rest.contains(id)) {
            assert forall|id: u64| #[trigger] group.contains(id) implies id == some by {
                assert(!rest.contains(id));
            }
            some
        } else {
            let other = choose|id: u64| #[trigger] rest.contains(id);
            let next = self.lemma_first_of(rest, other);
            assert(rest.contains(next));
            let better = self.queue[next].join_timestamp < self.queue[some].join_timestamp || (
            self.queue[next].join_timestamp == self.queue[some].join_timestamp && next < some);
            let first = if better {
                next
            } else {
                some
            };
            assert forall|id: u64| #[trigger] group.contains(id) && id != first implies
                self.queue[first].join_timestamp < self.queue[id].join_timestamp || (
            self.queue[first].join_timestamp == self.queue[id].join_timestamp && first < id) by {
                if id != some {
                    assert(rest.contains(id));
                }
            }
            first
        }
    }

    /// Whoever is of the region, or of any region where the search crosses
    /// regions, and no farther from the rating than the window, is in reach.
    /// Whoever is in reach is of such a region, and not outside of the window as
    /// it is computed.
    pub proof fn law_reach_goes_by_region_and_window(
        self,
        region: Seq<char>,
        median: OrdF64,
        window: OrdF64,
        cross_region: bool,
        id: u64,
    )
        requires
            self.sound(),
            kept(median),
            !window.nan(),
            !window.below(zero_rating()),
        ensures
            ({
                let reached = self.eligible(region, median, window, cross_region).contains(id);
                let (player, open) = (
                    self.queue[id],
                    cross_region || self.queue[id].region == region,
                );
                &&& self.queue.contains_key(id) && open && (window.finite() ==> distance(
                    player.skill_rating.units(),
                    median.units(),
                ) <= window.units()) ==> reached
                &&& reached ==> {
                    &&& self.queue.contains_key(id)
                    &&& open
                    &&& !player.skill_rating.below(median.minus(window))
                    &&& !median.plus(window).below(player.skill_rating)
                }
                &&& self.queue.contains_key(id) && open && !player.skill_rating.below(
                    median.minus(window),
                ) && !median.plus(window).below(player.skill_rating) ==> reached
            }),
    {
        let rating = self.queue[id].skill_rating;
        if self.queue.contains_key(id) {
            if window.finite() ==> distance(rating.units(), median.units()) <= window.units() {
                lemma_in_reach(rating, median, window);
            }
            lemma_bounds_are_numbers(median, window);
        }
    }

    /// On whole numbers the window reaches exactly the ratings that are no
    /// farther away than it is wide.
    pub proof fn law_reach_on_whole_numbers(
        self,
        region: Seq<char>,
        median: nat,
        window: nat,
        cross_region: bool,
        id: u64,
        rating: nat,
    )
        requires
            self.sound(),
            self.queue.contains_key(id),
            self.queue[id].skill_rating == OrdF64::whole(rating),
            rating <= 3000,
            median <= 3000,
            window <= 1_000_000_000,
            kept(OrdF64::whole(median)),
        ensures
            self.eligible(
                region,
                OrdF64::whole(median),
                OrdF64::whole(window),
                cross_region,
            ).contains(id) <==> (cross_region || self.queue[id].region == region) && distance(
                rating as int,
                median as int,
            ) <= window,
    {
        let (m, w, q) = (OrdF64::whole(median), OrdF64::whole(window), OrdF64::whole(rating));
        let one = pow2(1074) as int;
        lemma_pow2_pos(1074);
        lemma_whole(median);
        lemma_whole(window);
        lemma_whole(rating);
        lemma_whole_is_exact(median);
        lemma_whole_is_exact(window);
        lemma_whole_is_exact(rating);
        law_arithmetic_on_whole_numbers(median, window);
        law_arithmetic_on_whole_numbers(median + window, rating);
        if window <= median {
            law_arithmetic_on_whole_numbers(rating, (median - window) as nat);
        }
        if distance(rating as int, median as int) <= window {
            assert(distance(rating * one, median * one) <= window * one) by (nonlinear_arith)
                requires
                    distance(rating as int, median as int) <= window,
                    one > 0,
            ;
        }
        self.law_reach_goes_by_region_and_window(region, m, w, cross_region, id);
    }

    /// A wider window reaches everybody that a narrower one reaches, and to
    /// cross regions takes nobody out of reach.
    pub proof fn law_wider_windows_reach_more(
        self,
        region: Seq<char>,
        median: OrdF64,
        narrow: OrdF64,
        wide: OrdF64,
        cross_region: bool,
    )
        requires
            self.sound(),
            kept(median),
            narrow.finite(),
            wide.finite(),
            !narrow.below(zero_rating()),
            !wide.below(narrow),
        ensures
            self.eligible(region, median, narrow, cross_region).subset_of(
                self.eligible(region, median, wide, cross_region),
            ),
            self.eligible(region, median, narrow, cross_region).subset_of(
                self.eligible(region, median, narrow, true),
            ),
    {
        assert forall|id: u64| #[trigger]
            self.eligible(region, median, narrow, cross_region).contains(id) implies self.eligible(
            region,
            median,
            wide,
            cross_region,
        ).contains(id) by {
            self.law_reach_goes_by_region_and_window(region, median, narrow, cross_region, id);
            lemma_wider_bounds(median, narrow, wide);
            lemma_bounds_are_numbers(median, narrow);
            lemma_bounds_are_numbers(median, wide);
            self.law_reach_goes_by_region_and_window(region, median, wide, cross_region, id);
        }
    }

    /// The rating from which a search starts is one that the queue keeps, and
    /// the wait is a finite time.
    proof fn lemma_pivot(self, now: u64, region: Seq<char>, median: OrdF64, wait: OrdF64)
        requires
            self.sound(),
            self.is_pivot(now, region, median, wait),
        ensures
            kept(median),
            wait.finite(),
            !wait.negative(),
            self.config.grown(wait).finite(),
            !self.config.grown(wait).below(zero_rating()),
    {
        let first = choose|first: u64|
            {
                &&& #[trigger] self.longest_waiting(first)
                &&& region == self.queue[first].region
                &&& wait == seconds(minus(now, self.queue[first].join_timestamp))
                &&& self.is_median(
                    self.bucket(self.queue[first].skill_rating.bracket(), region),
                    median,
                )
            };
        let group = self.bucket(self.queue[first].skill_rating.bracket(), region);
        self.law_median_is_a_rating(group, median);
        let id = choose|id: u64| #[trigger]
            group.contains(id) && self.queue[id].skill_rating == median;
        assert(self.queue.contains_key(id));
        lemma_seconds(minus(now, self.queue[first].join_timestamp));
        self.config.law_window_is_capped(wait);
    }

    /// Whoever the first window reaches can be matched, and so can whoever the
    /// grown window reaches where the first one holds fewer than ten.
    proof fn lemma_pool_reaches(
        self,
        now: u64,
        region: Seq<char>,
        median: OrdF64,
        wait: OrdF64,
    )
        requires
            self.sound(),
            self.is_pivot(now, region, median, wait),
        ensures
            ({
                let cross = self.config.crosses_regions(wait);
                let base = self.eligible(region, median, self.config.base_window, cross);
                let grown = self.eligible(region, median, self.config.grown(wait), cross);
                let pool = self.pool(region, median, wait);
                &&& base.finite() && grown.finite() && pool.finite()
                &&& base.subset_of(pool)
                &&& base.len() < 10 ==> grown.subset_of(pool)
                &&& pool == base || (pool == grown && base.len() < 10)
                &&& base.len() >= 10 ==> pool == base
            }),
    {
        let cross = self.config.crosses_regions(wait);
        let (first, last) = (self.config.base_window, self.config.grown(wait));
        let base = self.eligible(region, median, first, cross);
        let grown = self.eligible(region, median, last, cross);
        self.lemma_pivot(now, region, median, wait);
        if first.below(last) {
            self.law_wider_windows_reach_more(region, median, first, last, cross);
        } else {
            self.law_wider_windows_reach_more(region, median, last, first, cross);
        }
        assert(base.subset_of(self.queue.dom()) && grown.subset_of(self.queue.dom()));
        lemma_len_subset(base, self.queue.dom());
        lemma_len_subset(grown, self.queue.dom());
    }

    /// A match is formed whenever ten queued players lie within the grown window
    /// around the rating from which the search starts, or within the first one:
    /// players of that region, and of any region once the longest wait has
    /// reached the setting.
    pub proof fn law_match_is_formed_whenever_ten_are_in_reach(
        self,
        now: u64,
        region: Seq<char>,
        median: OrdF64,
        wait_ns: u64,
        group: Set<u64>,
    )
        requires
            self.sound(),
            self.is_pivot(now, region, median, seconds(wait_ns)),
            group.len() >= 10,
            forall|id: u64| #[trigger]
                group.contains(id) ==> {
                    &&& self.queue.contains_key(id)
                    &&& self.queue[id].region == region || self.config.cross_region_wait_secs
                        * 1_000_000_000 <= wait_ns
                    &&& distance(self.queue[id].skill_rating.units(), median.units())
                        <= self.config.grown(seconds(wait_ns)).units() || distance(
                        self.queue[id].skill_rating.units(),
                        median.units(),
                    ) <= self.config.base_window.units()
                },
        ensures
            self.can_match(now),
    {
        let wait = seconds(wait_ns);
        let cross = self.config.crosses_regions(wait);
        let pool = self.pool(region, median, wait);
        law_seconds_are_reached_in_time(wait_ns, self.config.cross_region_wait_secs);
        self.lemma_pivot(now, region, median, wait);
        self.lemma_pool_reaches(now, region, median, wait);
        assert forall|id: u64| #[trigger] group.contains(id) implies self.eligible(
            region,
            median,
            self.config.base_window,
            cross,
        ).contains(id) || self.eligible(region, median, self.config.grown(wait), cross).contains(
            id,
        ) by {
            self.law_reach_goes_by_region_and_window(
                region,
                median,
                self.config.base_window,
                cross,
                id,
            );
            self.law_reach_goes_by_region_and_window(
                region,
                median,
                self.config.grown(wait),
                cross,
                id,
            );
        }
        let base = self.eligible(region, median, self.config.base_window, cross);
        if base.len() < 10 {
            assert(group.subset_of(pool));
            lemma_len_subset(group, pool);
        }
    }

    /// A match is formed for the player who joined first, of equals the one with
    /// the lowest id, whenever ten queued players lie within the first window or
    /// within the grown one around a rating that splits that player's bracket and
    /// region in half: players of the same region, and of any region once that
    /// player has waited for as long as the setting says.
    pub proof fn law_match_is_formed_for_the_longest_wait(
        self,
        now: u64,
        first: u64,
        median: OrdF64,
        mates: Set<u64>,
        lower: Set<u64>,
        higher: Set<u64>,
        wait_ns: u64,
        group: Set<u64>,
    )
        requires
            self.sound(),
            self.queue.contains_key(first),
            forall|id: u64| #[trigger]
                self.queue.contains_key(id) && id != first ==> self.queue[first].join_timestamp
                    < self.queue[id].join_timestamp || (self.queue[first].join_timestamp
                    == self.queue[id].join_timestamp && first < id),
            kept(median),
            forall|id: u64| #[trigger]
                mates.contains(id) <==> self.queue.contains_key(id) && self.queue[id].region
                    == self.queue[first].region && self.queue[id].skill_rating.bracket()
                    == self.queue[first].skill_rating.bracket(),
            forall|id: u64| #[trigger]
                lower.contains(id) <==> mates.contains(id) && self.queue[id].skill_rating.value()
                    < median.value(),
            forall|id: u64| #[trigger]
                higher.contains(id) <==> mates.contains(id) && self.queue[id].skill_rating.value()
                    > median.value(),
            2 * lower.len() <= mates.len(),
            2 * higher.len() < mates.len(),
            self.queue[first].join_timestamp <= now,
            wait_ns == now - self.queue[first].join_timestamp,
            group.len() >= 10,
            forall|id: u64| #[trigger]
                group.contains(id) ==> {
                    &&& self.queue.contains_key(id)
                    &&& self.queue[id].region == self.queue[first].region
                        || self.config.cross_region_wait_secs * 1_000_000_000 <= wait_ns
                    &&& distance(self.queue[id].skill_rating.units(), median.units())
                        <= self.config.grown(seconds(wait_ns)).units() || distance(
                        self.queue[id].skill_rating.units(),
                        median.units(),
                    ) <= self.config.base_window.units()
                },
        ensures
            self.can_match(now),
    {
        let region = self.queue[first].region;
        self.law_search_starts_in_the_middle(
            now,
            region,
            median,
            seconds(wait_ns),
            first,
            mates,
            lower,
            higher,
        );
        self.law_match_is_formed_whenever_ten_are_in_reach(now, region, median, wait_ns, group);
    }

    /// No match is formed otherwise: where one can be, ten queued players of the
    /// region, or of any region once the longest wait has reached the setting,
    /// lie within the first window or within the grown one, as they are computed.
    pub proof fn law_match_needs_ten_in_reach(
        self,
        now: u64,
        region: Seq<char>,
        median: OrdF64,
        wait_ns: u64,
    ) -> (reached: (OrdF64, Set<u64>))
        requires
            self.sound(),
            self.is_pivot(now, region, median, seconds(wait_ns)),
            self.can_match(now),
        ensures
            ({
                let (window, group) = reached;
                &&& window == self.config.base_window || window == self.config.grown(
                    seconds(wait_ns),
                )
                &&& group.finite()
                &&& group.len() >= 10
                &&& forall|id: u64| #[trigger]
                    group.contains(id) ==> {
                        &&& self.queue.contains_key(id)
                        &&& self.queue[id].region == region || self.config.crosses_regions(
                            seconds(wait_ns),
                        )
                        &&& self.config.cross_region_wait_secs <= 4_000_000 ==> (
                        self.queue[id].region == region || self.config.cross_region_wait_secs
                            * 1_000_000_000 <= wait_ns)
                        &&& !self.queue[id].skill_rating.below(median.minus(window))
                        &&& !median.plus(window).below(self.queue[id].skill_rating)
                    }
            }),
    {
        let wait = seconds(wait_ns);
        let cross = self.config.crosses_regions(wait);
        let pool = self.pool(region, median, wait);
        law_seconds_are_reached_in_time(wait_ns, self.config.cross_region_wait_secs);
        let (r, m, w) = choose|r: Seq<char>, m: OrdF64, w: OrdF64|
            {
                &&& #[trigger] self.is_pivot(now, r, m, w)
                &&& self.pool(r, m, w).len() >= MATCH_SIZE
            };
        self.lemma_pivot_is_unique(now, r, m, w, region, median, wait);
        self.lemma_pivot(now, region, median, wait);
        self.lemma_pool_reaches(now, region, median, wait);
        let window = if pool == self.eligible(region, median, self.config.base_window, cross) {
            self.config.base_window
        } else {
            self.config.grown(wait)
        };
        assert forall|id: u64| #[trigger] pool.contains(id) implies self.queue.contains_key(id) && (
        self.queue[id].region == region || cross) && !self.queue[id].skill_rating.below(
            median.minus(window),
        ) && !median.plus(window).below(self.queue[id].skill_rating) by {
            self.law_reach_goes_by_region_and_window(region, median, window, cross, id);
        }
        (window, pool)
    }

    /// Whom a match takes: ten players, the longest wait first and of equal waits
    /// the lowest id, all of them of the region, or of any region once the
    /// longest wait has reached the setting, and within the first window or the
    /// grown one, as they are computed.
    pub proof fn law_match_takes_players_in_reach(
        self,
        now: u64,
        region: Seq<char>,
        median: OrdF64,
        wait_ns: u64,
        ids: Seq<u64>,
    ) -> (window: OrdF64)
        requires
            self.sound(),
            self.is_pivot(now, region, median, seconds(wait_ns)),
            self.is_match(now, ids),
        ensures
            window == self.config.base_window || window == self.config.grown(seconds(wait_ns)),
            ids.len() == 10,
            forall|i: int, j: int|
                0 <= i < j < 10 ==> self.queue[#[trigger] ids[i]].join_timestamp
                    < self.queue[#[trigger] ids[j]].join_timestamp || (
                self.queue[ids[i]].join_timestamp == self.queue[ids[j]].join_timestamp && ids[i]
                    < ids[j]),
            forall|i: int|
                0 <= i < 10 ==> {
                    &&& self.queue.contains_key(#[trigger] ids[i])
                    &&& self.queue[ids[i]].region == region || self.config.crosses_regions(
                        seconds(wait_ns),
                    )
                    &&& self.config.cross_region_wait_secs <= 4_000_000 ==> (
                    self.queue[ids[i]].region == region || self.config.cross_region_wait_secs
                        * 1_000_000_000 <= wait_ns)
                    &&& !self.queue[ids[i]].skill_rating.below(median.minus(window))
                    &&& !median.plus(window).below(self.queue[ids[i]].skill_rating)
                },
    {
        let wait = seconds(wait_ns);
        let cross = self.config.crosses_regions(wait);
        let pool = self.pool(region, median, wait);
        law_seconds_are_reached_in_time(wait_ns, self.config.cross_region_wait_secs);
        self.lemma_match_is_of_the_pool(now, region, median, wait, ids);
        self.lemma_pivot(now, region, median, wait);
        self.lemma_pool_reaches(now, region, median, wait);
        let window = if pool == self.eligible(region, median, self.config.base_window, cross) {
            self.config.base_window
        } else {
            self.config.grown(wait)
        };
        assert forall|i: int| 0 <= i < 10 implies self.queue.contains_key(#[trigger] ids[i]) && (
        self.queue[ids[i]].region == region || cross) && !self.queue[ids[i]].skill_rating.below(
            median.minus(window),
        ) && !median.plus(window).below(self.queue[ids[i]].skill_rating) by {
            assert(pool.contains(ids[i]));
            self.law_reach_goes_by_region_and_window(region, median, window, cross, ids[i]);
        }
        assert forall|i: int, j: int| 0 <= i < j < 10 implies self.queue[#[trigger] ids[i]].join_timestamp
            < self.queue[#[trigger] ids[j]].join_timestamp || (self.queue[ids[i]].join_timestamp
            == self.queue[ids[j]].join_timestamp && ids[i] < ids[j]) by {
            assert(self.waited_longer(ids[i], ids[j]));
        }
        window
    }

    proof fn lemma_match_is_of_the_pool(
        self,
        now: u64,
        region: Seq<char>,
        median: OrdF64,
        wait: OrdF64,
        ids: Seq<u64>,
    )
        requires
            self.sound(),
            self.is_pivot(now, region, median, wait),
            self.is_match(now, ids),
        ensures
            self.picks(self.pool(region, median, wait), ids),
            ids.len() == 10,
    {
        let (r, m, w) = choose|r: Seq<char>, m: OrdF64, w: OrdF64|
            {
                &&& #[trigger] self.is_pivot(now, r, m, w)
                &&& self.picks(self.pool(r, m, w), ids)
                &&& ids.len() == MATCH_SIZE
            };
        self.lemma_pivot_is_unique(now, r, m, w, region, median, wait);
    }

    /// Who can be matched: everybody within the first window, and everybody
    /// within the grown one where fewer than ten lie within the first; of the
    /// region, and of every region once the longest wait has reached the
    /// setting. The window may have grown or not: it takes no region and nobody
    /// within the first window out of reach.
    pub proof fn law_growing_takes_nobody_out_of_reach(
        self,
        now: u64,
        region: Seq<char>,
        median: OrdF64,
        wait_ns: u64,
        close: Set<u64>,
        id: u64,
    )
        requires
            self.sound(),
            self.is_pivot(now, region, median, seconds(wait_ns)),
            self.queue.contains_key(id),
            self.queue[id].region == region || self.config.cross_region_wait_secs * 1_000_000_000
                <= wait_ns,
            distance(self.queue[id].skill_rating.units(), median.units())
                <= self.config.base_window.units() || {
                &&& distance(self.queue[id].skill_rating.units(), median.units())
                    <= self.config.grown(seconds(wait_ns)).units()
                &&& close.finite()
                &&& close.len() < 10
                &&& forall|other: u64| #[trigger]
                    self.queue.contains_key(other) && (self.queue[other].region == region
                        || self.config.crosses_regions(seconds(wait_ns)))
                        && !self.queue[other].skill_rating.below(
                        median.minus(self.config.base_window),
                    ) && !median.plus(self.config.base_window).below(self.queue[other].skill_rating)
                        ==> close.contains(other)
            },
        ensures
            self.pool(region, median, seconds(wait_ns)).contains(id),
    {
        let wait = seconds(wait_ns);
        let cross = self.config.crosses_regions(wait);
        let base = self.eligible(region, median, self.config.base_window, cross);
        law_seconds_are_reached_in_time(wait_ns, self.config.cross_region_wait_secs);
        self.lemma_pivot(now, region, median, wait);
        self.lemma_pool_reaches(now, region, median, wait);
        self.law_reach_goes_by_region_and_window(region, median, self.config.base_window, cross, id);
        self.law_reach_goes_by_region_and_window(
            region,
            median,
            self.config.grown(wait),
            cross,
            id,
        );
        if !base.contains(id) {
            assert forall|other: u64| #[trigger] base.contains(other) implies close.contains(
                other,
            ) by {
                self.law_reach_goes_by_region_and_window(
                    region,
                    median,
                    self.config.base_window,
                    cross,
                    other,
                );
                assert(self.queue.contains_key(other));
            }
            lemma_len_subset(base, close);
        }
    }

    /// Nobody is passed over: whoever could have been matched and was not joined
    /// after all ten, or at the same instant as the last of them under a higher
    /// id. Within the first window everybody could have been matched, and within
    /// the grown one where fewer than ten lie within the first.
    pub proof fn law_match_passes_nobody_over(
        self,
        now: u64,
        region: Seq<char>,
        median: OrdF64,
        wait_ns: u64,
        ids: Seq<u64>,
        close: Set<u64>,
        id: u64,
    )
        requires
            self.sound(),
            self.is_pivot(now, region, median, seconds(wait_ns)),
            self.is_match(now, ids),
            self.queue.contains_key(id),
            self.queue[id].region == region || self.config.cross_region_wait_secs * 1_000_000_000
                <= wait_ns,
            distance(self.queue[id].skill_rating.units(), median.units())
                <= self.config.base_window.units() || {
                &&& distance(self.queue[id].skill_rating.units(), median.units())
                    <= self.config.grown(seconds(wait_ns)).units()
                &&& close.finite()
                &&& close.len() < 10
                &&& forall|other: u64| #[trigger]
                    self.queue.contains_key(other) && (self.queue[other].region == region
                        || self.config.crosses_regions(seconds(wait_ns)))
                        && !self.queue[other].skill_rating.below(
                        median.minus(self.config.base_window),
                    ) && !median.plus(self.config.base_window).below(self.queue[other].skill_rating)
                        ==> close.contains(other)
            },
            !ids.contains(id),
        ensures
            self.queue[ids[9]].join_timestamp < self.queue[id].join_timestamp || (
            self.queue[ids[9]].join_timestamp == self.queue[id].join_timestamp && ids[9] < id),
    {
        let wait = seconds(wait_ns);
        self.lemma_match_is_of_the_pool(now, region, median, wait, ids);
        self.law_growing_takes_nobody_out_of_reach(now, region, median, wait_ns, close, id);
        assert(self.waited_longer(ids.last(), id));
    }

    /// The window does not grow where it need not: where ten players lie within
    /// the first window, all ten of a match do.
    pub proof fn law_close_matches_come_first(
        self,
        now: u64,
        region: Seq<char>,
        median: OrdF64,
        wait_ns: u64,
        ids: Seq<u64>,
        close: Set<u64>,
        i: int,
    )
        requires
            self.sound(),
            self.is_pivot(now, region, median, seconds(wait_ns)),
            self.is_match(now, ids),
            close.len() >= 10,
            forall|id: u64| #[trigger]
                close.contains(id) ==> {
                    &&& self.queue.contains_key(id)
                    &&& self.queue[id].region == region || self.config.cross_region_wait_secs
                        * 1_000_000_000 <= wait_ns
                    &&& distance(self.queue[id].skill_rating.units(), median.units())
                        <= self.config.base_window.units()
                },
            0 <= i < 10,
        ensures
            !self.queue[ids[i]].skill_rating.below(median.minus(self.config.base_window)),
            !median.plus(self.config.base_window).below(self.queue[ids[i]].skill_rating),
    {
        let wait = seconds(wait_ns);
        let cross = self.config.crosses_regions(wait);
        let base = self.eligible(region, median, self.config.base_window, cross);
        law_seconds_are_reached_in_time(wait_ns, self.config.cross_region_wait_secs);
        self.lemma_match_is_of_the_pool(now, region, median, wait, ids);
        self.lemma_pivot(now, region, median, wait);
        self.lemma_pool_reaches(now, region, median, wait);
        assert forall|id: u64| #[trigger] close.contains(id) implies base.contains(id) by {
            self.law_reach_goes_by_region_and_window(
                region,
                median,
                self.config.base_window,
                cross,
                id,
            );
        }
        lemma_len_subset(close, base);
        assert(base.contains(ids[i]));
        self.law_reach_goes_by_region_and_window(
            region,
            median,
            self.config.base_window,
            cross,
            ids[i],
        );
    }

    /// Whom a search returns: at most ten players in reach, the longest wait
    /// first and of equal waits the lowest id. Whoever is in reach and is not
    /// among them comes after ten of them.
    pub proof fn law_candidates_have_waited_longest(
        self,
        group: Set<u64>,
        ids: Seq<u64>,
        id: u64,
    )
        requires
            self.picks(group, ids),
            group.contains(id),
        ensures
            ids.len() == if group.len() < 10 {
                group.len()
            } else {
                10
            },
            forall|i: int, j: int|
                0 <= i < j < ids.len() ==> self.queue[#[trigger] ids[i]].join_timestamp
                    < self.queue[#[trigger] ids[j]].join_timestamp || (
                self.queue[ids[i]].join_timestamp == self.queue[ids[j]].join_timestamp && ids[i]
                    < ids[j]),
            forall|i: int| 0 <= i < ids.len() ==> group.contains(#[trigger] ids[i]),
            !ids.contains(id) ==> ids.len() == 10 && (self.queue[ids[9]].join_timestamp
                < self.queue[id].join_timestamp || (self.queue[ids[9]].join_timestamp
                == self.queue[id].join_timestamp && ids[9] < id)),
    {
        assert forall|i: int, j: int| 0 <= i < j < ids.len() implies self.queue[#[trigger] ids[i]].join_timestamp
            < self.queue[#[trigger] ids[j]].join_timestamp || (self.queue[ids[i]].join_timestamp
            == self.queue[ids[j]].join_timestamp && ids[i] < ids[j]) by {
            assert(self.waited_longer(ids[i], ids[j]));
        }
    }
}

/// The total order of ratings that the queue keeps is that of their values.
proof fn lemma_kept_order(a: OrdF64, b: OrdF64)
    requires
        kept(a),
        kept(b),
    ensures
        a.rank() < b.rank() <==> a.value() < b.value(),
        a.rank() <= b.rank() <==> a.value() <= b.value(),
{
    lemma_units_order(a, b);
}

/// The bounds of a window are numbers.
proof fn lemma_bounds_are_numbers(median: OrdF64, window: OrdF64)
    requires
        kept(median),
        !window.nan(),
        !window.below(zero_rating()),
    ensures
        !median.minus(window).nan(),
        !median.plus(window).nan(),
        !median.plus(window).negative(),
{
    lemma_signed(!window.negative(), window.magnitude());
    if window.finite() {
        lemma_signed(false, 0);
        lemma_units_of_zero();
        lemma_units_order(window, zero_rating());
        lemma_units_order(median, zero_rating());
        law_sums_are_nearest(median, window);
    }
}

/// The bounds of a wider window lie farther out.
proof fn lemma_wider_bounds(median: OrdF64, narrow: OrdF64, wide: OrdF64)
    requires
        kept(median),
        narrow.finite(),
        wide.finite(),
        !narrow.below(zero_rating()),
        !wide.below(narrow),
    ensures
        median.plus(narrow).order() <= median.plus(wide).order(),
        median.minus(wide).order() <= median.minus(narrow).order(),
{
    lemma_units_of_zero();
    lemma_units_order(median, zero_rating());
    lemma_units_order(narrow, zero_rating());
    lemma_units_order(wide, zero_rating());
    lemma_units_order(narrow, wide);
    lemma_sum_order(median, narrow);
    lemma_sum_order(median, wide);
    law_sums_are_nearest(median, narrow);
    law_sums_are_nearest(median, wide);
    let (m, n, w) = (median.units(), narrow.units(), wide.units());
    lemma_rounding_keeps_order(
        m + n,
        1,
        median.plus(narrow).order(),
        m + w,
        1,
        median.plus(wide).order(),
    );
    let (a, b) = (median.minus(wide).magnitude(), median.minus(narrow).magnitude());
    if m - w >= 0 {
        lemma_rounding_keeps_order(m - w, 1, a, m - n, 1, b);
        lemma_signed(false, 0);
        lemma_signed(!wide.negative(), wide.magnitude());
        lemma_signed(!narrow.negative(), narrow.magnitude());
    } else if m - n < 0 {
        lemma_rounding_keeps_order(n - m, 1, b, w - m, 1, a);
    }
}

} // verus!
