//! Splitting the players of a match into two teams.

use crate::bounds::{
    lemma_difference_shrinks, lemma_one, lemma_quotient_order, lemma_quotient_shrinks,
    lemma_rest_of_one, lemma_signed, lemma_sum_bound, lemma_whole,
};
use crate::player::Player;
use crate::rating::{in_range, lemma_units_grow, zero_rating, OrdF64, HIDDEN_BIT};
use crate::rounding::{
    lemma_nearest_exists, lemma_power_units, lemma_rounded, lemma_rounding_keeps_order,
    lemma_rounds_at_least, lemma_units_of_zero, lemma_zero, rounded, units_at,
};
use crate::shortlist::MATCH_SIZE;
use vstd::arithmetic::power2::{lemma_pow2_pos, lemma_pow2_strictly_increases, pow2};
use vstd::prelude::*;
use vstd::relations::sorted_by;
use vstd::seq_lib::{lemma_sorted_unique, to_multiset_build, to_multiset_insert};
use vstd::set_lib::{lemma_int_range, set_int_range};

verus! {

/// Whether place `a` comes before place `b` by rating. Of equal ratings the
/// first place comes first.
pub open spec fn comes_before(ratings: Seq<OrdF64>, a: usize, b: usize) -> bool {
    let (ra, rb) = (ratings[a as int].rank(), ratings[b as int].rank());
    ra < rb || (ra == rb && a < b)
}

/// Whether `order` holds the first `n` places by rating, the lowest first.
pub open spec fn ranks(order: Seq<usize>, ratings: Seq<OrdF64>, n: int) -> bool {
    &&& order.len() == n
    &&& forall|i: int| 0 <= i < n ==> #[trigger] order[i] < n
    &&& forall|i: int, j: int|
        0 <= i < j < n ==> comes_before(ratings, #[trigger] order[i], #[trigger] order[j])
}

/// The places of the first team in a ranking.
pub open spec fn snake_a(order: Seq<usize>) -> Seq<usize> {
    seq![order[0], order[3], order[5], order[7], order[9]]
}

/// The places of the second team in a ranking.
pub open spec fn snake_b(order: Seq<usize>) -> Seq<usize> {
    seq![order[1], order[2], order[4], order[6], order[8]]
}

/// Whether two teams are the snake draft of players with these ratings.
pub open spec fn drafted(ratings: Seq<OrdF64>, team_a: Seq<usize>, team_b: Seq<usize>) -> bool {
    exists|order: Seq<usize>|
        {
            &&& #[trigger] ranks(order, ratings, ratings.len() as int)
            &&& team_a == snake_a(order)
            &&& team_b == snake_b(order)
        }
}

/// The ratings of players.
pub open spec fn ratings_of(players: Seq<Player>) -> Seq<OrdF64> {
    players.map_values(|player: Player| player.skill_rating)
}

/// Players in the order of a ranking.
pub open spec fn arranged(players: Seq<Player>, order: Seq<usize>) -> Seq<Player> {
    Seq::new(order.len(), |i: int| players[order[i] as int])
}

/// Whether `sorted` are the players by rating, the lowest first. Players of
/// equal ratings stand as they stood.
pub open spec fn sorted_from(players: Seq<Player>, sorted: Seq<Player>) -> bool {
    exists|order: Seq<usize>|
        #[trigger] ranks(order, ratings_of(players), players.len() as int) && sorted == arranged(
            players,
            order,
        )
}

/// Sorts players by rating, the lowest first.
pub fn sort_players(players: &mut Vec<Player>)
    ensures
        sorted_from(old(players)@, final(players)@),
{
    let ghost first = players@;
    let ghost ratings = ratings_of(first);
    let ghost mut order: Seq<usize> = Seq::empty();
    let n: usize = players.len();
    for place in 0..n
        invariant
            n == players@.len(),
            n == first.len(),
            ratings == ratings_of(first),
            ranks(order, ratings, place as int),
            forall|i: int| 0 <= i < place ==> #[trigger] players@[i] == first[order[i] as int],
            forall|i: int| place <= i < n ==> #[trigger] players@[i] == first[i],
    {
        let key: i64 = players[place].skill_rating.key();
        let mut at: usize = place;
        assert(key == ratings[place as int].rank());
        while at > 0 && key < players[at - 1].skill_rating.key()
            invariant
                at <= place < n,
                n == players@.len(),
                n == first.len(),
                ratings == ratings_of(first),
                key == ratings[place as int].rank(),
                ranks(order, ratings, place as int),
                forall|i: int| 0 <= i < place ==> #[trigger] players@[i] == first[order[i] as int],
                forall|i: int| at <= i < place ==> comes_before(ratings, place, #[trigger] order[i]),
            decreases at,
        {
            assert(players@[at - 1] == first[order[at - 1] as int]);
            assert(order[at - 1] < place);
            at = at - 1;
        }
        let ghost before = order;
        let ghost earlier = players@;
        let player = players.remove(place);
        players.insert(at, player);
        proof {
            order = before.insert(at as int, place);
            if at > 0 {
                assert(earlier[at - 1] == first[before[at - 1] as int]);
                assert(before[at - 1] < place);
            }
            assert forall|i: int| 0 <= i < at implies comes_before(
                ratings,
                #[trigger] before[i],
                place,
            ) by {
                if i < at - 1 {
                    assert(comes_before(ratings, before[i], before[at - 1]));
                }
            }
            assert forall|i: int, j: int| 0 <= i < j < order.len() implies comes_before(
                ratings,
                #[trigger] order[i],
                #[trigger] order[j],
            ) by {
                if i != at {
                    assert(order[i] == before[if i < at { i } else { i - 1 }]);
                }
                if j != at {
                    assert(order[j] == before[if j < at { j } else { j - 1 }]);
                }
            }
            assert forall|i: int| 0 <= i < place + 1 implies #[trigger] players@[i]
                == first[order[i] as int] by {
                if i < at {
                    assert(players@[i] == earlier[i]);
                } else if i > at {
                    assert(players@[i] == earlier[i - 1]);
                }
            }
        }
    }
    assert(players@ =~= arranged(first, order));
}

/// How a match came out: the average ratings of the two teams, how far they lie
/// apart, and how good the match is, from zero to one.
#[derive(Clone, Copy, Debug, PartialEq, Eq, Structural)]
pub struct MatchResult {
    pub team_a_avg_sr: OrdF64,
    pub team_b_avg_sr: OrdF64,
    pub sr_delta: OrdF64,
    pub match_quality_score: OrdF64,
}

/// The ratings at some places, added from the first place on.
pub open spec fn added(ratings: Seq<OrdF64>, places: Seq<usize>) -> OrdF64
    decreases places.len(),
{
    if places.len() == 0 {
        zero_rating()
    } else {
        added(ratings, places.drop_last()).plus(ratings[places.last() as int])
    }
}

/// The average rating of a team of five.
pub open spec fn average_of(ratings: Seq<OrdF64>, team: Seq<usize>) -> OrdF64 {
    added(ratings, team).over(OrdF64::whole(5))
}

/// How good a match is whose teams lie so far apart: one where they are equal,
/// and zero from twice the widest window on.
pub open spec fn quality(sr_delta: OrdF64, max_window: OrdF64) -> OrdF64 {
    let one = OrdF64::whole(1);
    let spread = max_window.times(OrdF64::whole(2)).larger(one);
    one.minus(sr_delta.over(spread)).within(zero_rating(), one)
}

/// The result of a match between two teams.
pub open spec fn result_of(
    ratings: Seq<OrdF64>,
    team_a: Seq<usize>,
    team_b: Seq<usize>,
    max_window: OrdF64,
) -> MatchResult {
    let (a, b) = (average_of(ratings, team_a), average_of(ratings, team_b));
    let delta = a.minus(b).absolute();
    MatchResult {
        team_a_avg_sr: a,
        team_b_avg_sr: b,
        sr_delta: delta,
        match_quality_score: quality(delta, max_window),
    }
}

/// Whether this is the result of a match of players with these ratings.
pub open spec fn is_result(ratings: Seq<OrdF64>, max_window: OrdF64, result: MatchResult) -> bool {
    exists|team_a: Seq<usize>, team_b: Seq<usize>|
        #[trigger] drafted(ratings, team_a, team_b) && result == result_of(
            ratings,
            team_a,
            team_b,
            max_window,
        )
}

/// Whether ratings lie in the range of ratings.
pub open spec fn all_in_range(ratings: Seq<OrdF64>) -> bool {
    forall|i: int| 0 <= i < ratings.len() ==> in_range(#[trigger] ratings[i])
}

/// How large a rating is.
pub proof fn lemma_in_range(rating: OrdF64)
    requires
        in_range(rating),
    ensures
        rating.negative() ==> rating.magnitude() == 0,
        rating.units() <= pow2(1074 + 12),
{
    lemma_power_units(12);
    let top = OrdF64 { bits: ((1023 + 12) * HIDDEN_BIT) as u64 };
    lemma_units_grow(rating, top);
}

/// How large the ratings of a team add up to.
pub proof fn lemma_added(ratings: Seq<OrdF64>, places: Seq<usize>)
    requires
        all_in_range(ratings),
        forall|i: int| 0 <= i < places.len() ==> #[trigger] places[i] < ratings.len(),
        places.len() <= 5,
    ensures
        added(ratings, places).finite(),
        !added(ratings, places).negative(),
        added(ratings, places).units() <= pow2(1074 + 12 + places.len()),
    decreases places.len(),
{
    if places.len() == 0 {
        lemma_units_of_zero();
        lemma_pow2_pos(1074 + 12);
    } else {
        let rest = places.drop_last();
        let rating = ratings[places.last() as int];
        assert(places[places.len() - 1] < ratings.len());
        assert forall|i: int| 0 <= i < rest.len() implies #[trigger] rest[i] < ratings.len() by {
            assert(places[i] < ratings.len());
        }
        lemma_added(ratings, rest);
        assert(in_range(rating));
        lemma_in_range(rating);
        if rest.len() > 0 {
            lemma_pow2_strictly_increases(1074 + 12, 1074 + 12 + rest.len());
        }
        lemma_sum_bound(added(ratings, rest), rating, 12 + rest.len());
    }
}

/// How large the average rating of a team is.
pub proof fn lemma_average(ratings: Seq<OrdF64>, team: Seq<usize>)
    requires
        all_in_range(ratings),
        forall|i: int| 0 <= i < team.len() ==> #[trigger] team[i] < ratings.len(),
        team.len() == 5,
    ensures
        average_of(ratings, team).finite(),
        !average_of(ratings, team).negative(),
{
    lemma_added(ratings, team);
    lemma_whole(5);
    lemma_quotient_shrinks(added(ratings, team), OrdF64::whole(5));
}

/// The average rating of a team of five.
fn average(players: &Vec<Player>, team: &Vec<usize>) -> (average: OrdF64)
    requires
        all_in_range(ratings_of(players@)),
        forall|i: int| 0 <= i < team@.len() ==> #[trigger] team@[i] < players@.len(),
        team@.len() == 5,
    ensures
        average == average_of(ratings_of(players@), team@),
{
    let ghost ratings = ratings_of(players@);
    let mut sum = OrdF64 { bits: 0 };
    for i in 0..team.len()
        invariant
            ratings == ratings_of(players@),
            all_in_range(ratings),
            forall|j: int| 0 <= j < team@.len() ==> #[trigger] team@[j] < players@.len(),
            team@.len() == 5,
            sum == added(ratings, team@.take(i as int)),
    {
        proof {
            let places = team@.take(i as int);
            assert forall|j: int| 0 <= j < places.len() implies #[trigger] places[j]
                < ratings.len() by {
                assert(team@[j] < ratings.len());
            }
            lemma_added(ratings, places);
            assert(team@[i as int] < ratings.len());
            assert(in_range(ratings[team@[i as int] as int]));
            assert(team@.take(i + 1).drop_last() =~= places);
        }
        sum = sum.sum(players[team[i]].skill_rating);
    }
    let five = OrdF64::from_whole(5);
    proof {
        assert(team@.take(5) =~= team@);
        lemma_added(ratings, team@);
        lemma_whole(5);
    }
    sum.quotient(five)
}

/// Sorts the players of a match by rating, splits them into two teams, and
/// tells how the match came out.
pub fn compute_match_result(players: &mut Vec<Player>, max_window: OrdF64) -> (result: MatchResult)
    requires
        old(players)@.len() >= MATCH_SIZE,
        all_in_range(ratings_of(old(players)@)),
        max_window.finite(),
    ensures
        sorted_from(old(players)@, final(players)@),
        is_result(ratings_of(old(players)@), max_window, result),
        result.sr_delta.finite(),
        !result.sr_delta.negative(),
{
    let ghost first = players@;
    let ghost ratings = ratings_of(first);
    sort_players(players);
    let ghost order = choose|order: Seq<usize>|
        #[trigger] ranks(order, ratings, first.len() as int) && players@ == arranged(first, order);
    let ghost sorted = ratings_of(players@);
    proof {
        assert forall|i: int| 0 <= i < sorted.len() implies in_range(#[trigger] sorted[i]) by {
            assert(order[i] < ratings.len());
            assert(in_range(ratings[order[i] as int]));
        }
    }
    let team_a: Vec<usize> = vec![0, 3, 5, 7, 9];
    let team_b: Vec<usize> = vec![1, 2, 4, 6, 8];
    let team_a_avg_sr = average(players, &team_a);
    let team_b_avg_sr = average(players, &team_b);
    proof {
        lemma_snake(order);
        assert forall|k: int| 0 <= k < 5 implies ratings[#[trigger] snake_a(order)[k] as int]
            == sorted[team_a@[k] as int] by {
            assert(team_a@[k] == slot_a(k));
        }
        assert forall|k: int| 0 <= k < 5 implies ratings[#[trigger] snake_b(order)[k] as int]
            == sorted[team_b@[k] as int] by {
            assert(team_b@[k] == slot_b(k));
        }
        lemma_added_by_rank(ratings, sorted, snake_a(order), team_a@);
        lemma_added_by_rank(ratings, sorted, snake_b(order), team_b@);
        lemma_average(sorted, team_a@);
        lemma_average(sorted, team_b@);
        lemma_difference_shrinks(team_a_avg_sr, team_b_avg_sr);
        lemma_whole(1);
        lemma_whole(2);
    }
    let sr_delta = team_a_avg_sr.difference(team_b_avg_sr).abs();
    let one = OrdF64::from_whole(1);
    let spread = max_window.product(OrdF64::from_whole(2)).max(one);
    let match_quality_score = one.difference(sr_delta.quotient(spread)).clamp(
        OrdF64 { bits: 0 },
        one,
    );
    assert(ranks(order, ratings, ratings.len() as int));
    assert(drafted(ratings, snake_a(order), snake_b(order)));
    MatchResult { team_a_avg_sr, team_b_avg_sr, sr_delta, match_quality_score }
}

/// What comes out of a match lies where it should: the averages and their
/// distance are finite and not negative, and the quality is from zero to one.
pub proof fn law_results_are_in_range(
    ratings: Seq<OrdF64>,
    max_window: OrdF64,
    result: MatchResult,
)
    requires
        is_result(ratings, max_window, result),
        ratings.len() >= MATCH_SIZE,
        all_in_range(ratings),
        max_window.finite(),
    ensures
        result.team_a_avg_sr.finite() && !result.team_a_avg_sr.negative(),
        result.team_b_avg_sr.finite() && !result.team_b_avg_sr.negative(),
        result.sr_delta.finite() && !result.sr_delta.negative(),
        !result.match_quality_score.nan() && !result.match_quality_score.negative(),
        !OrdF64::whole(1).below(result.match_quality_score),
{
    let (team_a, team_b) = choose|team_a: Seq<usize>, team_b: Seq<usize>|
        #[trigger] drafted(ratings, team_a, team_b) && result == result_of(
            ratings,
            team_a,
            team_b,
            max_window,
        );
    let order = choose|order: Seq<usize>|
        {
            &&& #[trigger] ranks(order, ratings, ratings.len() as int)
            &&& team_a == snake_a(order)
            &&& team_b == snake_b(order)
        };
    lemma_snake(order);
    lemma_average(ratings, team_a);
    lemma_average(ratings, team_b);
    lemma_difference_shrinks(result.team_a_avg_sr, result.team_b_avg_sr);
    law_quality_is_from_zero_to_one(result.sr_delta, max_window);
}

/// A ranking holds every place.
pub proof fn lemma_ranking_is_complete(order: Seq<usize>, ratings: Seq<OrdF64>, n: int, place: usize)
    requires
        ranks(order, ratings, n),
        place < n,
    ensures
        order.contains(place),
{
    let i = lemma_place_in_ranking(order, ratings, n, place as int);
    assert(order[i] == place);
}

/// Where a place stands in a ranking.
pub proof fn lemma_place_in_ranking(
    order: Seq<usize>,
    ratings: Seq<OrdF64>,
    n: int,
    place: int,
) -> (i: int)
    requires
        ranks(order, ratings, n),
        0 <= place < n,
    ensures
        0 <= i < n,
        order[i] == place,
{
    let places = order.map_values(|p: usize| p as int);
    assert(places.no_duplicates()) by {
        assert forall|i: int, j: int| 0 <= i < j < places.len() implies places[i] != places[j] by {
            assert(comes_before(ratings, order[i], order[j]));
        }
    }
    places.unique_seq_to_set();
    lemma_int_range(0, n);
    let all = set_int_range(0, n);
    assert(places.to_set().subset_of(all)) by {
        assert forall|p: int| #[trigger] places.to_set().contains(p) implies all.contains(p) by {
            let i = choose|i: int| 0 <= i < places.len() && places[i] == p;
            assert(order[i] < n);
        }
    }
    vstd::set_lib::lemma_subset_equality(places.to_set(), all);
    assert(all.contains(place));
    let i = choose|i: int| 0 <= i < places.len() && places[i] == place;
    i
}

/// There is one ranking: a draft is the only one.
pub proof fn law_draft_is_deterministic(
    ratings: Seq<OrdF64>,
    a1: Seq<usize>,
    b1: Seq<usize>,
    a2: Seq<usize>,
    b2: Seq<usize>,
)
    requires
        drafted(ratings, a1, b1),
        drafted(ratings, a2, b2),
    ensures
        a1 == a2,
        b1 == b2,
{
    let n = ratings.len() as int;
    let p = choose|order: Seq<usize>|
        {
            &&& #[trigger] ranks(order, ratings, n)
            &&& a1 == snake_a(order)
            &&& b1 == snake_b(order)
        };
    let q = choose|order: Seq<usize>|
        {
            &&& #[trigger] ranks(order, ratings, n)
            &&& a2 == snake_a(order)
            &&& b2 == snake_b(order)
        };
    lemma_rankings_agree(p, q, ratings, n, n);
    assert(p =~= q);
}

/// Two rankings agree in their first `k` places.
proof fn lemma_rankings_agree(p: Seq<usize>, q: Seq<usize>, ratings: Seq<OrdF64>, n: int, k: int)
    requires
        ranks(p, ratings, n),
        ranks(q, ratings, n),
        0 <= k <= n,
    ensures
        forall|i: int| 0 <= i < k ==> p[i] == q[i],
    decreases k,
{
    if k > 0 {
        lemma_rankings_agree(p, q, ratings, n, k - 1);
        lemma_ranking_is_complete(q, ratings, n, p[k - 1]);
        lemma_ranking_is_complete(p, ratings, n, q[k - 1]);
        let i = choose|i: int| 0 <= i < n && q[i] == p[k - 1];
        let j = choose|j: int| 0 <= j < n && p[j] == q[k - 1];
        if i < k - 1 {
            assert(p[i] == q[i]);
            assert(comes_before(ratings, p[i], p[k - 1]));
        }
        if j < k - 1 {
            assert(q[j] == p[j]);
            assert(comes_before(ratings, q[j], q[k - 1]));
        }
        if k - 1 < i && k - 1 < j {
            assert(comes_before(ratings, q[k - 1], q[i]));
            assert(comes_before(ratings, p[k - 1], p[j]));
        }
    }
}

/// A draft of one match puts every player into exactly one team.
pub proof fn law_teams_split_the_players(
    ratings: Seq<OrdF64>,
    team_a: Seq<usize>,
    team_b: Seq<usize>,
    place: usize,
)
    requires
        drafted(ratings, team_a, team_b),
        ratings.len() == MATCH_SIZE,
        place < MATCH_SIZE,
    ensures
        team_a.len() == 5,
        team_b.len() == 5,
        team_a.contains(place) != team_b.contains(place),
        team_a.no_duplicates(),
        team_b.no_duplicates(),
{
    let order = choose|order: Seq<usize>|
        {
            &&& #[trigger] ranks(order, ratings, ratings.len() as int)
            &&& team_a == snake_a(order)
            &&& team_b == snake_b(order)
        };
    lemma_ranking_is_complete(order, ratings, 10, place);
    lemma_snake(order);
    assert forall|i: int, j: int| 0 <= i < j < 10 implies order[i] != order[j] by {
        assert(comes_before(ratings, order[i], order[j]));
    }
    let i = choose|i: int| 0 <= i < 10 && order[i] == place;
    if i == 0 {
        assert(team_a[0] == place);
    } else if i == 1 {
        assert(team_b[0] == place);
    } else if i % 2 == 1 {
        assert(team_a[i / 2] == place);
    } else {
        assert(team_b[i / 2] == place);
    }
}

/// Where the members of the first team stand in a ranking.
spec fn slot_a(k: int) -> int {
    if k == 0 {
        0
    } else {
        2 * k + 1
    }
}

/// Where the members of the second team stand in a ranking.
spec fn slot_b(k: int) -> int {
    if k == 0 {
        1
    } else {
        2 * k
    }
}

proof fn lemma_snake(order: Seq<usize>)
    ensures
        forall|k: int| 0 <= k < 5 ==> #[trigger] snake_a(order)[k] == order[slot_a(k)],
        forall|k: int| 0 <= k < 5 ==> #[trigger] snake_b(order)[k] == order[slot_b(k)],
{
}

/// The spread that the quality is measured by is one or more.
pub proof fn lemma_spread(max_window: OrdF64)
    requires
        max_window.finite(),
    ensures
        ({
            let one = OrdF64::whole(1);
            let spread = max_window.times(OrdF64::whole(2)).larger(one);
            &&& !spread.nan()
            &&& !spread.negative()
            &&& spread.magnitude() >= one.magnitude() > 0
        }),
{
    let two = OrdF64::whole(2);
    let num = max_window.units() * two.units();
    lemma_one();
    lemma_whole(1);
    lemma_whole(2);
    lemma_pow2_pos(1074);
    lemma_units_grow(zero_rating(), max_window);
    lemma_units_of_zero();
    assert(num >= 0) by (nonlinear_arith)
        requires
            num == max_window.units() * two.units(),
            max_window.units() >= 0,
            two.units() >= 0,
    ;
    lemma_nearest_exists(num, pow2(1074) as int);
    lemma_signed(max_window.negative(), rounded(num, pow2(1074) as int));
}

/// The quality of a match lies between zero and one.
pub proof fn law_quality_is_from_zero_to_one(sr_delta: OrdF64, max_window: OrdF64)
    requires
        sr_delta.finite(),
        !sr_delta.negative(),
        max_window.finite(),
    ensures
        !quality(sr_delta, max_window).nan(),
        !quality(sr_delta, max_window).negative(),
        !OrdF64::whole(1).below(quality(sr_delta, max_window)),
{
    let one = OrdF64::whole(1);
    let spread = max_window.times(OrdF64::whole(2)).larger(one);
    lemma_spread(max_window);
    lemma_one();
    if spread.finite() {
        lemma_quotient_order(sr_delta, spread);
    }
    lemma_rest_of_one(sr_delta.over(spread));
}

/// A match of equal teams has quality one.
pub proof fn law_equal_teams_have_quality_one(max_window: OrdF64)
    requires
        max_window.finite(),
    ensures
        quality(zero_rating(), max_window) == OrdF64::whole(1),
{
    let one = OrdF64::whole(1);
    let spread = max_window.times(OrdF64::whole(2)).larger(one);
    let part = zero_rating().over(spread);
    lemma_spread(max_window);
    lemma_one();
    lemma_units_of_zero();
    if spread.finite() {
        lemma_quotient_order(zero_rating(), spread);
        lemma_zero(spread.units());
        assert(zero_rating().units() * pow2(1074) == 0);
    }
    assert(part == zero_rating());
    lemma_rest_of_one(part);
    lemma_rounded(pow2(1074) as int, 1, one.minus(part).magnitude());
}

/// A match whose teams lie as far apart as the spread, or farther, has quality
/// zero.
pub proof fn law_wide_spread_has_quality_zero(sr_delta: OrdF64, max_window: OrdF64)
    requires
        sr_delta.finite(),
        !sr_delta.negative(),
        max_window.finite(),
        !sr_delta.below(max_window.times(OrdF64::whole(2)).larger(OrdF64::whole(1))),
    ensures
        quality(sr_delta, max_window) == zero_rating(),
{
    let one = OrdF64::whole(1);
    let spread = max_window.times(OrdF64::whole(2)).larger(one);
    lemma_spread(max_window);
    lemma_one();
    lemma_quotient_order(sr_delta, spread);
    lemma_units_grow(spread, sr_delta);
    lemma_power_units(0);
    let (d, n, u) = (spread.units(), sr_delta.units(), pow2(1074) as int);
    let top = units_at((1023 + 0) * HIDDEN_BIT);
    assert(d * top <= n * u) by (nonlinear_arith)
        requires
            top == u,
            d <= n,
            u >= 0,
    ;
    lemma_rounds_at_least(
        n * u,
        d,
        sr_delta.over(spread).magnitude(),
        (1023 + 0) * HIDDEN_BIT,
    );
    lemma_rest_of_one(sr_delta.over(spread));
}

/// The closer the teams, the better the match.
pub proof fn law_closer_teams_are_no_worse(closer: OrdF64, wider: OrdF64, max_window: OrdF64)
    requires
        closer.finite(),
        wider.finite(),
        !closer.negative(),
        !wider.negative(),
        !wider.below(closer),
        max_window.finite(),
    ensures
        !quality(closer, max_window).below(quality(wider, max_window)),
{
    let one = OrdF64::whole(1);
    let spread = max_window.times(OrdF64::whole(2)).larger(one);
    let (x, y) = (closer.over(spread), wider.over(spread));
    lemma_spread(max_window);
    lemma_one();
    if spread.finite() {
        lemma_quotient_order(closer, spread);
        lemma_quotient_order(wider, spread);
        lemma_units_grow(closer, wider);
        let (a, b, u, d) = (closer.units(), wider.units(), pow2(1074) as int, spread.units());
        assert((a * u) * d <= (b * u) * d) by (nonlinear_arith)
            requires
                a <= b,
                u >= 0,
                d > 0,
        ;
        lemma_rounding_keeps_order(a * u, d, x.magnitude(), b * u, d, y.magnitude());
    }
    lemma_rest_of_one(x);
    lemma_rest_of_one(y);
    if x.below(one) && y.below(one) {
        lemma_units_grow(x, y);
        lemma_rounding_keeps_order(
            pow2(1074) - y.units(),
            1,
            one.minus(y).magnitude(),
            pow2(1074) - x.units(),
            1,
            one.minus(x).magnitude(),
        );
    }
}

/// Ratings in the order of a ranking.
spec fn ranked(ratings: Seq<OrdF64>, order: Seq<usize>) -> Seq<OrdF64> {
    Seq::new(order.len(), |i: int| ratings[order[i] as int])
}

/// A ranking moves ratings and loses none.
proof fn lemma_ranked_is_a_permutation(ratings: Seq<OrdF64>, order: Seq<usize>)
    requires
        ranks(order, ratings, ratings.len() as int),
    ensures
        ranked(ratings, order).to_multiset() == ratings.to_multiset(),
    decreases ratings.len(),
{
    let n = ratings.len() as int;
    if n == 0 {
        assert(ranked(ratings, order) =~= ratings);
    } else {
        let place = lemma_place_in_ranking(order, ratings, n, n - 1);
        let rest = ratings.drop_last();
        let short = order.remove(place);
        assert forall|i: int| 0 <= i < n - 1 implies #[trigger] short[i] < n - 1 by {
            let j = if i < place {
                i
            } else {
                i + 1
            };
            assert(short[i] == order[j]);
            if j < place {
                assert(comes_before(ratings, order[j], order[place]));
            } else {
                assert(comes_before(ratings, order[place], order[j]));
            }
        }
        assert forall|i: int, j: int| 0 <= i < j < n - 1 implies comes_before(
            rest,
            #[trigger] short[i],
            #[trigger] short[j],
        ) by {
            let a = if i < place {
                i
            } else {
                i + 1
            };
            let b = if j < place {
                j
            } else {
                j + 1
            };
            assert(short[i] == order[a] && short[j] == order[b]);
            assert(comes_before(ratings, order[a], order[b]));
        }
        lemma_ranked_is_a_permutation(rest, short);
        let last = ratings.last();
        assert(ranked(ratings, order) =~= ranked(rest, short).insert(place, last));
        to_multiset_insert(ranked(rest, short), place, last);
        to_multiset_build(rest, last);
        assert(rest.push(last) =~= ratings);
    }
}

/// Equal ratings in any order are the same ratings once they are ranked.
proof fn lemma_ranked_is_determined(
    a: Seq<OrdF64>,
    b: Seq<OrdF64>,
    order_a: Seq<usize>,
    order_b: Seq<usize>,
)
    requires
        a.to_multiset() == b.to_multiset(),
        ranks(order_a, a, a.len() as int),
        ranks(order_b, b, b.len() as int),
    ensures
        ranked(a, order_a) == ranked(b, order_b),
{
    let by_rank = |x: OrdF64, y: OrdF64| x.rank() <= y.rank();
    lemma_ranked_is_a_permutation(a, order_a);
    lemma_ranked_is_a_permutation(b, order_b);
    assert(sorted_by(ranked(a, order_a), by_rank)) by {
        assert forall|i: int, j: int| 0 <= i < j < a.len() implies #[trigger] by_rank(
            ranked(a, order_a)[i],
            ranked(a, order_a)[j],
        ) by {
            assert(comes_before(a, order_a[i], order_a[j]));
        }
    }
    assert(sorted_by(ranked(b, order_b), by_rank)) by {
        assert forall|i: int, j: int| 0 <= i < j < b.len() implies #[trigger] by_rank(
            ranked(b, order_b)[i],
            ranked(b, order_b)[j],
        ) by {
            assert(comes_before(b, order_b[i], order_b[j]));
        }
    }
    lemma_sorted_unique(ranked(a, order_a), ranked(b, order_b), by_rank);
}

/// What ratings add up to goes by the ratings alone, not by their places.
proof fn lemma_added_by_rank(
    a: Seq<OrdF64>,
    b: Seq<OrdF64>,
    team_a: Seq<usize>,
    team_b: Seq<usize>,
)
    requires
        team_a.len() == team_b.len(),
        forall|k: int| 0 <= k < team_a.len() ==> a[#[trigger] team_a[k] as int] == b[team_b[k] as int],
    ensures
        added(a, team_a) == added(b, team_b),
    decreases team_a.len(),
{
    if team_a.len() > 0 {
        let (rest_a, rest_b) = (team_a.drop_last(), team_b.drop_last());
        assert forall|k: int| 0 <= k < rest_a.len() implies a[#[trigger] rest_a[k] as int]
            == b[rest_b[k] as int] by {
            assert(rest_a[k] == team_a[k]);
        }
        lemma_added_by_rank(a, b, rest_a, rest_b);
        let last = team_a.len() - 1;
        assert(a[team_a[last] as int] == b[team_b[last] as int]);
    }
}

/// A match comes out the same in whatever order its players are listed.
pub proof fn law_result_goes_by_the_ratings_alone(
    a: Seq<OrdF64>,
    b: Seq<OrdF64>,
    max_window: OrdF64,
    result_a: MatchResult,
    result_b: MatchResult,
)
    requires
        a.to_multiset() == b.to_multiset(),
        a.len() >= MATCH_SIZE,
        is_result(a, max_window, result_a),
        is_result(b, max_window, result_b),
    ensures
        result_a == result_b,
{
    let (a1, a2) = choose|team_a: Seq<usize>, team_b: Seq<usize>|
        #[trigger] drafted(a, team_a, team_b) && result_a == result_of(
            a,
            team_a,
            team_b,
            max_window,
        );
    let (b1, b2) = choose|team_a: Seq<usize>, team_b: Seq<usize>|
        #[trigger] drafted(b, team_a, team_b) && result_b == result_of(
            b,
            team_a,
            team_b,
            max_window,
        );
    let p = choose|order: Seq<usize>|
        {
            &&& #[trigger] ranks(order, a, a.len() as int)
            &&& a1 == snake_a(order)
            &&& a2 == snake_b(order)
        };
    let q = choose|order: Seq<usize>|
        {
            &&& #[trigger] ranks(order, b, b.len() as int)
            &&& b1 == snake_a(order)
            &&& b2 == snake_b(order)
        };
    lemma_ranked_is_determined(a, b, p, q);
    lemma_snake(p);
    lemma_snake(q);
    assert(ranked(a, p).len() == ranked(b, q).len());
    assert forall|i: int| 0 <= i < p.len() implies a[#[trigger] p[i] as int] == b[q[i] as int] by {
        assert(ranked(a, p)[i] == ranked(b, q)[i]);
    }
    lemma_added_by_rank(a, b, a1, b1);
    lemma_added_by_rank(a, b, a2, b2);
}

} // verus!
