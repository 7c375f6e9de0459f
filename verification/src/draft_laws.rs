//! How teams are drafted, and how a match of them comes out.

use crate::arithmetic_laws::{
    distance, law_arithmetic_on_whole_numbers, law_products_and_quotients_are_nearest,
    law_sums_are_nearest, lemma_nearest_scales,
};
use crate::bounds::{
    lemma_difference_shrinks, lemma_one, lemma_quotient_order, lemma_rest_of_one, lemma_signed,
    lemma_whole, lemma_whole_is_exact,
};
use crate::draft::{
    added, all_in_range, arranged, average_of, comes_before, drafted, is_result, lemma_added,
    lemma_average, lemma_in_range, lemma_place_in_ranking, lemma_spread, quality, ranks,
    ratings_of, result_of, snake_a, snake_b, sorted_from, MatchResult,
};
use crate::player::Player;
use crate::rating::{in_range, zero_rating, OrdF64};
use crate::rounding::{lemma_units_of_zero, lemma_units_order, nearest};
use vstd::arithmetic::power2::{lemma_pow2_pos, pow2};
use vstd::prelude::*;

verus! {

/// Sorting moves players and loses none: the lowest rating comes first, and
/// players of equal ratings stand as they stood.
pub proof fn law_sorted_players_are_in_order(players: Seq<Player>, sorted: Seq<Player>) -> (from: Seq<
    usize,
>)
    requires
        sorted_from(players, sorted),
    ensures
        sorted.len() == players.len(),
        from.len() == players.len(),
        from.no_duplicates(),
        forall|i: int|
            0 <= i < from.len() ==> #[trigger] from[i] < players.len() && sorted[i]
                == players[from[i] as int],
        forall|i: int, j: int|
            0 <= i < j < sorted.len() ==> (#[trigger] sorted[i]).skill_rating.rank() < (
            #[trigger] sorted[j]).skill_rating.rank() || (sorted[i].skill_rating.rank()
                == sorted[j].skill_rating.rank() && from[i] < from[j]),
{
    let ratings = ratings_of(players);
    let order = choose|order: Seq<usize>|
        #[trigger] ranks(order, ratings, players.len() as int) && sorted == arranged(players, order);
    assert forall|i: int, j: int| 0 <= i < j < sorted.len() implies (
    #[trigger] sorted[i]).skill_rating.rank() < (#[trigger] sorted[j]).skill_rating.rank() || (
    sorted[i].skill_rating.rank() == sorted[j].skill_rating.rank() && order[i] < order[j]) by {
        assert(order[i] < players.len() && order[j] < players.len());
        assert(comes_before(ratings, order[i], order[j]));
    }
    assert forall|i: int, j: int|
        0 <= i < order.len() && 0 <= j < order.len() && i != j implies order[i] != order[j] by {
        if i < j {
            assert(comes_before(ratings, order[i], order[j]));
        } else {
            assert(comes_before(ratings, order[j], order[i]));
        }
    }
    order
}

/// As many places come before one as its place in the ranking says.
proof fn lemma_places_before(order: Seq<usize>, ratings: Seq<OrdF64>, i: int, before: Set<int>)
    requires
        ranks(order, ratings, ratings.len() as int),
        0 <= i < ratings.len(),
        forall|p: int| #[trigger]
            before.contains(p) <==> 0 <= p < ratings.len() && (ratings[p].rank()
                < ratings[order[i] as int].rank() || (ratings[p].rank()
                == ratings[order[i] as int].rank() && p < order[i])),
    ensures
        before.len() == i,
{
    let n = ratings.len() as int;
    let places = order.take(i).map_values(|p: usize| p as int);
    assert(order[i] < n);
    assert(places.no_duplicates()) by {
        assert forall|a: int, b: int| 0 <= a < b < places.len() implies places[a] != places[b] by {
            assert(comes_before(ratings, order[a], order[b]));
        }
    }
    places.unique_seq_to_set();
    assert forall|p: int| #[trigger] before.contains(p) <==> places.to_set().contains(p) by {
        if before.contains(p) {
            let j = lemma_place_in_ranking(order, ratings, n, p);
            if i < j {
                assert(comes_before(ratings, order[i], order[j]));
            }
            assert(places[j] == p);
        }
        if places.to_set().contains(p) {
            let j = choose|j: int| 0 <= j < places.len() && places[j] == p;
            assert(order[j] < n);
            assert(comes_before(ratings, order[j], order[i]));
        }
    }
    assert(before =~= places.to_set());
}

/// The teams are a snake draft: the first one has the players whom none, three,
/// five, seven and nine others come before by rating, and the second one those
/// whom one, two, four, six and eight others come before. Of equal ratings the
/// first listed comes first.
pub proof fn law_teams_are_drafted_by_rank(
    ratings: Seq<OrdF64>,
    team_a: Seq<usize>,
    team_b: Seq<usize>,
    k: int,
    before_a: Set<int>,
    before_b: Set<int>,
)
    requires
        drafted(ratings, team_a, team_b),
        ratings.len() >= 10,
        0 <= k < 5,
        forall|p: int| #[trigger]
            before_a.contains(p) <==> 0 <= p < ratings.len() && (ratings[p].rank()
                < ratings[team_a[k] as int].rank() || (ratings[p].rank()
                == ratings[team_a[k] as int].rank() && p < team_a[k])),
        forall|p: int| #[trigger]
            before_b.contains(p) <==> 0 <= p < ratings.len() && (ratings[p].rank()
                < ratings[team_b[k] as int].rank() || (ratings[p].rank()
                == ratings[team_b[k] as int].rank() && p < team_b[k])),
    ensures
        team_a.len() == 5,
        team_b.len() == 5,
        team_a[k] < ratings.len(),
        team_b[k] < ratings.len(),
        before_a.len() == if k == 0 {
            0
        } else if k == 1 {
            3
        } else if k == 2 {
            5
        } else if k == 3 {
            7
        } else {
            9nat
        },
        before_b.len() == if k == 0 {
            1
        } else if k == 1 {
            2
        } else if k == 2 {
            4
        } else if k == 3 {
            6
        } else {
            8nat
        },
{
    let order = choose|order: Seq<usize>|
        {
            &&& #[trigger] ranks(order, ratings, ratings.len() as int)
            &&& team_a == snake_a(order)
            &&& team_b == snake_b(order)
        };
    let (a, b) = if k == 0 {
        (0int, 1int)
    } else {
        (2 * k + 1, 2 * k)
    };
    assert(team_a[k] == order[a] && team_b[k] == order[b]);
    assert(order[a] < ratings.len() && order[b] < ratings.len());
    lemma_places_before(order, ratings, a, before_a);
    lemma_places_before(order, ratings, b, before_b);
}

/// The average of a team is the nearest double to a fifth of the sum of its
/// ratings. The sum is taken from the first member on, and after each one it is
/// the nearest double.
pub proof fn law_averages_are_nearest(ratings: Seq<OrdF64>, team: Seq<usize>) -> (sums: Seq<OrdF64>)
    requires
        all_in_range(ratings),
        team.len() == 5,
        forall|i: int| 0 <= i < team.len() ==> #[trigger] team[i] < ratings.len(),
    ensures
        sums.len() == 6,
        sums[0] == zero_rating(),
        forall|k: int|
            0 <= k < 5 ==> sums[k].finite() && !sums[k].negative() && nearest(
                sums[k].units() + ratings[#[trigger] team[k] as int].units(),
                1,
                sums[k + 1].magnitude(),
            ),
        sums[5].finite(),
        !sums[5].negative(),
        nearest(sums[5].units(), 5, average_of(ratings, team).magnitude()),
        average_of(ratings, team).finite(),
        !average_of(ratings, team).negative(),
{
    let sums = Seq::new(6, |k: int| added(ratings, team.take(k)));
    let one = pow2(1074) as int;
    lemma_pow2_pos(1074);
    assert forall|k: int| 0 <= k <= 5 implies (#[trigger] sums[k]).finite()
        && !sums[k].negative() by {
        let places = team.take(k);
        assert forall|i: int| 0 <= i < places.len() implies #[trigger] places[i]
            < ratings.len() by {
            assert(team[i] < ratings.len());
        }
        lemma_added(ratings, places);
    }
    assert forall|k: int| 0 <= k < 5 implies sums[k].finite() && !sums[k].negative() && nearest(
        sums[k].units() + ratings[#[trigger] team[k] as int].units(),
        1,
        sums[k + 1].magnitude(),
    ) by {
        let rating = ratings[team[k] as int];
        assert(in_range(rating));
        lemma_in_range(rating);
        lemma_units_of_zero();
        lemma_units_order(rating, zero_rating());
        lemma_units_order(sums[k], zero_rating());
        assert(team.take(k + 1).drop_last() =~= team.take(k));
        assert(sums[k + 1] == sums[k].plus(rating));
        law_sums_are_nearest(sums[k], rating);
    }
    assert(team.take(5) =~= team);
    assert(sums[5].finite());
    lemma_average(ratings, team);
    lemma_whole(5);
    lemma_whole_is_exact(5);
    law_products_and_quotients_are_nearest(sums[5], OrdF64::whole(5));
    lemma_nearest_scales(sums[5].units(), 5, one, average_of(ratings, team).magnitude());
    sums
}

/// The average of a team with whole ratings is their sum by five, where that is
/// whole.
pub proof fn law_averages_on_whole_numbers(
    ratings: Seq<OrdF64>,
    team: Seq<usize>,
    values: Seq<nat>,
    average: nat,
)
    requires
        team.len() == 5,
        values.len() == 5,
        forall|k: int|
            0 <= k < 5 ==> ratings[#[trigger] team[k] as int] == OrdF64::whole(values[k])
                && values[k] <= 1_000_000_000_000,
        values[0] + values[1] + values[2] + values[3] + values[4] == 5 * average,
    ensures
        average_of(ratings, team) == OrdF64::whole(average),
{
    let s1 = values[0];
    let s2 = s1 + values[1];
    let s3 = s2 + values[2];
    let s4 = s3 + values[3];
    let s5 = s4 + values[4];
    assert(values[0] <= 1_000_000_000_000 && values[1] <= 1_000_000_000_000 && values[2]
        <= 1_000_000_000_000 && values[3] <= 1_000_000_000_000 && values[4] <= 1_000_000_000_000) by {
        assert(ratings[team[0] as int] == OrdF64::whole(values[0]) && ratings[team[1] as int]
            == OrdF64::whole(values[1]) && ratings[team[2] as int] == OrdF64::whole(values[2])
            && ratings[team[3] as int] == OrdF64::whole(values[3]) && ratings[team[4] as int]
            == OrdF64::whole(values[4]));
    }
    lemma_whole(0);
    law_arithmetic_on_whole_numbers(0, s1);
    law_arithmetic_on_whole_numbers(s1, values[1]);
    law_arithmetic_on_whole_numbers(s2, values[2]);
    law_arithmetic_on_whole_numbers(s3, values[3]);
    law_arithmetic_on_whole_numbers(s4, values[4]);
    law_arithmetic_on_whole_numbers(average, 5);
    assert forall|k: int| 0 <= k < 5 implies added(ratings, team.take(k + 1)) == added(
        ratings,
        #[trigger] team.take(k),
    ).plus(ratings[team[k] as int]) by {
        assert(team.take(k + 1).drop_last() =~= team.take(k));
    }
    assert(added(ratings, team.take(0)) == OrdF64::whole(0));
    assert(added(ratings, team.take(1)) == OrdF64::whole(s1));
    assert(added(ratings, team.take(2)) == OrdF64::whole(s2));
    assert(added(ratings, team.take(3)) == OrdF64::whole(s3));
    assert(added(ratings, team.take(4)) == OrdF64::whole(s4));
    assert(added(ratings, team.take(5)) == OrdF64::whole(s5));
    assert(team.take(5) =~= team);
    assert(s5 == average * 5);
}

/// A match comes out by its drafted teams: with their averages, the nearest
/// double to the distance of these, and the quality for that distance.
pub proof fn law_results_follow_the_teams(
    ratings: Seq<OrdF64>,
    max_window: OrdF64,
    result: MatchResult,
) -> (teams: (Seq<usize>, Seq<usize>))
    requires
        is_result(ratings, max_window, result),
        ratings.len() >= 10,
        all_in_range(ratings),
    ensures
        drafted(ratings, teams.0, teams.1),
        result.team_a_avg_sr == average_of(ratings, teams.0),
        result.team_b_avg_sr == average_of(ratings, teams.1),
        nearest(
            distance(result.team_a_avg_sr.units(), result.team_b_avg_sr.units()),
            1,
            result.sr_delta.magnitude(),
        ),
        !result.sr_delta.negative(),
        result.match_quality_score == quality(result.sr_delta, max_window),
{
    let (team_a, team_b) = choose|team_a: Seq<usize>, team_b: Seq<usize>|
        #[trigger] drafted(ratings, team_a, team_b) && result == result_of(
            ratings,
            team_a,
            team_b,
            max_window,
        );
    let order = choose|order: Seq<usize>|
        {
            &&& #[trigger] ranks(order, ratings, ratings.len() as int)
            &&& team_a == snake_a(order)
            &&& team_b == snake_b(order)
        };
    assert forall|i: int| 0 <= i < 5 implies #[trigger] team_a[i] < ratings.len() by {
        let at = if i == 0 {
            0
        } else {
            2 * i + 1
        };
        assert(team_a[i] == order[at]);
    }
    assert forall|i: int| 0 <= i < 5 implies #[trigger] team_b[i] < ratings.len() by {
        let at = if i == 0 {
            1
        } else {
            2 * i
        };
        assert(team_b[i] == order[at]);
    }
    lemma_average(ratings, team_a);
    lemma_average(ratings, team_b);
    law_sums_are_nearest(result.team_a_avg_sr, result.team_b_avg_sr);
    lemma_difference_shrinks(result.team_a_avg_sr, result.team_b_avg_sr);
    (team_a, team_b)
}

/// The quality of a match is one less the part that the distance of its teams is
/// of the spread, and at least zero. The spread is twice the widest window, and
/// at least one. Each step gives the nearest double.
pub proof fn law_quality_is_what_is_left_of_one(sr_delta: OrdF64, max_window: OrdF64) -> (parts: (
    OrdF64,
    OrdF64,
))
    requires
        sr_delta.finite(),
        !sr_delta.negative(),
        max_window.finite(),
    ensures
        ({
            let (twice, part) = parts;
            let spread = if twice.negative() || (twice.finite() && twice.value() < pow2(1074)) {
                OrdF64::whole(1)
            } else {
                twice
            };
            let score = quality(sr_delta, max_window);
            &&& nearest(2 * max_window.units(), 1, twice.magnitude())
            &&& twice.negative() == max_window.negative()
            &&& spread.finite() ==> spread.units() >= pow2(1074) && nearest(
                sr_delta.units() * pow2(1074),
                spread.units(),
                part.magnitude(),
            )
            &&& !spread.finite() ==> part == zero_rating()
            &&& !part.negative()
            &&& part.finite() && part.units() < pow2(1074) ==> nearest(
                pow2(1074) - part.units(),
                1,
                score.magnitude(),
            ) && !score.negative()
            &&& !part.finite() || part.units() >= pow2(1074) ==> score == zero_rating()
        }),
{
    let one = OrdF64::whole(1);
    let unit = pow2(1074) as int;
    let two = OrdF64::whole(2);
    let twice = max_window.times(two);
    let spread = twice.larger(one);
    let part = sr_delta.over(spread);
    lemma_pow2_pos(1074);
    lemma_one();
    lemma_spread(max_window);
    lemma_whole(2);
    lemma_whole_is_exact(2);
    lemma_units_of_zero();
    lemma_units_order(max_window, zero_rating());
    law_products_and_quotients_are_nearest(max_window, two);
    assert(max_window.units() * two.units() == (2 * max_window.units()) * unit)
        by (nonlinear_arith)
        requires
            two.units() == 2 * unit,
    ;
    lemma_nearest_scales(2 * max_window.units(), 1, unit, twice.magnitude());
    if twice.finite() {
        lemma_units_order(twice, one);
        lemma_units_order(twice, zero_rating());
    }
    if spread.finite() {
        lemma_quotient_order(sr_delta, spread);
        lemma_units_order(one, spread);
    } else {
        lemma_signed(false, 0);
    }
    lemma_rest_of_one(part);
    if part.finite() {
        lemma_units_order(part, one);
    }
    (twice, part)
}

} // verus!
