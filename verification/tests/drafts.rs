use matchmaker::draft::{compute_match_result, sort_players, MatchResult};
use matchmaker::player::Player;
use matchmaker::rating::OrdF64;

fn players_rated(values: &[f64]) -> Vec<Player> {
    values
        .iter()
        .enumerate()
        .map(|(i, value)| Player {
            id: i as u64,
            skill_rating: OrdF64 { bits: value.to_bits() },
            ping_region: format!("region {i}"),
            join_timestamp: 10 * i as u64,
        })
        .collect()
}

fn places(players: &[Player]) -> Vec<u64> {
    players.iter().map(|player| player.id).collect()
}

fn result_for(values: &[f64], max_window: f64) -> MatchResult {
    compute_match_result(&mut players_rated(values), OrdF64 { bits: max_window.to_bits() })
}

fn value(rating: OrdF64) -> f64 {
    f64::from_bits(rating.bits)
}

fn expected(values: &[f64], max_window: f64) -> [f64; 4] {
    let mut sorted = values.to_vec();
    sorted.sort_by(|a, b| a.total_cmp(b));
    let mut a = 0.0;
    let mut b = 0.0;
    for idx in [0usize, 3, 5, 7, 9] {
        a += sorted[idx];
    }
    for idx in [1usize, 2, 4, 6, 8] {
        b += sorted[idx];
    }
    let (a, b) = (a / 5.0, b / 5.0);
    let delta = (a - b).abs();
    let denom = (max_window * 2.0).max(1.0);
    [a, b, delta, (1.0 - (delta / denom)).clamp(0.0, 1.0)]
}

fn check_result(values: &[f64], max_window: f64) {
    let result = result_for(values, max_window);
    let wanted = expected(values, max_window);
    assert_eq!(result.team_a_avg_sr.bits, wanted[0].to_bits());
    assert_eq!(result.team_b_avg_sr.bits, wanted[1].to_bits());
    assert_eq!(result.sr_delta.bits, wanted[2].to_bits());
    assert_eq!(result.match_quality_score.bits, wanted[3].to_bits());
}

#[test]
fn players_are_sorted_from_the_lowest_rating_up() {
    let mut players = players_rated(&[1500.0, 900.0, 1500.0, 0.0, -0.0, 3000.0]);
    sort_players(&mut players);
    assert_eq!(places(&players), vec![4, 3, 1, 0, 2, 5]);
    let mut nobody = players_rated(&[]);
    sort_players(&mut nobody);
    assert!(nobody.is_empty());
}

#[test]
fn a_result_leaves_the_players_sorted() {
    let mut players = players_rated(&[7.0, 7.0, 7.0, 1.0, 9.0, 7.0, 2.0, 2.0, 3000.0, 0.0]);
    let _ = compute_match_result(&mut players, OrdF64 { bits: 600.0f64.to_bits() });
    assert_eq!(places(&players), vec![9, 3, 6, 7, 0, 1, 2, 5, 4, 8]);
    assert_eq!(players[0].ping_region, "region 9");
    assert_eq!(players[9].join_timestamp, 80);
}

#[test]
fn the_draft_snakes_through_the_ranking() {
    let sums = |values: &[f64]| {
        let result = result_for(values, 600.0);
        (value(result.team_a_avg_sr) * 5.0, value(result.team_b_avg_sr) * 5.0)
    };
    let bits: Vec<f64> = (0..10u32).map(|i| f64::from(1u32 << i)).collect();
    let team_a = f64::from((1u32 << 0) + (1 << 3) + (1 << 5) + (1 << 7) + (1 << 9));
    let team_b = f64::from((1u32 << 1) + (1 << 2) + (1 << 4) + (1 << 6) + (1 << 8));
    assert_eq!(sums(&bits), (team_a, team_b));
    let reversed: Vec<f64> = bits.iter().rev().copied().collect();
    assert_eq!(sums(&reversed), (team_a, team_b));
}

#[test]
fn zero_of_either_sign_is_rated_zero() {
    check_result(&[-0.0; 10], 600.0);
    check_result(&[0.0, -0.0, 0.0, -0.0, 1.0, 2.0, -0.0, 5.0, 0.0, 7.0], 600.0);
}

#[test]
fn equal_players_make_a_perfect_match() {
    let result = result_for(&[1500.0; 10], 600.0);
    assert_eq!(value(result.team_a_avg_sr), 1500.0);
    assert_eq!(value(result.team_b_avg_sr), 1500.0);
    assert_eq!(value(result.sr_delta), 0.0);
    assert_eq!(value(result.match_quality_score), 1.0);
}

#[test]
fn averages_and_quality_of_one_match() {
    let values: Vec<f64> = (0..10).map(|i| 1000.0 + 10.0 * f64::from(i)).collect();
    let result = result_for(&values, 600.0);
    assert_eq!(value(result.team_a_avg_sr), 1048.0);
    assert_eq!(value(result.team_b_avg_sr), 1042.0);
    assert_eq!(value(result.sr_delta), 6.0);
    assert_eq!(value(result.match_quality_score), 0.995);
}

#[test]
fn a_wide_spread_has_no_quality() {
    let values: Vec<f64> = (0..10).map(|i| 100.0 * f64::from(i)).collect();
    for (max_window, quality) in [(0.0, 0.0), (0.5, 0.0), (30.0, 0.0), (60.0, 0.5), (600.0, 0.95)] {
        let result = result_for(&values, max_window);
        assert_eq!(value(result.sr_delta), 60.0);
        assert_eq!(value(result.match_quality_score), quality);
        check_result(&values, max_window);
    }
}

#[test]
fn results_agree_with_doubles() {
    let mut state = 99u64;
    for round in 0..3000u64 {
        let mut values = Vec::new();
        for _ in 0..10 {
            state = state.wrapping_mul(6364136223846793005).wrapping_add(1442695040888963407);
            values.push((state >> 11) as f64 / (1u64 << 53) as f64 * 3000.0);
        }
        let max_window = match round % 5 {
            0 => 600.0,
            1 => 0.25,
            2 => 1e308,
            3 => 33.3,
            _ => f64::MAX,
        };
        check_result(&values, max_window);
    }
    check_result(&[0.0; 10], 600.0);
}

#[test]
fn closer_teams_make_no_worse_matches() {
    let mut last = 1.0;
    for step in 0..120u32 {
        let mut values = [1000.0; 10];
        values[9] = 1000.0 + 25.0 * f64::from(step);
        if values[9] > 3000.0 {
            break;
        }
        let result = result_for(&values, 100.0);
        let quality = value(result.match_quality_score);
        assert!((0.0..=1.0).contains(&quality) && quality <= last);
        last = quality;
    }
    assert_eq!(last, 0.0);
}

#[test]
fn results_do_not_depend_on_the_order_of_players() {
    let values = [1510.5, 1499.0, 1499.0, 1600.25, 1380.0, 1510.5, 1433.3, 1590.0, 1401.1, 1555.0];
    let first = result_for(&values, 600.0);
    for turn in 1..10 {
        let mut turned = values;
        turned.rotate_left(turn);
        assert_eq!(result_for(&turned, 600.0), first);
        turned.reverse();
        assert_eq!(result_for(&turned, 600.0), first);
    }
}
