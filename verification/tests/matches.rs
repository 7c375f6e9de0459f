use matchmaker::config::{Config, Environment};
use matchmaker::matchmaker::{Matchmaker, Pivot, QueueRequest};
use matchmaker::rating::{rating_to_bracket, OrdF64};
use matchmaker::shard::shard_index;
use matchmaker::shortlist::Candidate;

const SECOND: u64 = 1_000_000_000;

fn settings() -> Config {
    Config::from_env(&Environment {
        cpu_count: Some(1),
        fast_cross_region: None,
        fast: None,
        base_window: None,
        window_expand_per_sec: None,
        max_window: None,
        cross_region_wait_secs: None,
        worker_idle_ms: None,
        api_workers: None,
    })
}

fn number(value: f64) -> OrdF64 {
    OrdF64 { bits: value.to_bits() }
}

fn join(m: &mut Matchmaker, id: u64, rating: f64, region: &str, at: u64) {
    let req = QueueRequest { id, skill_rating: number(rating), ping_region: region.to_string() };
    assert!(m.enqueue(req, at).is_ok());
}

fn ids(candidates: &[Candidate]) -> Vec<u64> {
    candidates.iter().map(|c| c.entry.id).collect()
}

fn around(region: &str, median: f64) -> Pivot {
    Pivot { region: region.to_string(), median_rating: number(median), oldest_wait_secs: number(0.0) }
}

#[test]
fn nine_players_are_no_match() {
    let mut m = Matchmaker::new(settings());
    for id in 0..9 {
        join(&mut m, id, 1500.0, "eu", id);
    }
    assert!(m.try_form_match(100 * SECOND).is_none());
    assert_eq!(m.metrics_snapshot().queue_depth, 9);
    assert_eq!(m.metrics_snapshot().total_matches_formed, 0);
}

#[test]
fn ten_close_players_are_a_match() {
    let mut m = Matchmaker::new(settings());
    for i in 0..10u64 {
        join(&mut m, 100 + i, 1450.0 + 10.0 * i as f64, "eu", (20 - i) * SECOND);
    }
    let log = m.try_form_match(30 * SECOND).unwrap();
    assert_eq!(log.matched_ids, (100..110).rev().collect::<Vec<u64>>());
    assert_eq!(log.regions, vec!["eu".to_string(); 10]);
    assert_eq!(f64::from_bits(log.team_a_avg_sr.bits), 1498.0);
    assert_eq!(f64::from_bits(log.team_b_avg_sr.bits), 1492.0);
    assert_eq!(f64::from_bits(log.sr_delta.bits), 6.0);
    assert_eq!(f64::from_bits(log.match_quality_score.bits), 0.995);
    let snapshot = m.metrics_snapshot();
    assert_eq!(snapshot.total_matches_formed, 1);
    assert_eq!(snapshot.queue_depth, 0);
    assert_eq!(snapshot.total_players_queued, 10);
    assert_eq!(snapshot.avg_wait_ms, 14_500);
    assert!(m.try_form_match(31 * SECOND).is_none());
}

#[test]
fn the_ten_longest_waiting_are_taken() {
    let mut m = Matchmaker::new(settings());
    for id in 0..25u64 {
        join(&mut m, id, 1500.0, "eu", (id * 7) % 25);
    }
    let mut order: Vec<u64> = (0..25).collect();
    order.sort_by_key(|id| (id * 7) % 25);
    let first = m.try_form_match(SECOND).unwrap();
    assert_eq!(first.matched_ids, order[..10]);
    let second = m.try_form_match(SECOND).unwrap();
    assert_eq!(second.matched_ids, order[10..20]);
    assert!(m.try_form_match(SECOND).is_none());
    assert_eq!(m.metrics_snapshot().queue_depth, 5);
    for id in &order[..20] {
        assert!(!m.remove(*id));
    }
    for id in &order[20..] {
        assert!(m.remove(*id));
    }
}

#[test]
fn equal_join_times_go_by_id() {
    let mut m = Matchmaker::new(settings());
    for id in (0..12u64).rev() {
        join(&mut m, id, 1500.0, "eu", 3);
    }
    assert_eq!(m.try_form_match(4).unwrap().matched_ids, (0..10).collect::<Vec<u64>>());
}

#[test]
fn the_window_widens_with_the_wait() {
    let mut m = Matchmaker::new(settings());
    for id in 0..9 {
        join(&mut m, id, 1500.0, "eu", 0);
    }
    join(&mut m, 9, 1750.0, "eu", 0);
    assert!(m.try_form_match(0).is_none());
    assert!(m.try_form_match(2 * SECOND - 1).is_none());
    assert_eq!(m.metrics_snapshot().queue_depth, 10);
    let log = m.try_form_match(2 * SECOND).unwrap();
    assert_eq!(log.matched_ids, (0..10).collect::<Vec<u64>>());
}

#[test]
fn the_window_widens_only_where_needed() {
    let mut m = Matchmaker::new(settings());
    join(&mut m, 50, 1700.0, "eu", 1);
    for id in 0..10 {
        join(&mut m, id, 1500.0, "eu", 2);
    }
    join(&mut m, 99, 1500.0, "eu", 0);
    let log = m.try_form_match(8 * SECOND).unwrap();
    assert!(!log.matched_ids.contains(&50));
    assert_eq!(log.matched_ids[0], 99);
}

#[test]
fn the_window_stops_at_the_widest() {
    let mut m = Matchmaker::new(settings());
    for id in 0..9 {
        join(&mut m, id, 1500.0, "eu", 0);
    }
    join(&mut m, 9, 2100.5, "eu", 0);
    assert!(m.try_form_match(1_000_000 * SECOND).is_none());
    join(&mut m, 10, 2100.0, "eu", 5);
    let log = m.try_form_match(1_000_000 * SECOND).unwrap();
    assert_eq!(log.matched_ids, vec![0, 1, 2, 3, 4, 5, 6, 7, 8, 10]);
}

#[test]
fn regions_mix_after_fifteen_seconds() {
    let mut m = Matchmaker::new(settings());
    for id in 0..5 {
        join(&mut m, id, 1500.0, "eu", 0);
        join(&mut m, 5 + id, 1500.0, "us", 1);
    }
    assert!(m.try_form_match(15 * SECOND - 1).is_none());
    let log = m.try_form_match(15 * SECOND).unwrap();
    assert_eq!(log.matched_ids, (0..10).collect::<Vec<u64>>());
    assert_eq!(log.regions[0], "eu");
    assert_eq!(log.regions[9], "us");
}

#[test]
fn candidates_lie_in_the_window_and_region() {
    let mut m = Matchmaker::new(settings());
    for (id, rating) in [(1, 1350.0), (2, 1349.9), (3, 1650.0), (4, 1650.1), (5, 1500.0), (6, 1400.0)] {
        join(&mut m, id, rating, "eu", id);
    }
    join(&mut m, 7, 1500.0, "us", 0);
    let pivot = around("eu", 1500.0);
    assert_eq!(ids(&m.collect_candidates(&pivot, number(150.0), false)), vec![1, 3, 5, 6]);
    assert_eq!(ids(&m.collect_candidates(&pivot, number(150.0), true)), vec![7, 1, 3, 5, 6]);
    assert_eq!(ids(&m.collect_candidates(&pivot, number(0.0), false)), vec![5]);
    assert_eq!(
        ids(&m.collect_candidates(&pivot, number(f64::INFINITY), false)),
        vec![1, 2, 3, 4, 5, 6]
    );
    assert!(m.collect_candidates(&around("asia", 1500.0), number(600.0), false).is_empty());
    assert_eq!(ids(&m.collect_candidates(&around("asia", 1500.0), number(0.0), true)), vec![7, 5]);
}

#[test]
fn candidates_are_at_most_ten_and_the_oldest() {
    let mut m = Matchmaker::new(settings());
    for id in 0..60u64 {
        join(&mut m, id, 1000.0 + 20.0 * id as f64, "eu", (id * 37) % 60);
    }
    let candidates = m.collect_candidates(&around("eu", 1500.0), number(400.0), false);
    let mut wanted: Vec<u64> = (0..60)
        .filter(|id| (1100.0..=1900.0).contains(&(1000.0 + 20.0 * *id as f64)))
        .collect();
    wanted.sort_by_key(|id| (id * 37) % 60);
    wanted.truncate(10);
    assert_eq!(ids(&candidates), wanted);
}

#[test]
fn the_edges_of_the_rating_range_are_in_reach() {
    let mut m = Matchmaker::new(settings());
    for id in 0..5 {
        join(&mut m, id, -20.0, "eu", id);
        join(&mut m, 10 + id, 5000.0, "us", 10 + id);
    }
    assert_eq!(ids(&m.collect_candidates(&around("eu", 0.0), number(150.0), false)), vec![0, 1, 2, 3, 4]);
    assert_eq!(
        ids(&m.collect_candidates(&around("us", 3000.0), number(150.0), false)),
        vec![10, 11, 12, 13, 14]
    );
}

#[test]
fn minus_zero_is_matched_as_zero() {
    let mut m = Matchmaker::new(settings());
    join(&mut m, 1, -0.0, "eu", 1);
    assert_eq!(ids(&m.collect_candidates(&around("eu", 0.0), number(150.0), false)), vec![1]);
    assert_eq!(ids(&m.collect_candidates(&around("eu", 0.0), number(0.0), false)), vec![1]);
    for id in 2..=10 {
        join(&mut m, id, if id % 2 == 0 { 0.0 } else { -0.0 }, "eu", id);
    }
    let log = m.try_form_match(20).unwrap();
    assert_eq!(log.matched_ids, (1..=10).collect::<Vec<u64>>());
    assert_eq!(log.team_a_avg_sr, number(0.0));
    assert_eq!(log.match_quality_score, number(1.0));
}

#[test]
fn a_window_of_minus_zero_is_a_window_of_zero() {
    let mut m = Matchmaker::new(Config { base_window: number(-0.0), ..settings() });
    for id in 0..10 {
        join(&mut m, id, -0.0, "eu", id);
    }
    assert_eq!(m.try_form_match(20).unwrap().matched_ids, (0..10).collect::<Vec<u64>>());
}

#[test]
fn eviction_takes_all_or_none() {
    let mut m = Matchmaker::new(settings());
    for id in 0..11 {
        join(&mut m, id, 1500.0, "eu", id);
    }
    let candidates = m.collect_candidates(&around("eu", 1500.0), number(150.0), false);
    assert_eq!(candidates.len(), 10);
    assert!(m.evict_candidates(&candidates[..9].to_vec(), SECOND).is_none());
    assert!(m.remove(4));
    assert!(m.evict_candidates(&candidates, SECOND).is_none());
    let snapshot = m.metrics_snapshot();
    assert_eq!((snapshot.queue_depth, snapshot.total_matches_formed), (10, 0));
    join(&mut m, 4, 1500.0, "eu", 4);
    assert!(m.evict_candidates(&candidates, SECOND).is_none());
    let fresh = m.collect_candidates(&around("eu", 1500.0), number(150.0), false);
    let log = m.evict_candidates(&fresh, SECOND).unwrap();
    assert_eq!(log.matched_ids, (0..10).collect::<Vec<u64>>());
    assert!(m.evict_candidates(&fresh, SECOND).is_none());
    let snapshot = m.metrics_snapshot();
    assert_eq!((snapshot.queue_depth, snapshot.total_matches_formed), (1, 1));
}

#[test]
fn eviction_refuses_a_player_named_twice_or_misplaced() {
    let mut m = Matchmaker::new(settings());
    for id in 0..10 {
        join(&mut m, id, 1500.0, "eu", id);
    }
    let candidates = m.collect_candidates(&around("eu", 1500.0), number(150.0), false);
    let mut twice = candidates.clone();
    twice[9] = twice[0];
    assert!(m.evict_candidates(&twice, SECOND).is_none());
    let mut misplaced = candidates.clone();
    misplaced[3].shard_idx = (misplaced[3].shard_idx + 1) % 8;
    assert!(m.evict_candidates(&misplaced, SECOND).is_none());
    misplaced[3].shard_idx = 8;
    assert!(m.evict_candidates(&misplaced, SECOND).is_none());
    assert_eq!(m.metrics_snapshot().queue_depth, 10);
    let mut eleven = candidates.clone();
    eleven.push(candidates[0]);
    assert_eq!(m.evict_candidates(&eleven, SECOND).unwrap().matched_ids.len(), 10);
}

#[test]
fn counters_add_up_over_many_steps() {
    let mut m = Matchmaker::new(settings());
    let mut state = 7u64;
    let mut queued: Vec<u64> = Vec::new();
    let mut joined = 0u64;
    let mut removed = 0u64;
    for step in 0..3000u64 {
        state = state.wrapping_mul(6364136223846793005).wrapping_add(1442695040888963407);
        let pick = state >> 33;
        match pick % 5 {
            0..=2 => {
                let id = pick % 500;
                let rating = (state >> 20) as f64 % 3000.0;
                let req = QueueRequest {
                    id,
                    skill_rating: number(rating),
                    ping_region: ["eu", "us", "asia"][(pick % 3) as usize].to_string(),
                };
                let result = m.enqueue(req, step * SECOND);
                if queued.contains(&id) {
                    assert!(result.is_err());
                } else {
                    queued.push(id);
                    joined += 1;
                    assert_eq!(result, Ok(queued.len()));
                }
            }
            3 => {
                let id = pick % 500;
                let present = queued.contains(&id);
                assert_eq!(m.remove(id), present);
                if present {
                    queued.retain(|other| *other != id);
                    removed += 1;
                }
            }
            _ => {
                if let Some(log) = m.try_form_match(step * SECOND) {
                    assert_eq!(log.matched_ids.len(), 10);
                    for id in &log.matched_ids {
                        assert!(queued.contains(id));
                        queued.retain(|other| other != id);
                    }
                    let quality = f64::from_bits(log.match_quality_score.bits);
                    assert!((0.0..=1.0).contains(&quality));
                }
            }
        }
        let snapshot = m.metrics_snapshot();
        assert_eq!(snapshot.queue_depth, queued.len() as u64);
        assert_eq!(snapshot.total_players_queued, joined);
        assert_eq!(
            snapshot.queue_depth + 10 * snapshot.total_matches_formed + removed,
            joined
        );
    }
    assert!(m.metrics_snapshot().total_matches_formed > 20);
}

#[test]
fn the_order_of_joining_does_not_matter() {
    let players: Vec<(u64, f64, &str, u64)> = (0..30u64)
        .map(|i| (i, 1300.0 + 17.0 * i as f64, if i % 3 == 0 { "us" } else { "eu" }, (i * 11) % 30))
        .collect();
    let mut forward = Matchmaker::new(settings());
    let mut backward = Matchmaker::new(settings());
    for (id, rating, region, at) in &players {
        join(&mut forward, *id, *rating, region, *at);
    }
    for (id, rating, region, at) in players.iter().rev() {
        join(&mut backward, *id, *rating, region, *at);
    }
    for now in [SECOND, 5 * SECOND, 20 * SECOND] {
        let (a, b) = (forward.try_form_match(now), backward.try_form_match(now));
        assert_eq!(a.map(|log| log.matched_ids), b.map(|log| log.matched_ids));
    }
    assert!(forward.metrics_snapshot().total_matches_formed > 0);
}

#[test]
fn a_window_of_one_bracket_reaches_the_longest_waiting() {
    let mut narrow = Matchmaker::new(settings());
    let mut wide = Matchmaker::new(Config { base_window: number(200.0), ..settings() });
    for m in [&mut narrow, &mut wide] {
        join(m, 77, 1400.0, "eu", 0);
        for id in 0..10 {
            join(m, id, 1599.0, "eu", 1);
        }
    }
    assert_eq!(narrow.try_form_match(1).unwrap().matched_ids, (0..10).collect::<Vec<u64>>());
    let log = wide.try_form_match(1).unwrap();
    assert_eq!(log.matched_ids, vec![77, 0, 1, 2, 3, 4, 5, 6, 7, 8]);
}

#[test]
fn candidates_name_the_shard_of_their_bucket() {
    let mut m = Matchmaker::new(settings());
    for id in 0..9u64 {
        join(&mut m, id, 300.0 * id as f64, ["eu", "us", "asia"][(id % 3) as usize], id);
    }
    let all = m.collect_candidates(&around("eu", 1500.0), number(3000.0), true);
    assert_eq!(all.len(), 9);
    for candidate in all {
        let entry = candidate.entry;
        let region = ["eu", "us", "asia"][(entry.id % 3) as usize];
        assert_eq!(
            candidate.shard_idx,
            shard_index(rating_to_bracket(entry.skill_rating), region)
        );
    }
}
