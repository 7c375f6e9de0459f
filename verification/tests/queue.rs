use matchmaker::api::{metrics_response, route, Method, Refusal, Reply, Route};
use matchmaker::config::{Config, Environment};
use matchmaker::matchmaker::{EnqueueError, Matchmaker, QueueRequest};
use matchmaker::rating::OrdF64;

fn config() -> Config {
    Config::from_env(&Environment {
        cpu_count: Some(1),
        fast_cross_region: None,
        fast: None,
        base_window: None,
        window_expand_per_sec: None,
        max_window: None,
        cross_region_wait_secs: None,
        worker_idle_ms: None,
        api_workers: None,
    })
}

fn request(id: u64, rating: f64, region: &str) -> QueueRequest {
    QueueRequest {
        id,
        skill_rating: OrdF64 { bits: rating.to_bits() },
        ping_region: region.to_string(),
    }
}

#[test]
fn positions_count_the_queue() {
    let mut m = Matchmaker::new(config());
    assert_eq!(m.enqueue(request(1, 1500.0, "eu"), 0), Ok(1));
    assert_eq!(m.enqueue(request(2, 1500.0, "us"), 1), Ok(2));
    assert!(m.remove(1));
    assert_eq!(m.enqueue(request(3, 1500.0, "eu"), 2), Ok(2));
    let snapshot = m.metrics_snapshot();
    assert_eq!(snapshot.queue_depth, 2);
    assert_eq!(snapshot.total_players_queued, 3);
    assert_eq!(snapshot.total_matches_formed, 0);
    assert_eq!(m.regions_snapshot(), vec!["eu".to_string(), "us".to_string()]);
}

#[test]
fn a_player_queues_once() {
    let mut m = Matchmaker::new(config());
    assert_eq!(m.enqueue(request(1, 1500.0, "eu"), 0), Ok(1));
    assert_eq!(m.enqueue(request(1, 900.0, "us"), 1), Err(EnqueueError::DuplicateId));
    assert_eq!(m.metrics_snapshot().queue_depth, 1);
    assert_eq!(m.regions_snapshot(), vec!["eu".to_string()]);
}

#[test]
fn ratings_must_be_finite() {
    let mut m = Matchmaker::new(config());
    for rating in [f64::NAN, f64::INFINITY, f64::NEG_INFINITY] {
        assert_eq!(m.enqueue(request(1, rating, "eu"), 0), Err(EnqueueError::InvalidRating));
    }
    assert_eq!(m.metrics_snapshot().total_players_queued, 0);
    assert_eq!(m.enqueue(request(1, 1e300, "eu"), 0), Ok(1));
    assert_eq!(m.enqueue(request(1, f64::NAN, "eu"), 0), Err(EnqueueError::InvalidRating));
    let pivot = m.find_pivot(0).unwrap();
    assert_eq!(f64::from_bits(pivot.median_rating.bits), 3000.0);
}

#[test]
fn leaving_undoes_joining() {
    let mut m = Matchmaker::new(config());
    assert!(!m.remove(7));
    assert_eq!(m.enqueue(request(7, 1500.0, "eu"), 0), Ok(1));
    assert!(m.remove(7));
    assert!(!m.remove(7));
    assert_eq!(m.metrics_snapshot().queue_depth, 0);
    assert!(m.find_pivot(5).is_none());
    assert_eq!(m.enqueue(request(7, 1500.0, "eu"), 1), Ok(1));
}

#[test]
fn the_pivot_is_the_longest_waiting_player() {
    let mut m = Matchmaker::new(config());
    for (id, rating, region, at) in [
        (1, 1450.0, "eu", 30u64),
        (2, 1500.0, "eu", 20),
        (3, 1599.0, "eu", 40),
        (4, 1480.0, "us", 10),
        (5, 1700.0, "eu", 50),
        (6, 1510.0, "eu", 20),
    ] {
        assert!(m.enqueue(request(id, rating, region), at * 1_000_000_000).is_ok());
    }
    let pivot = m.find_pivot(60_500_000_000).unwrap();
    assert_eq!(pivot.region, "us");
    assert_eq!(f64::from_bits(pivot.median_rating.bits), 1480.0);
    assert_eq!(f64::from_bits(pivot.oldest_wait_secs.bits), 50.5);
    assert!(m.remove(4));
    let pivot = m.find_pivot(60_500_000_000).unwrap();
    assert_eq!(pivot.region, "eu");
    assert_eq!(f64::from_bits(pivot.median_rating.bits), 1510.0);
    assert_eq!(f64::from_bits(pivot.oldest_wait_secs.bits), 40.5);
    let early = m.find_pivot(0).unwrap();
    assert_eq!(f64::from_bits(early.oldest_wait_secs.bits), 0.0);
}

#[test]
fn routes_go_by_method_and_path() {
    assert_eq!(route(Method::Post, "/queue"), Route::Enqueue);
    assert_eq!(route(Method::Post, "/queue/"), Route::Unknown);
    assert_eq!(route(Method::Get, "/queue"), Route::Unknown);
    assert_eq!(route(Method::Delete, "/queue/17"), Route::Remove(17));
    assert_eq!(route(Method::Delete, "/queue//queue/17"), Route::Remove(17));
    assert_eq!(route(Method::Delete, "/queue/+17"), Route::Remove(17));
    assert_eq!(route(Method::Delete, "/queue/"), Route::RemoveUnreadable);
    assert_eq!(route(Method::Delete, "/queue/x"), Route::RemoveUnreadable);
    assert_eq!(route(Method::Delete, "/queue/-1"), Route::RemoveUnreadable);
    assert_eq!(route(Method::Delete, "/queue"), Route::Unknown);
    assert_eq!(route(Method::Get, "/metrics"), Route::Metrics);
    assert_eq!(route(Method::Get, "/metrics?x=1"), Route::Unknown);
    assert_eq!(route(Method::Other, "/metrics"), Route::Unknown);
}

#[test]
fn requests_are_answered() {
    let mut m = Matchmaker::new(config());
    assert_eq!(m.answer(Route::Enqueue, Some(request(5, 1500.0, "eu")), 0), Ok(Reply::Queued(1)));
    assert_eq!(
        m.answer(Route::Enqueue, Some(request(5, 1500.0, "eu")), 0),
        Err(Refusal::Enqueue(EnqueueError::DuplicateId))
    );
    assert_eq!(
        m.answer(Route::Enqueue, Some(request(6, f64::NAN, "eu")), 0),
        Err(Refusal::Enqueue(EnqueueError::InvalidRating))
    );
    assert_eq!(m.answer(Route::Enqueue, None, 0), Err(Refusal::InvalidPayload));
    assert_eq!(m.answer(Route::RemoveUnreadable, None, 0), Err(Refusal::InvalidId));
    assert_eq!(m.answer(Route::Unknown, None, 0), Err(Refusal::NotFound));
    assert_eq!(m.answer(Route::Remove(6), None, 0), Ok(Reply::Removed(false)));
    assert_eq!(m.answer(Route::Metrics, None, 0), Ok(Reply::Metrics(m.metrics_snapshot())));
    assert_eq!(m.metrics_snapshot().queue_depth, 1);
    assert_eq!(m.answer(Route::Remove(5), None, 0), Ok(Reply::Removed(true)));
    assert_eq!(m.metrics_snapshot().queue_depth, 0);
}

#[test]
fn refusals_have_a_status_and_a_text() {
    let cases = [
        (Refusal::InvalidPayload, 400, "invalid JSON payload"),
        (Refusal::InvalidId, 400, "invalid id"),
        (Refusal::NotFound, 404, "not found"),
        (Refusal::ServerBusy, 503, "server busy"),
        (Refusal::Enqueue(EnqueueError::DuplicateId), 409, "player id already queued"),
        (Refusal::Enqueue(EnqueueError::InvalidRating), 400, "skill_rating must be a finite number"),
    ];
    for (refusal, status, message) in cases {
        assert_eq!(refusal.status(), status);
        assert_eq!(refusal.message(), message);
    }
    assert_eq!(EnqueueError::DuplicateId.status(), 409);
    assert_eq!(EnqueueError::InvalidRating.message(), "skill_rating must be a finite number");
}

#[test]
fn the_metrics_response_announces_its_length() {
    for body in ["", "{}", "{\"queue_depth\":12345}", "ü"] {
        let wanted = format!(
            "HTTP/1.1 200 OK\r\nContent-Type: application/json\r\nContent-Length: {}\r\n\r\n{}",
            body.len(),
            body
        );
        assert_eq!(metrics_response(body), wanted.into_bytes());
    }
    let long = "x".repeat(1_234_567);
    assert!(metrics_response(&long).starts_with(
        b"HTTP/1.1 200 OK\r\nContent-Type: application/json\r\nContent-Length: 1234567\r\n\r\nxx"
    ));
}

#[test]
fn the_oldest_entry_is_the_longest_waiting_player() {
    let mut m = Matchmaker::new(config());
    assert_eq!(m.oldest_entry_snapshot(), None);
    assert!(m.enqueue(request(4, 1500.0, "eu"), 30).is_ok());
    assert!(m.enqueue(request(9, 3500.0, "us"), 20).is_ok());
    assert!(m.enqueue(request(2, 900.0, "us"), 20).is_ok());
    let oldest = m.oldest_entry_snapshot().unwrap();
    assert_eq!((oldest.id, oldest.region, oldest.join_timestamp), (2, 1, 20));
    assert_eq!(m.oldest_entry_snapshot(), Some(oldest));
    assert!(m.remove(2));
    let next = m.oldest_entry_snapshot().unwrap();
    assert_eq!(next.id, 9);
    assert_eq!(f64::from_bits(next.skill_rating.bits), 3000.0);
    assert!(m.enqueue(request(1, 10.0, "asia"), 5).is_ok());
    assert_eq!(m.oldest_entry_snapshot().unwrap().id, 1);
    assert!(m.remove(1));
    assert_eq!(m.oldest_entry_snapshot(), Some(next));
}
