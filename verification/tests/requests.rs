use matchmaker::requests::{next_step, ApiRequestQueue, NextStep, Popped};

#[test]
fn requests_come_out_in_order() {
    let mut queue: ApiRequestQueue<u32> = ApiRequestQueue::new();
    for i in 0..5 {
        assert!(queue.push(i).is_ok());
    }
    for i in 0..5 {
        assert!(matches!(queue.pop(false), Popped::Request(n) if n == i));
    }
    assert!(matches!(queue.pop(false), Popped::Wait));
}

#[test]
fn a_full_queue_hands_the_request_back() {
    let mut queue: ApiRequestQueue<usize> = ApiRequestQueue::new();
    for i in 0..4096 {
        assert!(queue.push(i).is_ok());
    }
    assert_eq!(queue.push(77_777), Err(77_777));
    assert!(matches!(queue.pop(false), Popped::Request(0)));
    assert_eq!(queue.push(77_777), Ok(()));
    assert_eq!(queue.push(88_888), Err(88_888));
}

#[test]
fn a_closed_queue_is_emptied_first() {
    let mut queue: ApiRequestQueue<&str> = ApiRequestQueue::new();
    assert!(queue.push("last").is_ok());
    assert!(matches!(queue.pop(true), Popped::Request("last")));
    assert!(matches!(queue.pop(true), Popped::Closed));
}

#[test]
fn workers_rest_only_without_a_match() {
    assert_eq!(next_step(true, 5), NextStep::Retry);
    assert_eq!(next_step(true, 0), NextStep::Retry);
    assert_eq!(next_step(false, 0), NextStep::YieldNow);
    assert_eq!(next_step(false, 5), NextStep::Sleep(5));
}
