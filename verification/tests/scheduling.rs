use chunked_stats::{default_worker_limit, Scheduler, Step};

#[test]
fn zero_workers_is_refused() {
    assert!(Scheduler::new(0).is_none());
    assert!(Scheduler::new(1).is_some());
}

#[test]
fn never_more_in_flight_than_the_limit() {
    for limit in 1usize..6 {
        let mut pool = Scheduler::new(limit).unwrap();
        assert_eq!(pool.limit(), limit);
        let mut tickets = Vec::new();
        for round in 0..50u64 {
            match pool.start_chunk() {
                Some(ticket) => tickets.push(ticket),
                None => {
                    assert_eq!(pool.in_flight(), limit);
                    let ticket = tickets.remove((round as usize) % tickets.len());
                    assert!(pool.complete(ticket));
                }
            }
            assert!(pool.in_flight() <= limit);
            assert_eq!(pool.in_flight(), tickets.len());
        }
    }
}

#[test]
fn tickets_count_up_from_zero() {
    let mut pool = Scheduler::new(3).unwrap();
    assert_eq!(pool.start_chunk(), Some(0));
    assert_eq!(pool.start_chunk(), Some(1));
    assert!(pool.complete(0));
    assert_eq!(pool.start_chunk(), Some(2));
    assert_eq!(pool.start_chunk(), Some(3));
    assert_eq!(pool.start_chunk(), None);
    assert_eq!(pool.in_flight(), 3);
}

#[test]
fn a_result_is_accepted_once() {
    let mut pool = Scheduler::new(2).unwrap();
    let ticket = pool.start_chunk().unwrap();
    assert!(!pool.complete(ticket + 1));
    assert_eq!(pool.in_flight(), 1);
    assert!(pool.complete(ticket));
    assert!(!pool.complete(ticket));
    assert_eq!(pool.in_flight(), 0);
}

#[test]
fn nothing_starts_after_the_input_ended() {
    let mut pool = Scheduler::new(2).unwrap();
    let ticket = pool.start_chunk().unwrap();
    pool.close();
    assert_eq!(pool.start_chunk(), None);
    assert!(!pool.is_finished());
    assert!(pool.complete(ticket));
    assert!(pool.is_finished());
    assert_eq!(pool.start_chunk(), None);
    assert!(pool.is_finished());
}

#[test]
fn driver_steps() {
    let mut pool = Scheduler::new(1).unwrap();
    assert_eq!(pool.next_step(false), Step::ReadInput);
    assert_eq!(pool.next_step(true), Step::Start);
    let ticket = pool.start_chunk().unwrap();
    assert_eq!(pool.next_step(true), Step::AwaitResult);
    assert_eq!(pool.next_step(false), Step::ReadInput);
    pool.close();
    assert_eq!(pool.next_step(false), Step::AwaitResult);
    assert!(pool.complete(ticket));
    assert_eq!(pool.next_step(false), Step::Present);
}

#[test]
fn present_only_when_finished() {
    let mut pool = Scheduler::new(2).unwrap();
    assert!(!pool.is_finished());
    pool.close();
    assert!(pool.is_finished());
    assert_eq!(pool.next_step(false), Step::Present);
}

#[test]
fn default_limit_leaves_two_cores() {
    assert_eq!(default_worker_limit(0), 1);
    assert_eq!(default_worker_limit(1), 1);
    assert_eq!(default_worker_limit(2), 1);
    assert_eq!(default_worker_limit(3), 1);
    assert_eq!(default_worker_limit(4), 2);
    assert_eq!(default_worker_limit(16), 14);
    assert_eq!(default_worker_limit(usize::MAX), usize::MAX - 2);
}
