use theos::kernel_scheduler_tests::{Pid, Priority, RunQueue};
const MAX_PER_LEVEL: usize = 16;

fn rq() -> RunQueue { RunQueue::new() }

// -- Quantum sizes --------------------------------------------------------

#[test]
fn test_quantum_p0_realtime() {
    assert_eq!(RunQueue::quantum_for(0), 2_000);
}

#[test]
fn test_quantum_p1_high() {
    assert_eq!(RunQueue::quantum_for(1), 8_000);
}

#[test]
fn test_quantum_p2_normal() {
    assert_eq!(RunQueue::quantum_for(2), 20_000);
}

#[test]
fn test_quantum_p3_low() {
    assert_eq!(RunQueue::quantum_for(3), 50_000);
}

#[test]
fn test_quantum_p4_idle_unlimited() {
    assert_eq!(RunQueue::quantum_for(4), u32::MAX);
}

#[test]
fn test_p0_quantum_less_than_p1() {
    assert!(RunQueue::quantum_for(0) < RunQueue::quantum_for(1));
}

// -- Enqueue / dequeue ----------------------------------------------------

#[test]
fn test_enqueue_succeeds() {
    let mut rq = rq();
    assert!(rq.enqueue(Pid(1), Priority::High));
}

#[test]
fn test_enqueue_increments_count() {
    let mut rq = rq();
    rq.enqueue(Pid(1), Priority::Normal);
    assert_eq!(rq.queued_at(Priority::Normal), 1);
}

#[test]
fn test_enqueue_multiple_priorities() {
    let mut rq = rq();
    rq.enqueue(Pid(1), Priority::Realtime);
    rq.enqueue(Pid(2), Priority::High);
    rq.enqueue(Pid(3), Priority::Normal);
    assert_eq!(rq.total_queued(), 3);
}

#[test]
fn test_enqueue_full_returns_false() {
    let mut rq = rq();
    for i in 0..MAX_PER_LEVEL {
        rq.enqueue(Pid(i as u32), Priority::Low);
    }
    assert!(!rq.enqueue(Pid(99), Priority::Low));
}

#[test]
fn test_dequeue_removes_pid() {
    let mut rq = rq();
    rq.enqueue(Pid(1), Priority::Normal);
    rq.dequeue_pid(Pid(1));
    assert_eq!(rq.queued_at(Priority::Normal), 0);
}

#[test]
fn test_dequeue_nonexistent_no_panic() {
    let mut rq = rq();
    rq.dequeue_pid(Pid(999)); // should not panic
}

#[test]
fn test_dequeue_middle_pid() {
    let mut rq = rq();
    rq.enqueue(Pid(1), Priority::Normal);
    rq.enqueue(Pid(2), Priority::Normal);
    rq.enqueue(Pid(3), Priority::Normal);
    rq.dequeue_pid(Pid(2));
    assert_eq!(rq.queued_at(Priority::Normal), 2);
}

// -- Priority ordering ----------------------------------------------------

#[test]
fn test_p0_scheduled_before_p1() {
    let mut rq = rq();
    rq.enqueue(Pid(10), Priority::High);
    rq.enqueue(Pid(1),  Priority::Realtime);
    let (pid, level) = rq.pick_next().unwrap();
    assert_eq!(pid, Pid(1));
    assert_eq!(level, 0);
}

#[test]
fn test_p1_scheduled_before_p2() {
    let mut rq = rq();
    rq.enqueue(Pid(20), Priority::Normal);
    rq.enqueue(Pid(10), Priority::High);
    let (pid, _) = rq.pick_next().unwrap();
    assert_eq!(pid, Pid(10));
}

#[test]
fn test_p2_scheduled_before_p3() {
    let mut rq = rq();
    rq.enqueue(Pid(30), Priority::Low);
    rq.enqueue(Pid(20), Priority::Normal);
    let (pid, _) = rq.pick_next().unwrap();
    assert_eq!(pid, Pid(20));
}

#[test]
fn test_p4_scheduled_last() {
    let mut rq = rq();
    rq.enqueue(Pid(40), Priority::Idle);
    rq.enqueue(Pid(30), Priority::Low);
    let (pid, _) = rq.pick_next().unwrap();
    assert_eq!(pid, Pid(30));
}

#[test]
fn test_empty_queue_returns_none() {
    let mut rq = rq();
    assert!(rq.pick_next().is_none());
}

// -- Round-robin within priority level ------------------------------------

#[test]
fn test_round_robin_within_level() {
    let mut rq = rq();
    rq.enqueue(Pid(1), Priority::Normal);
    rq.enqueue(Pid(2), Priority::Normal);
    rq.enqueue(Pid(3), Priority::Normal);
    let (p1, _) = rq.pick_next().unwrap();
    let (p2, _) = rq.pick_next().unwrap();
    let (p3, _) = rq.pick_next().unwrap();
    // All three should be scheduled, in FIFO order
    let scheduled = vec![p1.0, p2.0, p3.0];
    assert!(scheduled.contains(&1));
    assert!(scheduled.contains(&2));
    assert!(scheduled.contains(&3));
}

#[test]
fn test_fifo_order_within_level() {
    let mut rq = rq();
    rq.enqueue(Pid(1), Priority::High);
    rq.enqueue(Pid(2), Priority::High);
    let (first, _)  = rq.pick_next().unwrap();
    let (second, _) = rq.pick_next().unwrap();
    assert_eq!(first,  Pid(1));
    assert_eq!(second, Pid(2));
}

// -- Tick / quantum expiry ------------------------------------------------

#[test]
fn test_tick_no_switch_within_quantum() {
    let mut rq = rq();
    rq.enqueue(Pid(1), Priority::Normal);
    rq.tick(1000); // first tick picks a process
    let result = rq.tick(1000); // still within quantum
    assert!(result.is_none());
}

#[test]
fn test_tick_switches_on_quantum_expiry() {
    let mut rq = rq();
    rq.enqueue(Pid(1), Priority::Normal);
    rq.enqueue(Pid(2), Priority::Normal);
    rq.tick(1000); // picks Pid(1), quantum = 20ms
    // Exhaust quantum
    let result = rq.tick(20_000);
    assert!(result.is_some());
}

#[test]
fn test_tick_returns_none_when_empty() {
    let mut rq = rq();
    let result = rq.tick(1000);
    assert!(result.is_none());
}

#[test]
fn test_tick_sets_running_pid() {
    let mut rq = rq();
    rq.enqueue(Pid(7), Priority::High);
    rq.tick(1000);
    assert_eq!(rq.running_pid, 7);
    assert_eq!(rq.running(), 7);
}

// -- Beam switch ----------------------------------------------------------

#[test]
fn test_beam_switch_skips_normal_priority() {
    let mut rq = rq();
    rq.enqueue(Pid(20), Priority::Normal);  // net daemon
    rq.enqueue(Pid(10), Priority::High);    // compositor
    rq.beam_switch_start();
    let (pid, _) = rq.pick_next().unwrap();
    // Normal (P2) skipped -- compositor (P1) scheduled instead
    assert_eq!(pid, Pid(10));
}

#[test]
fn test_beam_switch_end_restores_normal() {
    let mut rq = rq();
    rq.enqueue(Pid(20), Priority::Normal);
    rq.beam_switch_start();
    rq.beam_switch_end();
    let (pid, _) = rq.pick_next().unwrap();
    assert_eq!(pid, Pid(20));
}

#[test]
fn test_beam_switch_does_not_skip_realtime() {
    let mut rq = rq();
    rq.enqueue(Pid(1), Priority::Realtime);
    rq.beam_switch_start();
    let (pid, _) = rq.pick_next().unwrap();
    assert_eq!(pid, Pid(1)); // P0 always runs
}

#[test]
fn test_beam_switch_does_not_skip_high() {
    let mut rq = rq();
    rq.enqueue(Pid(10), Priority::High);
    rq.beam_switch_start();
    let (pid, _) = rq.pick_next().unwrap();
    assert_eq!(pid, Pid(10)); // P1 compositor always runs
}

#[test]
fn test_beam_switch_only_normal_p2_skipped() {
    let mut rq = rq();
    rq.enqueue(Pid(20), Priority::Normal); // skipped
    rq.enqueue(Pid(30), Priority::Low);    // not skipped
    rq.beam_switch_start();
    let (pid, _) = rq.pick_next().unwrap();
    assert_eq!(pid, Pid(30)); // P3 runs, P2 skipped
}

// -- Priority enum ordering -----------------------------------------------

#[test]
fn test_priority_ordering() {
    assert!(Priority::Realtime < Priority::High);
    assert!(Priority::High     < Priority::Normal);
    assert!(Priority::Normal   < Priority::Low);
    assert!(Priority::Low      < Priority::Idle);
}

#[test]
fn test_priority_values() {
    assert_eq!(Priority::Realtime as usize, 0);
    assert_eq!(Priority::High     as usize, 1);
    assert_eq!(Priority::Normal   as usize, 2);
    assert_eq!(Priority::Low      as usize, 3);
    assert_eq!(Priority::Idle     as usize, 4);
}


#[test]
fn realtime_process_preempts_at_once() {
    let mut rq = RunQueue::new();
    rq.enqueue(Pid(20), Priority::Normal);
    assert_eq!(rq.tick(1000), Some(Pid(20)));
    rq.enqueue(Pid(1), Priority::Realtime);
    assert_eq!(rq.tick(1000), Some(Pid(1)));
    assert_eq!(rq.running_pid, 1);
    // a process of the same or lower level waits for the quantum
    rq.enqueue(Pid(2), Priority::Realtime);
    assert_eq!(rq.tick(1000), None);
    assert_eq!(rq.tick(1000), Some(Pid(2)));
}
