use dining_philosophers::protocol::{simulate, Phase, TableState};
use dining_philosophers::roster::{cyclic_roster, Philosopher, RosterError};
use rand::Rng;

fn names(n: usize) -> Vec<String> {
    (0..n).map(|i| format!("worker {}", i)).collect()
}

fn holds(p: &Philosopher, ph: Phase, s: usize) -> bool {
    (matches!(ph, Phase::HoldingLeft | Phase::HoldingBoth) && p.left == s)
        || (ph == Phase::HoldingBoth && p.right == s)
}

fn assert_all_finished_once(c: &[usize], n: usize) {
    assert_eq!(c.len(), n);
    let mut seen = vec![false; n];
    for &w in c {
        assert!(!seen[w], "worker {} finished twice", w);
        seen[w] = true;
    }
}

#[test]
fn five_workers_asymmetric_always_complete() {
    let roster = cyclic_roster(&names(5), true);
    for _ in 0..1000 {
        let c = simulate(&roster, 5).unwrap();
        assert_all_finished_once(&c, 5);
    }
}

#[test]
fn asymmetric_cycles_of_many_sizes_complete() {
    for n in 2..12 {
        let roster = cyclic_roster(&names(n), true);
        for _ in 0..100 {
            let c = simulate(&roster, n).unwrap();
            assert_all_finished_once(&c, n);
        }
    }
}

#[test]
fn simulate_rejects_bad_roster() {
    let roster = cyclic_roster(&names(5), true);
    assert_eq!(simulate(&roster, 3), Err(RosterError::SlotOutOfRange { worker: 2 }));
}

#[test]
fn naive_cycle_deadlocks_when_all_take_first_slot() {
    let roster = cyclic_roster(&names(5), false);
    let mut t = TableState::new(5, 5);
    for w in 0..5 {
        assert!(t.step(&roster, w));
    }
    for w in 0..5 {
        assert_eq!(t.phases[w], Phase::HoldingLeft);
        assert!(!t.can_step(&roster, w));
    }
    assert!(t.enabled_workers(&roster).is_empty());
}

#[test]
fn naive_cycle_under_stress_sometimes_stalls() {
    let roster = cyclic_roster(&names(2), false);
    let mut stalled = 0;
    for _ in 0..500 {
        let c = simulate(&roster, 2).unwrap();
        if c.len() < 2 {
            stalled += 1;
        }
    }
    assert!(stalled > 0);
}

#[test]
fn at_most_one_holder_per_slot_in_random_runs() {
    let mut rng = rand::thread_rng();
    for n in 2..8 {
        let roster = cyclic_roster(&names(n), true);
        for _ in 0..50 {
            let mut t = TableState::new(n, n);
            loop {
                let enabled = t.enabled_workers(&roster);
                if enabled.is_empty() {
                    break;
                }
                let w = enabled[rng.gen_range(0..enabled.len())];
                assert!(t.step(&roster, w));
                for s in 0..n {
                    let count = (0..n).filter(|&x| holds(&roster[x], t.phases[x], s)).count();
                    assert!(count <= 1);
                    match t.holders[s] {
                        Some(h) => assert!(count == 1 && holds(&roster[h], t.phases[h], s)),
                        None => assert_eq!(count, 0),
                    }
                }
            }
            assert!(t.phases.iter().all(|&p| p == Phase::Done));
        }
    }
}

#[test]
fn step_moves_through_the_protocol() {
    let roster = cyclic_roster(&names(3), true);
    let mut t = TableState::new(3, 3);
    assert!(t.step(&roster, 1));
    assert_eq!(t.phases[1], Phase::HoldingLeft);
    assert_eq!(t.holders[1], Some(1));
    assert!(t.step(&roster, 0));
    assert_eq!(t.phases[0], Phase::HoldingLeft);
    assert_eq!(t.holders[0], Some(0));
    assert!(!t.can_step(&roster, 0));
    assert!(t.step(&roster, 1));
    assert_eq!(t.phases[1], Phase::HoldingBoth);
    assert!(t.step(&roster, 1));
    assert_eq!(t.phases[1], Phase::Done);
    assert_eq!(t.holders[1], None);
    assert_eq!(t.holders[2], None);
    assert!(!t.step(&roster, 1));
    assert_eq!(t.phases[1], Phase::Done);
}

#[test]
fn failed_worker_releases_its_slots() {
    let roster = cyclic_roster(&names(5), true);
    let mut t = TableState::new(5, 5);
    assert!(t.step(&roster, 2));
    assert!(t.step(&roster, 2));
    assert_eq!(t.phases[2], Phase::HoldingBoth);
    assert!(t.step(&roster, 1));
    assert!(!t.can_step(&roster, 1));
    t.fail(&roster, 2);
    assert_eq!(t.phases[2], Phase::Failed);
    assert_eq!(t.holders[2], None);
    assert_eq!(t.holders[3], None);
    assert!(t.can_step(&roster, 1));
    assert!(t.step(&roster, 3));
    assert_eq!(t.holders[3], Some(3));
    let c = t.run_random_schedule(&roster);
    let mut finished = c.clone();
    finished.sort();
    assert_eq!(finished, vec![0, 1, 3, 4]);
    assert_eq!(t.phases[2], Phase::Failed);
    assert!(t.holders.iter().all(|h| h.is_none()));
}

#[test]
fn failing_an_ended_worker_changes_nothing() {
    let roster = cyclic_roster(&names(2), true);
    let mut t = TableState::new(2, 2);
    t.fail(&roster, 0);
    assert_eq!(t.phases[0], Phase::Failed);
    t.fail(&roster, 0);
    assert_eq!(t.phases[0], Phase::Failed);
    let c = t.run_random_schedule(&roster);
    assert_eq!(c, vec![1]);
}
