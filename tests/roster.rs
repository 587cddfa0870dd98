use dining_philosophers::roster::{
    cyclic_roster, slots_referenced, validate_roster, Philosopher, RosterError,
};

fn names(n: usize) -> Vec<String> {
    (0..n).map(|i| format!("worker {}", i)).collect()
}

fn pairs(roster: &[Philosopher]) -> Vec<(usize, usize)> {
    roster.iter().map(|p| (p.left, p.right)).collect()
}

#[test]
fn new_keeps_fields() {
    let p = Philosopher::new("Anders", 3, 4);
    assert_eq!(p.name, "Anders");
    assert_eq!((p.left, p.right), (3, 4));
}

#[test]
fn asymmetric_cycle_of_five() {
    let r = cyclic_roster(&names(5), true);
    assert_eq!(pairs(&r), vec![(0, 1), (1, 2), (2, 3), (3, 4), (0, 4)]);
    assert_eq!(r[2].name, "worker 2");
}

#[test]
fn naive_cycle_of_five() {
    let r = cyclic_roster(&names(5), false);
    assert_eq!(pairs(&r), vec![(0, 1), (1, 2), (2, 3), (3, 4), (4, 0)]);
}

#[test]
fn cycles_of_two() {
    assert_eq!(pairs(&cyclic_roster(&names(2), true)), vec![(0, 1), (0, 1)]);
    assert_eq!(pairs(&cyclic_roster(&names(2), false)), vec![(0, 1), (1, 0)]);
}

#[test]
fn validate_accepts_cycle() {
    let r = cyclic_roster(&names(5), true);
    assert_eq!(validate_roster(&r, 5), Ok(()));
    assert_eq!(validate_roster(&Vec::new(), 0), Ok(()));
}

#[test]
fn validate_reports_slot_out_of_range() {
    let r = cyclic_roster(&names(5), true);
    assert_eq!(validate_roster(&r, 4), Err(RosterError::SlotOutOfRange { worker: 3 }));
}

#[test]
fn validate_reports_repeated_slot() {
    let r = vec![
        Philosopher::new("a", 0, 1),
        Philosopher::new("b", 2, 2),
        Philosopher::new("c", 9, 1),
    ];
    assert_eq!(validate_roster(&r, 3), Err(RosterError::RepeatedSlot { worker: 1 }));
}

#[test]
fn slots_referenced_is_one_past_highest() {
    assert_eq!(slots_referenced(&cyclic_roster(&names(5), true)), Some(5));
    assert_eq!(slots_referenced(&Vec::new()), Some(0));
    let r = vec![Philosopher::new("a", 7, 2)];
    assert_eq!(slots_referenced(&r), Some(8));
    let r = vec![Philosopher::new("a", 0, usize::MAX)];
    assert_eq!(slots_referenced(&r), None);
}
