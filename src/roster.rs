use vstd::prelude::*;

verus! {

/// A worker: a display name and the two resource slots it needs at once.
/// It takes `left` first and `right` second.
pub struct Philosopher {
    pub name: String,
    pub left: usize,
    pub right: usize,
}

impl Philosopher {
    pub fn new(name: &str, left: usize, right: usize) -> (p: Philosopher)
        ensures
            p.name@ == name@,
            p.left == left,
            p.right == right,
    {
        proof {
            broadcast use vstd::string::group_string_axioms;
        }
        Philosopher { name: name.to_string(), left, right }
    }
}

/// First slot taken by worker `i` of a cycle of `n`. Worker `i` needs slots
/// `i` and `i + 1`, and the last one needs slots `n - 1` and `0`; in the
/// asymmetric cycle the last one takes the lower slot first.
pub open spec fn cycle_left(n: nat, i: nat, asymmetric: bool) -> nat {
    if i + 1 < n {
        i
    } else if asymmetric {
        0
    } else {
        i
    }
}

/// Second slot taken by worker `i` of a cycle of `n`.
pub open spec fn cycle_right(n: nat, i: nat, asymmetric: bool) -> nat {
    if i + 1 < n {
        i + 1
    } else if asymmetric {
        i
    } else {
        0
    }
}

/// The roster is the cycle of its length, asymmetric or naive.
pub open spec fn is_cycle(roster: Seq<Philosopher>, asymmetric: bool) -> bool {
    forall|i: int|
        0 <= i < roster.len() ==> {
            &&& roster[i].left == cycle_left(roster.len(), i as nat, asymmetric)
            &&& roster[i].right == cycle_right(roster.len(), i as nat, asymmetric)
        }
}

/// Every worker takes its lower slot first: one global order of acquisition.
pub open spec fn is_ordered(roster: Seq<Philosopher>) -> bool {
    forall|i: int| 0 <= i < roster.len() ==> roster[i].left < roster[i].right
}

/// Builds the cycle roster over `names`: worker `i` needs slots `i` and
/// `i + 1`, the last worker slots `n - 1` and `0`. With `asymmetric` the last
/// worker takes slot `0` before slot `n - 1`, which breaks the circular wait.
pub fn cyclic_roster(names: &Vec<String>, asymmetric: bool) -> (r: Vec<Philosopher>)
    requires
        names@.len() >= 2,
    ensures
        r@.len() == names@.len(),
        is_cycle(r@, asymmetric),
        forall|i: int| 0 <= i < r@.len() ==> r@[i].name@ == names@[i]@,
{
    let n = names.len();
    let mut r: Vec<Philosopher> = Vec::new();
    let mut i: usize = 0;
    while i < n
        invariant
            n == names@.len(),
            n >= 2,
            i <= n,
            r@.len() == i,
            forall|j: int|
                0 <= j < i ==> {
                    &&& r@[j].left == cycle_left(n as nat, j as nat, asymmetric)
                    &&& r@[j].right == cycle_right(n as nat, j as nat, asymmetric)
                    &&& r@[j].name@ == names@[j]@
                },
        decreases n - i,
    {
        let (left, right) = if i + 1 < n {
            (i, i + 1)
        } else if asymmetric {
            (0, i)
        } else {
            (i, 0)
        };
        r.push(Philosopher::new(names[i].as_str(), left, right));
        i = i + 1;
    }
    r
}

/// A roster that names a slot the table lacks, or one slot twice.
#[derive(Debug, Clone, Copy, PartialEq, Eq, Structural)]
pub enum RosterError {
    SlotOutOfRange { worker: usize },
    RepeatedSlot { worker: usize },
}

/// What is wrong with worker `w`, if anything, on a table of `slots` slots.
pub open spec fn worker_fault(p: Philosopher, w: usize, slots: nat) -> Option<RosterError> {
    if p.left >= slots || p.right >= slots {
        Some(RosterError::SlotOutOfRange { worker: w })
    } else if p.left == p.right {
        Some(RosterError::RepeatedSlot { worker: w })
    } else {
        None
    }
}

/// Every worker names two distinct slots of a table of `slots` slots.
pub open spec fn fits_table(roster: Seq<Philosopher>, slots: nat) -> bool {
    forall|i: int|
        0 <= i < roster.len() ==> roster[i].left < slots && roster[i].right < slots
            && roster[i].left != roster[i].right
}

/// `e` is the fault of the first faulty worker of the roster.
pub open spec fn first_fault(roster: Seq<Philosopher>, slots: nat, e: RosterError) -> bool {
    exists|w: usize|
        {
            &&& w < roster.len()
            &&& worker_fault(roster[w as int], w, slots) == Some(e)
            &&& forall|j: int| 0 <= j < w ==> worker_fault(roster[j], j as usize, slots) is None
        }
}

/// Checks a roster against a table of `slots` slots, before anything runs.
/// The error names the first faulty worker.
pub fn validate_roster(roster: &Vec<Philosopher>, slots: usize) -> (r: Result<(), RosterError>)
    ensures
        r is Ok <==> fits_table(roster@, slots as nat),
        r matches Err(e) ==> first_fault(roster@, slots as nat, e),
{
    let mut i: usize = 0;
    while i < roster.len()
        invariant
            i <= roster@.len(),
            forall|j: int| 0 <= j < i ==> worker_fault(roster@[j], j as usize, slots as nat) is None,
        decreases roster@.len() - i,
    {
        let p = &roster[i];
        if p.left >= slots || p.right >= slots {
            return Err(RosterError::SlotOutOfRange { worker: i });
        }
        if p.left == p.right {
            return Err(RosterError::RepeatedSlot { worker: i });
        }
        i = i + 1;
    }
    Ok(())
}

/// The highest slot index that the roster names, or -1 for an empty roster.
pub open spec fn max_slot(roster: Seq<Philosopher>) -> int
    decreases roster.len(),
{
    if roster.len() == 0 {
        -1
    } else {
        let p = roster.last();
        let m = max_slot(roster.drop_last());
        let hi: int = if p.left >= p.right { p.left as int } else { p.right as int };
        if m >= hi { m } else { hi }
    }
}

/// The size of table that the roster refers to: one past its highest slot
/// index, or `None` where that does not fit in a `usize`.
pub fn slots_referenced(roster: &Vec<Philosopher>) -> (r: Option<usize>)
    ensures
        r is Some <==> max_slot(roster@) < usize::MAX,
        r matches Some(k) ==> k == max_slot(roster@) + 1,
{
    let mut m: usize = 0;
    let mut any: bool = false;
    let mut i: usize = 0;
    while i < roster.len()
        invariant
            i <= roster@.len(),
            any <==> i > 0,
            any ==> m == max_slot(roster@.subrange(0, i as int)),
            !any ==> max_slot(roster@.subrange(0, i as int)) == -1,
        decreases roster@.len() - i,
    {
        let p = &roster[i];
        let hi = if p.left >= p.right { p.left } else { p.right };
        proof {
            assert(roster@.subrange(0, i + 1).drop_last() == roster@.subrange(0, i as int));
        }
        if !any || hi > m {
            m = hi;
        }
        any = true;
        i = i + 1;
    }
    proof {
        assert(roster@.subrange(0, roster@.len() as int) == roster@);
    }
    if !any {
        Some(0)
    } else if m == usize::MAX {
        None
    } else {
        Some(m + 1)
    }
}

} // verus!
