use rand::Rng;
use vstd::prelude::*;
use crate::roster::{Philosopher, RosterError, first_fault, fits_table, is_cycle, is_ordered, validate_roster};

verus! {

/// Where a worker stands in its one pass of the protocol.
#[derive(Debug, Clone, Copy, PartialEq, Eq, Structural)]
pub enum Phase {
    /// Has taken nothing yet; waits for its left slot.
    Idle,
    /// Holds its left slot; waits for its right slot.
    HoldingLeft,
    /// Holds both slots and performs its activity.
    HoldingBoth,
    /// Finished its activity and released both slots.
    Done,
    /// Stopped abnormally; whatever it held was released.
    Failed,
}

/// The worker has not reached an end of its protocol.
pub open spec fn is_active(ph: Phase) -> bool {
    ph is Idle || ph is HoldingLeft || ph is HoldingBoth
}

/// A worker of this phase holds slot `s`.
pub open spec fn holds(p: Philosopher, ph: Phase, s: int) -> bool {
    ((ph is HoldingLeft || ph is HoldingBoth) && p.left == s) || (ph is HoldingBoth && p.right
        == s)
}

/// The slot a worker of this phase waits for next.
pub open spec fn wanted(p: Philosopher, ph: Phase) -> int {
    if ph is Idle {
        p.left as int
    } else {
        p.right as int
    }
}

/// Steps still ahead of a worker of this phase.
pub open spec fn rank(ph: Phase) -> nat {
    match ph {
        Phase::Idle => 3,
        Phase::HoldingLeft => 2,
        Phase::HoldingBoth => 1,
        _ => 0,
    }
}

/// Steps still ahead of all workers together.
pub open spec fn remaining(phases: Seq<Phase>) -> nat
    decreases phases.len(),
{
    if phases.len() == 0 {
        0
    } else {
        remaining(phases.drop_last()) + rank(phases.last())
    }
}

/// The abstract table: who holds each slot, and each worker's phase.
pub struct TableView {
    pub holders: Seq<Option<usize>>,
    pub phases: Seq<Phase>,
}

impl TableView {
    /// Every slot that a worker holds records that worker, and every recorded
    /// holder holds that slot by its phase.
    pub open spec fn wf(self, roster: Seq<Philosopher>) -> bool {
        &&& fits_table(roster, self.holders.len())
        &&& self.phases.len() == roster.len()
        &&& roster.len() <= usize::MAX
        &&& forall|s: int|
            0 <= s < self.holders.len() ==> (#[trigger] self.holders[s] matches Some(w) ==> w
                < roster.len() && holds(roster[w as int], self.phases[w as int], s))
        &&& forall|w: int, s: int|
            0 <= w < roster.len() && 0 <= s < self.holders.len() && #[trigger] holds(
                roster[w],
                self.phases[w],
                s,
            ) ==> self.held_by(s, w)
    }

    /// Slot `s` is recorded as held by worker `w`.
    pub open spec fn held_by(self, s: int, w: int) -> bool {
        self.holders[s] matches Some(h) && h as int == w
    }

    /// Worker `w` can move on now.
    pub open spec fn enabled(self, roster: Seq<Philosopher>, w: int) -> bool {
        match self.phases[w] {
            Phase::Idle => self.holders[roster[w].left as int] is None,
            Phase::HoldingLeft => self.holders[roster[w].right as int] is None,
            Phase::HoldingBoth => true,
            _ => false,
        }
    }

    /// The table after worker `w` tries to move on: it takes its left slot,
    /// then its right slot, then finishes and releases both. A worker that
    /// cannot move leaves the table as it was.
    pub open spec fn after_step(self, roster: Seq<Philosopher>, w: int) -> TableView {
        let p = roster[w];
        if !self.enabled(roster, w) {
            self
        } else {
            match self.phases[w] {
                Phase::Idle => TableView {
                    holders: self.holders.update(p.left as int, Some(w as usize)),
                    phases: self.phases.update(w, Phase::HoldingLeft),
                },
                Phase::HoldingLeft => TableView {
                    holders: self.holders.update(p.right as int, Some(w as usize)),
                    phases: self.phases.update(w, Phase::HoldingBoth),
                },
                _ => TableView {
                    holders: self.holders.update(p.left as int, None).update(p.right as int, None),
                    phases: self.phases.update(w, Phase::Done),
                },
            }
        }
    }

    /// The table after worker `w` stops abnormally: it releases what it holds.
    /// A worker that has already ended is left as it was.
    pub open spec fn after_failure(self, roster: Seq<Philosopher>, w: int) -> TableView {
        let p = roster[w];
        match self.phases[w] {
            Phase::Idle => TableView { holders: self.holders, phases: self.phases.update(w, Phase::Failed) },
            Phase::HoldingLeft => TableView {
                holders: self.holders.update(p.left as int, None),
                phases: self.phases.update(w, Phase::Failed),
            },
            Phase::HoldingBoth => TableView {
                holders: self.holders.update(p.left as int, None).update(p.right as int, None),
                phases: self.phases.update(w, Phase::Failed),
            },
            _ => self,
        }
    }

    /// Some worker has not ended.
    pub open spec fn has_active(self) -> bool {
        exists|w: int| 0 <= w < self.phases.len() && is_active(#[trigger] self.phases[w])
    }

    /// Some worker can move on.
    pub open spec fn has_enabled(self, roster: Seq<Philosopher>) -> bool {
        exists|w: int| 0 <= w < self.phases.len() && #[trigger] self.enabled(roster, w)
    }

    /// Some worker has not ended and none can move on: a deadlock.
    pub open spec fn stuck(self, roster: Seq<Philosopher>) -> bool {
        self.has_active() && !self.has_enabled(roster)
    }
}

/// The table before any worker starts: every slot free, every worker idle.
pub open spec fn initial_view(workers: nat, slots: nat) -> TableView {
    TableView { holders: Seq::new(slots, |s: int| None), phases: Seq::new(workers, |w: int| Phase::Idle) }
}

/// The table after the workers of `schedule` try to move on, in that order.
pub open spec fn run(v: TableView, roster: Seq<Philosopher>, schedule: Seq<int>) -> TableView
    decreases schedule.len(),
{
    if schedule.len() == 0 {
        v
    } else {
        run(v, roster, schedule.drop_last()).after_step(roster, schedule.last())
    }
}

pub proof fn lemma_initial_wf(roster: Seq<Philosopher>, slots: nat)
    requires
        fits_table(roster, slots),
        roster.len() <= usize::MAX,
    ensures
        initial_view(roster.len(), slots).wf(roster),
{
}

pub proof fn lemma_step_wf(v: TableView, roster: Seq<Philosopher>, w: int)
    requires
        v.wf(roster),
        0 <= w < roster.len(),
    ensures
        v.after_step(roster, w).wf(roster),
{
    let n = v.after_step(roster, w);
    let p = roster[w];
    if v.enabled(roster, w) {
        assert(p.left != p.right && p.left < v.holders.len() && p.right < v.holders.len());
        assert(holds(p, v.phases[w], p.left as int) ==> v.held_by(p.left as int, w));
        assert(holds(p, v.phases[w], p.right as int) ==> v.held_by(p.right as int, w));
        lemma_change_wf(v, n, roster, w);
    }
}

pub proof fn lemma_failure_wf(v: TableView, roster: Seq<Philosopher>, w: int)
    requires
        v.wf(roster),
        0 <= w < roster.len(),
    ensures
        v.after_failure(roster, w).wf(roster),
{
    let n = v.after_failure(roster, w);
    let p = roster[w];
    if is_active(v.phases[w]) {
        assert(p.left != p.right && p.left < v.holders.len() && p.right < v.holders.len());
        lemma_change_wf(v, n, roster, w);
    }
}

/// A change of worker `w`'s phase keeps the table well formed when exactly
/// the slots it gains are recorded as its own, exactly the slots it gives up
/// are freed, and nothing else moves.
proof fn lemma_change_wf(v: TableView, n: TableView, roster: Seq<Philosopher>, w: int)
    requires
        v.wf(roster),
        0 <= w < roster.len(),
        n.phases.len() == v.phases.len(),
        n.phases == v.phases.update(w, n.phases[w]),
        n.holders.len() == v.holders.len(),
        forall|s: int|
            0 <= s < v.holders.len() ==> {
                &&& holds(roster[w], n.phases[w], s) ==> n.held_by(s, w)
                &&& !holds(roster[w], n.phases[w], s) && holds(roster[w], v.phases[w], s)
                    ==> n.holders[s] is None
                &&& !holds(roster[w], n.phases[w], s) && !holds(roster[w], v.phases[w], s)
                    ==> n.holders[s] == v.holders[s]
                &&& holds(roster[w], n.phases[w], s) && !holds(roster[w], v.phases[w], s)
                    ==> v.holders[s] is None
            },
    ensures
        n.wf(roster),
{
    assert forall|s: int| 0 <= s < n.holders.len() implies (#[trigger] n.holders[s] matches Some(
        x,
    ) ==> x < roster.len() && holds(roster[x as int], n.phases[x as int], s)) by {
        if let Some(x) = v.holders[s] {
            assert(holds(roster[x as int], v.phases[x as int], s));
        }
    }
    assert forall|x: int, s: int|
        0 <= x < roster.len() && 0 <= s < n.holders.len() && #[trigger] holds(
            roster[x],
            n.phases[x],
            s,
        ) implies n.held_by(s, x) by {
        if x != w {
            assert(holds(roster[x], v.phases[x], s));
            assert(v.held_by(s, x));
        }
    }
}

/// A worker that waits, in a roster where everyone takes the lower slot
/// first, leads to a worker that can move on: follow the holder of the slot
/// it waits for; each such holder waits for a higher slot.
proof fn lemma_enabled_from(v: TableView, roster: Seq<Philosopher>, w: int) -> (u: int)
    requires
        v.wf(roster),
        is_ordered(roster),
        0 <= w < roster.len(),
        is_active(v.phases[w]),
    ensures
        0 <= u < roster.len(),
        v.enabled(roster, u),
    decreases v.holders.len() - wanted(roster[w], v.phases[w]),
{
    let p = roster[w];
    let s = wanted(p, v.phases[w]);
    if v.phases[w] is HoldingBoth {
        w
    } else if v.holders[s] is None {
        w
    } else {
        let x = v.holders[s]->Some_0 as int;
        assert(holds(roster[x], v.phases[x], s));
        if v.phases[x] is HoldingBoth {
            x
        } else {
            lemma_enabled_from(v, roster, x)
        }
    }
}

/// Where every worker takes its lower slot first, no well-formed table is
/// deadlocked: while some worker has not ended, some worker can move on.
pub proof fn lemma_ordered_never_stuck(v: TableView, roster: Seq<Philosopher>)
    requires
        v.wf(roster),
        is_ordered(roster),
    ensures
        !v.stuck(roster),
{
    if v.has_active() {
        let w = choose|w: int| 0 <= w < v.phases.len() && is_active(#[trigger] v.phases[w]);
        let u = lemma_enabled_from(v, roster, w);
        assert(v.enabled(roster, u));
    }
}

/// In the asymmetric cycle every worker takes its lower slot first.
pub proof fn lemma_asymmetric_cycle_ordered(roster: Seq<Philosopher>)
    requires
        is_cycle(roster, true),
        roster.len() >= 2,
    ensures
        is_ordered(roster),
{
}

/// The asymmetric cycle of any size from two up never deadlocks: in every
/// well-formed table over it, while some worker has not ended, some worker
/// can move on.
pub proof fn lemma_asymmetric_cycle_never_stuck(v: TableView, roster: Seq<Philosopher>)
    requires
        is_cycle(roster, true),
        roster.len() >= 2,
        v.wf(roster),
    ensures
        !v.stuck(roster),
{
    lemma_asymmetric_cycle_ordered(roster);
    lemma_ordered_never_stuck(v, roster);
}

/// Every move brings a worker one step closer to its end.
pub proof fn lemma_step_progress(v: TableView, roster: Seq<Philosopher>, w: int)
    requires
        v.wf(roster),
        0 <= w < roster.len(),
        v.enabled(roster, w),
    ensures
        remaining(v.after_step(roster, w).phases) + 1 == remaining(v.phases),
{
    let n = v.after_step(roster, w);
    lemma_remaining_update(v.phases, w, n.phases[w]);
}

proof fn lemma_remaining_update(phases: Seq<Phase>, w: int, ph: Phase)
    requires
        0 <= w < phases.len(),
    ensures
        remaining(phases.update(w, ph)) + rank(phases[w]) == remaining(phases) + rank(ph),
    decreases phases.len(),
{
    let u = phases.update(w, ph);
    if w == phases.len() - 1 {
        assert(u.drop_last() =~= phases.drop_last());
    } else {
        assert(u.drop_last() =~= phases.drop_last().update(w, ph));
        lemma_remaining_update(phases.drop_last(), w, ph);
    }
}

/// A fresh table has three moves ahead of each worker; as every move takes
/// one off, no run from it lasts more than three moves per worker.
pub proof fn lemma_initial_remaining(workers: nat, slots: nat)
    ensures
        remaining(initial_view(workers, slots).phases) == 3 * workers,
    decreases workers,
{
    if workers > 0 {
        assert(initial_view(workers, slots).phases.drop_last() =~= initial_view(
            (workers - 1) as nat,
            slots,
        ).phases);
        lemma_initial_remaining((workers - 1) as nat, slots);
    }
}

/// Every run from the initial table keeps it well formed.
pub proof fn lemma_run_wf(roster: Seq<Philosopher>, slots: nat, schedule: Seq<int>)
    requires
        fits_table(roster, slots),
        roster.len() <= usize::MAX,
        forall|i: int| 0 <= i < schedule.len() ==> 0 <= #[trigger] schedule[i] < roster.len(),
    ensures
        run(initial_view(roster.len(), slots), roster, schedule).wf(roster),
    decreases schedule.len(),
{
    if schedule.len() == 0 {
        lemma_initial_wf(roster, slots);
    } else {
        let prefix = schedule.drop_last();
        assert forall|i: int| 0 <= i < prefix.len() implies 0 <= #[trigger] prefix[i]
            < roster.len() by {
            assert(prefix[i] == schedule[i]);
        }
        lemma_run_wf(roster, slots, prefix);
        lemma_step_wf(
            run(initial_view(roster.len(), slots), roster, prefix),
            roster,
            schedule.last(),
        );
    }
}

/// Mutual exclusion: in every table reached from the initial one, whatever
/// the order in which workers move, at most one worker holds each slot.
pub proof fn lemma_mutual_exclusion(
    roster: Seq<Philosopher>,
    slots: nat,
    schedule: Seq<int>,
    s: int,
    w1: int,
    w2: int,
)
    requires
        fits_table(roster, slots),
        roster.len() <= usize::MAX,
        forall|i: int| 0 <= i < schedule.len() ==> 0 <= #[trigger] schedule[i] < roster.len(),
        0 <= s < slots,
        0 <= w1 < roster.len(),
        0 <= w2 < roster.len(),
        holds(roster[w1], run(initial_view(roster.len(), slots), roster, schedule).phases[w1], s),
        holds(roster[w2], run(initial_view(roster.len(), slots), roster, schedule).phases[w2], s),
    ensures
        w1 == w2,
{
    lemma_run_wf(roster, slots, schedule);
    let v = run(initial_view(roster.len(), slots), roster, schedule);
    assert(v.held_by(s, w1));
    assert(v.held_by(s, w2));
}

/// A worker that has ended stays as it ended, whoever moves or fails next.
pub proof fn lemma_ended_stays(v: TableView, roster: Seq<Philosopher>, w: int, x: int)
    requires
        v.wf(roster),
        0 <= w < roster.len(),
        0 <= x < roster.len(),
        !is_active(v.phases[x]),
    ensures
        v.after_step(roster, w).phases[x] == v.phases[x],
        v.after_failure(roster, w).phases[x] == v.phases[x],
{
}

/// A worker that stops abnormally releases every slot it held, so that the
/// next worker to ask for one gets it; the other workers' phases are kept.
pub proof fn lemma_failure_releases(v: TableView, roster: Seq<Philosopher>, w: int)
    requires
        v.wf(roster),
        0 <= w < roster.len(),
    ensures
        forall|s: int|
            0 <= s < v.holders.len() ==> !(#[trigger] v.after_failure(roster, w).held_by(s, w)),
        forall|s: int|
            0 <= s < v.holders.len() && holds(roster[w], v.phases[w], s) ==> (
            #[trigger] v.after_failure(roster, w).holders[s]) is None,
        forall|x: int| 0 <= x < roster.len() && x != w ==> #[trigger] v.after_failure(roster, w).phases[x] == v.phases[x],
        is_active(v.phases[w]) ==> v.after_failure(roster, w).phases[w] is Failed,
{
    let n = v.after_failure(roster, w);
    lemma_failure_wf(v, roster, w);
    assert forall|s: int| 0 <= s < v.holders.len() implies !(#[trigger] n.held_by(s, w)) by {
        if n.held_by(s, w) {
            assert(holds(roster[w], n.phases[w], s));
        }
    }
}

/// The table where workers `0 .. k` of the naive cycle hold their first slot.
spec fn naive_prefix_view(workers: nat, slots: nat, k: int) -> TableView {
    TableView {
        holders: Seq::new(slots, |s: int| if s < k { Some(s as usize) } else { None }),
        phases: Seq::new(workers, |i: int| if i < k { Phase::HoldingLeft } else { Phase::Idle }),
    }
}

proof fn lemma_naive_prefix(roster: Seq<Philosopher>, slots: nat, k: int)
    requires
        is_cycle(roster, false),
        roster.len() >= 2,
        roster.len() <= usize::MAX,
        fits_table(roster, slots),
        0 <= k <= roster.len(),
    ensures
        run(initial_view(roster.len(), slots), roster, Seq::new(k as nat, |i: int| i))
            == naive_prefix_view(roster.len(), slots, k),
    decreases k,
{
    let n = roster.len();
    let sched = Seq::new(k as nat, |i: int| i);
    if k == 0 {
        assert(initial_view(n, slots).holders =~= naive_prefix_view(n, slots, 0).holders);
        assert(initial_view(n, slots).phases =~= naive_prefix_view(n, slots, 0).phases);
    } else {
        assert(sched.drop_last() =~= Seq::new((k - 1) as nat, |i: int| i));
        lemma_naive_prefix(roster, slots, k - 1);
        let before = naive_prefix_view(n, slots, k - 1);
        let after = before.after_step(roster, k - 1);
        assert(roster[k - 1].left == k - 1);
        assert(before.enabled(roster, k - 1));
        assert(after.holders =~= naive_prefix_view(n, slots, k).holders);
        assert(after.phases =~= naive_prefix_view(n, slots, k).phases);
    }
}

/// The naive cycle, where the last worker also takes slot `n - 1` before slot
/// `0`, can deadlock: once each worker in turn takes its first slot, every
/// worker waits for a slot its neighbour holds, and none can move on.
pub proof fn lemma_naive_cycle_deadlocks(roster: Seq<Philosopher>, slots: nat)
    requires
        is_cycle(roster, false),
        roster.len() >= 2,
        roster.len() <= usize::MAX,
        fits_table(roster, slots),
    ensures
        run(initial_view(roster.len(), slots), roster, Seq::new(roster.len(), |i: int| i)).stuck(
            roster,
        ),
{
    let n = roster.len();
    lemma_naive_prefix(roster, slots, n as int);
    let v = naive_prefix_view(n, slots, n as int);
    assert(is_active(v.phases[0]));
    assert forall|w: int| 0 <= w < v.phases.len() implies !(#[trigger] v.enabled(roster, w)) by {
        let r = roster[w].right as int;
        if w + 1 < n {
            assert(r == w + 1);
        } else {
            assert(r == 0);
        }
        assert(v.holders[r] == Some(r as usize));
    }
}

proof fn lemma_push_contains(s: Seq<usize>, a: usize, x: usize)
    ensures
        s.push(a).contains(x) == (s.contains(x) || x == a),
{
    if s.push(a).contains(x) && x != a {
        let i = choose|i: int| 0 <= i < s.push(a).len() && s.push(a)[i] == x;
        assert(s[i] == x);
    }
    if s.contains(x) {
        let i = choose|i: int| 0 <= i < s.len() && s[i] == x;
        assert(s.push(a)[i] == x);
    }
    assert(s.push(a)[s.len() as int] == a);
}

/// The table as the workers share it: the holder of each slot, and the phase
/// of each worker.
pub struct TableState {
    pub holders: Vec<Option<usize>>,
    pub phases: Vec<Phase>,
}

impl View for TableState {
    type V = TableView;

    open spec fn view(&self) -> TableView {
        TableView { holders: self.holders@, phases: self.phases@ }
    }
}

/// Relies on rand::Rng::gen_range over rand::thread_rng: a value drawn from
/// the half-open range `0 .. n`, which must not be empty.
#[verifier::external_body]
fn random_below(n: usize) -> (r: usize)
    requires
        n > 0,
    ensures
        r < n,
{
    rand::thread_rng().gen_range(0..n)
}

impl TableState {
    /// A table of `slots` free slots and `workers` idle workers.
    pub fn new(workers: usize, slots: usize) -> (t: TableState)
        ensures
            t@ == initial_view(workers as nat, slots as nat),
    {
        let mut holders: Vec<Option<usize>> = Vec::new();
        let mut s: usize = 0;
        while s < slots
            invariant
                s <= slots,
                holders@ == Seq::new(s as nat, |i: int| None::<usize>),
            decreases slots - s,
        {
            holders.push(None);
            s = s + 1;
            assert(holders@ =~= Seq::new(s as nat, |i: int| None::<usize>));
        }
        let mut phases: Vec<Phase> = Vec::new();
        let mut w: usize = 0;
        while w < workers
            invariant
                w <= workers,
                phases@ == Seq::new(w as nat, |i: int| Phase::Idle),
            decreases workers - w,
        {
            phases.push(Phase::Idle);
            w = w + 1;
            assert(phases@ =~= Seq::new(w as nat, |i: int| Phase::Idle));
        }
        TableState { holders, phases }
    }

    /// Whether worker `w` can move on now.
    pub fn can_step(&self, roster: &Vec<Philosopher>, w: usize) -> (r: bool)
        requires
            self@.wf(roster@),
            w < roster@.len(),
        ensures
            r == self@.enabled(roster@, w as int),
    {
        let p = &roster[w];
        match self.phases[w] {
            Phase::Idle => self.holders[p.left].is_none(),
            Phase::HoldingLeft => self.holders[p.right].is_none(),
            Phase::HoldingBoth => true,
            _ => false,
        }
    }

    /// Lets worker `w` move on if it can: take its left slot, take its right
    /// slot, or finish and release both. Returns whether it moved.
    pub fn step(&mut self, roster: &Vec<Philosopher>, w: usize) -> (moved: bool)
        requires
            old(self)@.wf(roster@),
            w < roster@.len(),
        ensures
            moved == old(self)@.enabled(roster@, w as int),
            final(self)@ == old(self)@.after_step(roster@, w as int),
            final(self)@.wf(roster@),
    {
        proof {
            lemma_step_wf(self@, roster@, w as int);
        }
        if !self.can_step(roster, w) {
            return false;
        }
        let p = &roster[w];
        match self.phases[w] {
            Phase::Idle => {
                self.holders.set(p.left, Some(w));
                self.phases.set(w, Phase::HoldingLeft);
            },
            Phase::HoldingLeft => {
                self.holders.set(p.right, Some(w));
                self.phases.set(w, Phase::HoldingBoth);
            },
            _ => {
                self.holders.set(p.left, None);
                self.holders.set(p.right, None);
                self.phases.set(w, Phase::Done);
            },
        }
        true
    }

    /// Records that worker `w` stopped abnormally: it releases what it held.
    pub fn fail(&mut self, roster: &Vec<Philosopher>, w: usize)
        requires
            old(self)@.wf(roster@),
            w < roster@.len(),
        ensures
            final(self)@ == old(self)@.after_failure(roster@, w as int),
            final(self)@.wf(roster@),
    {
        proof {
            lemma_failure_wf(self@, roster@, w as int);
        }
        let p = &roster[w];
        match self.phases[w] {
            Phase::Idle => {
                self.phases.set(w, Phase::Failed);
            },
            Phase::HoldingLeft => {
                self.holders.set(p.left, None);
                self.phases.set(w, Phase::Failed);
            },
            Phase::HoldingBoth => {
                self.holders.set(p.left, None);
                self.holders.set(p.right, None);
                self.phases.set(w, Phase::Failed);
            },
            _ => {},
        }
    }

    /// The workers that can move on now, in increasing order.
    pub fn enabled_workers(&self, roster: &Vec<Philosopher>) -> (r: Vec<usize>)
        requires
            self@.wf(roster@),
        ensures
            forall|i: int| 0 <= i < r@.len() ==> #[trigger] r@[i] < roster@.len(),
            forall|w: int|
                0 <= w < roster@.len() ==> (r@.contains(w as usize) <==> #[trigger] self@.enabled(
                    roster@,
                    w,
                )),
    {
        let mut r: Vec<usize> = Vec::new();
        let mut w: usize = 0;
        while w < roster.len()
            invariant
                self@.wf(roster@),
                w <= roster@.len(),
                forall|i: int| 0 <= i < r@.len() ==> #[trigger] r@[i] < w,
                forall|x: int|
                    0 <= x < roster@.len() ==> (r@.contains(x as usize) <==> (x < w
                        && #[trigger] self@.enabled(roster@, x))),
            decreases roster@.len() - w,
        {
            let ghost prev = r@;
            if self.can_step(roster, w) {
                r.push(w);
                proof {
                    assert forall|x: int| 0 <= x < roster@.len() implies #[trigger] r@.contains(x as usize)
                        == (prev.contains(x as usize) || x == w) by {
                        lemma_push_contains(prev, w, x as usize);
                    }
                }
            }
            w = w + 1;
        }
        r
    }

    /// Lets workers move on, one at a time, each picked at random among those
    /// that can, until none can. Returns the workers that finished, in the
    /// order they finished. Each finishes at most once; where every worker
    /// takes its lower slot first, every worker ends.
    pub fn run_random_schedule(&mut self, roster: &Vec<Philosopher>) -> (completions: Vec<usize>)
        requires
            old(self)@.wf(roster@),
        ensures
            final(self)@.wf(roster@),
            !final(self)@.has_enabled(roster@),
            is_ordered(roster@) ==> !final(self)@.has_active(),
            completions@.no_duplicates(),
            forall|i: int|
                0 <= i < completions@.len() ==> #[trigger] completions@[i] < roster@.len()
                    && !(old(self)@.phases[completions@[i] as int] is Done),
            forall|w: int|
                0 <= w < roster@.len() ==> ((#[trigger] final(self)@.phases[w] is Done) <==> (
                old(self)@.phases[w] is Done || completions@.contains(w as usize))),
            forall|w: int|
                0 <= w < roster@.len() && !is_active(old(self)@.phases[w])
                    ==> #[trigger] final(self)@.phases[w] == old(self)@.phases[w],
            forall|w: int|
                0 <= w < roster@.len() && (#[trigger] final(self)@.phases[w] is Failed)
                    ==> old(self)@.phases[w] is Failed,
    {
        let ghost start = self@;
        let mut completions: Vec<usize> = Vec::new();
        let mut stalled = false;
        while !stalled
            invariant
                self@.wf(roster@),
                start.phases.len() == roster@.len(),
                stalled ==> !self@.has_enabled(roster@),
                completions@.no_duplicates(),
                forall|i: int|
                    0 <= i < completions@.len() ==> #[trigger] completions@[i] < roster@.len()
                        && !(start.phases[completions@[i] as int] is Done),
                forall|w: int|
                    0 <= w < roster@.len() ==> ((#[trigger] self@.phases[w] is Done) <==> (
                    start.phases[w] is Done || completions@.contains(w as usize))),
                forall|w: int|
                    0 <= w < roster@.len() && !is_active(start.phases[w])
                        ==> #[trigger] self@.phases[w] == start.phases[w],
                forall|w: int|
                    0 <= w < roster@.len() && (#[trigger] self@.phases[w] is Failed)
                        ==> start.phases[w] is Failed,
            decreases remaining(self@.phases) + if stalled { 0nat } else { 1nat },
        {
            let enabled = self.enabled_workers(roster);
            if enabled.len() == 0 {
                stalled = true;
                proof {
                    assert forall|w: int| 0 <= w < self@.phases.len() implies !(
                    #[trigger] self@.enabled(roster@, w)) by {
                        assert(!enabled@.contains(w as usize));
                    }
                }
            } else {
                let w = enabled[random_below(enabled.len())];
                assert(enabled@.contains(w));
                let finishing = self.phases[w] == Phase::HoldingBoth;
                let ghost before = self@;
                proof {
                    lemma_step_progress(self@, roster@, w as int);
                    if finishing {
                        assert(!completions@.contains(w));
                    }
                }
                self.step(roster, w);
                assert forall|x: int| 0 <= x < roster@.len() && x != w implies #[trigger] self@.phases[x]
                    == before.phases[x] by {}
                if finishing {
                    let ghost prev = completions@;
                    completions.push(w);
                    assert forall|x: int| 0 <= x < roster@.len() implies ((
                    #[trigger] self@.phases[x] is Done) <==> (start.phases[x] is Done
                        || completions@.contains(x as usize))) by {
                        lemma_push_contains(prev, w, x as usize);
                    }
                }
            }
        }
        proof {
            if is_ordered(roster@) {
                lemma_ordered_never_stuck(self@, roster@);
            }
        }
        completions
    }
}

/// Checks the roster against a table of `slots` slots, then runs every
/// worker from the start on a fresh table, picking at random who moves next,
/// until none can move. Returns the workers in the order they finished.
pub fn simulate(roster: &Vec<Philosopher>, slots: usize) -> (r: Result<Vec<usize>, RosterError>)
    ensures
        r is Ok <==> fits_table(roster@, slots as nat),
        r matches Err(e) ==> first_fault(roster@, slots as nat, e),
        r matches Ok(c) ==> {
            &&& c@.no_duplicates()
            &&& forall|i: int| 0 <= i < c@.len() ==> #[trigger] c@[i] < roster@.len()
            &&& is_ordered(roster@) ==> forall|w: int|
                0 <= w < roster@.len() ==> c@.contains(#[trigger] (w as usize))
        },
{
    match validate_roster(roster, slots) {
        Err(e) => Err(e),
        Ok(()) => {
            let n = roster.len();
            let mut table = TableState::new(n, slots);
            proof {
                lemma_initial_wf(roster@, slots as nat);
            }
            let c = table.run_random_schedule(roster);
            proof {
                if is_ordered(roster@) {
                    assert forall|w: int| 0 <= w < roster@.len() implies c@.contains(
                        #[trigger] (w as usize),
                    ) by {
                        assert(!is_active(table@.phases[w]));
                    }
                }
            }
            Ok(c)
        },
    }
}

} // verus!
