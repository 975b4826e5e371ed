//! The rules of the fetch schedule, as a state machine over plain values.
//!
//! A job runs in waves. A wave offers every task that is still pending
//! once; a task that fails waits for the next wave. At most `limit` tasks
//! are in flight at any moment, and at most `max_waves` waves are run. The
//! executable job in `job` follows these rules step by step; the laws at
//! the end of this file are proved of the rules alone.

use vstd::prelude::*;

verus! {

/// Where a task stands.
#[derive(Debug, Clone, Copy, PartialEq, Eq, Structural)]
pub enum TaskStatus {
    /// Waiting to be fetched, for the first time or again.
    Pending,
    /// Being fetched.
    InFlight,
    /// Its bytes are stored.
    Done,
    /// Given up after the last wave.
    Failed,
}

/// What the schedule records of one task.
pub struct Slot {
    pub status: TaskStatus,
    /// The last wave in which the task was begun; 0 before the first.
    pub last_wave: nat,
    /// How many fetches of the task have failed.
    pub failures: nat,
    /// The task's share of the total: its playing time or its byte count.
    pub units: nat,
}

/// The number of tasks with the given status.
pub open spec fn count_status(slots: Seq<Slot>, status: TaskStatus) -> nat
    decreases slots.len(),
{
    if slots.len() == 0 {
        0
    } else {
        count_status(slots.drop_last(), status) + if slots.last().status == status {
            1nat
        } else {
            0nat
        }
    }
}

/// The units of the tasks that are done.
pub open spec fn units_done(slots: Seq<Slot>) -> nat
    decreases slots.len(),
{
    if slots.len() == 0 {
        0
    } else {
        units_done(slots.drop_last()) + if slots.last().status == TaskStatus::Done {
            slots.last().units
        } else {
            0nat
        }
    }
}

/// The units of all tasks.
pub open spec fn units_total(slots: Seq<Slot>) -> nat
    decreases slots.len(),
{
    if slots.len() == 0 {
        0
    } else {
        units_total(slots.drop_last()) + slots.last().units
    }
}

/// The number of tasks that are pending and were not begun in wave `wave`.
pub open spec fn count_eligible(slots: Seq<Slot>, wave: nat) -> nat
    decreases slots.len(),
{
    if slots.len() == 0 {
        0
    } else {
        count_eligible(slots.drop_last(), wave) + if slots.last().status == TaskStatus::Pending
            && slots.last().last_wave < wave {
            1nat
        } else {
            0nat
        }
    }
}

/// The state of a job.
pub struct JobView {
    /// One record for each task, in the order of the task numbers.
    pub slots: Seq<Slot>,
    /// The most tasks that may be in flight at once.
    pub limit: nat,
    /// The most waves that may be run.
    pub max_waves: nat,
    /// The number of waves begun so far.
    pub wave: nat,
}

impl JobView {
    /// The number of tasks in flight.
    pub open spec fn in_flight(self) -> nat {
        count_status(self.slots, TaskStatus::InFlight)
    }

    /// The number of tasks that are done.
    pub open spec fn completed(self) -> nat {
        count_status(self.slots, TaskStatus::Done)
    }

    /// The units of the tasks that are done.
    pub open spec fn completed_units(self) -> nat {
        units_done(self.slots)
    }

    /// The units of all tasks.
    pub open spec fn total_units(self) -> nat {
        units_total(self.slots)
    }

    /// Task `i` is pending and has not been begun in the current wave.
    pub open spec fn eligible(self, i: int) -> bool {
        &&& 0 <= i < self.slots.len()
        &&& self.slots[i].status == TaskStatus::Pending
        &&& self.slots[i].last_wave < self.wave
    }

    /// Task `i` may be begun now: it is eligible and a permit is free.
    pub open spec fn can_begin(self, i: int) -> bool {
        self.eligible(i) && self.in_flight() < self.limit
    }

    /// Task `i` is the eligible task with the smallest number.
    pub open spec fn is_next(self, i: int) -> bool {
        self.eligible(i) && forall|j: int| 0 <= j < i ==> !self.eligible(j)
    }

    /// The current wave has nothing left to do: no task is in flight and
    /// none is eligible.
    pub open spec fn wave_over(self) -> bool {
        self.in_flight() == 0 && forall|j: int| !self.eligible(j)
    }

    /// What holds of the record of task `i` in every state of a job.
    pub open spec fn slot_inv(self, i: int) -> bool {
        let s = self.slots[i];
        match s.status {
            TaskStatus::Pending => s.failures == s.last_wave && s.last_wave <= self.wave
                <= s.last_wave + 1,
            TaskStatus::InFlight => s.last_wave == self.wave && s.failures + 1 == self.wave,
            TaskStatus::Done => 1 <= s.last_wave <= self.wave && s.failures + 1 == s.last_wave,
            TaskStatus::Failed => self.wave == self.max_waves && s.last_wave == self.wave
                && s.failures == self.wave,
        }
    }

    /// What holds in every state of a job.
    pub open spec fn inv(self) -> bool {
        &&& self.slots.len() >= 1
        &&& self.limit >= 1
        &&& self.wave <= self.max_waves
        &&& self.in_flight() <= self.limit
        &&& forall|i: int| 0 <= i < self.slots.len() ==> self.slot_inv(i)
    }

    /// The state after task `i` is begun. Where its slot on disk exists
    /// already the task is done at once; otherwise it is in flight.
    pub open spec fn begin(self, i: int, slot_exists: bool) -> JobView {
        JobView {
            slots: self.slots.update(
                i,
                Slot {
                    status: if slot_exists {
                        TaskStatus::Done
                    } else {
                        TaskStatus::InFlight
                    },
                    last_wave: self.wave,
                    ..self.slots[i]
                },
            ),
            ..self
        }
    }

    /// The state after the fetch of task `i` has ended, well or badly.
    pub open spec fn complete(self, i: int, ok: bool) -> JobView {
        JobView {
            slots: self.slots.update(
                i,
                if ok {
                    Slot { status: TaskStatus::Done, ..self.slots[i] }
                } else {
                    Slot {
                        status: TaskStatus::Pending,
                        failures: self.slots[i].failures + 1,
                        ..self.slots[i]
                    }
                },
            ),
            ..self
        }
    }

    /// The state after the next wave has begun.
    pub open spec fn next_wave(self) -> JobView {
        JobView { wave: self.wave + 1, ..self }
    }

    /// The state after the job has given up: what was pending has failed.
    pub open spec fn give_up(self) -> JobView {
        JobView {
            slots: self.slots.map_values(
                |s: Slot|
                    if s.status == TaskStatus::Pending {
                        Slot { status: TaskStatus::Failed, ..s }
                    } else {
                        s
                    },
            ),
            ..self
        }
    }

    /// The job ends well here: every task is done.
    pub open spec fn ends_well(self) -> bool {
        self.completed() == self.slots.len()
    }

    /// The job ends badly here: the last wave is over and some task is not done.
    pub open spec fn ends_badly(self) -> bool {
        self.wave_over() && self.completed() < self.slots.len() && self.wave == self.max_waves
    }

    /// A bound on the number of steps that the job can still take before
    /// it ends: every step but the last makes it smaller.
    pub open spec fn steps_left(self) -> int {
        (self.max_waves - self.wave) * (2 * self.slots.len() + 1) + 2 * count_eligible(
            self.slots,
            self.wave,
        ) + self.in_flight()
    }

    /// The state of a job that runs a fetch stub which fails each task
    /// `k` times and then succeeds: a task that is done has failed exactly
    /// `k` times before, and no task has failed more often.
    pub open spec fn follows_script(self, k: nat) -> bool {
        forall|i: int|
            0 <= i < self.slots.len() ==> (#[trigger] self.slots[i]).failures <= k && (
            self.slots[i].status == TaskStatus::Done ==> self.slots[i].failures == k)
    }
}

/// How the counts change when one record is replaced.
pub proof fn lemma_update_counts(slots: Seq<Slot>, i: int, s: Slot)
    requires
        0 <= i < slots.len(),
    ensures
        count_status(slots.update(i, s), TaskStatus::InFlight) + (if slots[i].status
            == TaskStatus::InFlight {
            1nat
        } else {
            0nat
        }) == count_status(slots, TaskStatus::InFlight) + (if s.status == TaskStatus::InFlight {
            1nat
        } else {
            0nat
        }),
        count_status(slots.update(i, s), TaskStatus::Done) + (if slots[i].status
            == TaskStatus::Done {
            1nat
        } else {
            0nat
        }) == count_status(slots, TaskStatus::Done) + (if s.status == TaskStatus::Done {
            1nat
        } else {
            0nat
        }),
        units_done(slots.update(i, s)) + (if slots[i].status == TaskStatus::Done {
            slots[i].units
        } else {
            0nat
        }) == units_done(slots) + (if s.status == TaskStatus::Done {
            s.units
        } else {
            0nat
        }),
        units_total(slots.update(i, s)) + slots[i].units == units_total(slots) + s.units,
    decreases slots.len(),
{
    let after = slots.update(i, s);
    if i == slots.len() - 1 {
        assert(after.drop_last() =~= slots.drop_last());
    } else {
        lemma_update_counts(slots.drop_last(), i, s);
        assert(after.drop_last() =~= slots.drop_last().update(i, s));
    }
}

/// Counts are bounded by the number of tasks, and what is done is part of the total.
pub proof fn lemma_count_bounds(slots: Seq<Slot>)
    ensures
        forall|st: TaskStatus| #[trigger] count_status(slots, st) <= slots.len(),
        count_status(slots, TaskStatus::Pending) + count_status(slots, TaskStatus::InFlight)
            + count_status(slots, TaskStatus::Done) + count_status(slots, TaskStatus::Failed)
            == slots.len(),
        units_done(slots) <= units_total(slots),
    decreases slots.len(),
{
    if slots.len() > 0 {
        lemma_count_bounds(slots.drop_last());
    }
}

/// Where no task has a status, none has it; where all have it, each has it.
pub proof fn lemma_count_extremes(slots: Seq<Slot>, st: TaskStatus)
    ensures
        count_status(slots, st) == 0 <==> forall|i: int|
            0 <= i < slots.len() ==> (#[trigger] slots[i]).status != st,
        count_status(slots, st) == slots.len() <==> forall|i: int|
            0 <= i < slots.len() ==> (#[trigger] slots[i]).status == st,
    decreases slots.len(),
{
    if slots.len() > 0 {
        let front = slots.drop_last();
        lemma_count_extremes(front, st);
        lemma_count_bounds(front);
        assert forall|i: int| 0 <= i < front.len() implies front[i] == slots[i] by {}
        if count_status(slots, st) == 0 {
            assert forall|i: int| 0 <= i < slots.len() implies (#[trigger] slots[i]).status
                != st by {
                if i < front.len() {
                    assert(front[i] == slots[i]);
                }
            }
        }
        if forall|i: int| 0 <= i < slots.len() ==> (#[trigger] slots[i]).status != st {
            assert forall|i: int| 0 <= i < front.len() implies (#[trigger] front[i]).status
                != st by {
                assert(front[i] == slots[i]);
            }
            assert(slots.last() == slots[slots.len() - 1]);
        }
        if count_status(slots, st) == slots.len() {
            assert forall|i: int| 0 <= i < slots.len() implies (#[trigger] slots[i]).status
                == st by {
                if i < front.len() {
                    assert(front[i] == slots[i]);
                }
            }
        }
        if forall|i: int| 0 <= i < slots.len() ==> (#[trigger] slots[i]).status == st {
            assert forall|i: int| 0 <= i < front.len() implies (#[trigger] front[i]).status
                == st by {
                assert(front[i] == slots[i]);
            }
            assert(slots.last() == slots[slots.len() - 1]);
        }
    }
}

/// Beginning a task keeps the job's invariant. A task whose slot exists is
/// done without ever being in flight; any other takes one permit.
pub proof fn lemma_begin(m: JobView, i: int, slot_exists: bool)
    requires
        m.inv(),
        m.can_begin(i),
    ensures
        m.begin(i, slot_exists).inv(),
        m.begin(i, slot_exists).total_units() == m.total_units(),
        slot_exists ==> m.begin(i, slot_exists).in_flight() == m.in_flight(),
        slot_exists ==> m.begin(i, slot_exists).completed() == m.completed() + 1,
        slot_exists ==> m.begin(i, slot_exists).completed_units() == m.completed_units()
            + m.slots[i].units,
        !slot_exists ==> m.begin(i, slot_exists).in_flight() == m.in_flight() + 1,
        !slot_exists ==> m.begin(i, slot_exists).completed() == m.completed(),
        !slot_exists ==> m.begin(i, slot_exists).completed_units() == m.completed_units(),
{
    let after = m.begin(i, slot_exists);
    lemma_update_counts(m.slots, i, after.slots[i]);
    assert forall|j: int| 0 <= j < after.slots.len() implies after.slot_inv(j) by {
        assert(m.slot_inv(j));
    }
}

/// The end of a fetch keeps the job's invariant and frees one permit. A
/// fetch that went well completes its task; one that failed returns the
/// task to the pending ones, where it waits for the next wave.
pub proof fn lemma_complete(m: JobView, i: int, ok: bool)
    requires
        m.inv(),
        0 <= i < m.slots.len(),
        m.slots[i].status == TaskStatus::InFlight,
    ensures
        m.complete(i, ok).inv(),
        m.in_flight() >= 1,
        m.complete(i, ok).in_flight() == m.in_flight() - 1,
        m.complete(i, ok).total_units() == m.total_units(),
        !m.complete(i, ok).eligible(i),
        ok ==> m.complete(i, ok).completed() == m.completed() + 1,
        ok ==> m.complete(i, ok).completed_units() == m.completed_units() + m.slots[i].units,
        !ok ==> m.complete(i, ok).completed() == m.completed(),
        !ok ==> m.complete(i, ok).completed_units() == m.completed_units(),
{
    let after = m.complete(i, ok);
    lemma_update_counts(m.slots, i, after.slots[i]);
    assert(m.slot_inv(i));
    assert forall|j: int| 0 <= j < after.slots.len() implies after.slot_inv(j) by {
        assert(m.slot_inv(j));
    }
}

/// Beginning the next wave keeps the job's invariant and makes every
/// pending task eligible again.
pub proof fn lemma_next_wave(m: JobView)
    requires
        m.inv(),
        m.wave_over(),
        m.wave < m.max_waves,
    ensures
        m.next_wave().inv(),
        forall|i: int|
            0 <= i < m.slots.len() && (#[trigger] m.slots[i]).status == TaskStatus::Pending
                ==> m.next_wave().eligible(i),
{
    let after = m.next_wave();
    lemma_count_extremes(m.slots, TaskStatus::InFlight);
    assert forall|j: int| 0 <= j < after.slots.len() implies after.slot_inv(j) by {
        assert(m.slot_inv(j));
        assert(!m.eligible(j));
        assert(m.slots[j].status != TaskStatus::InFlight);
    }
    assert forall|i: int|
        0 <= i < m.slots.len() && (#[trigger] m.slots[i]).status
            == TaskStatus::Pending implies after.eligible(i) by {
        assert(m.slot_inv(i));
    }
}

/// How giving up changes the counts: nothing that was done is lost.
proof fn lemma_give_up_counts(slots: Seq<Slot>)
    ensures
        ({
            let after = (JobView { slots, limit: 0, max_waves: 0, wave: 0 }).give_up().slots;
            &&& count_status(after, TaskStatus::InFlight) == count_status(
                slots,
                TaskStatus::InFlight,
            )
            &&& count_status(after, TaskStatus::Done) == count_status(slots, TaskStatus::Done)
            &&& count_status(after, TaskStatus::Pending) == 0
            &&& units_done(after) == units_done(slots)
            &&& units_total(after) == units_total(slots)
        }),
    decreases slots.len(),
{
    let after = (JobView { slots, limit: 0, max_waves: 0, wave: 0 }).give_up().slots;
    if slots.len() > 0 {
        lemma_give_up_counts(slots.drop_last());
        let front = (JobView {
            slots: slots.drop_last(),
            limit: 0,
            max_waves: 0,
            wave: 0,
        }).give_up().slots;
        assert(after.drop_last() =~= front);
    }
}

/// Giving up after the last wave keeps the job's invariant and leaves no
/// task pending or in flight.
pub proof fn lemma_give_up(m: JobView)
    requires
        m.inv(),
        m.ends_badly(),
    ensures
        m.give_up().inv(),
        m.give_up().ends_badly(),
        m.give_up().in_flight() == 0,
        m.give_up().completed() == m.completed(),
        m.give_up().completed_units() == m.completed_units(),
        m.give_up().total_units() == m.total_units(),
        count_status(m.give_up().slots, TaskStatus::Pending) == 0,
        m.give_up().give_up() == m.give_up(),
{
    let after = m.give_up();
    lemma_give_up_counts(m.slots);
    let plain = (JobView { slots: m.slots, limit: 0, max_waves: 0, wave: 0 }).give_up().slots;
    assert(after.slots =~= plain);
    assert forall|j: int| 0 <= j < after.slots.len() implies after.slot_inv(j) by {
        assert(m.slot_inv(j));
        assert(!m.eligible(j));
    }
    assert forall|j: int| !after.eligible(j) by {
        if 0 <= j < after.slots.len() {
            assert(after.slots[j].status != TaskStatus::Pending);
        }
    }
    assert(after.give_up().slots =~= after.slots);
}

/// The ways in which the status of a task may change in one step: a
/// pending task is begun or, where its slot exists, done at once; a task in
/// flight is done or pending again; a pending task fails when the job gives
/// up. A task that is done or has failed stays as it is.
pub open spec fn may_follow(before: TaskStatus, after: TaskStatus) -> bool {
    before == after || match before {
        TaskStatus::Pending => true,
        TaskStatus::InFlight => after == TaskStatus::Done || after == TaskStatus::Pending,
        TaskStatus::Done => false,
        TaskStatus::Failed => false,
    }
}

/// Every step of a job changes the status of each task only in the ways
/// of `may_follow`, and only the task that the step is about changes at all
/// unless the job gives up.
pub proof fn lemma_status_changes(m: JobView, i: int, flag: bool, j: int)
    requires
        m.inv(),
        0 <= j < m.slots.len(),
    ensures
        m.can_begin(i) ==> may_follow(m.slots[j].status, m.begin(i, flag).slots[j].status) && (j
            != i ==> m.begin(i, flag).slots[j] == m.slots[j]),
        0 <= i < m.slots.len() && m.slots[i].status == TaskStatus::InFlight ==> may_follow(
            m.slots[j].status,
            m.complete(i, flag).slots[j].status,
        ) && (j != i ==> m.complete(i, flag).slots[j] == m.slots[j]),
        m.next_wave().slots[j] == m.slots[j],
        may_follow(m.slots[j].status, m.give_up().slots[j].status),
        m.slots[j].status != TaskStatus::Pending ==> m.give_up().slots[j] == m.slots[j],
{
}

/// The number of tasks in flight never exceeds the limit, the number of
/// tasks done never exceeds the number of tasks, and the units done never
/// exceed the total.
pub proof fn lemma_bounds(m: JobView)
    requires
        m.inv(),
    ensures
        m.in_flight() <= m.limit,
        m.completed() <= m.slots.len(),
        m.completed_units() <= m.total_units(),
        m.in_flight() + m.completed() <= m.slots.len(),
{
    lemma_count_bounds(m.slots);
}

/// No step of a job takes back progress: after any step, at least as many
/// tasks and units are done as before, and the total is the same.
pub proof fn lemma_progress_is_monotonic(m: JobView, i: int, flag: bool)
    requires
        m.inv(),
    ensures
        m.can_begin(i) ==> m.begin(i, flag).completed() >= m.completed() && m.begin(
            i,
            flag,
        ).completed_units() >= m.completed_units() && m.begin(i, flag).total_units()
            == m.total_units(),
        0 <= i < m.slots.len() && m.slots[i].status == TaskStatus::InFlight ==> m.complete(
            i,
            flag,
        ).completed() >= m.completed() && m.complete(i, flag).completed_units()
            >= m.completed_units() && m.complete(i, flag).total_units() == m.total_units(),
        m.next_wave().completed() == m.completed() && m.next_wave().completed_units()
            == m.completed_units() && m.next_wave().total_units() == m.total_units(),
        m.ends_badly() ==> m.give_up().completed() == m.completed() && m.give_up().completed_units()
            == m.completed_units() && m.give_up().total_units() == m.total_units(),
{
    if m.can_begin(i) {
        lemma_begin(m, i, flag);
    }
    if 0 <= i < m.slots.len() && m.slots[i].status == TaskStatus::InFlight {
        lemma_complete(m, i, flag);
    }
    if m.ends_badly() {
        lemma_give_up(m);
    }
}

/// A new job follows every script, and each step of a job whose fetches
/// fail a task `k` times and then succeed leads to a state that follows
/// the script again.
pub proof fn lemma_script_is_kept(m: JobView, k: nat, i: int)
    requires
        m.inv(),
        m.follows_script(k),
    ensures
        m.can_begin(i) ==> m.begin(i, false).follows_script(k),
        0 <= i < m.slots.len() && m.slots[i].status == TaskStatus::InFlight ==> m.complete(
            i,
            m.slots[i].failures >= k,
        ).follows_script(k),
        m.next_wave().follows_script(k),
        m.give_up().follows_script(k),
{
    if m.can_begin(i) {
        let after = m.begin(i, false);
        assert forall|j: int| 0 <= j < after.slots.len() implies (#[trigger] after.slots[j]).failures
            <= k && (after.slots[j].status == TaskStatus::Done ==> after.slots[j].failures
            == k) by {
            assert(m.slots[j].failures <= k);
        }
    }
    if 0 <= i < m.slots.len() && m.slots[i].status == TaskStatus::InFlight {
        let after = m.complete(i, m.slots[i].failures >= k);
        assert forall|j: int| 0 <= j < after.slots.len() implies (#[trigger] after.slots[j]).failures
            <= k && (after.slots[j].status == TaskStatus::Done ==> after.slots[j].failures
            == k) by {
            assert(m.slots[j].failures <= k);
        }
    }
    let gone = m.give_up();
    assert forall|j: int| 0 <= j < gone.slots.len() implies (#[trigger] gone.slots[j]).failures
        <= k && (gone.slots[j].status == TaskStatus::Done ==> gone.slots[j].failures == k) by {
        assert(m.slots[j].failures <= k);
    }
}

/// The retry ceiling. Let every fetch of a task fail `k` times and then
/// succeed. A job that may run more than `k` waves cannot end badly, and
/// one that may run at most `k` waves cannot end well: when its last wave
/// is over not one task is done.
pub proof fn lemma_retry_ceiling(m: JobView, k: nat)
    requires
        m.inv(),
        m.follows_script(k),
    ensures
        m.max_waves > k ==> !m.ends_badly(),
        m.max_waves <= k ==> !m.ends_well() && m.completed() == 0,
{
    lemma_count_extremes(m.slots, TaskStatus::Done);
    lemma_count_extremes(m.slots, TaskStatus::InFlight);
    lemma_count_bounds(m.slots);
    if m.max_waves > k && m.ends_badly() {
        let i = choose|i: int| 0 <= i < m.slots.len() && (#[trigger] m.slots[i]).status
            != TaskStatus::Done;
        assert(m.slot_inv(i));
        assert(!m.eligible(i));
        assert(m.slots[i].failures <= k);
    }
    if m.max_waves <= k {
        assert forall|i: int| 0 <= i < m.slots.len() implies (#[trigger] m.slots[i]).status
            != TaskStatus::Done by {
            assert(m.slot_inv(i));
            assert(m.slots[i].failures <= k);
        }
    }
}

/// How the number of eligible tasks changes when one record is replaced,
/// and that it never exceeds the number of tasks.
proof fn lemma_update_eligible(slots: Seq<Slot>, wave: nat, i: int, s: Slot)
    requires
        0 <= i < slots.len(),
    ensures
        count_eligible(slots.update(i, s), wave) + (if slots[i].status == TaskStatus::Pending
            && slots[i].last_wave < wave {
            1nat
        } else {
            0nat
        }) == count_eligible(slots, wave) + (if s.status == TaskStatus::Pending && s.last_wave
            < wave {
            1nat
        } else {
            0nat
        }),
    decreases slots.len(),
{
    let after = slots.update(i, s);
    if i == slots.len() - 1 {
        assert(after.drop_last() =~= slots.drop_last());
    } else {
        lemma_update_eligible(slots.drop_last(), wave, i, s);
        assert(after.drop_last() =~= slots.drop_last().update(i, s));
    }
}

/// The eligible tasks are at most all tasks, and none where no task is eligible.
proof fn lemma_eligible_bounds(slots: Seq<Slot>, wave: nat)
    ensures
        count_eligible(slots, wave) <= slots.len(),
        (forall|i: int|
            0 <= i < slots.len() ==> !((#[trigger] slots[i]).status == TaskStatus::Pending
                && slots[i].last_wave < wave)) ==> count_eligible(slots, wave) == 0,
    decreases slots.len(),
{
    if slots.len() > 0 {
        let front = slots.drop_last();
        lemma_eligible_bounds(front, wave);
        if forall|i: int|
            0 <= i < slots.len() ==> !((#[trigger] slots[i]).status == TaskStatus::Pending
                && slots[i].last_wave < wave) {
            assert forall|i: int| 0 <= i < front.len() implies !((#[trigger] front[i]).status
                == TaskStatus::Pending && front[i].last_wave < wave) by {
                assert(front[i] == slots[i]);
            }
            assert(slots.last() == slots[slots.len() - 1]);
        }
    }
}

/// A job ends. Every step that does not end the job makes `steps_left`
/// smaller, and `steps_left` is never negative: a job of `n` tasks that may
/// run `w` waves ends after at most `w * (2 * n + 1)` steps.
pub proof fn lemma_steps_decrease(m: JobView, i: int, flag: bool)
    requires
        m.inv(),
    ensures
        m.steps_left() >= 0,
        m.can_begin(i) ==> m.begin(i, flag).steps_left() < m.steps_left(),
        0 <= i < m.slots.len() && m.slots[i].status == TaskStatus::InFlight ==> m.complete(
            i,
            flag,
        ).steps_left() < m.steps_left(),
        m.wave_over() && m.wave < m.max_waves ==> m.next_wave().steps_left() < m.steps_left(),
{
    let n = m.slots.len() as int;
    let left = (m.max_waves - m.wave) as int;
    assert(left * (2 * n + 1) >= 0) by (nonlinear_arith)
        requires
            left >= 0,
            n >= 0,
    ;
    if m.can_begin(i) {
        let after = m.begin(i, flag);
        lemma_begin(m, i, flag);
        lemma_update_eligible(m.slots, m.wave, i, after.slots[i]);
    }
    if 0 <= i < m.slots.len() && m.slots[i].status == TaskStatus::InFlight {
        let after = m.complete(i, flag);
        lemma_complete(m, i, flag);
        assert(m.slot_inv(i));
        lemma_update_eligible(m.slots, m.wave, i, after.slots[i]);
    }
    if m.wave_over() && m.wave < m.max_waves {
        let after = m.next_wave();
        assert forall|j: int| 0 <= j < m.slots.len() implies !((#[trigger] m.slots[j]).status
            == TaskStatus::Pending && m.slots[j].last_wave < m.wave) by {
            assert(!m.eligible(j));
        }
        lemma_eligible_bounds(m.slots, m.wave);
        lemma_eligible_bounds(m.slots, after.wave);
        assert((left - 1) * (2 * n + 1) == left * (2 * n + 1) - (2 * n + 1)) by (nonlinear_arith);
    }
}

} // verus!
