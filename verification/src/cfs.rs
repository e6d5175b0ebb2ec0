//! The completely fair scheduler: the process that has run the least, by
//! virtual run time, goes next.
use vstd::prelude::*;
use std::collections::VecDeque;
use crate::process::{
    Decision, MyProcess, NonZeroUsize, Pid, ProcessState, SchedulingDecision, StopReason, Syscall,
    SyscallResult,
};
use crate::queue::{
    active, add_call, add_exec, add_total, asleep, check_number_1_pid, copy_queue, elapse,
    elapse_all, elapse_check, elapse_ok, find_smallest_vm_run, find_state, first_in_state, has_pid,
    in_state, increment_timings, last_running_index, last_running_or_zero, lemma_last_where,
    lemma_sort_waiting_len, mark_running, marked_running, min_vmrun, queue_to_vec, remove_pid,
    remove_running, select_min, select_smallest_vm_run, set_at, sizeofprocesses, sort_waiting,
    sort_waiting_by_pid, tick, tick_check, tick_ok, with_state,
};
use crate::queue::waits_for;
use crate::round_robin::{hand_over, waiting_for};
use crate::shared::{Core, SchedState, dispatch, early_decision, wakes, woken};

verus! {

broadcast use vstd::std_specs::vecdeque::group_vec_dequeue_axioms;

/// `p` after `ts` units of time: `ts` more total time; a running process
/// also gets `ts` more run time and virtual run time, and a sleeping one
/// `ts` less time to sleep.
pub open spec fn cfs_tick(p: MyProcess, ts: int) -> MyProcess {
    if p.state == ProcessState::Running {
        MyProcess {
            vmrun: (p.vmrun + ts) as usize,
            shows_vruntime: true,
            ..add_exec(add_total(p, ts), ts)
        }
    } else if p.state == asleep() {
        MyProcess { sleep_time: (p.sleep_time - ts) as usize, ..add_total(p, ts) }
    } else {
        add_total(p, ts)
    }
}

/// The run queue after `ts` units of time pass.
pub open spec fn cfs_synced(s: Seq<MyProcess>, ts: int) -> Seq<MyProcess> {
    s.map_values(|p: MyProcess| cfs_tick(p, ts))
}

/// Whether `cfs_synced(s, ts)` stays within the range of `usize`.
pub open spec fn cfs_sync_ok(s: Seq<MyProcess>, ts: int) -> bool {
    forall|i: int|
        0 <= i < s.len() ==> {
            &&& (#[trigger] s[i]).timings.0 + ts <= usize::MAX
            &&& s[i].state == ProcessState::Running ==> s[i].timings.2 + ts <= usize::MAX
                && s[i].vmrun + ts <= usize::MAX
            &&& s[i].state == asleep() ==> s[i].sleep_time >= ts
        }
}

/// Lets `ts` units of time pass (see `cfs_tick`).
pub fn syncronize_timings(q: &mut VecDeque<MyProcess>, ts: usize)
    requires
        cfs_sync_ok(old(q)@, ts as int),
    ensures
        final(q)@ == cfs_synced(old(q)@, ts as int),
{
    let ghost s = q@;
    let mut i: usize = 0;
    while i < q.len()
        invariant
            i <= q@.len(),
            q@.len() == s.len(),
            cfs_sync_ok(s, ts as int),
            forall|j: int| 0 <= j < i ==> q@[j] == cfs_synced(s, ts as int)[j],
            forall|j: int| i <= j < q@.len() ==> q@[j] == s[j],
        decreases q@.len() - i,
    {
        let mut p = q[i];
        assert(p == s[i as int]);
        if p.state == ProcessState::Running {
            p.timings.0 = p.timings.0 + ts;
            p.timings.2 = p.timings.2 + ts;
            p.vmrun = p.vmrun + ts;
            p.shows_vruntime = true;
        } else {
            p.timings.0 = p.timings.0 + ts;
            if p.state == (ProcessState::Waiting { event: None }) {
                p.sleep_time = p.sleep_time - ts;
            }
        }
        set_at(q, i, p);
        i = i + 1;
    }
    assert(q@ =~= cfs_synced(s, ts as int));
}

/// Whether letting `ts` units of time pass stays within the range of
/// `usize` and keeps every sleep time at zero or above (see `cfs_sync_ok`).
fn sync_check(q: &VecDeque<MyProcess>, ts: usize) -> (r: bool)
    ensures
        r == cfs_sync_ok(q@, ts as int),
{
    let mut i: usize = 0;
    while i < q.len()
        invariant
            i <= q@.len(),
            forall|j: int|
                0 <= j < i ==> {
                    &&& (#[trigger] q@[j]).timings.0 + ts <= usize::MAX
                    &&& q@[j].state == ProcessState::Running ==> q@[j].timings.2 + ts <= usize::MAX
                        && q@[j].vmrun + ts <= usize::MAX
                    &&& q@[j].state == asleep() ==> q@[j].sleep_time >= ts
                },
        decreases q@.len() - i,
    {
        let p = q[i];
        let bad = p.timings.0 > usize::MAX - ts || (p.state == ProcessState::Running && (
        p.timings.2 > usize::MAX - ts || p.vmrun > usize::MAX - ts)) || (p.state == (
        ProcessState::Waiting { event: None }) && p.sleep_time < ts);
        if bad {
            assert(!cfs_sync_ok(q@, ts as int)) by {
                assert(q@[i as int] == p);
            }
            return false;
        }
        i = i + 1;
    }
    true
}

/// What `next` does to a fair scheduler in state `s`, and what it answers.
/// A running process keeps the processor; otherwise the rest is as for the
/// round-robin scheduler, with the fair time update.
pub open spec fn cfs_next(s: SchedState) -> (SchedState, Decision) {
    match early_decision(s.procs) {
        Some(d) => (s, d),
        None => match first_in_state(s.procs, ProcessState::Running) {
            Some(r) => (s, Decision::Run { pid: r.pid, timeslice: s.timeslice }),
            None => {
                let p = s.procs[0];
                if wakes(p) {
                    (
                        s.with_procs(
                            seq![woken(p)] + cfs_synced(s.procs.drop_first(), p.sleep_time as int),
                        ).with_timeslice(s.reset_timeslice()),
                        Decision::Run { pid: p.pid, timeslice: s.reset_timeslice() },
                    )
                } else {
                    dispatch(s.with_procs(s.procs.drop_first()), p)
                }
            },
        },
    }
}

/// Whether `next` keeps its counters within the range of `usize` and never
/// lets a sleep time drop below zero in state `s`.
pub open spec fn cfs_next_ok(s: SchedState) -> bool {
    (early_decision(s.procs) is None && first_in_state(s.procs, ProcessState::Running) is None
        && wakes(s.procs[0])) ==> {
        &&& s.procs[0].timings.0 + s.procs[0].sleep_time <= usize::MAX
        &&& cfs_sync_ok(s.procs.drop_first(), s.procs[0].sleep_time as int)
    }
}

/// `p` showing its virtual run time.
pub open spec fn shown(p: MyProcess) -> MyProcess {
    MyProcess { shows_vruntime: true, ..p }
}

/// The time slice `initial / n` where that is positive, `ts` otherwise.
pub open spec fn share(initial: usize, n: int, ts: usize) -> usize {
    if initial as int / n > 0 {
        (initial as int / n) as usize
    } else {
        ts
    }
}

/// The queue and time slice after a later fork, before the time slice is
/// shared out among the active processes.
pub open spec fn cfs_fork_queue(
    s: SchedState,
    np: MyProcess,
    remaining: usize,
) -> (Seq<MyProcess>, usize) {
    let idx = last_running_or_zero(s.procs);
    let p = s.procs[idx];
    let q = tick(
        s.procs.update(idx, shown(MyProcess { vmrun: (p.vmrun + 1) as usize, ..add_call(p) })),
    );
    let np2 = shown(MyProcess { vmrun: min_vmrun(q), ..np });
    if remaining > 0 {
        let q2 = q.push(np2);
        (q2, share(s.initial_timeslice, q2.len() as int, s.timeslice))
    } else if q.len() > 1 {
        let value = with_state(q[0], ProcessState::Ready);
        let value2 = with_state(q[1], ProcessState::Running);
        let q2 = (seq![value2] + q.subrange(2, q.len() as int)).push(np2).push(value);
        (q2, share(s.initial_timeslice, active(q2).len() as int, s.timeslice))
    } else {
        (q.push(np2), s.timeslice)
    }
}

/// A fork: the new process gets the pid `next_pid`. The first fork queues
/// it with no virtual run time. A later one counts the call and one unit of
/// virtual run time for the running process, adds one unit of time to every
/// process, gives the new process the smallest virtual run time, and queues
/// it at the back; with no time remaining and several processes, the second
/// process runs and the first goes to the back, after the new one. The time
/// slice is then the initial one shared out among the ready and running
/// processes, where that share is positive.
pub open spec fn cfs_fork(
    s: SchedState,
    priority: i8,
    remaining: usize,
) -> (SchedState, SyscallResult) {
    let new_pid = s.next_pid;
    let s1 = SchedState { next_pid: (new_pid + 1) as usize, ..s };
    let np = MyProcess { priority, ..MyProcess::fresh(new_pid) };
    let res = SyscallResult::Pid(Pid(new_pid));
    if new_pid != 1 {
        let (q, ts) = cfs_fork_queue(s, np, remaining);
        (s1.with_procs(q).with_timeslice(share(s.initial_timeslice, active(q).len() as int, ts)), res)
    } else {
        let np2 = shown(np);
        let q = s.procs.push(np2);
        (
            SchedState {
                procs: q,
                running: np2,
                ..s1.with_timeslice(share(s.initial_timeslice, active(q).len() as int, s.timeslice))
            },
            res,
        )
    }
}

pub open spec fn cfs_fork_ok(s: SchedState, priority: i8, remaining: usize) -> bool {
    let np = MyProcess { priority, ..MyProcess::fresh(s.next_pid) };
    let idx = last_running_or_zero(s.procs);
    let p = s.procs[idx];
    let q = s.procs.update(idx, shown(MyProcess { vmrun: (p.vmrun + 1) as usize, ..add_call(p) }));
    &&& s.next_pid < usize::MAX
    &&& s.next_pid != 1 ==> {
        &&& s.procs.len() > 0
        &&& p.timings.1 < usize::MAX
        &&& p.vmrun < usize::MAX
        &&& tick_ok(q)
        &&& active(cfs_fork_queue(s, np, remaining).0).len() > 0
    }
    &&& s.next_pid == 1 ==> active(s.procs.push(shown(np))).len() > 0
}

/// The front process once it goes to sleep for `amount` units, with
/// `ts - remaining` units spent.
pub open spec fn cfs_slept(p: MyProcess, amount: usize, d: int) -> MyProcess {
    add_call(
        add_exec(
            add_total(
                shown(
                    MyProcess {
                        vmrun: (p.vmrun + d) as usize,
                        state: asleep(),
                        sleep_time: amount,
                        is_sleeping: true,
                        ..p
                    },
                ),
                d - 1,
            ),
            d - 1,
        ),
    )
}

/// A sleep: the process in front goes to sleep for `amount` units, with the
/// time it ran counted, and every process gets one more unit.
pub open spec fn cfs_sleep(
    s: SchedState,
    amount: usize,
    remaining: usize,
) -> (SchedState, SyscallResult) {
    if s.procs.len() > 0 {
        let d = s.timeslice - remaining;
        (
            s.with_procs(tick(s.procs.update(0, cfs_slept(s.procs[0], amount, d)))),
            SyscallResult::Success,
        )
    } else {
        (s, SyscallResult::Success)
    }
}

pub open spec fn cfs_sleep_ok(s: SchedState, amount: usize, remaining: usize) -> bool {
    let d = s.timeslice - remaining;
    let p = s.procs[0];
    s.procs.len() > 0 ==> {
        &&& remaining + 1 <= s.timeslice
        &&& p.vmrun + d <= usize::MAX
        &&& p.timings.0 + d - 1 <= usize::MAX
        &&& p.timings.2 + d - 1 <= usize::MAX
        &&& p.timings.1 < usize::MAX
        &&& tick_ok(s.procs.update(0, cfs_slept(p, amount, d)))
    }
}

/// An exit: `ts - remaining` units pass and the running processes leave.
/// While the process with pid 1 is there, the ready process with the
/// smallest virtual run time runs, with half the initial time slice.
pub open spec fn cfs_exit(s: SchedState, remaining: usize) -> (SchedState, SyscallResult) {
    let q = cfs_synced(s.procs, s.timeslice - remaining);
    let p4 = first_in_state(q, ProcessState::Running).unwrap();
    if q.len() != 1 {
        let q1 = q.filter(|p: MyProcess| p.state != ProcessState::Running);
        let (q2, ts1) = if has_pid(q1, 1) {
            let p2 = select_min(q1, p4.pid).1;
            (
                marked_running(q1, p2.pid, true),
                if s.initial_timeslice / 2 > 0 {
                    (s.initial_timeslice / 2) as usize
                } else {
                    s.timeslice
                },
            )
        } else {
            (q1, s.timeslice)
        };
        let ts2 = if q2.len() == 1 && s.initial_timeslice > 0 {
            s.initial_timeslice
        } else {
            ts1
        };
        (s.with_procs(q2).with_timeslice(ts2), SyscallResult::Success)
    } else {
        (s.with_procs(q.drop_first()), SyscallResult::Success)
    }
}

pub open spec fn cfs_exit_ok(s: SchedState, remaining: usize) -> bool {
    &&& remaining <= s.timeslice
    &&& cfs_sync_ok(s.procs, s.timeslice - remaining)
    &&& first_in_state(cfs_synced(s.procs, s.timeslice - remaining), ProcessState::Running) is Some
}

/// The running process (the last one where several run, the front one
/// where none does) once it waits for `event`, with `d` units spent.
pub open spec fn cfs_waiting(p: MyProcess, event: usize, d: int) -> MyProcess {
    shown(MyProcess { vmrun: (p.vmrun + d) as usize, ..waiting_for(p, event, d) })
}

/// A wait: the running process waits for `event`, `ts - remaining` units
/// pass, and the first ready process runs with the initial time slice; with
/// none ready, the time slice shrinks by one unit where it can. With no
/// process at all, nothing changes.
pub open spec fn cfs_wait(
    s: SchedState,
    event: usize,
    remaining: usize,
) -> (SchedState, SyscallResult) {
    if s.procs.len() == 0 {
        (s, SyscallResult::Success)
    } else {
        cfs_wait_some(s, event, remaining)
    }
}

/// A wait on a queue that holds processes (see `cfs_wait`).
pub open spec fn cfs_wait_some(
    s: SchedState,
    event: usize,
    remaining: usize,
) -> (SchedState, SyscallResult) {
    let d = s.timeslice - remaining;
    let i = last_running_or_zero(s.procs);
    let q = elapse(s.procs.update(i, cfs_waiting(s.procs[i], event, d)), d);
    match first_in_state(q, ProcessState::Ready) {
        Some(p2) => (
            s.with_procs(hand_over(q, p2)).with_timeslice(s.reset_timeslice()),
            SyscallResult::Success,
        ),
        None => if s.timeslice - 1 > 0 {
            (s.with_procs(q).with_timeslice((s.timeslice - 1) as usize), SyscallResult::Success)
        } else {
            (s.with_procs(q), SyscallResult::Success)
        },
    }
}

pub open spec fn cfs_wait_ok(s: SchedState, event: usize, remaining: usize) -> bool {
    let d = s.timeslice - remaining;
    let i = last_running_or_zero(s.procs);
    let p = s.procs[i];
    s.procs.len() > 0 ==> {
    &&& remaining + 1 <= s.timeslice
    &&& p.timings.1 < usize::MAX
    &&& p.vmrun + d <= usize::MAX
    &&& p.timings.2 + d - 1 <= usize::MAX
    &&& elapse_ok(s.procs.update(i, cfs_waiting(p, event, d)), d)
    }
}

/// A process as a signal of `event` leaves it, with `d` units spent: ready
/// if it waited for the event, in its state otherwise; if running, with the
/// call and `d - 1` more run time counted, and `d` more virtual run time.
pub open spec fn cfs_signalled(p: MyProcess, event: usize, d: int) -> MyProcess {
    let p1 = if waits_for(p, event) {
        with_state(p, ProcessState::Ready)
    } else {
        p
    };
    let p2 = if p1.state == ProcessState::Running {
        shown(MyProcess { vmrun: (p1.vmrun + d) as usize, ..add_exec(add_call(p1), d - 1) })
    } else {
        p1
    };
    add_total(p2, d)
}

/// A signal: the processes waiting for `event` are sorted by pid, `ts -
/// remaining` units pass, the processes that waited for `event` become
/// ready while every other process keeps its state, and the time slice is
/// the initial one shared out among all processes, where that share is
/// positive.
pub open spec fn cfs_signal(
    s: SchedState,
    event: usize,
    remaining: usize,
) -> (SchedState, SyscallResult) {
    let d = s.timeslice - remaining;
    let q = sort_waiting(s.procs, event).map_values(|p: MyProcess| cfs_signalled(p, event, d));
    (
        s.with_procs(q).with_timeslice(share(s.initial_timeslice, q.len() as int, s.timeslice)),
        SyscallResult::Success,
    )
}

pub open spec fn cfs_signal_ok(s: SchedState, event: usize, remaining: usize) -> bool {
    let q = sort_waiting(s.procs, event);
    let d = s.timeslice - remaining;
    &&& s.procs.len() > 0
    &&& remaining <= s.timeslice
    &&& forall|i: int|
        0 <= i < q.len() ==> {
            &&& (#[trigger] q[i]).timings.0 + d <= usize::MAX
            &&& q[i].state == ProcessState::Running ==> {
                &&& remaining + 1 <= s.timeslice
                &&& q[i].timings.1 < usize::MAX
                &&& q[i].vmrun + d <= usize::MAX
                &&& q[i].timings.2 + d - 1 <= usize::MAX
            }
        }
}

/// The end of a time slice: the time slice passes, the running process
/// becomes ready, and the other active process with the smallest virtual run
/// time (with every process of its pid) runs. With no process at all,
/// nothing changes. Where no other process is active, `select_min` answers a
/// fresh process with pid 100, so every queued process whose pid is 100, if
/// any, is marked running, and otherwise no process runs.
pub open spec fn cfs_expire(s: SchedState) -> (SchedState, SyscallResult) {
    if s.procs.len() == 0 {
        (s, SyscallResult::Success)
    } else {
        cfs_expire_some(s)
    }
}

/// The end of a time slice on a queue that holds processes (see `cfs_expire`).
pub open spec fn cfs_expire_some(s: SchedState) -> (SchedState, SyscallResult) {
    let q = cfs_synced(s.procs, s.timeslice as int);
    let i = last_running_or_zero(q);
    let p = with_state(q[i], ProcessState::Ready);
    let q1 = q.update(i, p);
    let p2 = select_min(q1, p.pid).1;
    (
        SchedState {
            procs: marked_running(q1, p2.pid, false),
            remaining_time: (s.initial_timeslice / 2) as usize,
            ..s
        },
        SyscallResult::Success,
    )
}

/// What `stop` does to a fair scheduler in state `s`.
pub open spec fn cfs_stop(s: SchedState, reason: StopReason) -> (SchedState, SyscallResult) {
    match reason {
        StopReason::Syscall { syscall, remaining } => match syscall {
            Syscall::Fork(priority) => cfs_fork(s, priority, remaining),
            Syscall::Sleep(amount) => cfs_sleep(s, amount, remaining),
            Syscall::Exit => cfs_exit(s, remaining),
            Syscall::Wait(event) => cfs_wait(s, event, remaining),
            Syscall::Signal(event) => cfs_signal(s, event, remaining),
        },
        StopReason::Expired => cfs_expire(s),
    }
}

/// Whether `stop` does not fail in state `s`: no subtraction below zero, no
/// count past the range of `usize`, no division by zero, no missing process.
pub open spec fn cfs_stop_ok(s: SchedState, reason: StopReason) -> bool {
    match reason {
        StopReason::Syscall { syscall, remaining } => match syscall {
            Syscall::Fork(priority) => cfs_fork_ok(s, priority, remaining),
            Syscall::Sleep(amount) => cfs_sleep_ok(s, amount, remaining),
            Syscall::Exit => cfs_exit_ok(s, remaining),
            Syscall::Wait(event) => cfs_wait_ok(s, event, remaining),
            Syscall::Signal(event) => cfs_signal_ok(s, event, remaining),
        },
        StopReason::Expired => cfs_sync_ok(s.procs, s.timeslice as int),
    }
}

/// A completely fair scheduler.
pub struct Cfs {
    core: Core,
}

impl Cfs {
    pub closed spec fn view(&self) -> SchedState {
        self.core@
    }

    /// A scheduler with no process, that hands out `timeslice` units at a time.
    pub fn new(timeslice: NonZeroUsize, minimum_remaining_timeslice: usize) -> (r: Cfs)
        ensures
            r@ == SchedState::initial(timeslice@, minimum_remaining_timeslice),
            r@.initial_timeslice > 0,
            r@.well_formed(),
    {
        Cfs { core: Core::new(timeslice, minimum_remaining_timeslice) }
    }

    /// The processes, front of the queue first.
    pub fn list(&self) -> (r: Vec<MyProcess>)
        ensures
            r@ == self@.procs,
    {
        queue_to_vec(&self.core.processes)
    }

    /// The run queue itself, front first.
    pub fn processes(&self) -> (r: &VecDeque<MyProcess>)
        ensures
            r@ == self@.procs,
    {
        &self.core.processes
    }

    /// Decides which process runs next (see `cfs_next`).
    pub fn next(&mut self) -> (r: SchedulingDecision)
        requires
            cfs_next_ok(old(self)@),
        ensures
            (final(self)@, r@) == cfs_next(old(self)@),
            old(self)@.well_formed() ==> final(self)@.well_formed(),
    {
        proof {
            if old(self)@.well_formed() {
                crate::laws::law_waits_match_kept(old(self)@, StopReason::Expired);
                crate::laws::law_settings_kept(old(self)@, StopReason::Expired);
            }
        }
        if let Some(d) = self.core.early_decision() {
            return d;
        }
        if let Some(process) = find_state(&self.core.processes, ProcessState::Running) {
            return SchedulingDecision::Run { pid: process.pid, timeslice: self.core.timeslice };
        }
        let mut process = self.core.processes.pop_front().unwrap();
        let pide = process.pid;
        if !process.is_sleeping && process.sleep_time != 0 {
            process.timings.0 = process.timings.0 + process.sleep_time;
            syncronize_timings(&mut self.core.processes, process.sleep_time);
            process.sleep_time = 0;
            self.core.reset_timeslice();
            process.state = ProcessState::Running;
            self.core.processes.push_front(process);
            return SchedulingDecision::Run { pid: pide, timeslice: self.core.timeslice };
        }
        self.core.dispatch(process)
    }

    /// Sets the time slice to the initial one shared out among the active
    /// processes, where that share is positive.
    fn share_timeslice(&mut self)
        requires
            active(old(self)@.procs).len() > 0,
        ensures
            final(self)@ == old(self)@.with_timeslice(
                share(
                    old(self)@.initial_timeslice,
                    active(old(self)@.procs).len() as int,
                    old(self)@.timeslice,
                ),
            ),
    {
        let n = sizeofprocesses(&self.core.processes);
        if self.core.initial_timeslice / n > 0 {
            self.core.timeslice = NonZeroUsize::new(self.core.initial_timeslice / n).unwrap();
        }
    }

    /// A fork (see `cfs_fork`).
    fn fork(&mut self, priority: i8, remaining: usize) -> (r: SyscallResult)
        requires
            cfs_fork_ok(old(self)@, priority, remaining),
        ensures
            (final(self)@, r) == cfs_fork(old(self)@, priority, remaining),
    {
        let ghost s = self@;
        let new_pid = self.core.next_pid;
        self.core.next_pid = self.core.next_pid + 1;
        let mut new_process = MyProcess::new(new_pid);
        new_process.priority = priority;
        let ghost np = new_process;
        if self.core.next_pid != 2 {
            new_process.state = ProcessState::Ready;
            let index_element = last_running_index(&self.core.processes);
            proof {
                lemma_last_where(self.core.processes@, in_state(ProcessState::Running));
            }
            let mut process = self.core.processes[index_element];
            process.timings.1 = process.timings.1 + 1;
            process.vmrun = process.vmrun + 1;
            process.shows_vruntime = true;
            set_at(&mut self.core.processes, index_element, process);
            increment_timings(&mut self.core.processes);
            new_process.vmrun = find_smallest_vm_run(&self.core.processes);
            if remaining > 0 {
                new_process.shows_vruntime = true;
                self.core.processes.push_back(new_process);
                if self.core.initial_timeslice / self.core.processes.len() > 0 {
                    self.core.timeslice = NonZeroUsize::new(
                        self.core.initial_timeslice / self.core.processes.len(),
                    ).unwrap();
                }
            } else if self.core.processes.len() > 1 {
                let mut value = self.core.processes.pop_front().unwrap();
                let mut value2 = self.core.processes.pop_front().unwrap();
                value2.state = ProcessState::Running;
                value.state = ProcessState::Ready;
                self.core.processes.push_front(value2);
                new_process.shows_vruntime = true;
                self.core.processes.push_back(new_process);
                self.core.processes.push_back(value);
                proof {
                    let q = cfs_fork_queue(s, np, remaining).0;
                    assert(self.core.processes@ =~= q);
                }
                self.share_timeslice();
            } else {
                new_process.shows_vruntime = true;
                self.core.processes.push_back(new_process);
            }
            assert(self@ == s.with_procs(cfs_fork_queue(s, np, remaining).0).with_timeslice(
                cfs_fork_queue(s, np, remaining).1,
            ).with_next(self@.next_pid));
            self.share_timeslice();
        } else {
            new_process.vmrun = 0;
            new_process.shows_vruntime = true;
            self.core.processes.push_back(new_process);
            self.share_timeslice();
            self.core.running_process = new_process;
        }
        self.share_timeslice();
        SyscallResult::Pid(Pid::new(new_pid))
    }

    /// A sleep (see `cfs_sleep`).
    fn sleep(&mut self, amount: usize, remaining: usize) -> (r: SyscallResult)
        requires
            cfs_sleep_ok(old(self)@, amount, remaining),
        ensures
            (final(self)@, r) == cfs_sleep(old(self)@, amount, remaining),
    {
        if self.core.processes.len() > 0 {
            let mut process = self.core.processes[0];
            process.vmrun = process.vmrun + 1;
            process.shows_vruntime = true;
            process.state = ProcessState::Waiting { event: None };
            process.sleep_time = amount;
            process.is_sleeping = true;
            if self.core.timeslice.get() - remaining != 1 {
                let spent = self.core.timeslice.get() - remaining - 1;
                process.timings.0 = process.timings.0 + spent;
                process.vmrun = process.vmrun + spent;
                process.timings.2 = process.timings.2 + spent;
            }
            if process.is_sleeping {
                process.timings.1 = process.timings.1 + 1;
            }
            set_at(&mut self.core.processes, 0, process);
            increment_timings(&mut self.core.processes);
            if self.core.timeslice.get() > 0 {
                self.core.timeslice = NonZeroUsize::new(self.core.timeslice.get()).unwrap();
            }
        }
        SyscallResult::Success
    }

    /// An exit (see `cfs_exit`).
    fn exit(&mut self, remaining: usize) -> (r: SyscallResult)
        requires
            cfs_exit_ok(old(self)@, remaining),
        ensures
            (final(self)@, r) == cfs_exit(old(self)@, remaining),
    {
        syncronize_timings(&mut self.core.processes, self.core.timeslice.get() - remaining);
        let process4 = find_state(&self.core.processes, ProcessState::Running).unwrap();
        if self.core.processes.len() != 1 {
            let kept = remove_running(&self.core.processes);
            self.core.processes = kept;
            if check_number_1_pid(&self.core.processes) {
                let mut process2 = select_smallest_vm_run(&self.core.processes, process4.pid);
                if process2.state == ProcessState::Ready {
                    process2.state = ProcessState::Running;
                }
                if self.core.initial_timeslice / 2 > 0 {
                    self.core.timeslice = NonZeroUsize::new(self.core.initial_timeslice / 2).unwrap();
                }
                mark_running(&mut self.core.processes, process2.pid, true);
            }
            if self.core.processes.len() == 1 && self.core.initial_timeslice > 0 {
                self.core.timeslice = NonZeroUsize::new(self.core.initial_timeslice).unwrap();
            }
            SyscallResult::Success
        } else {
            if self.core.processes.len() != 0 {
                self.core.processes.pop_front();
            }
            SyscallResult::Success
        }
    }

    /// A wait (see `cfs_wait`).
    fn wait(&mut self, event: usize, remaining: usize) -> (r: SyscallResult)
        requires
            cfs_wait_ok(old(self)@, event, remaining),
        ensures
            (final(self)@, r) == cfs_wait(old(self)@, event, remaining),
    {
        if self.core.processes.len() == 0 {
            return SyscallResult::Success;
        }
        let i = last_running_index(&self.core.processes);
        proof {
            lemma_last_where(self.core.processes@, in_state(ProcessState::Running));
        }
        let mut process = self.core.processes[i];
        process.state = ProcessState::Waiting { event: Some(event) };
        process.timings.1 = process.timings.1 + 1;
        process.vmrun = process.vmrun + 1;
        process.shows_vruntime = true;
        process.timings.2 = process.timings.2 + (self.core.timeslice.get() - remaining - 1);
        process.vmrun = process.vmrun + (self.core.timeslice.get() - remaining - 1);
        process.event_number = event;
        set_at(&mut self.core.processes, i, process);
        elapse_all(&mut self.core.processes, self.core.timeslice.get() - remaining);
        if let Some(mut process2) = find_state(&self.core.processes, ProcessState::Ready) {
            process2.state = ProcessState::Running;
            let element = remove_pid(&self.core.processes, process2.pid);
            self.core.processes = element;
            self.core.processes.push_front(process2);
            self.core.reset_timeslice();
        } else {
            if self.core.timeslice.get() - 1 > 0 {
                self.core.timeslice = NonZeroUsize::new(self.core.timeslice.get() - 1).unwrap();
            }
        }
        SyscallResult::Success
    }

    /// A signal (see `cfs_signal`).
    fn signal(&mut self, event: usize, remaining: usize) -> (r: SyscallResult)
        requires
            cfs_signal_ok(old(self)@, event, remaining),
        ensures
            (final(self)@, r) == cfs_signal(old(self)@, event, remaining),
    {
        sort_waiting_by_pid(&mut self.core.processes, event);
        let ghost q = self.core.processes@;
        let ghost d = old(self)@.timeslice - remaining;
        proof {
            lemma_sort_waiting_len(old(self)@.procs, event);
        }
        let mut i: usize = 0;
        while i < self.core.processes.len()
            invariant
                i <= q.len(),
                q.len() > 0,
                self.core.processes@.len() == q.len(),
                d == old(self)@.timeslice - remaining,
                self@ == old(self)@.with_procs(self.core.processes@),
                cfs_signal_ok(old(self)@, event, remaining),
                q == sort_waiting(old(self)@.procs, event),
                forall|j: int| 0 <= j < i ==> self.core.processes@[j] == cfs_signalled(q[j], event, d),
                forall|j: int| i <= j < q.len() ==> self.core.processes@[j] == q[j],
            decreases q.len() - i,
        {
            let mut process = self.core.processes[i];
            assert(process == q[i as int]);
            if process.state == (ProcessState::Waiting { event: Some(event) }) {
                process.state = ProcessState::Ready;
            }
            if process.state == ProcessState::Running {
                process.timings.1 = process.timings.1 + 1;
                process.vmrun = process.vmrun + 1;
                process.vmrun = process.vmrun + (self.core.timeslice.get() - remaining - 1);
                process.shows_vruntime = true;
                process.timings.2 = process.timings.2 + (self.core.timeslice.get() - remaining - 1);
            }
            process.timings.0 = process.timings.0 + (self.core.timeslice.get() - remaining);
            set_at(&mut self.core.processes, i, process);
            i = i + 1;
        }
        assert(self.core.processes@ =~= q.map_values(|p: MyProcess| cfs_signalled(p, event, d)));
        if self.core.initial_timeslice / self.core.processes.len() > 0 {
            self.core.timeslice = NonZeroUsize::new(
                self.core.initial_timeslice / self.core.processes.len(),
            ).unwrap();
        }
        SyscallResult::Success
    }

    /// The end of a time slice (see `cfs_expire`).
    fn expire(&mut self) -> (r: SyscallResult)
        requires
            cfs_sync_ok(old(self)@.procs, old(self)@.timeslice as int),
        ensures
            (final(self)@, r) == cfs_expire(old(self)@),
    {
        if self.core.processes.len() == 0 {
            return SyscallResult::Success;
        }
        syncronize_timings(&mut self.core.processes, self.core.timeslice.get());
        let i = last_running_index(&self.core.processes);
        proof {
            lemma_last_where(self.core.processes@, in_state(ProcessState::Running));
        }
        let mut process = self.core.processes[i];
        self.core.remaining_time = self.core.initial_timeslice;
        if process.state == (ProcessState::Waiting { event: None }) {
            self.core.remaining_time = self.core.initial_timeslice;
            process.state = ProcessState::Running;
        }
        process.state = ProcessState::Ready;
        set_at(&mut self.core.processes, i, process);
        let mut process2 = select_smallest_vm_run(&self.core.processes, process.pid);
        process2.state = ProcessState::Running;
        self.core.remaining_time = self.core.initial_timeslice / 2;
        mark_running(&mut self.core.processes, process2.pid, false);
        SyscallResult::Success
    }

    /// Handles a stopped process (see `cfs_stop`).
    pub fn stop(&mut self, reason: StopReason) -> (r: SyscallResult)
        requires
            cfs_stop_ok(old(self)@, reason),
        ensures
            (final(self)@, r) == cfs_stop(old(self)@, reason),
            old(self)@.well_formed() ==> final(self)@.well_formed(),
    {
        proof {
            if old(self)@.well_formed() {
                crate::laws::law_waits_match_kept(old(self)@, reason);
                crate::laws::law_settings_kept(old(self)@, reason);
            }
        }
        match reason {
            StopReason::Syscall { syscall, remaining } => match syscall {
                Syscall::Fork(priority) => self.fork(priority, remaining),
                Syscall::Sleep(amount) => self.sleep(amount, remaining),
                Syscall::Exit => self.exit(remaining),
                Syscall::Wait(event) => self.wait(event, remaining),
                Syscall::Signal(event) => self.signal(event, remaining),
            },
            StopReason::Expired => self.expire(),
        }
    }


    /// Whether `next` can run in this state without failing (see `cfs_next_ok`).
    pub fn can_next(&self) -> (r: bool)
        ensures
            r == cfs_next_ok(self@),
    {
        if self.core.early_decision().is_some() {
            return true;
        }
        if find_state(&self.core.processes, ProcessState::Running).is_some() {
            return true;
        }
        let p = self.core.processes[0];
        if p.is_sleeping || p.sleep_time == 0 {
            return true;
        }
        if p.timings.0 > usize::MAX - p.sleep_time {
            return false;
        }
        let mut rest = copy_queue(&self.core.processes);
        rest.pop_front();
        assert(rest@ == self@.procs.drop_first());
        sync_check(&rest, p.sleep_time)
    }

    /// Whether `stop` can handle `reason` in this state without failing (see `cfs_stop_ok`).
    pub fn can_stop(&self, reason: StopReason) -> (r: bool)
        ensures
            r == cfs_stop_ok(self@, reason),
    {
        let ts = self.core.timeslice.get();
        let ghost s = self@;
        match reason {
            StopReason::Syscall { syscall, remaining } => match syscall {
                Syscall::Fork(priority) => {
                    if self.core.next_pid == usize::MAX {
                        return false;
                    }
                    let mut np = MyProcess::new(self.core.next_pid);
                    np.priority = priority;
                    let ghost np0 = np;
                    if self.core.next_pid == 1 {
                        let mut q = copy_queue(&self.core.processes);
                        np.shows_vruntime = true;
                        q.push_back(np);
                        return sizeofprocesses(&q) > 0;
                    }
                    if self.core.processes.len() == 0 {
                        return false;
                    }
                    let idx = last_running_index(&self.core.processes);
                    proof {
                        lemma_last_where(self@.procs, in_state(ProcessState::Running));
                    }
                    let mut p = self.core.processes[idx];
                    if p.timings.1 == usize::MAX || p.vmrun == usize::MAX {
                        return false;
                    }
                    p.timings.1 = p.timings.1 + 1;
                    p.vmrun = p.vmrun + 1;
                    p.shows_vruntime = true;
                    let mut q = copy_queue(&self.core.processes);
                    set_at(&mut q, idx, p);
                    if !tick_check(&q) {
                        return false;
                    }
                    increment_timings(&mut q);
                    np.vmrun = find_smallest_vm_run(&q);
                    np.shows_vruntime = true;
                    if remaining > 0 {
                        q.push_back(np);
                    } else if q.len() > 1 {
                        let mut value = q.pop_front().unwrap();
                        let mut value2 = q.pop_front().unwrap();
                        value2.state = ProcessState::Running;
                        value.state = ProcessState::Ready;
                        q.push_front(value2);
                        q.push_back(np);
                        q.push_back(value);
                    } else {
                        q.push_back(np);
                    }
                    proof {
                        let fq = cfs_fork_queue(s, np0, remaining).0;
                        assert(q@ =~= fq);
                    }
                    sizeofprocesses(&q) > 0
                },
                Syscall::Sleep(amount) => {
                    if self.core.processes.len() == 0 {
                        return true;
                    }
                    if remaining >= ts {
                        return false;
                    }
                    let d = ts - remaining;
                    let mut p = self.core.processes[0];
                    if p.vmrun > usize::MAX - d || p.timings.0 > usize::MAX - (d - 1)
                        || p.timings.2 > usize::MAX - (d - 1) || p.timings.1 == usize::MAX {
                        return false;
                    }
                    p.vmrun = p.vmrun + d;
                    p.shows_vruntime = true;
                    p.state = ProcessState::Waiting { event: None };
                    p.sleep_time = amount;
                    p.is_sleeping = true;
                    p.timings.0 = p.timings.0 + (d - 1);
                    p.timings.2 = p.timings.2 + (d - 1);
                    p.timings.1 = p.timings.1 + 1;
                    let mut q = copy_queue(&self.core.processes);
                    set_at(&mut q, 0, p);
                    tick_check(&q)
                },
                Syscall::Exit => {
                    if remaining > ts {
                        return false;
                    }
                    if !sync_check(&self.core.processes, ts - remaining) {
                        return false;
                    }
                    let mut q = copy_queue(&self.core.processes);
                    syncronize_timings(&mut q, ts - remaining);
                    find_state(&q, ProcessState::Running).is_some()
                },
                Syscall::Wait(event) => {
                    if self.core.processes.len() == 0 {
                        return true;
                    }
                    if remaining >= ts {
                        return false;
                    }
                    let d = ts - remaining;
                    let i = last_running_index(&self.core.processes);
                    proof {
                        lemma_last_where(self@.procs, in_state(ProcessState::Running));
                    }
                    let mut p = self.core.processes[i];
                    if p.timings.1 == usize::MAX || p.vmrun > usize::MAX - d || p.timings.2
                        > usize::MAX - (d - 1) {
                        return false;
                    }
                    p.state = ProcessState::Waiting { event: Some(event) };
                    p.timings.1 = p.timings.1 + 1;
                    p.timings.2 = p.timings.2 + (d - 1);
                    p.vmrun = p.vmrun + d;
                    p.shows_vruntime = true;
                    p.event_number = event;
                    let mut q = copy_queue(&self.core.processes);
                    set_at(&mut q, i, p);
                    elapse_check(&q, d)
                },
                Syscall::Signal(event) => {
                    if self.core.processes.len() == 0 || remaining > ts {
                        return false;
                    }
                    let mut q = copy_queue(&self.core.processes);
                    sort_waiting_by_pid(&mut q, event);
                    proof {
                        lemma_sort_waiting_len(self@.procs, event);
                    }
                    let d = ts - remaining;
                    let mut i: usize = 0;
                    while i < q.len()
                        invariant
                            q@ == sort_waiting(self@.procs, event),
                            reason == (StopReason::Syscall { syscall: Syscall::Signal(event), remaining }),
                            self@.procs.len() > 0,
                            remaining <= self@.timeslice,
                            ts == self@.timeslice,
                            d == ts - remaining,
                            i <= q@.len(),
                            forall|j: int|
                                0 <= j < i ==> {
                                    &&& (#[trigger] q@[j]).timings.0 + d <= usize::MAX
                                    &&& q@[j].state == ProcessState::Running ==> {
                                        &&& remaining + 1 <= ts
                                        &&& q@[j].timings.1 < usize::MAX
                                        &&& q@[j].vmrun + d <= usize::MAX
                                        &&& q@[j].timings.2 + d - 1 <= usize::MAX
                                    }
                                },
                        decreases q@.len() - i,
                    {
                        let p = q[i];
                        let bad = p.timings.0 > usize::MAX - d || (p.state
                            == ProcessState::Running && (remaining >= ts
                            || p.timings.1 == usize::MAX || p.vmrun > usize::MAX - d
                            || p.timings.2 > usize::MAX - (d - 1)));
                        if bad {
                            assert(!cfs_signal_ok(self@, event, remaining)) by {
                                assert(q@[i as int] == p);
                            }
                            return false;
                        }
                        i = i + 1;
                    }
                    true
                },
            },
            StopReason::Expired => sync_check(&self.core.processes, ts),
        }
    }

}

} // verus!
