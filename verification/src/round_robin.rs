//! The round-robin scheduler.
use vstd::prelude::*;
use std::collections::VecDeque;
use crate::process::{
    Decision, MyProcess, NonZeroUsize, Pid, ProcessState, SchedulingDecision, StopReason, Syscall,
    SyscallResult,
};
use crate::queue::{
    add_call, add_exec, add_total, asleep, check_number_1_pid, copy_queue, elapse, elapse_all,
    elapse_check, elapse_ok, find_state, first_in_state, has_pid, in_state, increment_timings,
    last_running_index, last_running_or_zero, lemma_last_where, mark_running, marked_running,
    queue_to_vec, remove_pid, set_at, sort_waiting, sort_waiting_by_pid, swap_at, tick, tick_check,
    tick_ok, wake_done, wake_finished, waits_for, with_state, without_pid,
};
use crate::shared::{Core, SchedState, dispatch, early_decision, wakes, woken};

verus! {

broadcast use vstd::std_specs::vecdeque::group_vec_dequeue_axioms;

/// `p` woken from its sleep by the passing of time: ready, with no sleep left.
pub open spec fn ready_now(p: MyProcess) -> MyProcess {
    MyProcess { sleep_time: 0, state: ProcessState::Ready, ..p }
}

/// Step `k` of the round-robin time update. `snap` is the queue as it was
/// before the update, and `cur` the queue after the steps before `k`. Every
/// process gets `ts` more total time, and a running one `ts` more run time.
/// A process asleep for no more than `ts` becomes ready; where a process
/// follows it, that one takes the time instead and the two change places, so
/// the woken process gets no share of `ts` and the step after it reads the
/// state of the process that stood there before the update while it changes
/// the woken one.
pub open spec fn rr_sync_step(
    snap: Seq<MyProcess>,
    cur: Seq<MyProcess>,
    ts: usize,
    k: int,
) -> Seq<MyProcess> {
    rr_step_as(snap[k], cur, ts, k)
}

/// Step `k` of the round-robin time update, where the process at `k` was
/// `sp` before the update began.
pub open spec fn rr_step_as(
    sp: MyProcess,
    cur: Seq<MyProcess>,
    ts: usize,
    k: int,
) -> Seq<MyProcess> {
    let c = cur[k];
    if sp.state == ProcessState::Running {
        cur.update(k, add_exec(add_total(c, ts as int), ts as int))
    } else if sp.state == asleep() && ts >= sp.sleep_time {
        if k + 1 < cur.len() {
            cur.update(k, add_total(cur[k + 1], ts as int)).update(k + 1, ready_now(c))
        } else {
            cur.update(k, ready_now(add_total(c, ts as int)))
        }
    } else if sp.state == asleep() {
        cur.update(k, MyProcess { sleep_time: (c.sleep_time - ts) as usize, ..add_total(c, ts as int) })
    } else {
        cur.update(k, add_total(c, ts as int))
    }
}

/// Whether step `k` stays within the range of `usize`.
pub open spec fn rr_sync_step_ok(
    snap: Seq<MyProcess>,
    cur: Seq<MyProcess>,
    ts: usize,
    k: int,
) -> bool {
    rr_step_as_ok(snap[k], cur, ts, k)
}

/// Whether step `k`, for a process that was `sp`, stays within the range of `usize`.
pub open spec fn rr_step_as_ok(sp: MyProcess, cur: Seq<MyProcess>, ts: usize, k: int) -> bool {
    let c = cur[k];
    &&& c.timings.0 + ts <= usize::MAX
    &&& sp.state == ProcessState::Running ==> c.timings.2 + ts <= usize::MAX
    &&& (sp.state == asleep() && ts >= sp.sleep_time && k + 1 < cur.len()) ==> cur[k + 1].timings.0
        + ts <= usize::MAX
    &&& (sp.state == asleep() && ts < sp.sleep_time) ==> c.sleep_time >= ts
}

/// The first `k` steps of the round-robin time update of `snap`.
pub open spec fn rr_synced_upto(snap: Seq<MyProcess>, ts: usize, k: int) -> Seq<MyProcess>
    decreases k,
{
    if k <= 0 {
        snap
    } else {
        rr_sync_step(snap, rr_synced_upto(snap, ts, k - 1), ts, k - 1)
    }
}

/// The run queue after `ts` units of time pass.
pub open spec fn rr_synced(snap: Seq<MyProcess>, ts: usize) -> Seq<MyProcess> {
    rr_synced_upto(snap, ts, snap.len() as int)
}

/// Whether the time update of `snap` by `ts` stays within the range of `usize`.
pub open spec fn rr_sync_ok(snap: Seq<MyProcess>, ts: usize) -> bool {
    forall|k: int| 0 <= k < snap.len() ==> #[trigger] rr_sync_step_ok(snap, rr_synced_upto(snap, ts, k), ts, k)
}

/// The time update keeps the length of the queue.
pub proof fn lemma_rr_synced_len(snap: Seq<MyProcess>, ts: usize, k: int)
    requires
        0 <= k <= snap.len(),
    ensures
        rr_synced_upto(snap, ts, k).len() == snap.len(),
    decreases k,
{
    if k > 0 {
        lemma_rr_synced_len(snap, ts, k - 1);
    }
}

/// Makes step `index` of the time update, for a process that was `process2`.
fn sync_step(q: &mut VecDeque<MyProcess>, process2: MyProcess, ts: usize, index: usize)
    requires
        index < old(q)@.len(),
        rr_step_as_ok(process2, old(q)@, ts, index as int),
    ensures
        final(q)@ == rr_step_as(process2, old(q)@, ts, index as int),
{
    let len = q.len();
    if process2.state == ProcessState::Running {
        let mut c = q[index];
        c.timings.0 = c.timings.0 + ts;
        c.timings.2 = c.timings.2 + ts;
        set_at(q, index, c);
    } else {
        let mut c = q[index];
        c.timings.0 = c.timings.0 + ts;
        set_at(q, index, c);
        if process2.state == (ProcessState::Waiting { event: None }) {
            if ts >= process2.sleep_time {
                if index + 1 < len {
                    let mut a = q[index];
                    a.timings.0 = a.timings.0 - ts;
                    let mut b = q[index + 1];
                    b.timings.0 = b.timings.0 + ts;
                    set_at(q, index + 1, b);
                    a.sleep_time = 0;
                    a.state = ProcessState::Ready;
                    set_at(q, index, a);
                    swap_at(q, index);
                } else {
                    let mut a = q[index];
                    a.sleep_time = 0;
                    a.state = ProcessState::Ready;
                    set_at(q, index, a);
                }
            } else {
                let mut a = q[index];
                a.sleep_time = a.sleep_time - ts;
                set_at(q, index, a);
            }
        }
    }
    assert(q@ =~= rr_step_as(process2, old(q)@, ts, index as int));
}

/// Lets `ts` units of time pass (see `rr_sync_step`).
pub fn syncronize_timings(q: &mut VecDeque<MyProcess>, ts: usize)
    requires
        rr_sync_ok(old(q)@, ts),
    ensures
        final(q)@ == rr_synced(old(q)@, ts),
{
    let ghost snap = q@;
    let processes = copy_queue(q);
    let len = q.len();
    let mut index: usize = 0;
    while index < len
        invariant
            len == snap.len(),
            processes@ == snap,
            index <= len,
            rr_sync_ok(snap, ts),
            q@ == rr_synced_upto(snap, ts, index as int),
            q@.len() == len,
        decreases len - index,
    {
        assert(rr_sync_step_ok(snap, q@, ts, index as int));
        sync_step(q, processes[index], ts, index);
        index = index + 1;
        proof {
            lemma_rr_synced_len(snap, ts, index as int);
        }
    }
}

/// Whether letting `ts` units of time pass stays within the range of
/// `usize` (see `rr_sync_ok`); where it does, `q` becomes the queue after it.
fn sync_check(q: &mut VecDeque<MyProcess>, ts: usize) -> (r: bool)
    ensures
        r == rr_sync_ok(old(q)@, ts),
        r ==> final(q)@ == rr_synced(old(q)@, ts),
{
    let ghost snap = q@;
    let processes = copy_queue(q);
    let len = q.len();
    let mut index: usize = 0;
    while index < len
        invariant
            len == snap.len(),
            processes@ == snap,
            index <= len,
            snap == old(q)@,
            forall|k: int| 0 <= k < index ==> #[trigger] rr_sync_step_ok(snap, rr_synced_upto(snap, ts, k), ts, k),
            q@ == rr_synced_upto(snap, ts, index as int),
            q@.len() == len,
        decreases len - index,
    {
        let sp = processes[index];
        let c = q[index];
        let ok = c.timings.0 <= usize::MAX - ts && (sp.state != ProcessState::Running
            || c.timings.2 <= usize::MAX - ts) && (!(sp.state == (ProcessState::Waiting {
            event: None,
        }) && ts >= sp.sleep_time && index + 1 < len) || q[index + 1].timings.0 <= usize::MAX
            - ts) && (!(sp.state == (ProcessState::Waiting { event: None }) && ts
            < sp.sleep_time) || c.sleep_time >= ts);
        if !ok {
            proof {
                let cur = rr_synced_upto(snap, ts, index as int);
                assert(!rr_sync_step_ok(snap, cur, ts, index as int));
                assert(snap == old(q)@);
                if rr_sync_ok(snap, ts) {
                    assert(rr_sync_step_ok(snap, cur, ts, index as int));
                }
            }
            return false;
        }
        sync_step(q, sp, ts, index);
        index = index + 1;
        proof {
            lemma_rr_synced_len(snap, ts, index as int);
        }
    }
    true
}

/// What `next` does to a round-robin scheduler in state `s`, and what it answers.
pub open spec fn rr_next(s: SchedState) -> (SchedState, Decision) {
    match early_decision(s.procs) {
        Some(d) => (s, d),
        None => {
            let p = s.procs[0];
            if wakes(p) {
                (
                    s.with_procs(seq![woken(p)] + rr_synced(s.procs.drop_first(), p.sleep_time)).with_timeslice(
                        s.reset_timeslice(),
                    ),
                    Decision::Run { pid: p.pid, timeslice: s.reset_timeslice() },
                )
            } else {
                dispatch(s.with_procs(s.procs.drop_first()), p)
            }
        },
    }
}

/// Whether `next` keeps its counters within the range of `usize` in state `s`.
pub open spec fn rr_next_ok(s: SchedState) -> bool {
    early_decision(s.procs) is None && wakes(s.procs[0]) ==> {
        &&& s.procs[0].timings.0 + s.procs[0].sleep_time <= usize::MAX
        &&& rr_sync_ok(s.procs.drop_first(), s.procs[0].sleep_time)
    }
}


/// A fork: the new process gets the pid `next_pid` and is queued at the
/// back, ready. The first fork only queues it; a later one first lets
/// `ts - remaining - 1` units pass and counts the call for the process in
/// front, and then takes the remaining time as the time slice, or, with no
/// time left and several processes, lets the second process run, sends the
/// first to the back after the new one, and goes back to the initial time
/// slice.
pub open spec fn rr_fork(
    s: SchedState,
    priority: i8,
    remaining: usize,
) -> (SchedState, SyscallResult) {
    let new_pid = s.next_pid;
    let s1 = SchedState { next_pid: (new_pid + 1) as usize, ..s };
    let np = MyProcess { priority, ..MyProcess::fresh(new_pid) };
    let res = SyscallResult::Pid(Pid(new_pid));
    if new_pid != 1 {
        let q = rr_synced(s.procs, (s.timeslice - remaining - 1) as usize);
        if q.len() > 0 {
            let q2 = tick(q.update(0, add_call(q[0])));
            if remaining > 0 {
                (s1.with_procs(q2.push(np)).with_timeslice(remaining), res)
            } else if q2.len() > 1 {
                let value = with_state(q2[0], ProcessState::Ready);
                let value2 = with_state(q2[1], ProcessState::Running);
                (
                    s1.with_procs(
                        (seq![value2] + q2.subrange(2, q2.len() as int)).push(np).push(value),
                    ).with_timeslice(s.reset_timeslice()),
                    res,
                )
            } else {
                (s1.with_procs(q2.push(np)), res)
            }
        } else {
            (s1.with_procs(q.push(np)), res)
        }
    } else {
        (SchedState { procs: s.procs.push(np), running: np, ..s1 }, res)
    }
}

pub open spec fn rr_fork_ok(s: SchedState, remaining: usize) -> bool {
    let q = rr_synced(s.procs, (s.timeslice - remaining - 1) as usize);
    &&& s.next_pid < usize::MAX
    &&& s.next_pid != 1 ==> {
        &&& remaining + 1 <= s.timeslice
        &&& rr_sync_ok(s.procs, (s.timeslice - remaining - 1) as usize)
        &&& q.len() > 0 ==> {
            &&& q[0].timings.1 < usize::MAX
            &&& tick_ok(q.update(0, add_call(q[0])))
        }
    }
}

/// The running process (the last one where several run, the front one
/// where none does) after `ts - remaining - 1` units: asleep for `amount`.
pub open spec fn rr_slept(s: SchedState, amount: usize, remaining: usize) -> MyProcess {
    let q = rr_synced(s.procs, (s.timeslice - remaining - 1) as usize);
    add_call(
        MyProcess {
            state: asleep(),
            sleep_time: amount,
            is_sleeping: true,
            ..q[last_running_or_zero(q)]
        },
    )
}

/// A sleep: `ts - remaining - 1` units pass, the running process goes to
/// sleep for `amount` units, every process gets one more unit, and the time
/// slice shrinks by one unit unless a single process is left or the slice
/// is a single unit.
pub open spec fn rr_sleep(
    s: SchedState,
    amount: usize,
    remaining: usize,
) -> (SchedState, SyscallResult) {
    let q = rr_synced(s.procs, (s.timeslice - remaining - 1) as usize);
    if q.len() > 0 {
        let q2 = tick(q.update(last_running_or_zero(q), rr_slept(s, amount, remaining)));
        if q2.len() != 1 && s.timeslice > 1 {
            (s.with_procs(q2).with_timeslice((s.timeslice - 1) as usize), SyscallResult::Success)
        } else {
            (s.with_procs(q2), SyscallResult::Success)
        }
    } else {
        (s.with_procs(q), SyscallResult::Success)
    }
}

pub open spec fn rr_sleep_ok(s: SchedState, amount: usize, remaining: usize) -> bool {
    let q = rr_synced(s.procs, (s.timeslice - remaining - 1) as usize);
    &&& remaining + 1 <= s.timeslice
    &&& rr_sync_ok(s.procs, (s.timeslice - remaining - 1) as usize)
    &&& q.len() > 0 ==> {
        &&& q[last_running_or_zero(q)].timings.1 < usize::MAX
        &&& tick_ok(q.update(last_running_or_zero(q), rr_slept(s, amount, remaining)))
    }
}

/// An exit: `ts - remaining` units pass and the process in front leaves.
/// While the process with pid 1 is there, the first ready process, and every
/// process with its pid, runs, with the initial time slice.
pub open spec fn rr_exit(s: SchedState, remaining: usize) -> (SchedState, SyscallResult) {
    let q = rr_synced(s.procs, (s.timeslice - remaining) as usize);
    if q.len() != 1 {
        let q1 = if q.len() > 0 {
            q.drop_first()
        } else {
            q
        };
        if has_pid(q1, 1) {
            match first_in_state(q1, ProcessState::Ready) {
                Some(p2) => (
                    s.with_procs(marked_running(q1, p2.pid, false)).with_timeslice(
                        s.reset_timeslice(),
                    ),
                    SyscallResult::Success,
                ),
                None => (s.with_procs(q1), SyscallResult::Success),
            }
        } else {
            (s.with_procs(q1), SyscallResult::Success)
        }
    } else {
        (s.with_procs(Seq::empty()), SyscallResult::Success)
    }
}

pub open spec fn rr_exit_ok(s: SchedState, remaining: usize) -> bool {
    let q = rr_synced(s.procs, (s.timeslice - remaining) as usize);
    &&& remaining <= s.timeslice
    &&& rr_sync_ok(s.procs, (s.timeslice - remaining) as usize)
    &&& q.len() == 1 ==> q[0].timings.0 < usize::MAX
}

/// The process in front once it waits for `event`, after `d` units.
pub open spec fn waiting_for(p: MyProcess, event: usize, d: int) -> MyProcess {
    MyProcess {
        state: ProcessState::Waiting { event: Some(event) },
        event_number: event,
        ..add_exec(add_call(p), d - 1)
    }
}

/// The queue after `next` hands the processor to `p2`, taken out of `q` and
/// put in front, running.
pub open spec fn hand_over(q: Seq<MyProcess>, p2: MyProcess) -> Seq<MyProcess> {
    seq![with_state(p2, ProcessState::Running)] + without_pid(q, p2.pid)
}

/// A wait: the process in front waits for `event`, `ts - remaining` units
/// pass, and the first ready process runs with the initial time slice; with
/// none ready, the time slice shrinks by one unit where it can.
pub open spec fn rr_wait(
    s: SchedState,
    event: usize,
    remaining: usize,
) -> (SchedState, SyscallResult) {
    if s.procs.len() == 0 {
        (s, SyscallResult::Success)
    } else {
        let d = s.timeslice - remaining;
        let q = elapse(s.procs.update(0, waiting_for(s.procs[0], event, d)), d);
        match first_in_state(q, ProcessState::Ready) {
            Some(p2) => (
                s.with_procs(hand_over(q, p2)).with_timeslice(s.reset_timeslice()),
                SyscallResult::Success,
            ),
            None => if s.timeslice - 1 > 0 {
                (s.with_procs(q).with_timeslice((s.timeslice - 1) as usize), SyscallResult::Success)
            } else {
                (s.with_procs(q), SyscallResult::Success)
            },
        }
    }
}

pub open spec fn rr_wait_ok(s: SchedState, event: usize, remaining: usize) -> bool {
    let d = s.timeslice - remaining;
    s.procs.len() > 0 ==> {
        &&& remaining + 1 <= s.timeslice
        &&& s.procs[0].timings.1 < usize::MAX
        &&& s.procs[0].timings.2 + d - 1 <= usize::MAX
        &&& elapse_ok(s.procs.update(0, waiting_for(s.procs[0], event, d)), d)
    }
}

/// A process that did not wait for the signalled event, after `d` units; a
/// running one has the call counted and `d - 1` more run time.
pub open spec fn signal_other(p: MyProcess, d: int) -> MyProcess {
    if p.state == ProcessState::Running {
        add_exec(add_call(add_total(p, d)), d - 1)
    } else {
        add_total(p, d)
    }
}

/// The processes of `q` that do not wait for `event`, after `d` units, in
/// their order and with their states.
pub open spec fn not_signalled(q: Seq<MyProcess>, event: usize, d: int) -> Seq<MyProcess> {
    q.filter(|p: MyProcess| !waits_for(p, event)).map_values(|p: MyProcess| signal_other(p, d))
}

/// The processes of `q` that wait for `event`, now ready, after `d` units.
pub open spec fn signalled(q: Seq<MyProcess>, event: usize, d: int) -> Seq<MyProcess> {
    q.filter(|p: MyProcess| waits_for(p, event)).map_values(
        |p: MyProcess| with_state(add_total(p, d), ProcessState::Ready),
    )
}

/// A signal: the processes waiting for `event` are sorted by pid, `ts -
/// remaining` units pass, and the processes that waited for `event` become
/// ready and go to the back; every other process keeps its state and order.
/// The time slice becomes what remained of it; with nothing remaining, it
/// shrinks by one unit, and where it cannot, the front process goes to the
/// back and the next one runs.
pub open spec fn rr_signal(
    s: SchedState,
    event: usize,
    remaining: usize,
) -> (SchedState, SyscallResult) {
    let q = sort_waiting(s.procs, event);
    let d = s.timeslice - remaining;
    let sig = signalled(q, event, d);
    let q2 = not_signalled(q, event, d) + sig;
    if sig.len() == 0 {
        let s2 = SchedState { remaining_time: 3, ..s.with_procs(q2) };
        if remaining != 0 {
            (s2.with_timeslice(remaining), SyscallResult::Success)
        } else {
            (s2, SyscallResult::Success)
        }
    } else if remaining != 0 {
        (s.with_procs(q2).with_timeslice(remaining), SyscallResult::Success)
    } else if s.timeslice - 1 != 0 {
        (s.with_procs(q2).with_timeslice((s.timeslice - 1) as usize), SyscallResult::Success)
    } else if q2.len() > 1 {
        let q3 = q2.drop_first().push(with_state(q2[0], ProcessState::Ready));
        (
            s.with_procs(seq![with_state(q3[0], ProcessState::Running)] + q3.drop_first()).with_timeslice(
                s.reset_timeslice(),
            ),
            SyscallResult::Success,
        )
    } else {
        (s.with_procs(q2), SyscallResult::Success)
    }
}

pub open spec fn rr_signal_ok(s: SchedState, event: usize, remaining: usize) -> bool {
    let q = sort_waiting(s.procs, event);
    let d = s.timeslice - remaining;
    q.len() > 0 ==> {
        &&& remaining <= s.timeslice
        &&& forall|i: int|
            0 <= i < q.len() ==> {
                &&& (#[trigger] q[i]).timings.0 + d <= usize::MAX
                &&& q[i].state == ProcessState::Running ==> {
                    &&& remaining + 1 <= s.timeslice
                    &&& q[i].timings.1 < usize::MAX
                    &&& q[i].timings.2 + d - 1 <= usize::MAX
                }
            }
    }
}

/// The end of a time slice: the time slice passes, the process in front goes
/// to the back, ready, the processes done sleeping become ready, and the
/// first ready process (with every process of its pid) runs. The time slice
/// is back to the initial one. With no process at all, a fresh one is queued
/// with the pid `next_pid`.
pub open spec fn rr_expire(s: SchedState) -> (SchedState, SyscallResult) {
    let q = rr_synced(s.procs, s.timeslice);
    if q.len() > 0 {
        let p = q[0];
        let rest = wake_done(q.drop_first());
        let ts1 = if s.timeslice - 1 > 0 {
            (s.timeslice - 1) as usize
        } else {
            s.timeslice
        };
        let (rest2, rem, ts2) = match first_in_state(rest, ProcessState::Ready) {
            Some(p2) => (marked_running(rest, p2.pid, false), s.initial_timeslice, ts1),
            None => (
                rest,
                if p.state == asleep() {
                    s.initial_timeslice
                } else {
                    s.remaining_time
                },
                s.timeslice,
            ),
        };
        let ts3 = if s.initial_timeslice > 0 {
            s.initial_timeslice
        } else {
            ts2
        };
        (
            SchedState {
                procs: rest2.push(with_state(p, ProcessState::Ready)),
                timeslice: ts3,
                remaining_time: rem,
                ..s
            },
            SyscallResult::Success,
        )
    } else {
        (s.with_procs(seq![MyProcess::fresh(s.next_pid)]), SyscallResult::Pid(Pid(s.next_pid)))
    }
}

/// What `stop` does to a round-robin scheduler in state `s`.
pub open spec fn rr_stop(s: SchedState, reason: StopReason) -> (SchedState, SyscallResult) {
    match reason {
        StopReason::Syscall { syscall, remaining } => match syscall {
            Syscall::Fork(priority) => rr_fork(s, priority, remaining),
            Syscall::Sleep(amount) => rr_sleep(s, amount, remaining),
            Syscall::Exit => rr_exit(s, remaining),
            Syscall::Wait(event) => rr_wait(s, event, remaining),
            Syscall::Signal(event) => rr_signal(s, event, remaining),
        },
        StopReason::Expired => rr_expire(s),
    }
}

/// Whether `stop` does not fail in state `s`: no subtraction below zero, no
/// count past the range of `usize`, no time slice of zero.
pub open spec fn rr_stop_ok(s: SchedState, reason: StopReason) -> bool {
    match reason {
        StopReason::Syscall { syscall, remaining } => match syscall {
            Syscall::Fork(_) => rr_fork_ok(s, remaining),
            Syscall::Sleep(amount) => rr_sleep_ok(s, amount, remaining),
            Syscall::Exit => rr_exit_ok(s, remaining),
            Syscall::Wait(event) => rr_wait_ok(s, event, remaining),
            Syscall::Signal(event) => rr_signal_ok(s, event, remaining),
        },
        StopReason::Expired => rr_sync_ok(s.procs, s.timeslice),
    }
}

/// A round-robin scheduler: processes take turns, each for a time slice.
pub struct RoundRobin {
    core: Core,
}

impl RoundRobin {
    pub closed spec fn view(&self) -> SchedState {
        self.core@
    }

    /// A scheduler with no process, that hands out `timeslice` units at a time.
    pub fn new(timeslice: NonZeroUsize, minimum_remaining_timeslice: usize) -> (r: RoundRobin)
        ensures
            r@ == SchedState::initial(timeslice@, minimum_remaining_timeslice),
            r@.initial_timeslice > 0,
            r@.well_formed(),
    {
        RoundRobin { core: Core::new(timeslice, minimum_remaining_timeslice) }
    }

    /// The processes, front of the queue first.
    pub fn list(&self) -> (r: Vec<MyProcess>)
        ensures
            r@ == self@.procs,
    {
        queue_to_vec(&self.core.processes)
    }

    /// The run queue itself, front first.
    pub fn processes(&self) -> (r: &VecDeque<MyProcess>)
        ensures
            r@ == self@.procs,
    {
        &self.core.processes
    }

    /// Decides which process runs next (see `rr_next`).
    pub fn next(&mut self) -> (r: SchedulingDecision)
        requires
            rr_next_ok(old(self)@),
        ensures
            (final(self)@, r@) == rr_next(old(self)@),
            old(self)@.well_formed() ==> final(self)@.well_formed(),
    {
        proof {
            if old(self)@.well_formed() {
                crate::laws::law_waits_match_kept(old(self)@, StopReason::Expired);
                crate::laws::law_settings_kept(old(self)@, StopReason::Expired);
            }
        }
        if let Some(d) = self.core.early_decision() {
            return d;
        }
        let mut process = self.core.processes.pop_front().unwrap();
        let pide = process.pid;
        if !process.is_sleeping && process.sleep_time != 0 {
            process.timings.0 = process.timings.0 + process.sleep_time;
            syncronize_timings(&mut self.core.processes, process.sleep_time);
            process.sleep_time = 0;
            self.core.reset_timeslice();
            process.state = ProcessState::Running;
            self.core.processes.push_front(process);
            return SchedulingDecision::Run { pid: pide, timeslice: self.core.timeslice };
        }
        self.core.dispatch(process)
    }

    /// A fork (see `rr_fork`).
    fn fork(&mut self, priority: i8, remaining: usize) -> (r: SyscallResult)
        requires
            rr_fork_ok(old(self)@, remaining),
        ensures
            (final(self)@, r) == rr_fork(old(self)@, priority, remaining),
    {
        let new_pid = self.core.next_pid;
        self.core.next_pid = self.core.next_pid + 1;
        let mut new_process = MyProcess::new(new_pid);
        new_process.priority = priority;
        if self.core.next_pid != 2 {
            syncronize_timings(&mut self.core.processes, self.core.timeslice.get() - remaining - 1);
            new_process.state = ProcessState::Ready;
            if self.core.processes.len() > 0 {
                let mut p = self.core.processes[0];
                p.timings.1 = p.timings.1 + 1;
                set_at(&mut self.core.processes, 0, p);
                increment_timings(&mut self.core.processes);
                if remaining > 0 {
                    self.core.timeslice = NonZeroUsize::new(remaining).unwrap();
                    self.core.processes.push_back(new_process);
                } else if self.core.processes.len() > 1 {
                    let mut value = self.core.processes.pop_front().unwrap();
                    let mut value2 = self.core.processes.pop_front().unwrap();
                    value2.state = ProcessState::Running;
                    value.state = ProcessState::Ready;
                    self.core.reset_timeslice();
                    self.core.processes.push_front(value2);
                    self.core.processes.push_back(new_process);
                    self.core.processes.push_back(value);
                    proof {
                        let q2 = tick(
                            rr_synced(
                                old(self)@.procs,
                                (old(self)@.timeslice - remaining - 1) as usize,
                            ).update(
                                0,
                                add_call(
                                    rr_synced(
                                        old(self)@.procs,
                                        (old(self)@.timeslice - remaining - 1) as usize,
                                    )[0],
                                ),
                            ),
                        );
                        assert(self.core.processes@ =~= (seq![with_state(q2[1], ProcessState::Running)]
                            + q2.subrange(2, q2.len() as int)).push(new_process).push(
                            with_state(q2[0], ProcessState::Ready),
                        ));
                    }
                } else {
                    self.core.processes.push_back(new_process);
                }
            } else {
                self.core.processes.push_back(new_process);
            }
        } else {
            self.core.processes.push_back(new_process);
            self.core.running_process = new_process;
        }
        SyscallResult::Pid(Pid::new(new_pid))
    }

    /// A sleep (see `rr_sleep`).
    fn sleep(&mut self, amount: usize, remaining: usize) -> (r: SyscallResult)
        requires
            rr_sleep_ok(old(self)@, amount, remaining),
        ensures
            (final(self)@, r) == rr_sleep(old(self)@, amount, remaining),
    {
        syncronize_timings(&mut self.core.processes, self.core.timeslice.get() - remaining - 1);
        let final_index = last_running_index(&self.core.processes);
        proof {
            lemma_last_where(self.core.processes@, in_state(ProcessState::Running));
        }
        if final_index < self.core.processes.len() {
            let mut p = self.core.processes[final_index];
            p.state = ProcessState::Waiting { event: None };
            p.sleep_time = amount;
            p.is_sleeping = true;
            if p.is_sleeping {
                p.timings.1 = p.timings.1 + 1;
            }
            set_at(&mut self.core.processes, final_index, p);
            increment_timings(&mut self.core.processes);
            if self.core.processes.len() != 1 {
                if let Some(shorter) = NonZeroUsize::new(self.core.timeslice.get() - 1) {
                    self.core.timeslice = shorter;
                }
            }
        }
        SyscallResult::Success
    }

    /// An exit (see `rr_exit`).
    fn exit(&mut self, remaining: usize) -> (r: SyscallResult)
        requires
            rr_exit_ok(old(self)@, remaining),
        ensures
            (final(self)@, r) == rr_exit(old(self)@, remaining),
    {
        syncronize_timings(&mut self.core.processes, self.core.timeslice.get() - remaining);
        if self.core.processes.len() != 1 {
            self.core.processes.pop_front();
            if check_number_1_pid(&self.core.processes) {
                if let Some(mut process2) = find_state(&self.core.processes, ProcessState::Ready) {
                    process2.state = ProcessState::Running;
                    self.core.reset_timeslice();
                    mark_running(&mut self.core.processes, process2.pid, false);
                }
            }
        } else {
            if self.core.processes.len() != 0 {
                let mut process = self.core.processes.pop_front().unwrap();
                process.timings.0 = process.timings.0 + 1;
            }
            assert(self.core.processes@ =~= Seq::<MyProcess>::empty());
        }
        SyscallResult::Success
    }

    /// A wait (see `rr_wait`).
    fn wait(&mut self, event: usize, remaining: usize) -> (r: SyscallResult)
        requires
            rr_wait_ok(old(self)@, event, remaining),
        ensures
            (final(self)@, r) == rr_wait(old(self)@, event, remaining),
    {
        if self.core.processes.len() == 0 {
            return SyscallResult::Success;
        }
        let mut process = self.core.processes[0];
        process.state = ProcessState::Waiting { event: Some(event) };
        process.timings.1 = process.timings.1 + 1;
        process.timings.2 = process.timings.2 + (self.core.timeslice.get() - remaining - 1);
        process.event_number = event;
        set_at(&mut self.core.processes, 0, process);
        elapse_all(&mut self.core.processes, self.core.timeslice.get() - remaining);
        if let Some(mut process2) = find_state(&self.core.processes, ProcessState::Ready) {
            process2.state = ProcessState::Running;
            let element = remove_pid(&self.core.processes, process2.pid);
            self.core.processes = element;
            self.core.processes.push_front(process2);
            self.core.reset_timeslice();
        } else if self.core.timeslice.get() - 1 > 0 {
            self.core.timeslice = NonZeroUsize::new(self.core.timeslice.get() - 1).unwrap();
        }
        SyscallResult::Success
    }

    /// A signal (see `rr_signal`).
    fn signal(&mut self, event: usize, remaining: usize) -> (r: SyscallResult)
        requires
            rr_signal_ok(old(self)@, event, remaining),
        ensures
            (final(self)@, r) == rr_signal(old(self)@, event, remaining),
    {
        sort_waiting_by_pid(&mut self.core.processes, event);
        let ghost q = self.core.processes@;
        let ghost d = old(self)@.timeslice - remaining;
        let ghost fo = |p: MyProcess| !waits_for(p, event);
        let ghost fs = |p: MyProcess| waits_for(p, event);
        let processes = copy_queue(&self.core.processes);
        let mut others: VecDeque<MyProcess> = VecDeque::new();
        let mut processes_signal: VecDeque<MyProcess> = VecDeque::new();
        let mut element: usize = 0;
        let mut i: usize = 0;
        while i < processes.len()
            invariant
                processes@ == q,
                i <= q.len(),
                q.len() > 0 ==> remaining <= old(self)@.timeslice,
                d == old(self)@.timeslice - remaining,
                self.core.timeslice@ == old(self)@.timeslice,
                self@ == old(self)@.with_procs(q),
                fo == (|p: MyProcess| !waits_for(p, event)),
                fs == (|p: MyProcess| waits_for(p, event)),
                rr_signal_ok(old(self)@, event, remaining),
                q == sort_waiting(old(self)@.procs, event),
                others@ == not_signalled(q.take(i as int), event, d),
                processes_signal@ == signalled(q.take(i as int), event, d),
                element == processes_signal@.len(),
                element <= i,
            decreases q.len() - i,
        {
            let ghost t = q.take(i + 1);
            assert(t.drop_last() =~= q.take(i as int));
            assert(t.last() == q[i as int]);
            proof {
                reveal(Seq::filter);
            }
            let mut process = processes[i];
            assert(process == q[i as int]);
            process.timings.0 = process.timings.0 + (self.core.timeslice.get() - remaining);
            if process.state == (ProcessState::Waiting { event: Some(event) }) {
                process.state = ProcessState::Ready;
                element = element + 1;
                processes_signal.push_back(process);
                assert(t.filter(fs) == q.take(i as int).filter(fs).push(q[i as int]));
                assert(t.filter(fo) == q.take(i as int).filter(fo));
            } else {
                if process.state == ProcessState::Running {
                    process.timings.1 = process.timings.1 + 1;
                    process.timings.2 = process.timings.2 + (self.core.timeslice.get() - remaining
                        - 1);
                }
                others.push_back(process);
                assert(t.filter(fo) == q.take(i as int).filter(fo).push(q[i as int]));
                assert(t.filter(fs) == q.take(i as int).filter(fs));
            }
            assert(others@ =~= not_signalled(t, event, d));
            assert(processes_signal@ =~= signalled(t, event, d));
            i = i + 1;
        }
        assert(q.take(q.len() as int) =~= q);
        self.core.processes = others;
        let mut j: usize = 0;
        let ghost base = self.core.processes@;
        while j < processes_signal.len()
            invariant
                j <= processes_signal@.len(),
                self.core.processes@ == base + processes_signal@.take(j as int),
                self@ == old(self)@.with_procs(self.core.processes@),
            decreases processes_signal@.len() - j,
        {
            self.core.processes.push_back(processes_signal[j]);
            j = j + 1;
            assert(self.core.processes@ =~= base + processes_signal@.take(j as int));
        }
        assert(processes_signal@.take(processes_signal@.len() as int) =~= processes_signal@);
        assert(self.core.processes@ == not_signalled(q, event, d) + signalled(q, event, d));
        assert(self@ == old(self)@.with_procs(self.core.processes@));
        if element == 0 {
            self.core.remaining_time = 3;
            if remaining != 0 {
                self.core.timeslice = NonZeroUsize::new(remaining).unwrap();
            } else if self.core.timeslice.get() - remaining > 0 {
                self.core.timeslice = NonZeroUsize::new(self.core.timeslice.get() - remaining).unwrap();
            }
        } else if remaining != 0 {
            self.core.timeslice = NonZeroUsize::new(remaining).unwrap();
        } else if self.core.timeslice.get() - 1 != 0 {
            self.core.timeslice = NonZeroUsize::new(self.core.timeslice.get() - 1).unwrap();
        } else if self.core.processes.len() > 1 {
            let mut running_process = self.core.processes.pop_front().unwrap();
            running_process.state = ProcessState::Ready;
            self.core.processes.push_back(running_process);
            if self.core.processes.len() != 0 {
                let mut process = self.core.processes.pop_front().unwrap();
                process.state = ProcessState::Running;
                self.core.processes.push_front(process);
            }
            self.core.reset_timeslice();
        }
        SyscallResult::Success
    }

    /// The end of a time slice (see `rr_expire`).
    fn expire(&mut self) -> (r: SyscallResult)
        requires
            rr_sync_ok(old(self)@.procs, old(self)@.timeslice),
        ensures
            (final(self)@, r) == rr_expire(old(self)@),
    {
        syncronize_timings(&mut self.core.processes, self.core.timeslice.get());
        if let Some(mut process) = self.core.processes.pop_front() {
            wake_finished(&mut self.core.processes);
            if process.state == (ProcessState::Waiting { event: None }) {
                self.core.remaining_time = self.core.initial_timeslice;
                process.state = ProcessState::Running;
            }
            process.state = ProcessState::Ready;
            if let Some(mut process2) = find_state(&self.core.processes, ProcessState::Ready) {
                process2.state = ProcessState::Running;
                self.core.remaining_time = self.core.initial_timeslice;
                if let Some(new_timeslice) = NonZeroUsize::new(self.core.timeslice.get() - 1) {
                    self.core.timeslice = new_timeslice;
                }
                mark_running(&mut self.core.processes, process2.pid, false);
            }
            if self.core.initial_timeslice > 0 {
                self.core.timeslice = NonZeroUsize::new(self.core.initial_timeslice).unwrap();
            }
            self.core.processes.push_back(process);
            assert(self@ =~~= rr_expire(old(self)@).0);
            SyscallResult::Success
        } else {
            let new_pid = self.core.next_pid;
            let new_process = MyProcess::new(new_pid);
            self.core.processes.push_back(new_process);
            proof {
                lemma_rr_synced_len(
                    old(self)@.procs,
                    old(self)@.timeslice,
                    old(self)@.procs.len() as int,
                );
                assert(self.core.processes@ =~= seq![MyProcess::fresh(new_pid)]);
                assert(self@ =~~= rr_expire(old(self)@).0);
            }
            SyscallResult::Pid(Pid::new(new_pid))
        }
    }

    /// Handles a stopped process (see `rr_stop`).
    pub fn stop(&mut self, reason: StopReason) -> (r: SyscallResult)
        requires
            rr_stop_ok(old(self)@, reason),
        ensures
            (final(self)@, r) == rr_stop(old(self)@, reason),
            old(self)@.well_formed() ==> final(self)@.well_formed(),
    {
        proof {
            if old(self)@.well_formed() {
                crate::laws::law_waits_match_kept(old(self)@, reason);
                crate::laws::law_settings_kept(old(self)@, reason);
            }
        }
        match reason {
            StopReason::Syscall { syscall, remaining } => match syscall {
                Syscall::Fork(priority) => self.fork(priority, remaining),
                Syscall::Sleep(amount) => self.sleep(amount, remaining),
                Syscall::Exit => self.exit(remaining),
                Syscall::Wait(event) => self.wait(event, remaining),
                Syscall::Signal(event) => self.signal(event, remaining),
            },
            StopReason::Expired => self.expire(),
        }
    }


    /// Whether `next` can run in this state without failing (see `rr_next_ok`).
    pub fn can_next(&self) -> (r: bool)
        ensures
            r == rr_next_ok(self@),
    {
        if self.core.early_decision().is_some() {
            return true;
        }
        let p = self.core.processes[0];
        if p.is_sleeping || p.sleep_time == 0 {
            return true;
        }
        if p.timings.0 > usize::MAX - p.sleep_time {
            return false;
        }
        let mut rest = copy_queue(&self.core.processes);
        rest.pop_front();
        assert(rest@ == self@.procs.drop_first());
        sync_check(&mut rest, p.sleep_time)
    }

    /// Whether `stop` can handle `reason` in this state without failing (see `rr_stop_ok`).
    pub fn can_stop(&self, reason: StopReason) -> (r: bool)
        ensures
            r == rr_stop_ok(self@, reason),
    {
        let ts = self.core.timeslice.get();
        match reason {
            StopReason::Syscall { syscall, remaining } => match syscall {
                Syscall::Fork(_) => {
                    if self.core.next_pid == usize::MAX {
                        return false;
                    }
                    if self.core.next_pid == 1 {
                        return true;
                    }
                    if remaining >= ts {
                        return false;
                    }
                    let mut q = copy_queue(&self.core.processes);
                    if !sync_check(&mut q, ts - remaining - 1) {
                        return false;
                    }
                    if q.len() > 0 {
                        let mut p = q[0];
                        if p.timings.1 == usize::MAX {
                            return false;
                        }
                        p.timings.1 = p.timings.1 + 1;
                        let mut q2 = copy_queue(&q);
                        set_at(&mut q2, 0, p);
                        if !tick_check(&q2) {
                            return false;
                        }
                    }
                    true
                },
                Syscall::Sleep(amount) => {
                    if remaining >= ts {
                        return false;
                    }
                    let mut q = copy_queue(&self.core.processes);
                    if !sync_check(&mut q, ts - remaining - 1) {
                        return false;
                    }
                    if q.len() > 0 {
                        let fi = last_running_index(&q);
                        proof {
                            lemma_last_where(q@, in_state(ProcessState::Running));
                        }
                        let mut p = q[fi];
                        if p.timings.1 == usize::MAX {
                            return false;
                        }
                        p.state = ProcessState::Waiting { event: None };
                        p.sleep_time = amount;
                        p.is_sleeping = true;
                        p.timings.1 = p.timings.1 + 1;
                        let mut q2 = copy_queue(&q);
                        set_at(&mut q2, fi, p);
                        if !tick_check(&q2) {
                            return false;
                        }
                    }
                    true
                },
                Syscall::Exit => {
                    if remaining > ts {
                        return false;
                    }
                    let mut q = copy_queue(&self.core.processes);
                    if !sync_check(&mut q, ts - remaining) {
                        return false;
                    }
                    !(q.len() == 1 && q[0].timings.0 == usize::MAX)
                },
                Syscall::Wait(event) => {
                    if self.core.processes.len() == 0 {
                        return true;
                    }
                    if remaining >= ts {
                        return false;
                    }
                    let d = ts - remaining;
                    let mut p = self.core.processes[0];
                    if p.timings.1 == usize::MAX || p.timings.2 > usize::MAX - (d - 1) {
                        return false;
                    }
                    p.state = ProcessState::Waiting { event: Some(event) };
                    p.timings.1 = p.timings.1 + 1;
                    p.timings.2 = p.timings.2 + (d - 1);
                    p.event_number = event;
                    let mut q = copy_queue(&self.core.processes);
                    set_at(&mut q, 0, p);
                    elapse_check(&q, d)
                },
                Syscall::Signal(event) => {
                    let mut q = copy_queue(&self.core.processes);
                    sort_waiting_by_pid(&mut q, event);
                    if q.len() == 0 {
                        return true;
                    }
                    if remaining > ts {
                        return false;
                    }
                    let d = ts - remaining;
                    let mut i: usize = 0;
                    while i < q.len()
                        invariant
                            q@ == sort_waiting(self@.procs, event),
                            reason == (StopReason::Syscall { syscall: Syscall::Signal(event), remaining }),
                            remaining <= self@.timeslice,
                            ts == self@.timeslice,
                            d == ts - remaining,
                            i <= q@.len(),
                            forall|j: int|
                                0 <= j < i ==> {
                                    &&& (#[trigger] q@[j]).timings.0 + d <= usize::MAX
                                    &&& q@[j].state == ProcessState::Running ==> {
                                        &&& remaining + 1 <= ts
                                        &&& q@[j].timings.1 < usize::MAX
                                        &&& q@[j].timings.2 + d - 1 <= usize::MAX
                                    }
                                },
                        decreases q@.len() - i,
                    {
                        let p = q[i];
                        let bad = p.timings.0 > usize::MAX - d || (p.state == ProcessState::Running
                            && (remaining >= ts || p.timings.1 == usize::MAX || p.timings.2
                            > usize::MAX - (d - 1)));
                        if bad {
                            assert(!rr_signal_ok(self@, event, remaining)) by {
                                assert(q@[i as int] == p);
                            }
                            return false;
                        }
                        i = i + 1;
                    }
                    true
                },
            },
            StopReason::Expired => {
                let mut q = copy_queue(&self.core.processes);
                sync_check(&mut q, ts)
            },
        }
    }

}

} // verus!
