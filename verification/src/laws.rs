//! What holds of the schedulers over every state and across calls.
use vstd::prelude::*;
use crate::process::{Decision, MyProcess, Pid, ProcessState, StopReason, Syscall, SyscallResult};
use crate::queue::{
    asleep, first_in_state, first_where, has_pid, in_state, is_active, last_running_or_zero,
    lemma_first_where, lemma_last_where, lemma_sort_by_pid, lemma_sort_waiting, min_vmrun,
    non_waiters, pid_sorted, select_min, sort_by_pid, sort_waiting, waiters, waits_for, wake_done,
    with_state, without_pid,
};
use crate::shared::{SchedState, dispatch, early_decision, wait_matches, waits_match};
use crate::round_robin::{
    lemma_rr_synced_len, not_signalled, rr_exit, rr_expire, rr_fork, rr_next, rr_signal, rr_sleep,
    rr_stop, rr_sync_ok, rr_sync_step, rr_sync_step_ok, rr_synced, rr_synced_upto, rr_wait,
    signalled,
};
use crate::cfs::{
    cfs_exit, cfs_expire, cfs_fork, cfs_next, cfs_signal, cfs_signalled, cfs_sleep, cfs_stop,
    cfs_synced,
};

verus! {

/// Once the front process is off the queue, `next` runs a process, lets the
/// processor sleep, or finds a deadlock; it is neither done nor panics, and
/// it finds a deadlock only where no process is ready, running or asleep.
proof fn lemma_dispatch_decides(s: SchedState, p: crate::process::MyProcess)
    requires
        early_decision(seq![p] + s.procs) is None,
    ensures
        dispatch(s, p).1 != Decision::Done,
        dispatch(s, p).1 != Decision::Panic,
        dispatch(s, p).1 != Decision::Deadlock,
{
    let q = seq![p] + s.procs;
    let d = dispatch(s, p).1;
    if d == Decision::Deadlock {
        lemma_first_where(s.procs, in_state(ProcessState::Ready));
        lemma_first_where(q, in_state(ProcessState::Ready));
        lemma_first_where(q, in_state(ProcessState::Running));
        lemma_first_where(q, in_state(asleep()));
        if let Some(i) = first_where(q, in_state(ProcessState::Ready)) {
            if i == 0 {
                assert(p.state == ProcessState::Ready);
            } else {
                assert(q[i] == s.procs[i - 1]);
                assert(in_state(ProcessState::Ready)(s.procs[i - 1]));
            }
        }
    }
}

/// `next` answers `Done` exactly when no process is left, and then changes nothing.
pub proof fn law_next_done_iff_empty(s: SchedState)
    ensures
        (rr_next(s).1 == Decision::Done) <==> s.procs.len() == 0,
        (cfs_next(s).1 == Decision::Done) <==> s.procs.len() == 0,
        s.procs.len() == 0 ==> rr_next(s).0 == s && cfs_next(s).0 == s,
{
    if s.procs.len() > 0 && early_decision(s.procs) is None {
        assert(s.procs =~= seq![s.procs[0]] + s.procs.drop_first());
        lemma_dispatch_decides(s.with_procs(s.procs.drop_first()), s.procs[0]);
    }
}

/// `next` answers `Panic` exactly when processes are left but none has pid 1,
/// and then changes nothing.
pub proof fn law_next_panic_iff_init_gone(s: SchedState)
    ensures
        (rr_next(s).1 == Decision::Panic) <==> (s.procs.len() > 0 && !has_pid(s.procs, 1)),
        (cfs_next(s).1 == Decision::Panic) <==> (s.procs.len() > 0 && !has_pid(s.procs, 1)),
        (s.procs.len() > 0 && !has_pid(s.procs, 1)) ==> rr_next(s).0 == s && cfs_next(s).0 == s,
{
    if s.procs.len() > 0 && early_decision(s.procs) is None {
        assert(s.procs =~= seq![s.procs[0]] + s.procs.drop_first());
        lemma_dispatch_decides(s.with_procs(s.procs.drop_first()), s.procs[0]);
    }
}

/// Whether processes are left, the one with pid 1 among them, and none of
/// them ready, running or asleep.
pub open spec fn stuck(s: SchedState) -> bool {
    &&& s.procs.len() > 0
    &&& has_pid(s.procs, 1)
    &&& first_in_state(s.procs, ProcessState::Ready) is None
    &&& first_in_state(s.procs, ProcessState::Running) is None
    &&& first_in_state(s.procs, asleep()) is None
}

/// `next` answers `Deadlock` exactly when the scheduler is stuck (see
/// `stuck`), and then changes nothing.
pub proof fn law_next_deadlock_iff_stuck(s: SchedState)
    ensures
        (rr_next(s).1 == Decision::Deadlock) <==> stuck(s),
        (cfs_next(s).1 == Decision::Deadlock) <==> stuck(s),
        stuck(s) ==> rr_next(s).0 == s && cfs_next(s).0 == s,
{
    if s.procs.len() > 0 && early_decision(s.procs) is None {
        assert(s.procs =~= seq![s.procs[0]] + s.procs.drop_first());
        lemma_dispatch_decides(s.with_procs(s.procs.drop_first()), s.procs[0]);
    }
}

/// A fork answers the pid `next_pid` and counts it as given: two forks in a
/// row give two different pids, the second one right after the first.
pub proof fn law_fork_gives_fresh_pids(s: SchedState, p1: i8, r1: usize, p2: i8, r2: usize)
    requires
        s.next_pid + 1 < usize::MAX,
    ensures
        rr_fork(s, p1, r1).1 == SyscallResult::Pid(Pid(s.next_pid)),
        rr_fork(s, p1, r1).0.next_pid == s.next_pid + 1,
        cfs_fork(s, p1, r1).1 == SyscallResult::Pid(Pid(s.next_pid)),
        cfs_fork(s, p1, r1).0.next_pid == s.next_pid + 1,
        rr_fork(rr_fork(s, p1, r1).0, p2, r2).1 == SyscallResult::Pid(Pid((s.next_pid + 1) as usize)),
        cfs_fork(cfs_fork(s, p1, r1).0, p2, r2).1 == SyscallResult::Pid(Pid((s.next_pid + 1) as usize)),
        rr_fork(s, p1, r1).1 != rr_fork(rr_fork(s, p1, r1).0, p2, r2).1,
        cfs_fork(s, p1, r1).1 != cfs_fork(cfs_fork(s, p1, r1).0, p2, r2).1,
{
}

/// No call changes the initial time slice or the least remaining time.
pub proof fn law_settings_kept(s: SchedState, reason: StopReason)
    ensures
        rr_next(s).0.initial_timeslice == s.initial_timeslice,
        rr_next(s).0.min_remaining == s.min_remaining,
        cfs_next(s).0.initial_timeslice == s.initial_timeslice,
        cfs_next(s).0.min_remaining == s.min_remaining,
        rr_stop(s, reason).0.initial_timeslice == s.initial_timeslice,
        rr_stop(s, reason).0.min_remaining == s.min_remaining,
        cfs_stop(s, reason).0.initial_timeslice == s.initial_timeslice,
        cfs_stop(s, reason).0.min_remaining == s.min_remaining,
{
    match reason {
        StopReason::Syscall { syscall, remaining } => match syscall {
            Syscall::Fork(priority) => {},
            Syscall::Sleep(amount) => {},
            Syscall::Exit => {},
            Syscall::Wait(event) => {},
            Syscall::Signal(event) => {},
        },
        StopReason::Expired => {},
    }
}

/// The smallest virtual run time among the active processes is no more than
/// that of any of them, nor than the bound `100000000`, and below the bound
/// it is the time of one of them.
pub proof fn law_min_vmrun_least(s: Seq<MyProcess>)
    ensures
        min_vmrun(s) <= 100000000,
        forall|i: int| 0 <= i < s.len() && is_active(s[i]) ==> min_vmrun(s) <= s[i].vmrun,
        min_vmrun(s) < 100000000 ==> exists|i: int|
            0 <= i < s.len() && is_active(s[i]) && s[i].vmrun == min_vmrun(s),
    decreases s.len(),
{
    if s.len() > 0 {
        law_min_vmrun_least(s.drop_last());
        assert forall|i: int| 0 <= i < s.len() - 1 implies s.drop_last()[i] == s[i] by {}
        if min_vmrun(s) < 100000000 && min_vmrun(s) != min_vmrun(s.drop_last()) {
            assert(s[s.len() - 1].vmrun == min_vmrun(s));
        }
        if min_vmrun(s) < 100000000 && min_vmrun(s) == min_vmrun(s.drop_last()) {
            let i = choose|i: int|
                0 <= i < s.drop_last().len() && is_active(s.drop_last()[i]) && s.drop_last()[i].vmrun
                    == min_vmrun(s.drop_last());
            assert(s[i] == s.drop_last()[i]);
        }
    }
}

/// The process that `select_min` picks has a virtual run time no more than
/// that of any active process with another pid; where it picks one of them,
/// it is the first with that least time.
pub proof fn law_select_min_least(s: Seq<MyProcess>, pid: Pid)
    ensures
        select_min(s, pid).0 == select_min(s, pid).1.vmrun || select_min(s, pid).1 == MyProcess::fresh(100),
        select_min(s, pid).0 <= 100000000,
        forall|i: int|
            0 <= i < s.len() && is_active(s[i]) && s[i].pid != pid ==> select_min(s, pid).0
                <= s[i].vmrun && select_min(s, pid).1.vmrun <= s[i].vmrun,
        select_min(s, pid).0 < 100000000 ==> exists|i: int|
            0 <= i < s.len() && s[i] == select_min(s, pid).1 && is_active(s[i]) && s[i].pid != pid
                && forall|j: int|
                0 <= j < i && is_active(s[j]) && s[j].pid != pid ==> s[j].vmrun > s[i].vmrun,
        select_min(s, pid).0 == 100000000 ==> select_min(s, pid).1 == MyProcess::fresh(100),
    decreases s.len(),
{
    if s.len() > 0 {
        let t = s.drop_last();
        law_select_min_least(t, pid);
        assert forall|i: int| 0 <= i < s.len() - 1 implies t[i] == s[i] by {}
        let r = select_min(t, pid);
        let p = s.last();
        if p.vmrun < r.0 && pid != p.pid && is_active(p) {
            assert(s[s.len() - 1] == p);
            assert forall|j: int| 0 <= j < s.len() - 1 && is_active(s[j]) && s[j].pid != pid implies s[j].vmrun > p.vmrun by {
                assert(t[j] == s[j]);
            }
        } else if r.0 < 100000000 {
            let i = choose|i: int|
                0 <= i < t.len() && t[i] == r.1 && is_active(t[i]) && t[i].pid != pid && forall|j: int|
                    0 <= j < i && is_active(t[j]) && t[j].pid != pid ==> t[j].vmrun > t[i].vmrun;
            assert(s[i] == t[i]);
            assert forall|j: int| 0 <= j < i && is_active(s[j]) && s[j].pid != pid implies s[j].vmrun > s[i].vmrun by {
                assert(t[j] == s[j]);
            }
        }
    }
}

/// When a time slice of the fair scheduler ends, the stopped process becomes
/// ready, and the processes that start to run are those with the pid of the
/// chosen process `c`, whose virtual run time is no more than that of any
/// other active process; the other processes that ran before keep running.
pub proof fn law_cfs_expire_runs_least_vruntime(s: SchedState)
    requires
        s.procs.len() > 0,
    ensures
        ({
            let q = cfs_synced(s.procs, s.timeslice as int);
            let i = last_running_or_zero(q);
            let after = cfs_expire(s).0.procs;
            let c = select_min(q.update(i, with_state(q[i], ProcessState::Ready)), q[i].pid).1;
            &&& forall|j: int|
                0 <= j < q.len() && is_active(q[j]) && q[j].pid != q[i].pid ==> c.vmrun
                    <= q[j].vmrun
            &&& after.len() == q.len()
            &&& forall|j: int|
                0 <= j < after.len() ==> (after[j].state == ProcessState::Running <==> (
                after[j].pid == c.pid || (j != i && q[j].state == ProcessState::Running)))
        }),
{
    let q = cfs_synced(s.procs, s.timeslice as int);
    let i = last_running_or_zero(q);
    lemma_last_where(q, in_state(ProcessState::Running));
    let p = with_state(q[i], ProcessState::Ready);
    let q1 = q.update(i, p);
    let c = select_min(q1, p.pid).1;
    law_select_min_least(q1, p.pid);
    let after = cfs_expire(s).0.procs;
    assert forall|j: int|
        0 <= j < q.len() && is_active(q[j]) && q[j].pid != q[i].pid implies c.vmrun <= q[j].vmrun by {
        assert(q1[j] == q[j]);
    }
    assert forall|j: int| 0 <= j < after.len() implies (after[j].state == ProcessState::Running <==> (
    after[j].pid == c.pid || (j != i && q[j].state == ProcessState::Running))) by {
        if j != i {
            assert(q1[j] == q[j]);
        }
    }
}

/// When a round-robin time slice ends, the process in front (once the time
/// has passed) goes to the back, ready, and every other process moves up by
/// one place, keeping its pid.
pub proof fn law_rr_expire_rotates(s: SchedState)
    requires
        s.procs.len() > 0,
    ensures
        ({
            let q = rr_synced(s.procs, s.timeslice);
            let after = rr_expire(s).0.procs;
            &&& after.len() == s.procs.len()
            &&& after.last() == with_state(q[0], ProcessState::Ready)
            &&& forall|j: int| 0 <= j < after.len() - 1 ==> after[j].pid == q[j + 1].pid
        }),
{
    lemma_rr_synced_len(s.procs, s.timeslice, s.procs.len() as int);
}

/// A round-robin exit takes exactly one process out of a queue that has one.
pub proof fn law_rr_exit_removes_one(s: SchedState, remaining: usize)
    requires
        s.procs.len() > 0,
    ensures
        rr_exit(s, remaining).0.procs.len() == s.procs.len() - 1,
{
    lemma_rr_synced_len(s.procs, (s.timeslice - remaining) as usize, s.procs.len() as int);
}

/// A sleep puts the running process (the front one for the fair scheduler)
/// to sleep for the time asked, and leaves the number of processes as it was.
pub proof fn law_sleep_puts_running_to_sleep(s: SchedState, amount: usize, remaining: usize)
    requires
        s.procs.len() > 0,
    ensures
        ({
            let q = rr_synced(s.procs, (s.timeslice - remaining - 1) as usize);
            let i = last_running_or_zero(q);
            let after = rr_sleep(s, amount, remaining).0.procs;
            &&& after.len() == s.procs.len()
            &&& 0 <= i < after.len()
            &&& after[i].state == asleep()
            &&& after[i].sleep_time == amount
            &&& after[i].is_sleeping
            &&& after[i].pid == q[i].pid
        }),
        ({
            let after = cfs_sleep(s, amount, remaining).0.procs;
            &&& after.len() == s.procs.len()
            &&& after[0].state == asleep()
            &&& after[0].sleep_time == amount
            &&& after[0].is_sleeping
            &&& after[0].pid == s.procs[0].pid
        }),
{
    let q = rr_synced(s.procs, (s.timeslice - remaining - 1) as usize);
    lemma_rr_synced_len(s.procs, (s.timeslice - remaining - 1) as usize, s.procs.len() as int);
    lemma_last_where(q, in_state(ProcessState::Running));
}


/// `p` waits, if at all, for the event it last waited for, and its pid is
/// below `n`.
pub open spec fn fits(n: int, p: MyProcess) -> bool {
    wait_matches(p) && p.pid.0 < n
}

/// Every process of `s` fits under `n`.
pub open spec fn all_fit(n: int, s: Seq<MyProcess>) -> bool {
    forall|i: int| 0 <= i < s.len() ==> fits(n, #[trigger] s[i])
}

proof fn lemma_filter_all_fit(n: int, s: Seq<MyProcess>, f: spec_fn(MyProcess) -> bool)
    requires
        all_fit(n, s),
    ensures
        all_fit(n, s.filter(f)),
    decreases s.len(),
{
    reveal(Seq::filter);
    if s.len() > 0 {
        lemma_filter_all_fit(n, s.drop_last(), f);
        assert(fits(n, s[s.len() - 1]));
    }
}

proof fn lemma_rr_synced_all_fit(n: int, snap: Seq<MyProcess>, ts: usize, k: int)
    requires
        all_fit(n, snap),
        0 <= k <= snap.len(),
    ensures
        all_fit(n, rr_synced_upto(snap, ts, k)),
    decreases k,
{
    if k > 0 {
        lemma_rr_synced_all_fit(n, snap, ts, k - 1);
        lemma_rr_synced_len(snap, ts, k - 1);
        let cur = rr_synced_upto(snap, ts, k - 1);
        assert(fits(n, cur[k - 1]));
        if k < cur.len() {
            assert(fits(n, cur[k]));
        }
        let next = rr_sync_step(snap, cur, ts, k - 1);
        assert forall|i: int| 0 <= i < next.len() implies fits(n, #[trigger] next[i]) by {
            assert(fits(n, cur[i]));
        }
    }
}

proof fn lemma_sort_all_fit(n: int, s: Seq<MyProcess>, event: usize)
    requires
        all_fit(n, s),
    ensures
        all_fit(n, sort_waiting(s, event)),
        sort_waiting(s, event).len() == s.len(),
{
    lemma_sort_waiting(s, event);
    let t = sort_waiting(s, event);
    assert forall|i: int| 0 <= i < t.len() implies fits(n, #[trigger] t[i]) by {
        assert(s.contains(t[i]));
        let k = choose|k: int| 0 <= k < s.len() && s[k] == t[i];
        assert(fits(n, s[k]));
    }
}

/// After a signal of `event`, no process waits for `event` any more.
pub proof fn law_signal_wakes_waiters(s: SchedState, event: usize, remaining: usize)
    ensures
        forall|i: int|
            0 <= i < rr_signal(s, event, remaining).0.procs.len() ==> (#[trigger] rr_signal(s, event, remaining).0.procs[i]).state
                != (ProcessState::Waiting { event: Some(event) }),
        forall|i: int|
            0 <= i < cfs_signal(s, event, remaining).0.procs.len() ==> (#[trigger] cfs_signal(s, event, remaining).0.procs[i]).state
                != (ProcessState::Waiting { event: Some(event) }),
{
    let q = sort_waiting(s.procs, event);
    let d = s.timeslice - remaining;
    let fo = |p: MyProcess| !waits_for(p, event);
    let fs = |p: MyProcess| waits_for(p, event);
    broadcast use vstd::seq_lib::group_filter_ensures;
    let o = q.filter(fo);
    let g = q.filter(fs);
    assert forall|i: int| 0 <= i < o.len() implies (#[trigger] o[i]).state != (ProcessState::Waiting {
        event: Some(event),
    }) by {
        assert(fo(o[i]));
    }
    let w = ProcessState::Waiting { event: Some(event) };
    let q2 = not_signalled(q, event, d) + signalled(q, event, d);
    assert forall|i: int| 0 <= i < q2.len() implies (#[trigger] q2[i]).state != w by {
        if i < o.len() {
            assert(q2[i] == not_signalled(q, event, d)[i]);
            assert(fo(o[i]));
        } else {
            assert(q2[i] == signalled(q, event, d)[i - o.len()]);
        }
    }
    let after = rr_signal(s, event, remaining).0.procs;
    assert forall|i: int| 0 <= i < after.len() implies (#[trigger] after[i]).state != w by {
        if after != q2 {
            let q3 = q2.drop_first().push(with_state(q2[0], ProcessState::Ready));
            if 0 < i && i < q2.len() - 1 {
                assert(after[i] == q3[i] && q3[i] == q2[i + 1]);
            }
        }
    }
    let c = cfs_signal(s, event, remaining).0.procs;
    assert forall|i: int| 0 <= i < c.len() implies (#[trigger] c[i]).state != w by {
        assert(c[i] == cfs_signalled(q[i], event, d));
    }
}

proof fn lemma_dispatch_all_fit(n: int, s: SchedState, p: MyProcess)
    requires
        all_fit(n, s.procs),
        fits(n, p),
    ensures
        all_fit(n, dispatch(s, p).0.procs),
{
    let rest = s.procs;
    let q = seq![p] + rest;
    assert(all_fit(n, q)) by {
        assert forall|i: int| 0 <= i < q.len() implies fits(n, #[trigger] q[i]) by {
            if i > 0 {
                assert(q[i] == rest[i - 1]);
            }
        }
    }
    let q1 = rest.push(crate::shared::yielded(p));
    assert(all_fit(n, q1)) by {
        assert forall|i: int| 0 <= i < q1.len() implies fits(n, #[trigger] q1[i]) by {
            if i < rest.len() {
                assert(q1[i] == rest[i]);
            }
        }
    }
    lemma_first_where(q, in_state(ProcessState::Running));
    lemma_first_where(q, in_state(asleep()));
    lemma_first_where(rest, in_state(ProcessState::Ready));
    lemma_first_where(rest, in_state(ProcessState::Running));
    lemma_first_where(q1, in_state(ProcessState::Ready));
    lemma_first_where(q1, in_state(ProcessState::Running));
    let after = dispatch(s, p).0.procs;
    if s.timeslice >= s.min_remaining && p.state == ProcessState::Running {
        assert(after == q);
    } else if p.state == ProcessState::Ready {
        assert forall|i: int| 0 <= i < after.len() implies fits(n, #[trigger] after[i]) by {
            if i < rest.len() {
                assert(after[i] == rest[i]);
            }
        }
    } else if first_in_state(rest, ProcessState::Ready) is None {
        if let Some(r) = first_in_state(q, ProcessState::Running) {
            let o = without_pid(q, r.pid);
            lemma_filter_all_fit(n, q, |x: MyProcess| x.pid != r.pid);
            assert forall|i: int| 0 <= i < after.len() implies fits(n, #[trigger] after[i]) by {
                if i > 0 {
                    assert(after[i] == o[i - 1]);
                }
            }
        } else if let Some(z) = first_in_state(q, asleep()) {
            let o = without_pid(q, z.pid);
            lemma_filter_all_fit(n, q, |x: MyProcess| x.pid != z.pid);
            assert forall|i: int| 0 <= i < after.len() implies fits(n, #[trigger] after[i]) by {
                if 0 < i && i <= o.len() {
                    assert(after[i] == o[i - 1]);
                }
            }
        }
    } else {
        if first_in_state(rest, ProcessState::Running) is None {
            let r = first_where(rest, in_state(ProcessState::Ready)).unwrap();
            assert(q1[r] == rest[r]);
            assert(in_state(ProcessState::Ready)(q1[r]));
            let k = first_where(q1, in_state(ProcessState::Ready)).unwrap();
            assert forall|i: int| 0 <= i < after.len() implies fits(n, #[trigger] after[i]) by {
                if 0 < i && i < q1.len() - k {
                    assert(after[i] == q1[k + i]);
                }
                if i >= q1.len() - k && i < q1.len() {
                    assert(after[i] == q1[i - (q1.len() - k)]);
                }
            }
        } else {
            assert(after == q1);
        }
    }
}

proof fn lemma_cfs_synced_all_fit(n: int, s: Seq<MyProcess>, ts: int)
    requires
        all_fit(n, s),
    ensures
        all_fit(n, cfs_synced(s, ts)),
{
    assert forall|i: int| 0 <= i < cfs_synced(s, ts).len() implies fits(n, #[trigger] cfs_synced(s, ts)[i]) by {
        assert(fits(n, s[i]));
    }
}

proof fn lemma_drop_first_all_fit(n: int, s: Seq<MyProcess>)
    requires
        all_fit(n, s),
        s.len() > 0,
    ensures
        all_fit(n, s.drop_first()),
        fits(n, s[0]),
{
    assert forall|i: int| 0 <= i < s.drop_first().len() implies fits(n, #[trigger] s.drop_first()[i]) by {
        assert(s.drop_first()[i] == s[i + 1]);
    }
}

proof fn lemma_rr_stop_all_fit(n: int, s: SchedState, reason: StopReason)
    requires
        all_fit(n, s.procs),
        reason is Expired && s.procs.len() == 0 ==> s.next_pid < n,
        reason matches StopReason::Syscall { syscall: Syscall::Fork(_), .. } ==> s.next_pid < n,
    ensures
        all_fit(n, rr_stop(s, reason).0.procs),
{
    let after = rr_stop(s, reason).0.procs;
    match reason {
        StopReason::Syscall { syscall, remaining } => match syscall {
            Syscall::Fork(priority) => {
                let q = rr_synced(s.procs, (s.timeslice - remaining - 1) as usize);
                lemma_rr_synced_all_fit(n, s.procs, (s.timeslice - remaining - 1) as usize, s.procs.len() as int);
                if s.next_pid != 1 && q.len() > 0 {
                    let q2 = crate::queue::tick(q.update(0, crate::queue::add_call(q[0])));
                    assert(all_fit(n, q2)) by {
                        assert forall|i: int| 0 <= i < q2.len() implies fits(n, #[trigger] q2[i]) by {
                            assert(fits(n, q[i]));
                        }
                    }
                    assert forall|i: int| 0 <= i < after.len() implies fits(n, #[trigger] after[i]) by {
                        if i < q2.len() {
                            assert(fits(n, q2[i]));
                        }
                        if remaining == 0 && q2.len() > 1 && 1 <= i < q2.len() - 1 {
                            assert(after[i] == q2[i + 1]);
                        }
                    }
                } else {
                    assert forall|i: int| 0 <= i < after.len() implies fits(n, #[trigger] after[i]) by {
                        if i < s.procs.len() {
                            assert(fits(n, s.procs[i]));
                        }
                    }
                }
            },
            Syscall::Sleep(amount) => {
                let q = rr_synced(s.procs, (s.timeslice - remaining - 1) as usize);
                lemma_rr_synced_all_fit(n, s.procs, (s.timeslice - remaining - 1) as usize, s.procs.len() as int);
                lemma_rr_synced_len(s.procs, (s.timeslice - remaining - 1) as usize, s.procs.len() as int);
                lemma_last_where(q, in_state(ProcessState::Running));
                assert forall|i: int| 0 <= i < after.len() implies fits(n, #[trigger] after[i]) by {
                    assert(fits(n, q[i]));
                }
            },
            Syscall::Exit => {
                let q = rr_synced(s.procs, (s.timeslice - remaining) as usize);
                lemma_rr_synced_all_fit(n, s.procs, (s.timeslice - remaining) as usize, s.procs.len() as int);
                lemma_rr_synced_len(s.procs, (s.timeslice - remaining) as usize, s.procs.len() as int);
                if q.len() > 0 {
                    lemma_drop_first_all_fit(n, q);
                }
                let q1 = if q.len() > 0 { q.drop_first() } else { q };
                assert forall|i: int| 0 <= i < after.len() implies fits(n, #[trigger] after[i]) by {
                    if q.len() != 1 {
                        assert(fits(n, q1[i]));
                    }
                }
            },
            Syscall::Wait(event) => {
                if s.procs.len() > 0 {
                    let d = s.timeslice - remaining;
                    let q0 = s.procs.update(0, crate::round_robin::waiting_for(s.procs[0], event, d));
                    let q = crate::queue::elapse(q0, d);
                    assert(all_fit(n, q)) by {
                        assert forall|i: int| 0 <= i < q.len() implies fits(n, #[trigger] q[i]) by {
                            assert(fits(n, s.procs[i]));
                        }
                    }
                    lemma_first_where(q, in_state(ProcessState::Ready));
                    if let Some(p2) = first_in_state(q, ProcessState::Ready) {
                        lemma_filter_all_fit(n, q, |x: MyProcess| x.pid != p2.pid);
                        assert forall|i: int| 0 <= i < after.len() implies fits(n, #[trigger] after[i]) by {
                            if i > 0 {
                                assert(after[i] == without_pid(q, p2.pid)[i - 1]);
                            }
                        }
                    }
                }
            },
            Syscall::Signal(event) => {
                let q = sort_waiting(s.procs, event);
                lemma_sort_all_fit(n, s.procs, event);
                let d = s.timeslice - remaining;
                let fo = |p: MyProcess| !waits_for(p, event);
                let fs = |p: MyProcess| waits_for(p, event);
                lemma_filter_all_fit(n, q, fo);
                lemma_filter_all_fit(n, q, fs);
                let o = q.filter(fo);
                let g = q.filter(fs);
                let ns = not_signalled(q, event, d);
                let sg = signalled(q, event, d);
                let q2 = ns + sg;
                assert(all_fit(n, q2)) by {
                    assert forall|i: int| 0 <= i < q2.len() implies fits(n, #[trigger] q2[i]) by {
                        if i < ns.len() {
                            assert(q2[i] == ns[i]);
                            assert(fits(n, o[i]));
                        } else {
                            assert(q2[i] == sg[i - ns.len()]);
                            assert(fits(n, g[i - ns.len()]));
                        }
                    }
                }
                assert forall|i: int| 0 <= i < after.len() implies fits(n, #[trigger] after[i]) by {
                    if i < q2.len() {
                        assert(fits(n, q2[i]));
                    }
                    if 0 < i && i < q2.len() - 1 {
                        assert(fits(n, q2[i + 1]));
                    }
                }
            },
        },
        StopReason::Expired => {
            let q = rr_synced(s.procs, s.timeslice);
            lemma_rr_synced_all_fit(n, s.procs, s.timeslice, s.procs.len() as int);
            lemma_rr_synced_len(s.procs, s.timeslice, s.procs.len() as int);
            if q.len() > 0 {
                lemma_drop_first_all_fit(n, q);
                let rest = wake_done(q.drop_first());
                assert forall|i: int| 0 <= i < after.len() implies fits(n, #[trigger] after[i]) by {
                    if i < rest.len() {
                        assert(fits(n, q.drop_first()[i]));
                    } else {
                        assert(fits(n, q[0]));
                    }
                }
            } else {
                assert(fits(n, after[0]));
            }
        },
    }
}

proof fn lemma_cfs_stop_all_fit(n: int, s: SchedState, reason: StopReason)
    requires
        all_fit(n, s.procs),
        reason matches StopReason::Syscall { syscall: Syscall::Fork(_), .. } ==> s.next_pid < n,
        crate::cfs::cfs_stop_ok(s, reason),
    ensures
        all_fit(n, cfs_stop(s, reason).0.procs),
{
    let after = cfs_stop(s, reason).0.procs;
    match reason {
        StopReason::Syscall { syscall, remaining } => match syscall {
            Syscall::Fork(priority) => {
                if s.next_pid != 1 {
                    let idx = last_running_or_zero(s.procs);
                    lemma_last_where(s.procs, in_state(ProcessState::Running));
                    let p = s.procs[idx];
                    let q = crate::queue::tick(
                        s.procs.update(
                            idx,
                            crate::cfs::shown(MyProcess { vmrun: (p.vmrun + 1) as usize, ..crate::queue::add_call(p) }),
                        ),
                    );
                    assert(all_fit(n, q)) by {
                        assert forall|i: int| 0 <= i < q.len() implies fits(n, #[trigger] q[i]) by {
                            assert(fits(n, s.procs[i]));
                        }
                    }
                    assert forall|i: int| 0 <= i < after.len() implies fits(n, #[trigger] after[i]) by {
                        if i < q.len() {
                            assert(fits(n, q[i]));
                        }
                        if remaining == 0 && q.len() > 1 && 1 <= i < q.len() - 1 {
                            assert(after[i] == q[i + 1]);
                        }
                    }
                } else {
                    assert forall|i: int| 0 <= i < after.len() implies fits(n, #[trigger] after[i]) by {
                        if i < s.procs.len() {
                            assert(fits(n, s.procs[i]));
                        }
                    }
                }
            },
            Syscall::Sleep(amount) => {
                assert forall|i: int| 0 <= i < after.len() implies fits(n, #[trigger] after[i]) by {
                    assert(fits(n, s.procs[i]));
                }
            },
            Syscall::Exit => {
                let q = cfs_synced(s.procs, s.timeslice - remaining);
                lemma_cfs_synced_all_fit(n, s.procs, s.timeslice - remaining);
                if q.len() != 1 {
                    let f = |p: MyProcess| p.state != ProcessState::Running;
                    lemma_filter_all_fit(n, q, f);
                    let q1 = q.filter(f);
                    assert forall|i: int| 0 <= i < after.len() implies fits(n, #[trigger] after[i]) by {
                        assert(fits(n, q1[i]));
                    }
                } else {
                    lemma_drop_first_all_fit(n, q);
                }
            },
            Syscall::Wait(event) => {
                if s.procs.len() > 0 {
                    let d = s.timeslice - remaining;
                    let i0 = last_running_or_zero(s.procs);
                    lemma_last_where(s.procs, in_state(ProcessState::Running));
                    let q0 = s.procs.update(i0, crate::cfs::cfs_waiting(s.procs[i0], event, d));
                    let q = crate::queue::elapse(q0, d);
                    assert(all_fit(n, q)) by {
                        assert forall|i: int| 0 <= i < q.len() implies fits(n, #[trigger] q[i]) by {
                            assert(fits(n, s.procs[i]));
                        }
                    }
                    lemma_first_where(q, in_state(ProcessState::Ready));
                    if let Some(p2) = first_in_state(q, ProcessState::Ready) {
                        lemma_filter_all_fit(n, q, |x: MyProcess| x.pid != p2.pid);
                        assert forall|i: int| 0 <= i < after.len() implies fits(n, #[trigger] after[i]) by {
                            if i > 0 {
                                assert(after[i] == without_pid(q, p2.pid)[i - 1]);
                            }
                        }
                    }
                }
            },
            Syscall::Signal(event) => {
                let q = sort_waiting(s.procs, event);
                lemma_sort_all_fit(n, s.procs, event);
                let d = s.timeslice - remaining;
                assert forall|i: int| 0 <= i < after.len() implies fits(n, #[trigger] after[i]) by {
                    assert(after[i] == cfs_signalled(q[i], event, d));
                    assert(fits(n, q[i]));
                }
            },
        },
        StopReason::Expired => {
            if s.procs.len() > 0 {
                let q = cfs_synced(s.procs, s.timeslice as int);
                lemma_cfs_synced_all_fit(n, s.procs, s.timeslice as int);
                lemma_last_where(q, in_state(ProcessState::Running));
                assert forall|i: int| 0 <= i < after.len() implies fits(n, #[trigger] after[i]) by {
                    assert(fits(n, q[i]));
                }
            }
        },
    }
}

proof fn lemma_next_all_fit(n: int, s: SchedState)
    requires
        all_fit(n, s.procs),
    ensures
        all_fit(n, rr_next(s).0.procs),
        all_fit(n, cfs_next(s).0.procs),
{
    if s.procs.len() > 0 {
        let p0 = s.procs[0];
        let t = s.procs.drop_first();
        lemma_drop_first_all_fit(n, s.procs);
        lemma_rr_synced_all_fit(n, t, p0.sleep_time, t.len() as int);
        lemma_cfs_synced_all_fit(n, t, p0.sleep_time as int);
        lemma_dispatch_all_fit(n, s.with_procs(t), p0);
        let a = seq![crate::shared::woken(p0)] + rr_synced(t, p0.sleep_time);
        let b = seq![crate::shared::woken(p0)] + cfs_synced(t, p0.sleep_time as int);
        assert(all_fit(n, a)) by {
            assert forall|i: int| 0 <= i < a.len() implies fits(n, #[trigger] a[i]) by {
                if i > 0 {
                    assert(a[i] == rr_synced(t, p0.sleep_time)[i - 1]);
                }
            }
        }
        assert(all_fit(n, b)) by {
            assert forall|i: int| 0 <= i < b.len() implies fits(n, #[trigger] b[i]) by {
                if i > 0 {
                    assert(b[i] == cfs_synced(t, p0.sleep_time as int)[i - 1]);
                }
            }
        }
    }
}

proof fn lemma_all_fit_waits_match(n: int, s: Seq<MyProcess>)
    ensures
        n > usize::MAX ==> (all_fit(n, s) <==> waits_match(s)),
{
    if n > usize::MAX {
        assert(waits_match(s) ==> all_fit(n, s)) by {
            if waits_match(s) {
                assert forall|i: int| 0 <= i < s.len() implies fits(n, #[trigger] s[i]) by {
                    assert(wait_matches(s[i]));
                }
            }
        }
        assert(all_fit(n, s) ==> waits_match(s)) by {
            if all_fit(n, s) {
                assert forall|i: int| 0 <= i < s.len() implies wait_matches(#[trigger] s[i]) by {
                    assert(fits(n, s[i]));
                }
            }
        }
    }
}

/// Where every process waits, if at all, for the event it last waited for,
/// that stays so through every call that does not fail.
pub proof fn law_waits_match_kept(s: SchedState, reason: StopReason)
    requires
        waits_match(s.procs),
    ensures
        waits_match(rr_next(s).0.procs),
        waits_match(cfs_next(s).0.procs),
        waits_match(rr_stop(s, reason).0.procs),
        crate::cfs::cfs_stop_ok(s, reason) ==> waits_match(cfs_stop(s, reason).0.procs),
{
    let n = usize::MAX + 1;
    lemma_all_fit_waits_match(n, s.procs);
    lemma_next_all_fit(n, s);
    lemma_all_fit_waits_match(n, rr_next(s).0.procs);
    lemma_all_fit_waits_match(n, cfs_next(s).0.procs);
    lemma_rr_stop_all_fit(n, s, reason);
    lemma_all_fit_waits_match(n, rr_stop(s, reason).0.procs);
    if crate::cfs::cfs_stop_ok(s, reason) {
        lemma_cfs_stop_all_fit(n, s, reason);
        lemma_all_fit_waits_match(n, cfs_stop(s, reason).0.procs);
    }
}

/// Every queued pid is below `n`.
pub open spec fn pids_below(s: Seq<MyProcess>, n: int) -> bool {
    forall|i: int| 0 <= i < s.len() ==> (#[trigger] s[i]).pid.0 < n
}

proof fn lemma_all_fit_pids_below(n: int, s: Seq<MyProcess>)
    ensures
        waits_match(s) && pids_below(s, n) <==> all_fit(n, s),
{
    if waits_match(s) && pids_below(s, n) {
        assert forall|i: int| 0 <= i < s.len() implies fits(n, #[trigger] s[i]) by {
            assert(wait_matches(s[i]));
        }
    }
    if all_fit(n, s) {
        assert forall|i: int| 0 <= i < s.len() implies wait_matches(#[trigger] s[i]) by {
            assert(fits(n, s[i]));
        }
        assert forall|i: int| 0 <= i < s.len() implies (#[trigger] s[i]).pid.0 < n by {
            assert(fits(n, s[i]));
        }
    }
}

proof fn lemma_next_pid_after(s: SchedState, reason: StopReason)
    ensures
        rr_next(s).0.next_pid == s.next_pid,
        cfs_next(s).0.next_pid == s.next_pid,
        reason matches StopReason::Syscall { syscall: Syscall::Fork(_), .. } ==> {
            &&& rr_stop(s, reason).0.next_pid == (s.next_pid + 1) as usize
            &&& cfs_stop(s, reason).0.next_pid == (s.next_pid + 1) as usize
        },
        !(reason matches StopReason::Syscall { syscall: Syscall::Fork(_), .. }) ==> {
            &&& rr_stop(s, reason).0.next_pid == s.next_pid
            &&& cfs_stop(s, reason).0.next_pid == s.next_pid
        },
{
    match reason {
        StopReason::Syscall { syscall, remaining } => match syscall {
            Syscall::Fork(priority) => {},
            Syscall::Sleep(amount) => {},
            Syscall::Exit => {},
            Syscall::Wait(event) => {},
            Syscall::Signal(event) => {},
        },
        StopReason::Expired => {},
    }
}

/// Where every queued pid is below `next_pid` (and every process waits, if
/// at all, for the event it last waited for), that stays so through every
/// call that does not fail, but for the end of a time slice in round robin
/// with no process queued, which queues a process with the pid `next_pid`
/// and leaves `next_pid` as it is. So a fork answers a pid that no queued
/// process has.
pub proof fn law_pids_below_next_pid(s: SchedState, reason: StopReason)
    requires
        waits_match(s.procs),
        pids_below(s.procs, s.next_pid as int),
        s.next_pid < usize::MAX,
    ensures
        pids_below(rr_next(s).0.procs, rr_next(s).0.next_pid as int),
        pids_below(cfs_next(s).0.procs, cfs_next(s).0.next_pid as int),
        !(reason is Expired && s.procs.len() == 0) ==> pids_below(
            rr_stop(s, reason).0.procs,
            rr_stop(s, reason).0.next_pid as int,
        ),
        crate::cfs::cfs_stop_ok(s, reason) ==> pids_below(
            cfs_stop(s, reason).0.procs,
            cfs_stop(s, reason).0.next_pid as int,
        ),
        reason matches StopReason::Syscall { syscall: Syscall::Fork(_), .. } ==> forall|i: int|
            0 <= i < s.procs.len() ==> {
                &&& SyscallResult::Pid((#[trigger] s.procs[i]).pid) != rr_stop(s, reason).1
                &&& SyscallResult::Pid(s.procs[i].pid) != cfs_stop(s, reason).1
            },
{
    let n = s.next_pid as int;
    lemma_next_pid_after(s, reason);
    lemma_all_fit_pids_below(n, s.procs);
    lemma_next_all_fit(n, s);
    lemma_all_fit_pids_below(n, rr_next(s).0.procs);
    lemma_all_fit_pids_below(n, cfs_next(s).0.procs);
    let is_fork = reason matches StopReason::Syscall { syscall: Syscall::Fork(_), .. };
    let m = if is_fork { n + 1 } else { n };
    assert(all_fit(m, s.procs)) by {
        assert forall|i: int| 0 <= i < s.procs.len() implies fits(m, #[trigger] s.procs[i]) by {
            assert(fits(n, s.procs[i]));
        }
    }
    if !(reason is Expired && s.procs.len() == 0) {
        lemma_rr_stop_all_fit(m, s, reason);
        lemma_all_fit_pids_below(m, rr_stop(s, reason).0.procs);
    }
    if crate::cfs::cfs_stop_ok(s, reason) {
        lemma_cfs_stop_all_fit(m, s, reason);
        lemma_all_fit_pids_below(m, cfs_stop(s, reason).0.procs);
    }
}

/// The sum of the total times of the processes of `s`.
pub open spec fn total_time(s: Seq<MyProcess>) -> int
    decreases s.len(),
{
    if s.len() == 0 {
        0
    } else {
        total_time(s.drop_last()) + s.last().timings.0
    }
}

proof fn lemma_total_time_update(s: Seq<MyProcess>, k: int, x: MyProcess)
    requires
        0 <= k < s.len(),
    ensures
        total_time(s.update(k, x)) == total_time(s) - s[k].timings.0 + x.timings.0,
    decreases s.len(),
{
    let u = s.update(k, x);
    if k < s.len() - 1 {
        assert(u.drop_last() =~= s.drop_last().update(k, x));
        lemma_total_time_update(s.drop_last(), k, x);
    } else {
        assert(u.drop_last() =~= s.drop_last());
    }
}

proof fn lemma_rr_synced_total(snap: Seq<MyProcess>, ts: usize, k: int)
    requires
        crate::round_robin::rr_sync_ok(snap, ts),
        0 <= k <= snap.len(),
    ensures
        total_time(rr_synced_upto(snap, ts, k)) == total_time(snap) + k * ts,
    decreases k,
{
    if k > 0 {
        lemma_rr_synced_total(snap, ts, k - 1);
        lemma_rr_synced_len(snap, ts, k - 1);
        let cur = rr_synced_upto(snap, ts, k - 1);
        let j = k - 1;
        assert(rr_sync_step_ok(snap, cur, ts, j));
        let sp = snap[j];
        let c = cur[j];
        if sp.state == ProcessState::Running {
            lemma_total_time_update(cur, j, crate::queue::add_exec(crate::queue::add_total(c, ts as int), ts as int));
        } else if sp.state == asleep() && ts >= sp.sleep_time {
            if j + 1 < cur.len() {
                let b = crate::queue::add_total(cur[j + 1], ts as int);
                lemma_total_time_update(cur, j, b);
                lemma_total_time_update(cur.update(j, b), j + 1, crate::round_robin::ready_now(c));
            } else {
                lemma_total_time_update(cur, j, crate::round_robin::ready_now(crate::queue::add_total(c, ts as int)));
            }
        } else if sp.state == asleep() {
            lemma_total_time_update(cur, j, MyProcess { sleep_time: (c.sleep_time - ts) as usize, ..crate::queue::add_total(c, ts as int) });
        } else {
            lemma_total_time_update(cur, j, crate::queue::add_total(c, ts as int));
        }
        assert(total_time(rr_synced_upto(snap, ts, k)) == total_time(cur) + ts);
        assert(k * ts == (k - 1) * ts + ts) by (nonlinear_arith);
    } else {
        assert(k * ts == 0) by (nonlinear_arith)
            requires
                k == 0,
        ;
    }
}

/// Letting `ts` units of time pass adds `ts` units to the total time of the
/// processes for each process: for the round-robin scheduler in sum, as a
/// process that wakes passes its share to the next one; for the fair
/// scheduler to each process, and the running ones also run for `ts` more
/// units, in real and in virtual time.
pub proof fn law_time_passes(s: Seq<MyProcess>, ts: usize)
    ensures
        crate::round_robin::rr_sync_ok(s, ts) ==> rr_synced(s, ts).len() == s.len() && total_time(
            rr_synced(s, ts),
        ) == total_time(s) + s.len() * ts,
        crate::cfs::cfs_sync_ok(s, ts as int) ==> forall|i: int|
            0 <= i < s.len() ==> {
                &&& (#[trigger] cfs_synced(s, ts as int)[i]).timings.0 == s[i].timings.0 + ts
                &&& cfs_synced(s, ts as int)[i].pid == s[i].pid
                &&& s[i].state == ProcessState::Running ==> cfs_synced(s, ts as int)[i].timings.2
                    == s[i].timings.2 + ts && cfs_synced(s, ts as int)[i].vmrun == s[i].vmrun + ts
            },
{
    if crate::round_robin::rr_sync_ok(s, ts) {
        lemma_rr_synced_total(s, ts, s.len() as int);
        lemma_rr_synced_len(s, ts, s.len() as int);
    }
}

/// In the fair scheduler, letting `a` units pass and then `b` more is the
/// same as letting `a + b` units pass at once, where no process sleeps for
/// less than `a + b` units and no count leaves the range of `usize`.
pub proof fn law_cfs_time_adds_up(s: Seq<MyProcess>, a: usize, b: usize)
    requires
        forall|i: int|
            0 <= i < s.len() ==> {
                &&& (#[trigger] s[i]).timings.0 + a + b <= usize::MAX
                &&& s[i].state == ProcessState::Running ==> s[i].timings.2 + a + b <= usize::MAX
                    && s[i].vmrun + a + b <= usize::MAX
                &&& s[i].state == asleep() ==> s[i].sleep_time >= a + b
            },
    ensures
        cfs_synced(cfs_synced(s, a as int), b as int) == cfs_synced(s, a + b),
{
    let x = cfs_synced(cfs_synced(s, a as int), b as int);
    let y = cfs_synced(s, a + b);
    assert forall|i: int| 0 <= i < s.len() implies #[trigger] x[i] == y[i] by {
        assert(cfs_synced(s, a as int)[i] == crate::cfs::cfs_tick(s[i], a as int));
    }
    assert(x =~= y);
}

/// Where the child of a fork stands in the queue after the fork: at the
/// back, or, where no time remained and several processes were queued, just
/// before the process that ran, which goes last.
pub open spec fn child_index(s: SchedState, remaining: usize, after: Seq<MyProcess>) -> int {
    if s.next_pid != 1 && remaining == 0 && s.procs.len() > 1 {
        after.len() - 2
    } else {
        after.len() - 1
    }
}

/// A fork queues exactly one new process, whatever time remains: it has the
/// pid `next_pid`, is ready and has the priority asked for. In the fair
/// scheduler, where it goes to the back, no active process queued before it
/// has a smaller virtual run time.
pub proof fn law_fork_queues_new_process(s: SchedState, priority: i8, remaining: usize)
    ensures
        ({
            let after = rr_fork(s, priority, remaining).0.procs;
            let k = child_index(s, remaining, after);
            &&& after.len() == s.procs.len() + 1
            &&& 0 <= k < after.len()
            &&& after[k].pid == Pid(s.next_pid)
            &&& after[k].state == ProcessState::Ready
            &&& after[k].priority == priority
        }),
        s.procs.len() > 0 || s.next_pid == 1 ==> {
            let after = cfs_fork(s, priority, remaining).0.procs;
            let k = child_index(s, remaining, after);
            &&& after.len() == s.procs.len() + 1
            &&& 0 <= k < after.len()
            &&& after[k].pid == Pid(s.next_pid)
            &&& after[k].state == ProcessState::Ready
            &&& after[k].priority == priority
            &&& k == after.len() - 1 ==> forall|i: int|
                0 <= i < k && is_active(after[i]) ==> after[k].vmrun <= after[i].vmrun
        },
{
    lemma_rr_synced_len(s.procs, (s.timeslice - remaining - 1) as usize, s.procs.len() as int);
    if s.next_pid != 1 && s.procs.len() > 0 {
        let idx = last_running_or_zero(s.procs);
        lemma_last_where(s.procs, in_state(ProcessState::Running));
        let p = s.procs[idx];
        let q = crate::queue::tick(
            s.procs.update(
                idx,
                crate::cfs::shown(MyProcess { vmrun: (p.vmrun + 1) as usize, ..crate::queue::add_call(p) }),
            ),
        );
        law_min_vmrun_least(q);
        let after = cfs_fork(s, priority, remaining).0.procs;
        let k = child_index(s, remaining, after);
        if k == after.len() - 1 {
            assert forall|i: int| 0 <= i < k && is_active(after[i]) implies after[k].vmrun
                <= after[i].vmrun by {
                assert(after[i] == q[i]);
            }
        }
    }
}

/// Before a signal of `event` changes any state, the processes waiting for
/// it are sorted by pid over the places where waiting processes stood: every
/// other process keeps its place, any two waiting processes are in order of
/// pid, and the waiting processes are those of `s`, in the order that
/// `sort_by_pid` gives them.
pub proof fn law_signal_sorts_waiters(s: Seq<MyProcess>, event: usize)
    ensures
        ({
            let t = sort_waiting(s, event);
            &&& t.len() == s.len()
            &&& forall|i: int| 0 <= i < s.len() ==> waits_for(#[trigger] t[i], event) == waits_for(s[i], event)
            &&& forall|i: int| 0 <= i < s.len() && !waits_for(s[i], event) ==> #[trigger] t[i] == s[i]
            &&& forall|i: int, j: int|
                0 <= i < j < s.len() && waits_for(s[i], event) && waits_for(s[j], event) ==> (
                #[trigger] t[i]).pid.0 <= (#[trigger] t[j]).pid.0
            &&& waiters(t, event) == sort_by_pid(waiters(s, event))
            &&& waiters(t, event).to_multiset() == waiters(s, event).to_multiset()
        }),
{
    lemma_sort_waiting(s, event);
    lemma_sort_by_pid(waiters(s, event));
}

proof fn lemma_filter_split_len(q: Seq<MyProcess>, event: usize)
    ensures
        q.filter(|p: MyProcess| waits_for(p, event)).len() + q.filter(
            |p: MyProcess| !waits_for(p, event),
        ).len() == q.len(),
    decreases q.len(),
{
    let w = |p: MyProcess| waits_for(p, event);
    let nw = |p: MyProcess| !waits_for(p, event);
    if q.len() > 0 {
        let q0 = q.drop_last();
        lemma_filter_split_len(q0, event);
        assert(q0.push(q.last()) =~= q);
        q0.lemma_filter_len_push(w, q.last());
        q0.lemma_filter_len_push(nw, q.last());
    } else {
        assert(q.filter(w) =~= Seq::<MyProcess>::empty()) by {
            reveal(Seq::filter);
        }
        assert(q.filter(nw) =~= Seq::<MyProcess>::empty()) by {
            reveal(Seq::filter);
        }
    }
}

/// A signal of `event` readies the processes that wait for `event` and no
/// other: every other process keeps its state. In the fair scheduler each
/// process keeps its place, where it does not wait, or its place among the
/// waiting ones. In round robin the processes that do not wait keep their
/// order at the front, with their pids and states, and the waiting ones
/// follow, ready, in order of pid; where no time remains of a one-unit slice
/// and several processes are queued, the front process then gives way to
/// the next one, which this does not cover.
pub proof fn law_signal_readies_only_waiters(s: SchedState, event: usize, remaining: usize)
    ensures
        ({
            let after = cfs_signal(s, event, remaining).0.procs;
            &&& after.len() == s.procs.len()
            &&& forall|i: int|
                0 <= i < after.len() ==> if waits_for(s.procs[i], event) {
                    (#[trigger] after[i]).state == ProcessState::Ready
                } else {
                    after[i].pid == s.procs[i].pid && after[i].state == s.procs[i].state
                }
        }),
        !(waiters(s.procs, event).len() > 0 && remaining == 0 && s.timeslice == 1 && s.procs.len() > 1)
            ==> {
            let after = rr_signal(s, event, remaining).0.procs;
            let o = non_waiters(s.procs, event);
            let g = sort_by_pid(waiters(s.procs, event));
            &&& after.len() == s.procs.len()
            &&& o.len() + g.len() == s.procs.len()
            &&& pid_sorted(g)
            &&& g.to_multiset() == waiters(s.procs, event).to_multiset()
            &&& forall|i: int|
                0 <= i < o.len() ==> (#[trigger] after[i]).pid == o[i].pid && after[i].state
                    == o[i].state
            &&& forall|i: int|
                o.len() <= i < after.len() ==> (#[trigger] after[i]).pid == g[i - o.len()].pid
                    && after[i].state == ProcessState::Ready && waits_for(g[i - o.len()], event)
        },
{
    broadcast use vstd::seq_lib::group_filter_ensures;
    let q = sort_waiting(s.procs, event);
    let d = s.timeslice - remaining;
    lemma_sort_waiting(s.procs, event);
    lemma_sort_by_pid(waiters(s.procs, event));
    let c = cfs_signal(s, event, remaining).0.procs;
    assert forall|i: int| 0 <= i < c.len() implies if waits_for(s.procs[i], event) {
        (#[trigger] c[i]).state == ProcessState::Ready
    } else {
        c[i].pid == s.procs[i].pid && c[i].state == s.procs[i].state
    } by {
        assert(c[i] == cfs_signalled(q[i], event, d));
        assert(waits_for(q[i], event) == waits_for(s.procs[i], event));
    }
    let w = |p: MyProcess| waits_for(p, event);
    let nw = |p: MyProcess| !waits_for(p, event);
    lemma_filter_split_len(s.procs, event);
    let o = q.filter(nw);
    let g = q.filter(w);
    let ns = not_signalled(q, event, d);
    let sg = signalled(q, event, d);
    let q2 = ns + sg;
    assert forall|i: int| 0 <= i < g.len() implies w(#[trigger] g[i]) by {}
    assert forall|i: int| 0 <= i < o.len() implies (#[trigger] q2[i]).pid == o[i].pid && q2[i].state
        == o[i].state by {
        assert(q2[i] == ns[i]);
        assert(nw(o[i]));
    }
    assert forall|i: int| o.len() <= i < q2.len() implies (#[trigger] q2[i]).pid == g[i - o.len()].pid
        && q2[i].state == ProcessState::Ready && waits_for(g[i - o.len()], event) by {
        assert(q2[i] == sg[i - o.len()]);
        assert(w(g[i - o.len()]));
    }
}

/// Whether no process after the front one has the pid of the front one.
pub open spec fn front_pid_unique(s: Seq<MyProcess>) -> bool {
    forall|j: int| 0 < j < s.len() ==> (#[trigger] s[j]).pid != s[0].pid
}

/// A round-robin wait leaves the process that was in front waiting for the
/// event, with the event recorded as the one it last waited for, where no
/// other process shares its pid.
pub proof fn law_rr_wait_waits(s: SchedState, event: usize, remaining: usize)
    requires
        s.procs.len() > 0,
        front_pid_unique(s.procs),
    ensures
        exists|i: int|
            0 <= i < rr_wait(s, event, remaining).0.procs.len() && (#[trigger] rr_wait(
                s,
                event,
                remaining,
            ).0.procs[i]).pid == s.procs[0].pid && rr_wait(s, event, remaining).0.procs[i].state
                == (ProcessState::Waiting { event: Some(event) }) && rr_wait(
                s,
                event,
                remaining,
            ).0.procs[i].event_number == event,
{
    let d = s.timeslice - remaining;
    let q = crate::queue::elapse(s.procs.update(0, crate::round_robin::waiting_for(s.procs[0], event, d)), d);
    let after = rr_wait(s, event, remaining).0.procs;
    lemma_first_where(q, in_state(ProcessState::Ready));
    match first_in_state(q, ProcessState::Ready) {
        Some(p2) => {
            let k = first_where(q, in_state(ProcessState::Ready)).unwrap();
            assert(k != 0);
            assert(q[k].pid == s.procs[k].pid);
            let f = |x: MyProcess| x.pid != p2.pid;
            broadcast use vstd::seq_lib::group_filter_ensures;
            assert(f(q[0]));
            assert(q.filter(f).contains(q[0]));
            let j = choose|j: int| 0 <= j < q.filter(f).len() && q.filter(f)[j] == q[0];
            assert(after[j + 1] == q[0]);
        },
        None => {
            assert(after[0] == q[0]);
        },
    }
}

/// After an exit of the fair scheduler with more than one process queued, no
/// process that ran is left; while the process with pid 1 is there, the
/// processes that now run are the ready ones with the pid of the process
/// chosen for the least virtual run time.
pub proof fn law_cfs_exit_stops_running(s: SchedState, remaining: usize)
    requires
        s.procs.len() != 1,
    ensures
        ({
            let q = cfs_synced(s.procs, s.timeslice - remaining);
            let q1 = q.filter(|p: MyProcess| p.state != ProcessState::Running);
            let after = cfs_exit(s, remaining).0.procs;
            let c = select_min(q1, first_in_state(q, ProcessState::Running).unwrap().pid).1;
            &&& after.len() == q1.len()
            &&& forall|i: int|
                0 <= i < after.len() && (#[trigger] after[i]).state == ProcessState::Running ==> has_pid(q1, 1)
                    && after[i].pid == c.pid && q1[i].state == ProcessState::Ready
        }),
{
    let q = cfs_synced(s.procs, s.timeslice - remaining);
    let f = |p: MyProcess| p.state != ProcessState::Running;
    let q1 = q.filter(f);
    broadcast use vstd::seq_lib::group_filter_ensures;
    let after = cfs_exit(s, remaining).0.procs;
    assert forall|i: int| 0 <= i < after.len() && (#[trigger] after[i]).state == ProcessState::Running implies has_pid(q1, 1)
        && after[i].pid == select_min(q1, first_in_state(q, ProcessState::Running).unwrap().pid).1.pid
        && q1[i].state == ProcessState::Ready by {
        assert(f(q1[i]));
    }
}

/// Whether some process of `s` has the pid `pid`.
pub open spec fn queued(s: Seq<MyProcess>, pid: Pid) -> bool {
    exists|i: int| 0 <= i < s.len() && (#[trigger] s[i]).pid == pid
}

proof fn lemma_dispatch_runs_queued(s: SchedState, p: MyProcess)
    ensures
        dispatch(s, p).1 matches Decision::Run { pid, .. } ==> queued(dispatch(s, p).0.procs, pid),
{
    let rest = s.procs;
    let q = seq![p] + rest;
    let q1 = rest.push(crate::shared::yielded(p));
    let (after, d) = dispatch(s, p);
    lemma_first_where(q, in_state(ProcessState::Running));
    lemma_first_where(q, in_state(asleep()));
    lemma_first_where(q1, in_state(ProcessState::Running));
    lemma_first_where(q1, in_state(ProcessState::Ready));
    lemma_first_where(rest, in_state(ProcessState::Ready));
    let a = after.procs;
    if let Decision::Run { pid, .. } = d {
        if s.timeslice >= s.min_remaining && p.state == ProcessState::Running {
            assert(a[0] == p);
        } else if p.state == ProcessState::Ready {
            assert(a[a.len() - 1].pid == p.pid);
        } else if first_in_state(rest, ProcessState::Ready) is None {
            if let Some(r) = first_in_state(q, ProcessState::Running) {
                assert(a[0] == r);
            } else if let Some(z) = first_in_state(q, asleep()) {
                let o = without_pid(q, z.pid);
                if p.pid == z.pid {
                    assert(a[0].pid == p.pid);
                } else {
                    let f = |x: MyProcess| x.pid != z.pid;
                    broadcast use vstd::seq_lib::group_filter_ensures;
                    assert(f(q[0]));
                    assert(q.filter(f).contains(q[0]));
                    let j = choose|j: int| 0 <= j < o.len() && o[j] == q[0];
                    assert(a[j + 1] == q[0]);
                }
            }
        } else {
            if first_in_state(rest, ProcessState::Running) is None {
                let r = first_where(rest, in_state(ProcessState::Ready)).unwrap();
                assert(q1[r] == rest[r]);
                assert(in_state(ProcessState::Ready)(q1[r]));
                let k = first_where(q1, in_state(ProcessState::Ready)).unwrap();
                assert(a[0].pid == q1[k].pid);
            } else {
                let r = first_where(rest, in_state(ProcessState::Running)).unwrap();
                lemma_first_where(rest, in_state(ProcessState::Running));
                assert(q1[r] == rest[r]);
                assert(in_state(ProcessState::Running)(q1[r]));
                let k = first_where(q1, in_state(ProcessState::Running)).unwrap();
                assert(a[k] == q1[k]);
            }
        }
    }
}

/// Whenever `next` lets a process run, a process with that pid is in the
/// queue afterwards.
pub proof fn law_next_runs_queued_process(s: SchedState)
    ensures
        rr_next(s).1 matches Decision::Run { pid, .. } ==> queued(rr_next(s).0.procs, pid),
        cfs_next(s).1 matches Decision::Run { pid, .. } ==> queued(cfs_next(s).0.procs, pid),
{
    if s.procs.len() > 0 {
        let p = s.procs[0];
        lemma_dispatch_runs_queued(s.with_procs(s.procs.drop_first()), p);
        let a = seq![crate::shared::woken(p)] + rr_synced(s.procs.drop_first(), p.sleep_time);
        assert(a[0].pid == p.pid);
        let b = seq![crate::shared::woken(p)] + cfs_synced(s.procs.drop_first(), p.sleep_time as int);
        assert(b[0].pid == p.pid);
        lemma_first_where(s.procs, in_state(ProcessState::Running));
        if let Some(i) = first_where(s.procs, in_state(ProcessState::Running)) {
            assert(s.procs[i] == first_in_state(s.procs, ProcessState::Running).unwrap());
        }
    }
}

} // verus!
