//! What `next` and `stop` answer, stated by what happens to the processes:
//! who runs, with what time slice, and how the time of the others counts.
use vstd::prelude::*;
use crate::process::{Decision, MyProcess, Pid, ProcessState};
use crate::queue::{
    elapse, first_in_state, first_where, has_pid, in_state, last_running_or_zero,
    is_active, lemma_first_where, lemma_last_where, select_min, without_pid,
};
use crate::pids::distinct_pids;
use crate::shared::SchedState;
use crate::round_robin::{
    hand_over, lemma_rr_synced_len, rr_exit, rr_next, rr_step_as, rr_synced, rr_synced_upto,
    rr_wait,
};
use crate::cfs::{cfs_exit, cfs_synced, cfs_wait};

verus! {

/// In round robin, a running process in front keeps the processor only
/// while the time slice is at least the least remaining time. Below it, the
/// first ready process behind it (at `k`) runs with the initial time slice,
/// and the process that ran is ready again, last but the ones that stood
/// before `k`.
pub proof fn law_rr_next_preempts_short_slice(s: SchedState, k: int)
    requires
        s.initial_timeslice > 0,
        0 < k < s.procs.len(),
        s.procs[0].state == ProcessState::Running,
        s.procs[0].is_sleeping || s.procs[0].sleep_time == 0,
        exists|j: int| 0 <= j < s.procs.len() && (#[trigger] s.procs[j]).pid == Pid(1),
        s.procs[k].state == ProcessState::Ready,
        forall|j: int| 0 < j < k ==> (#[trigger] s.procs[j]).state != ProcessState::Ready,
        forall|j: int| 0 < j < s.procs.len() ==> (#[trigger] s.procs[j]).state != ProcessState::Running,
    ensures
        s.timeslice >= s.min_remaining ==> {
            &&& rr_next(s).1 == (Decision::Run { pid: s.procs[0].pid, timeslice: s.timeslice })
            &&& rr_next(s).0.procs == s.procs
        },
        s.timeslice < s.min_remaining ==> {
            let after = rr_next(s).0;
            &&& rr_next(s).1 == (Decision::Run { pid: s.procs[k].pid, timeslice: s.initial_timeslice })
            &&& after.timeslice == s.initial_timeslice
            &&& after.procs.len() == s.procs.len()
            &&& after.procs[0].pid == s.procs[k].pid
            &&& after.procs[0].state == ProcessState::Running
            &&& after.procs[s.procs.len() - k].pid == s.procs[0].pid
            &&& after.procs[s.procs.len() - k].state == ProcessState::Ready
        },
{
    let p = s.procs[0];
    let rest = s.procs.drop_first();
    assert(has_pid(s.procs, 1)) by {
        let j = choose|j: int| 0 <= j < s.procs.len() && (#[trigger] s.procs[j]).pid == Pid(1);
        assert(s.procs[j].pid.0 == 1);
    }
    lemma_first_where(s.procs, in_state(ProcessState::Ready));
    lemma_first_where(rest, in_state(ProcessState::Ready));
    lemma_first_where(rest, in_state(ProcessState::Running));
    assert(rest[k - 1] == s.procs[k]);
    assert(in_state(ProcessState::Ready)(rest[k - 1]));
    assert forall|j: int| 0 <= j < rest.len() implies !in_state(ProcessState::Running)(#[trigger] rest[j]) by {
        assert(rest[j] == s.procs[j + 1]);
    }
    let q = rest.push(crate::shared::yielded(p));
    lemma_first_where(q, in_state(ProcessState::Ready));
    let kk = first_where(q, in_state(ProcessState::Ready)).unwrap();
    assert(q[k - 1] == rest[k - 1]);
    if kk < k - 1 {
        assert(q[kk] == s.procs[kk + 1]);
    }
    assert(kk == k - 1);
    if s.timeslice < s.min_remaining {
        let after = rr_next(s).0.procs;
        assert(after.len() == s.procs.len());
        assert(after[s.procs.len() - k] == q[q.len() - 1]);
    }
}

/// `p` after `ts` units pass while it does not wake: `ts` more total time,
/// `ts` more run time if it runs, and `ts` less time to sleep if it sleeps.
spec fn counted(p: MyProcess, ts: int) -> MyProcess {
    let t = MyProcess { timings: ((p.timings.0 + ts) as usize, p.timings.1, p.timings.2), ..p };
    if p.state == ProcessState::Running {
        MyProcess { timings: (t.timings.0, t.timings.1, (p.timings.2 + ts) as usize), ..t }
    } else if p.state == (ProcessState::Waiting { event: None }) {
        MyProcess { sleep_time: (p.sleep_time - ts) as usize, ..t }
    } else {
        t
    }
}

proof fn lemma_rr_counts_down(s: Seq<MyProcess>, ts: usize, k: int)
    requires
        0 <= k <= s.len(),
        forall|i: int|
            0 <= i < s.len() && (#[trigger] s[i]).state == (ProcessState::Waiting { event: None })
                ==> s[i].sleep_time > ts,
    ensures
        rr_synced_upto(s, ts, k).len() == s.len(),
        forall|i: int| 0 <= i < k ==> #[trigger] rr_synced_upto(s, ts, k)[i] == counted(s[i], ts as int),
        forall|i: int| k <= i < s.len() ==> #[trigger] rr_synced_upto(s, ts, k)[i] == s[i],
    decreases k,
{
    lemma_rr_synced_len(s, ts, k);
    if k > 0 {
        lemma_rr_counts_down(s, ts, k - 1);
        let cur = rr_synced_upto(s, ts, k - 1);
        assert(cur[k - 1] == s[k - 1]);
        let next = rr_synced_upto(s, ts, k);
        assert(next[k - 1] == counted(s[k - 1], ts as int));
        assert forall|i: int| 0 <= i < s.len() && i != k - 1 implies #[trigger] next[i] == cur[i] by {}
    }
}

/// When `ts` units pass in round robin and no sleeping process is due to
/// wake, every process keeps its place, pid and state and gets `ts` more
/// total time; a running one runs `ts` units more, and a sleeping one has
/// `ts` units less to sleep. Nothing else changes.
pub proof fn law_rr_time_counts_down(s: Seq<MyProcess>, ts: usize)
    requires
        forall|i: int|
            0 <= i < s.len() ==> {
                &&& (#[trigger] s[i]).timings.0 + ts <= usize::MAX
                &&& s[i].state == ProcessState::Running ==> s[i].timings.2 + ts <= usize::MAX
                &&& s[i].state == (ProcessState::Waiting { event: None }) ==> s[i].sleep_time > ts
            },
    ensures
        rr_synced(s, ts).len() == s.len(),
        forall|i: int|
            0 <= i < s.len() ==> {
                let a = #[trigger] rr_synced(s, ts)[i];
                &&& a.pid == s[i].pid
                &&& a.state == s[i].state
                &&& a.timings.0 == s[i].timings.0 + ts
                &&& a.timings.1 == s[i].timings.1
                &&& a.timings.2 == if s[i].state == ProcessState::Running {
                    s[i].timings.2 + ts
                } else {
                    s[i].timings.2 as int
                }
                &&& a.sleep_time == if s[i].state == (ProcessState::Waiting { event: None }) {
                    s[i].sleep_time - ts
                } else {
                    s[i].sleep_time as int
                }
                &&& a.vmrun == s[i].vmrun
                &&& a.priority == s[i].priority
                &&& a.event_number == s[i].event_number
                &&& a.is_sleeping == s[i].is_sleeping
            },
{
    lemma_rr_counts_down(s, ts, s.len() as int);
}

/// Whether `after` holds a process with the pid of `p`, still asleep, with
/// `d` more units of total time and `d` units less to sleep.
pub open spec fn holds_counted_sleeper(after: Seq<MyProcess>, p: MyProcess, d: int) -> bool {
    exists|i: int|
        0 <= i < after.len() && (#[trigger] after[i]).pid == p.pid && after[i].state == (
        ProcessState::Waiting { event: None }) && after[i].sleep_time == p.sleep_time - d
            && after[i].timings.0 == p.timings.0 + d
}

/// A sleeper `e` that stands at `j` in `q`, whose pid no other process has,
/// is in `q` after the first ready process of `q` is handed the processor.
proof fn lemma_sleeper_survives(q: Seq<MyProcess>, j: int, d: int)
    requires
        0 <= j < q.len(),
        q[j].state == (ProcessState::Waiting { event: None }),
        forall|m: int| 0 <= m < q.len() && m != j ==> (#[trigger] q[m]).pid != q[j].pid,
    ensures
        first_in_state(q, ProcessState::Ready) matches Some(p2) ==> (seq![
            crate::queue::with_state(p2, ProcessState::Running),
        ] + without_pid(q, p2.pid)).contains(q[j]),
{
    lemma_first_where(q, in_state(ProcessState::Ready));
    if let Some(p2) = first_in_state(q, ProcessState::Ready) {
        let m = first_where(q, in_state(ProcessState::Ready)).unwrap();
        assert(m != j);
        let f = |x: MyProcess| x.pid != p2.pid;
        q.lemma_filter_contains(f, j);
        let w = without_pid(q, p2.pid);
        let k = choose|k: int| 0 <= k < w.len() && w[k] == q[j];
        let a = seq![crate::queue::with_state(p2, ProcessState::Running)] + w;
        assert(a[k + 1] == q[j]);
    }
}

/// A round-robin wait lets `d = ts - remaining` units pass for every other
/// process: a sleeping one, whose pid no other process has, stays asleep
/// with `d` more units of total time and `d` units less to sleep, wherever
/// it stands after the wait.
pub proof fn law_rr_wait_counts_down_sleepers(s: SchedState, event: usize, remaining: usize, j: int)
    requires
        distinct_pids(s.procs),
        0 < j < s.procs.len(),
        remaining <= s.timeslice,
        s.procs[j].state == (ProcessState::Waiting { event: None }),
        s.procs[j].sleep_time >= s.timeslice - remaining,
        s.procs[j].timings.0 + (s.timeslice - remaining) <= usize::MAX,
    ensures
        holds_counted_sleeper(
            rr_wait(s, event, remaining).0.procs,
            s.procs[j],
            s.timeslice - remaining,
        ),
{
    let d = s.timeslice - remaining;
    let q = elapse(s.procs.update(0, crate::round_robin::waiting_for(s.procs[0], event, d)), d);
    assert forall|m: int| 0 <= m < q.len() && m != j implies (#[trigger] q[m]).pid != q[j].pid by {
        assert(s.procs[m].pid != s.procs[j].pid);
    }
    lemma_sleeper_survives(q, j, d);
    let after = rr_wait(s, event, remaining).0.procs;
    if first_in_state(q, ProcessState::Ready) is None {
        assert(after[j] == q[j]);
    } else {
        let k = choose|k: int| 0 <= k < after.len() && after[k] == q[j];
        assert(after[k] == q[j]);
    }
}

/// A fair-scheduler wait, made while a process runs, lets `d = ts -
/// remaining` units pass for every process that does not run: a sleeping
/// one, whose pid no other process has, stays asleep with `d` more units of
/// total time and `d` units less to sleep, wherever it stands after the
/// wait.
pub proof fn law_cfs_wait_counts_down_sleepers(s: SchedState, event: usize, remaining: usize, j: int)
    requires
        distinct_pids(s.procs),
        0 <= j < s.procs.len(),
        exists|r: int| 0 <= r < s.procs.len() && (#[trigger] s.procs[r]).state == ProcessState::Running,
        remaining <= s.timeslice,
        s.procs[j].state == (ProcessState::Waiting { event: None }),
        s.procs[j].sleep_time >= s.timeslice - remaining,
        s.procs[j].timings.0 + (s.timeslice - remaining) <= usize::MAX,
    ensures
        holds_counted_sleeper(
            cfs_wait(s, event, remaining).0.procs,
            s.procs[j],
            s.timeslice - remaining,
        ),
{
    let d = s.timeslice - remaining;
    let i0 = last_running_or_zero(s.procs);
    lemma_last_where(s.procs, in_state(ProcessState::Running));
    let r = choose|r: int| 0 <= r < s.procs.len() && (#[trigger] s.procs[r]).state == ProcessState::Running;
    assert(in_state(ProcessState::Running)(s.procs[r]));
    assert(i0 != j);
    let q = elapse(s.procs.update(i0, crate::cfs::cfs_waiting(s.procs[i0], event, d)), d);
    assert forall|m: int| 0 <= m < q.len() && m != j implies (#[trigger] q[m]).pid != q[j].pid by {
        assert(s.procs[m].pid != s.procs[j].pid);
    }
    lemma_sleeper_survives(q, j, d);
    let after = cfs_wait(s, event, remaining).0.procs;
    if first_in_state(q, ProcessState::Ready) is None {
        assert(after[j] == q[j]);
    } else {
        let k = choose|k: int| 0 <= k < after.len() && after[k] == q[j];
        assert(after[k] == q[j]);
    }
}

/// Whether some process of `q` after the front one is ready.
pub open spec fn ready_behind_front(q: Seq<MyProcess>) -> bool {
    exists|i: int| 1 <= i < q.len() && (#[trigger] q[i]).state == ProcessState::Ready
}

/// The round-robin time update leaves a ready process behind the front one,
/// where there was one.
proof fn lemma_rr_sync_keeps_ready(s: Seq<MyProcess>, ts: usize, k: int)
    requires
        0 <= k <= s.len(),
        ready_behind_front(s),
    ensures
        ready_behind_front(rr_synced_upto(s, ts, k)),
    decreases k,
{
    lemma_rr_synced_len(s, ts, k);
    if k > 0 {
        lemma_rr_sync_keeps_ready(s, ts, k - 1);
        lemma_rr_synced_len(s, ts, k - 1);
        let cur = rr_synced_upto(s, ts, k - 1);
        let next = rr_synced_upto(s, ts, k);
        let x = k - 1;
        let sp = s[x];
        assert(next == rr_step_as(sp, cur, ts, x));
        let i = choose|i: int| 1 <= i < cur.len() && (#[trigger] cur[i]).state == ProcessState::Ready;
        if sp.state == (ProcessState::Waiting { event: None }) && ts >= sp.sleep_time && x + 1
            < cur.len() {
            assert(next[x + 1].state == ProcessState::Ready);
        } else {
            assert(next[i].state == ProcessState::Ready);
        }
    }
}

/// A round-robin exit takes the process in front off the queue. Where more
/// than one process was queued, a process behind the front one was ready,
/// and the process with pid 1 is still queued, the first ready process runs
/// (no ready process stands before a running one) and the time slice is the
/// initial one.
pub proof fn law_rr_exit_runs_first_ready(s: SchedState, remaining: usize)
    requires
        s.initial_timeslice > 0,
        s.procs.len() > 1,
        ready_behind_front(s.procs),
    ensures
        ({
            let a = rr_exit(s, remaining).0;
            &&& a.procs.len() == s.procs.len() - 1
            &&& (exists|i: int| 0 <= i < a.procs.len() && (#[trigger] a.procs[i]).pid == Pid(1)) ==> {
                &&& a.timeslice == s.initial_timeslice
                &&& exists|i: int|
                    0 <= i < a.procs.len() && (#[trigger] a.procs[i]).state == ProcessState::Running
                        && forall|j: int| 0 <= j < i ==> (#[trigger] a.procs[j]).state != ProcessState::Ready
            }
        }),
{
    let d = (s.timeslice - remaining) as usize;
    let q = rr_synced(s.procs, d);
    lemma_rr_synced_len(s.procs, d, s.procs.len() as int);
    lemma_rr_sync_keeps_ready(s.procs, d, s.procs.len() as int);
    let q1 = q.drop_first();
    let w = choose|i: int| 1 <= i < q.len() && (#[trigger] q[i]).state == ProcessState::Ready;
    assert(q1[w - 1] == q[w]);
    assert(in_state(ProcessState::Ready)(q1[w - 1]));
    lemma_first_where(q1, in_state(ProcessState::Ready));
    let a = rr_exit(s, remaining).0;
    if exists|i: int| 0 <= i < a.procs.len() && (#[trigger] a.procs[i]).pid == Pid(1) {
        let h = choose|i: int| 0 <= i < a.procs.len() && (#[trigger] a.procs[i]).pid == Pid(1);
        let f = first_where(q1, in_state(ProcessState::Ready)).unwrap();
        let p2 = q1[f];
        assert(a.procs == crate::queue::marked_running(q1, p2.pid, false) ==> a.procs[h].pid == q1[h].pid);
        assert(has_pid(q1, 1)) by {
            assert(q1[h].pid.0 == 1);
        }
        assert(a.procs[f].state == ProcessState::Running);
        assert forall|j: int| 0 <= j < f implies (#[trigger] a.procs[j]).state != ProcessState::Ready by {
            assert(!in_state(ProcessState::Ready)(q1[j]));
        }
    }
}

/// A fair-scheduler exit takes the running process off the queue. Where
/// pids are distinct, more than one process was queued, the process with
/// pid 1 stays, and some ready process has a virtual run time under the
/// bound `100000000`, a process runs after the exit; every process that
/// runs has its pid, and it has a virtual run time no more than that of any
/// ready process.
pub proof fn law_cfs_exit_runs_least_vruntime(s: SchedState, remaining: usize)
    requires
        distinct_pids(s.procs),
        s.procs.len() > 1,
        exists|r: int| 0 <= r < s.procs.len() && (#[trigger] s.procs[r]).state == ProcessState::Running,
        exists|h: int|
            0 <= h < s.procs.len() && (#[trigger] s.procs[h]).state != ProcessState::Running
                && s.procs[h].pid == Pid(1),
        exists|g: int|
            0 <= g < s.procs.len() && (#[trigger] s.procs[g]).state == ProcessState::Ready
                && s.procs[g].vmrun < 100000000,
    ensures
        ({
            let a = cfs_exit(s, remaining).0.procs;
            &&& forall|j: int, r: int|
                0 <= j < a.len() && 0 <= r < s.procs.len() && s.procs[r].state
                    == ProcessState::Running ==> (#[trigger] a[j]).pid != (#[trigger] s.procs[r]).pid
            &&& exists|i: int|
                0 <= i < a.len() && (#[trigger] a[i]).state == ProcessState::Running && forall|j: int|
                    0 <= j < a.len() ==> {
                        &&& (#[trigger] a[j]).state == ProcessState::Ready ==> a[i].vmrun <= a[j].vmrun
                        &&& a[j].state == ProcessState::Running ==> a[j].pid == a[i].pid
                    }
            &&& s.initial_timeslice >= 2 ==> cfs_exit(s, remaining).0.timeslice == if a.len() == 1 {
                s.initial_timeslice
            } else {
                (s.initial_timeslice / 2) as usize
            }
        }),
{
    broadcast use vstd::seq_lib::group_filter_ensures;
    let ts = s.timeslice - remaining;
    let q = cfs_synced(s.procs, ts);
    assert forall|m: int| 0 <= m < q.len() implies (#[trigger] q[m]).pid == s.procs[m].pid && q[m].state
        == s.procs[m].state && (q[m].state != ProcessState::Running ==> q[m].vmrun == s.procs[m].vmrun) by {}
    lemma_first_where(q, in_state(ProcessState::Running));
    let r = choose|r: int| 0 <= r < s.procs.len() && (#[trigger] s.procs[r]).state == ProcessState::Running;
    assert(in_state(ProcessState::Running)(q[r]));
    let r0 = first_where(q, in_state(ProcessState::Running)).unwrap();
    let p4 = q[r0];
    let f = |p: MyProcess| p.state != ProcessState::Running;
    let q1 = q.filter(f);
    // every process of q1 stands in q, where it does not run
    assert forall|j: int| 0 <= j < q1.len() implies #[trigger] q.contains(q1[j]) by {
        assert(f(q1[j]));
        assert(q1.contains(q1[j]));
        q.lemma_filter_contains_rev(f, q1[j]);
    }
    let h = choose|h: int|
        0 <= h < s.procs.len() && (#[trigger] s.procs[h]).state != ProcessState::Running && s.procs[h].pid
            == Pid(1);
    q.lemma_filter_contains(f, h);
    assert(has_pid(q1, 1)) by {
        let k = choose|k: int| 0 <= k < q1.len() && q1[k] == q[h];
        assert(q1[k].pid.0 == 1);
    }
    let g = choose|g: int|
        0 <= g < s.procs.len() && (#[trigger] s.procs[g]).state == ProcessState::Ready && s.procs[g].vmrun
            < 100000000;
    q.lemma_filter_contains(f, g);
    let kg = choose|k: int| 0 <= k < q1.len() && q1[k] == q[g];
    assert(s.procs[g].pid != s.procs[r0].pid);
    crate::laws::law_select_min_least(q1, p4.pid);
    assert(is_active(q1[kg]) && q1[kg].pid != p4.pid);
    let sm = select_min(q1, p4.pid);
    assert(sm.0 < 100000000);
    let i = choose|i: int|
        0 <= i < q1.len() && q1[i] == sm.1 && is_active(q1[i]) && q1[i].pid != p4.pid && forall|j: int|
            0 <= j < i && is_active(q1[j]) && q1[j].pid != p4.pid ==> q1[j].vmrun > q1[i].vmrun;
    let p2 = sm.1;
    let a = cfs_exit(s, remaining).0.procs;
    assert(a == crate::queue::marked_running(q1, p2.pid, true));
    assert(f(q1[i]));
    assert(a[i].state == ProcessState::Running);
    assert forall|j: int| 0 <= j < a.len() implies {
        &&& (#[trigger] a[j]).state == ProcessState::Ready ==> a[i].vmrun <= a[j].vmrun
        &&& a[j].state == ProcessState::Running ==> a[j].pid == a[i].pid
    } by {
        assert(f(q1[j]));
        assert(q.contains(q1[j]));
        let m = choose|m: int| 0 <= m < q.len() && #[trigger] q[m] == q1[j];
        assert(m != r0);
        assert(s.procs[m].pid != s.procs[r0].pid);
        if a[j].state == ProcessState::Ready {
            assert(is_active(q1[j]));
        }
    }
    assert forall|j: int, rr: int|
        0 <= j < a.len() && 0 <= rr < s.procs.len() && s.procs[rr].state == ProcessState::Running implies (
        #[trigger] a[j]).pid != (#[trigger] s.procs[rr]).pid by {
        assert(f(q1[j]));
        assert(q.contains(q1[j]));
        let m = choose|m: int| 0 <= m < q.len() && #[trigger] q[m] == q1[j];
        assert(m != rr);
    }
}

/// Whether `after` holds a process with the pid of `p` that has `d` more
/// units of total time and, unless `p` was ready, the state of `p`.
pub open spec fn holds_counted(after: Seq<MyProcess>, p: MyProcess, d: int) -> bool {
    exists|i: int|
        0 <= i < after.len() && (#[trigger] after[i]).pid == p.pid && after[i].timings.0
            == p.timings.0 + d && (p.state != ProcessState::Ready ==> after[i].state == p.state)
}

/// The process at `j` in `q`, whose pid no other process has, is in `q`
/// after the first ready process of `q` is handed the processor: as it was,
/// or, if it is that ready process, running.
proof fn lemma_process_survives(q: Seq<MyProcess>, j: int)
    requires
        0 <= j < q.len(),
        forall|m: int| 0 <= m < q.len() && m != j ==> (#[trigger] q[m]).pid != q[j].pid,
    ensures
        first_in_state(q, ProcessState::Ready) matches Some(p2) ==> exists|i: int|
            0 <= i < hand_over(q, p2).len() && (#[trigger] hand_over(q, p2)[i]).pid == q[j].pid
                && hand_over(q, p2)[i].timings == q[j].timings && (q[j].state
                != ProcessState::Ready ==> hand_over(q, p2)[i] == q[j]),
{
    lemma_first_where(q, in_state(ProcessState::Ready));
    if let Some(p2) = first_in_state(q, ProcessState::Ready) {
        let m = first_where(q, in_state(ProcessState::Ready)).unwrap();
        let w = without_pid(q, p2.pid);
        let a = hand_over(q, p2);
        assert(a == seq![crate::queue::with_state(p2, ProcessState::Running)] + w);
        if m == j {
            assert(a[0].pid == q[j].pid);
            assert(a[0].timings == q[j].timings);
        } else {
            let f = |x: MyProcess| x.pid != p2.pid;
            q.lemma_filter_contains(f, j);
            let k = choose|k: int| 0 <= k < w.len() && w[k] == q[j];
            assert(a[k + 1] == q[j]);
        }
    }
}

/// A round-robin wait lets `d = ts - remaining` units pass for every
/// process behind the front one: each, where no other process has its pid,
/// is there after the wait with `d` more units of total time and, unless it
/// was ready, in its state.
pub proof fn law_rr_wait_counts_time(s: SchedState, event: usize, remaining: usize, j: int)
    requires
        distinct_pids(s.procs),
        0 < j < s.procs.len(),
        remaining <= s.timeslice,
        s.procs[j].state == (ProcessState::Waiting { event: None }) ==> s.procs[j].sleep_time
            >= s.timeslice - remaining,
        s.procs[j].timings.0 + (s.timeslice - remaining) <= usize::MAX,
    ensures
        holds_counted(rr_wait(s, event, remaining).0.procs, s.procs[j], s.timeslice - remaining),
{
    let d = s.timeslice - remaining;
    let q = elapse(s.procs.update(0, crate::round_robin::waiting_for(s.procs[0], event, d)), d);
    assert forall|m: int| 0 <= m < q.len() && m != j implies (#[trigger] q[m]).pid != q[j].pid by {
        assert(s.procs[m].pid != s.procs[j].pid);
    }
    lemma_process_survives(q, j);
    let after = rr_wait(s, event, remaining).0.procs;
    if first_in_state(q, ProcessState::Ready) is None {
        assert(after[j] == q[j]);
    } else {
        let p2 = first_in_state(q, ProcessState::Ready).unwrap();
        let k = choose|i: int|
            0 <= i < hand_over(q, p2).len() && (#[trigger] hand_over(q, p2)[i]).pid == q[j].pid
                && hand_over(q, p2)[i].timings == q[j].timings && (q[j].state
                != ProcessState::Ready ==> hand_over(q, p2)[i] == q[j]);
        assert(after[k].pid == q[j].pid);
    }
}

/// A fair-scheduler wait, made while a process runs, lets `d = ts -
/// remaining` units pass for every process that does not run: each, where
/// no other process has its pid, is there after the wait with `d` more units
/// of total time and, unless it was ready, in its state.
pub proof fn law_cfs_wait_counts_time(s: SchedState, event: usize, remaining: usize, j: int)
    requires
        distinct_pids(s.procs),
        0 <= j < s.procs.len(),
        s.procs[j].state != ProcessState::Running,
        exists|r: int| 0 <= r < s.procs.len() && (#[trigger] s.procs[r]).state == ProcessState::Running,
        remaining <= s.timeslice,
        s.procs[j].state == (ProcessState::Waiting { event: None }) ==> s.procs[j].sleep_time
            >= s.timeslice - remaining,
        s.procs[j].timings.0 + (s.timeslice - remaining) <= usize::MAX,
    ensures
        holds_counted(cfs_wait(s, event, remaining).0.procs, s.procs[j], s.timeslice - remaining),
{
    let d = s.timeslice - remaining;
    let i0 = last_running_or_zero(s.procs);
    lemma_last_where(s.procs, in_state(ProcessState::Running));
    let r = choose|r: int| 0 <= r < s.procs.len() && (#[trigger] s.procs[r]).state == ProcessState::Running;
    assert(in_state(ProcessState::Running)(s.procs[r]));
    assert(i0 != j);
    let q = elapse(s.procs.update(i0, crate::cfs::cfs_waiting(s.procs[i0], event, d)), d);
    assert forall|m: int| 0 <= m < q.len() && m != j implies (#[trigger] q[m]).pid != q[j].pid by {
        assert(s.procs[m].pid != s.procs[j].pid);
    }
    lemma_process_survives(q, j);
    let after = cfs_wait(s, event, remaining).0.procs;
    if first_in_state(q, ProcessState::Ready) is None {
        assert(after[j] == q[j]);
    } else {
        let p2 = first_in_state(q, ProcessState::Ready).unwrap();
        let k = choose|i: int|
            0 <= i < hand_over(q, p2).len() && (#[trigger] hand_over(q, p2)[i]).pid == q[j].pid
                && hand_over(q, p2)[i].timings == q[j].timings && (q[j].state
                != ProcessState::Ready ==> hand_over(q, p2)[i] == q[j]);
        assert(after[k].pid == q[j].pid);
    }
}

} // verus!
