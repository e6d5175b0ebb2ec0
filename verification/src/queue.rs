//! The run queue: a sequence of processes, and the searches and updates that
//! both schedulers make on it.
use vstd::prelude::*;
use std::collections::VecDeque;
use crate::process::{MyProcess, Pid, ProcessState};

verus! {

broadcast use vstd::std_specs::vecdeque::group_vec_dequeue_axioms;

/// Index of the first process of `s` that satisfies `f`.
pub open spec fn first_where(s: Seq<MyProcess>, f: spec_fn(MyProcess) -> bool) -> Option<int>
    decreases s.len(),
{
    if s.len() == 0 {
        None
    } else {
        match first_where(s.drop_last(), f) {
            Some(i) => Some(i),
            None => if f(s.last()) {
                Some(s.len() - 1)
            } else {
                None
            },
        }
    }
}

/// Index of the last process of `s` that satisfies `f`.
pub open spec fn last_where(s: Seq<MyProcess>, f: spec_fn(MyProcess) -> bool) -> Option<int>
    decreases s.len(),
{
    if s.len() == 0 {
        None
    } else if f(s.last()) {
        Some(s.len() - 1)
    } else {
        last_where(s.drop_last(), f)
    }
}

/// What `first_where` finds: an index whose process satisfies `f`, with
/// none before it; or no index, where no process satisfies `f`.
pub proof fn lemma_first_where(s: Seq<MyProcess>, f: spec_fn(MyProcess) -> bool)
    ensures
        first_where(s, f) matches Some(i) ==> 0 <= i < s.len() && f(s[i]) && forall|j: int|
            0 <= j < i ==> !f(#[trigger] s[j]),
        first_where(s, f) is None ==> forall|j: int| 0 <= j < s.len() ==> !f(#[trigger] s[j]),
    decreases s.len(),
{
    if s.len() > 0 {
        lemma_first_where(s.drop_last(), f);
        assert forall|j: int| 0 <= j < s.len() - 1 implies s.drop_last()[j] == s[j] by {}
    }
}

/// What `last_where` finds: an index whose process satisfies `f`, with
/// none after it; or no index, where no process satisfies `f`.
pub proof fn lemma_last_where(s: Seq<MyProcess>, f: spec_fn(MyProcess) -> bool)
    ensures
        last_where(s, f) matches Some(i) ==> 0 <= i < s.len() && f(s[i]) && forall|j: int|
            i < j < s.len() ==> !f(#[trigger] s[j]),
        last_where(s, f) is None ==> forall|j: int| 0 <= j < s.len() ==> !f(#[trigger] s[j]),
    decreases s.len(),
{
    if s.len() > 0 {
        lemma_last_where(s.drop_last(), f);
        assert forall|j: int| 0 <= j < s.len() - 1 implies s.drop_last()[j] == s[j] by {}
    }
}

/// The processes in state `st`.
pub open spec fn in_state(st: ProcessState) -> spec_fn(MyProcess) -> bool {
    |p: MyProcess| p.state == st
}

/// The state of a process that sleeps for a time.
pub open spec fn asleep() -> ProcessState {
    ProcessState::Waiting { event: None }
}

/// The first process of `s` in state `st`.
pub open spec fn first_in_state(s: Seq<MyProcess>, st: ProcessState) -> Option<MyProcess> {
    match first_where(s, in_state(st)) {
        Some(i) => Some(s[i]),
        None => None,
    }
}

/// Index of the last running process of `s`, or 0 where none runs.
pub open spec fn last_running_or_zero(s: Seq<MyProcess>) -> int {
    match last_where(s, in_state(ProcessState::Running)) {
        Some(i) => i,
        None => 0,
    }
}

/// Whether some process of `s` has the pid `v`.
pub open spec fn has_pid(s: Seq<MyProcess>, v: usize) -> bool {
    exists|i: int| 0 <= i < s.len() && (#[trigger] s[i]).pid.0 == v
}

/// `s` without the processes whose pid is `pid`.
pub open spec fn without_pid(s: Seq<MyProcess>, pid: Pid) -> Seq<MyProcess> {
    s.filter(|p: MyProcess| p.pid != pid)
}

/// Whether a process is ready or running.
pub open spec fn is_active(p: MyProcess) -> bool {
    p.state == ProcessState::Ready || p.state == ProcessState::Running
}

/// The ready and running processes of `s`.
pub open spec fn active(s: Seq<MyProcess>) -> Seq<MyProcess> {
    s.filter(|p: MyProcess| is_active(p))
}

/// `p` with `d` more units of total time.
pub open spec fn add_total(p: MyProcess, d: int) -> MyProcess {
    MyProcess { timings: ((p.timings.0 + d) as usize, p.timings.1, p.timings.2), ..p }
}

/// `p` with `d` more units of time spent running.
pub open spec fn add_exec(p: MyProcess, d: int) -> MyProcess {
    MyProcess { timings: (p.timings.0, p.timings.1, (p.timings.2 + d) as usize), ..p }
}

/// `p` with one more system call counted.
pub open spec fn add_call(p: MyProcess) -> MyProcess {
    MyProcess { timings: (p.timings.0, (p.timings.1 + 1) as usize, p.timings.2), ..p }
}

/// `p` in state `st`.
pub open spec fn with_state(p: MyProcess, st: ProcessState) -> MyProcess {
    MyProcess { state: st, ..p }
}

/// `s` where every process has one more unit of total time.
pub open spec fn tick(s: Seq<MyProcess>) -> Seq<MyProcess> {
    s.map_values(|p: MyProcess| add_total(p, 1))
}

/// Every total time of `s` can take one more unit.
pub open spec fn tick_ok(s: Seq<MyProcess>) -> bool {
    forall|i: int| 0 <= i < s.len() ==> (#[trigger] s[i]).timings.0 < usize::MAX
}

/// `s` with the processes at `i` and `i + 1` exchanged.
pub open spec fn swap_next(s: Seq<MyProcess>, i: int) -> Seq<MyProcess> {
    s.update(i, s[i + 1]).update(i + 1, s[i])
}

/// The smallest virtual run time of an active process, where it is under the
/// bound `100000000`; the bound otherwise.
pub open spec fn min_vmrun(s: Seq<MyProcess>) -> usize
    decreases s.len(),
{
    if s.len() == 0 {
        100000000
    } else {
        let m = min_vmrun(s.drop_last());
        let p = s.last();
        if p.vmrun < m && is_active(p) {
            p.vmrun
        } else {
            m
        }
    }
}

/// The first active process other than `pid` with the smallest virtual run
/// time under the bound `100000000`, with that time; where there is none, a
/// fresh process with pid 100 and the bound.
pub open spec fn select_min(s: Seq<MyProcess>, pid: Pid) -> (usize, MyProcess)
    decreases s.len(),
{
    if s.len() == 0 {
        (100000000, MyProcess::fresh(100))
    } else {
        let r = select_min(s.drop_last(), pid);
        let p = s.last();
        if p.vmrun < r.0 && pid != p.pid && is_active(p) {
            (p.vmrun, p)
        } else {
            r
        }
    }
}

/// Whether `p` waits for `event`.
pub open spec fn waits_for(p: MyProcess, event: usize) -> bool {
    p.state == (ProcessState::Waiting { event: Some(event) })
}

/// The processes of `s` that wait for `event`, in their order.
pub open spec fn waiters(s: Seq<MyProcess>, event: usize) -> Seq<MyProcess> {
    s.filter(|p: MyProcess| waits_for(p, event))
}

/// The processes of `s` that do not wait for `event`, in their order.
pub open spec fn non_waiters(s: Seq<MyProcess>, event: usize) -> Seq<MyProcess> {
    s.filter(|p: MyProcess| !waits_for(p, event))
}

/// How many processes before place `i` of `s` wait for `event`.
pub open spec fn rank(s: Seq<MyProcess>, event: usize, i: int) -> int {
    waiters(s.take(i), event).len() as int
}

/// Where `insert_by_pid` puts `p` in `w`: after every process whose pid is
/// no greater than that of `p`, counted from the front.
pub open spec fn insert_index(w: Seq<MyProcess>, p: MyProcess) -> int
    decreases w.len(),
{
    if w.len() == 0 || p.pid.0 < w[0].pid.0 {
        0
    } else {
        1 + insert_index(w.drop_first(), p)
    }
}

/// `w` with `p` put before the first process whose pid is greater.
pub open spec fn insert_by_pid(w: Seq<MyProcess>, p: MyProcess) -> Seq<MyProcess>
    decreases w.len(),
{
    if w.len() == 0 {
        seq![p]
    } else if p.pid.0 < w[0].pid.0 {
        seq![p] + w
    } else {
        seq![w[0]] + insert_by_pid(w.drop_first(), p)
    }
}

/// `w` sorted by pid; processes with the same pid keep their order.
pub open spec fn sort_by_pid(w: Seq<MyProcess>) -> Seq<MyProcess>
    decreases w.len(),
{
    if w.len() == 0 {
        w
    } else {
        insert_by_pid(sort_by_pid(w.drop_last()), w.last())
    }
}

/// Whether the pids of `w` never decrease.
pub open spec fn pid_sorted(w: Seq<MyProcess>) -> bool {
    forall|i: int, j: int| 0 <= i < j < w.len() ==> (#[trigger] w[i]).pid.0 <= (#[trigger] w[j]).pid.0
}

/// `s` with the places of the processes that wait for `event` taken, in
/// order, by the processes of `w`.
pub open spec fn fill_waiting(s: Seq<MyProcess>, event: usize, w: Seq<MyProcess>) -> Seq<MyProcess>
    decreases s.len(),
{
    if s.len() == 0 {
        s
    } else if waits_for(s[0], event) {
        seq![w[0]] + fill_waiting(s.drop_first(), event, w.drop_first())
    } else {
        seq![s[0]] + fill_waiting(s.drop_first(), event, w)
    }
}

/// The run queue after the processes waiting for `event` are sorted by pid
/// over the places where waiting processes stood; every other process keeps
/// its place, and waiting processes with the same pid keep their order.
pub open spec fn sort_waiting(s: Seq<MyProcess>, event: usize) -> Seq<MyProcess> {
    fill_waiting(s, event, sort_by_pid(waiters(s, event)))
}

/// What `insert_index` finds.
pub proof fn lemma_insert_index(w: Seq<MyProcess>, p: MyProcess)
    ensures
        0 <= insert_index(w, p) <= w.len(),
        forall|i: int| 0 <= i < insert_index(w, p) ==> (#[trigger] w[i]).pid.0 <= p.pid.0,
        insert_index(w, p) < w.len() ==> p.pid.0 < w[insert_index(w, p)].pid.0,
    decreases w.len(),
{
    if w.len() > 0 && !(p.pid.0 < w[0].pid.0) {
        lemma_insert_index(w.drop_first(), p);
        assert forall|i: int| 0 <= i < insert_index(w, p) implies (#[trigger] w[i]).pid.0 <= p.pid.0 by {
            if i > 0 {
                assert(w[i] == w.drop_first()[i - 1]);
            }
        }
    }
}

/// Inserting `p` at a place `j` with no greater pid before it and a greater
/// pid at it is what `insert_by_pid` does.
pub proof fn lemma_insert_by_pid_at(w: Seq<MyProcess>, p: MyProcess, j: int)
    requires
        0 <= j <= w.len(),
        forall|i: int| 0 <= i < j ==> (#[trigger] w[i]).pid.0 <= p.pid.0,
        j < w.len() ==> p.pid.0 < w[j].pid.0,
    ensures
        insert_by_pid(w, p) == w.insert(j, p),
    decreases w.len(),
{
    if w.len() == 0 {
        assert(w.insert(j, p) =~= seq![p]);
    } else if p.pid.0 < w[0].pid.0 {
        if j > 0 {
            assert(w[0].pid.0 <= p.pid.0);
        }
        assert(w.insert(j, p) =~= seq![p] + w);
    } else {
        assert(j > 0);
        let r = w.drop_first();
        assert forall|i: int| 0 <= i < j - 1 implies (#[trigger] r[i]).pid.0 <= p.pid.0 by {
            assert(r[i] == w[i + 1]);
        }
        lemma_insert_by_pid_at(r, p, j - 1);
        assert(w.insert(j, p) =~= seq![w[0]] + r.insert(j - 1, p));
    }
}

/// Sorting by pid keeps the processes and orders them by pid.
pub proof fn lemma_sort_by_pid(w: Seq<MyProcess>)
    ensures
        sort_by_pid(w).len() == w.len(),
        sort_by_pid(w).to_multiset() == w.to_multiset(),
        pid_sorted(sort_by_pid(w)),
        forall|i: int| 0 <= i < w.len() ==> w.contains(#[trigger] sort_by_pid(w)[i]),
    decreases w.len(),
{
    broadcast use vstd::seq_lib::group_to_multiset_ensures;
    if w.len() > 0 {
        let w0 = w.drop_last();
        let p = w.last();
        let t0 = sort_by_pid(w0);
        lemma_sort_by_pid(w0);
        lemma_insert_index(t0, p);
        let j = insert_index(t0, p);
        lemma_insert_by_pid_at(t0, p, j);
        let t = sort_by_pid(w);
        assert(t == t0.insert(j, p));
        vstd::seq_lib::to_multiset_insert(t0, j, p);
        assert(w0.push(p) =~= w);
        assert(t.to_multiset() =~= w.to_multiset());
        assert forall|a: int, b: int| 0 <= a < b < t.len() implies (#[trigger] t[a]).pid.0 <= (
        #[trigger] t[b]).pid.0 by {
            if b < j {
                assert(t0[a].pid.0 <= t0[b].pid.0);
            } else if b == j {
            } else if a < j {
                assert(t0[a].pid.0 <= t0[b - 1].pid.0);
            } else if a == j {
                assert(t0[j].pid.0 <= t0[b - 1].pid.0);
            } else {
                assert(t0[a - 1].pid.0 <= t0[b - 1].pid.0);
            }
        }
        assert forall|i: int| 0 <= i < w.len() implies w.contains(#[trigger] t[i]) by {
            assert(t.to_multiset().count(t[i]) > 0);
        }
    } else {
        assert(w.to_multiset() =~= sort_by_pid(w).to_multiset());
    }
}

/// The rank of a place grows by one past each waiting process.
pub proof fn lemma_rank_step(s: Seq<MyProcess>, event: usize, i: int)
    requires
        0 <= i < s.len(),
    ensures
        rank(s, event, i + 1) == rank(s, event, i) + if waits_for(s[i], event) {
            1int
        } else {
            0int
        },
{
    assert(s.take(i + 1) =~= s.take(i).push(s[i]));
    s.take(i).lemma_filter_len_push(|p: MyProcess| waits_for(p, event), s[i]);
}

/// Ranks grow along the queue, strictly past a waiting process.
pub proof fn lemma_rank_grows(s: Seq<MyProcess>, event: usize, i: int, j: int)
    requires
        0 <= i < j <= s.len(),
    ensures
        rank(s, event, i) <= rank(s, event, j),
        waits_for(s[i], event) ==> rank(s, event, i) < rank(s, event, j),
    decreases j - i,
{
    lemma_rank_step(s, event, j - 1);
    if i < j - 1 {
        lemma_rank_grows(s, event, i, j - 1);
    }
}

/// What `fill_waiting` makes of `s`, where `w` holds as many processes as
/// wait in `s`, each waiting.
pub proof fn lemma_fill_waiting(s: Seq<MyProcess>, event: usize, w: Seq<MyProcess>)
    requires
        w.len() == waiters(s, event).len(),
        forall|k: int| 0 <= k < w.len() ==> waits_for(#[trigger] w[k], event),
    ensures
        fill_waiting(s, event, w).len() == s.len(),
        waiters(fill_waiting(s, event, w), event) == w,
        non_waiters(fill_waiting(s, event, w), event) == non_waiters(s, event),
        forall|i: int|
            0 <= i < s.len() && waits_for(s[i], event) ==> #[trigger] rank(s, event, i) < w.len(),
        forall|i: int|
            0 <= i < s.len() ==> (if waits_for(s[i], event) {
                #[trigger] fill_waiting(s, event, w)[i] == w[rank(s, event, i)]
            } else {
                fill_waiting(s, event, w)[i] == s[i]
            }),
    decreases s.len(),
{
    let fw = |p: MyProcess| waits_for(p, event);
    let fn_ = |p: MyProcess| !waits_for(p, event);
    assert(s.take(s.len() as int) =~= s);
    assert forall|i: int| 0 <= i < s.len() && waits_for(s[i], event) implies #[trigger] rank(
        s,
        event,
        i,
    ) < w.len() by {
        lemma_rank_grows(s, event, i, s.len() as int);
    }
    if s.len() == 0 {
        assert(waiters(s, event) =~= s) by {
            reveal(Seq::filter);
        }
        assert(w =~= Seq::<MyProcess>::empty());
    } else {
        let s0 = s[0];
        let r = s.drop_first();
        assert(s =~= seq![s0] + r);
        r.lemma_filter_prepend(s0, fw);
        r.lemma_filter_prepend(s0, fn_);
        let w2 = if waits_for(s0, event) {
            w.drop_first()
        } else {
            w
        };
        let f = fill_waiting(s, event, w);
        let fr = fill_waiting(r, event, w2);
        lemma_fill_waiting(r, event, w2);
        let h = if waits_for(s0, event) {
            w[0]
        } else {
            s0
        };
        assert(f == seq![h] + fr);
        fr.lemma_filter_prepend(h, fw);
        fr.lemma_filter_prepend(h, fn_);
        if waits_for(s0, event) {
            assert(waits_for(w[0], event));
            assert(w =~= seq![w[0]] + w.drop_first());
        }
        assert forall|i: int| 0 <= i < s.len() implies (if waits_for(s[i], event) {
            rank(s, event, i) < w.len() && #[trigger] f[i] == w[rank(s, event, i)]
        } else {
            f[i] == s[i]
}) by {
            if i == 0 {
                assert(s.take(0) =~= Seq::<MyProcess>::empty());
                assert(waiters(Seq::<MyProcess>::empty(), event) =~= Seq::<MyProcess>::empty()) by {
                    reveal(Seq::filter);
                }
            } else {
                assert(s[i] == r[i - 1]);
                assert(f[i] == fr[i - 1]);
                assert(s.take(i) =~= seq![s0] + r.take(i - 1));
                r.take(i - 1).lemma_filter_prepend(s0, fw);
                let rk = rank(r, event, i - 1);
                assert(rank(s, event, i) == rk + if waits_for(s0, event) {
                    1int
                } else {
                    0int
                });
                assert(if waits_for(r[i - 1], event) {
                    rk < w2.len() && fr[i - 1] == w2[rk]
                } else {
                    fr[i - 1] == r[i - 1]
                });
                if waits_for(s0, event) {
                    if waits_for(s[i], event) {
                        assert(w[rk + 1] == w2[rk]);
                    }
                }
            }
        }
    }
}

/// Sorting the waiting processes keeps the length of the queue.
pub proof fn lemma_sort_waiting_len(s: Seq<MyProcess>, event: usize)
    ensures
        sort_waiting(s, event).len() == s.len(),
{
    lemma_sort_waiting(s, event);
}

/// What sorting the waiting processes does: the queue keeps its length, its
/// waiting places and every other process; the waiting processes come out in
/// order of pid, are those of `s` sorted by pid, and each is a process of
/// `s`.
pub proof fn lemma_sort_waiting(s: Seq<MyProcess>, event: usize)
    ensures
        sort_waiting(s, event).len() == s.len(),
        forall|i: int|
            0 <= i < s.len() ==> waits_for(#[trigger] sort_waiting(s, event)[i], event) == waits_for(
                s[i],
                event,
            ),
        forall|i: int|
            0 <= i < s.len() && !waits_for(s[i], event) ==> #[trigger] sort_waiting(s, event)[i]
                == s[i],
        forall|i: int, j: int|
            0 <= i < j < s.len() && waits_for(s[i], event) && waits_for(s[j], event) ==> (
            #[trigger] sort_waiting(s, event)[i]).pid.0 <= (#[trigger] sort_waiting(s, event)[j]).pid.0,
        forall|i: int| 0 <= i < s.len() ==> s.contains(#[trigger] sort_waiting(s, event)[i]),
        waiters(sort_waiting(s, event), event) == sort_by_pid(waiters(s, event)),
        non_waiters(sort_waiting(s, event), event) == non_waiters(s, event),
{
    broadcast use vstd::seq_lib::group_filter_ensures;
    let ws = waiters(s, event);
    let w = sort_by_pid(ws);
    lemma_sort_by_pid(ws);
    assert forall|k: int| 0 <= k < w.len() implies waits_for(#[trigger] w[k], event) by {
        assert(ws.contains(w[k]));
        let m = choose|m: int| 0 <= m < ws.len() && ws[m] == w[k];
        assert(waits_for(ws[m], event));
    }
    lemma_fill_waiting(s, event, w);
    let t = sort_waiting(s, event);
    assert forall|i: int| 0 <= i < s.len() implies s.contains(#[trigger] t[i]) by {
        if waits_for(s[i], event) {
            let k = rank(s, event, i);
            assert(ws.contains(w[k]));
            let m = choose|m: int| 0 <= m < ws.len() && ws[m] == w[k];
            assert(ws.contains(ws[m]));
            s.lemma_filter_contains_rev(|p: MyProcess| waits_for(p, event), ws[m]);
        } else {
            assert(t[i] == s[i]);
        }
    }
    assert forall|i: int, j: int|
        0 <= i < j < s.len() && waits_for(s[i], event) && waits_for(s[j], event) implies (
        #[trigger] t[i]).pid.0 <= (#[trigger] t[j]).pid.0 by {
        lemma_rank_grows(s, event, i, j);
        assert(w[rank(s, event, i)].pid.0 <= w[rank(s, event, j)].pid.0);
    }
}

/// Index of the first process in state `st`.
pub fn find_index(q: &VecDeque<MyProcess>, st: ProcessState) -> (r: Option<usize>)
    ensures
        match r {
            Some(i) => first_where(q@, in_state(st)) == Some(i as int),
            None => first_where(q@, in_state(st)) is None,
        },
{
    proof {
        lemma_first_where(q@, in_state(st));
    }
    let mut i: usize = 0;
    while i < q.len()
        invariant
            i <= q@.len(),
            forall|j: int| 0 <= j < i ==> q@[j].state != st,
            first_where(q@, in_state(st)) matches Some(k) ==> 0 <= k < q@.len() && q@[k].state == st
                && forall|j: int| 0 <= j < k ==> !in_state(st)(#[trigger] q@[j]),
            first_where(q@, in_state(st)) is None ==> forall|j: int|
                0 <= j < q@.len() ==> !in_state(st)(#[trigger] q@[j]),
        decreases q@.len() - i,
    {
        if q[i].state == st {
            assert(in_state(st)(q@[i as int]));
            return Some(i);
        }
        i = i + 1;
    }
    None
}

/// The first process in state `st`.
pub fn find_state(q: &VecDeque<MyProcess>, st: ProcessState) -> (r: Option<MyProcess>)
    ensures
        r == first_in_state(q@, st),
{
    proof {
        lemma_first_where(q@, in_state(st));
    }
    match find_index(q, st) {
        Some(i) => Some(q[i]),
        None => None,
    }
}

/// Index of the last running process, or 0 where none runs.
pub fn last_running_index(q: &VecDeque<MyProcess>) -> (r: usize)
    ensures
        r == last_running_or_zero(q@),
{
    let ghost f = in_state(ProcessState::Running);
    proof {
        lemma_last_where(q@, f);
    }
    let mut r: usize = 0;
    let mut found = false;
    let mut i: usize = 0;
    while i < q.len()
        invariant
            i <= q@.len(),
            f == in_state(ProcessState::Running),
            found ==> r < i && q@[r as int].state == ProcessState::Running && forall|j: int|
                r < j < i ==> q@[j].state != ProcessState::Running,
            !found ==> r == 0 && forall|j: int| 0 <= j < i ==> q@[j].state != ProcessState::Running,
            last_where(q@, f) matches Some(k) ==> 0 <= k < q@.len() && f(q@[k]) && forall|j: int|
                k < j < q@.len() ==> !f(#[trigger] q@[j]),
            last_where(q@, f) is None ==> forall|j: int| 0 <= j < q@.len() ==> !f(#[trigger] q@[j]),
        decreases q@.len() - i,
    {
        if q[i].state == ProcessState::Running {
            r = i;
            found = true;
        }
        i = i + 1;
    }
    proof {
        if found {
            assert(f(q@[r as int]));
            if let Some(k) = last_where(q@, f) {
                if k < r {
                    assert(!f(q@[r as int]));
                }
                if k > r {
                    assert(f(q@[k]));
                }
            }
        } else {
            if let Some(k) = last_where(q@, f) {
                assert(f(q@[k]));
            }
        }
    }
    r
}

/// Whether some process has the pid 1.
pub fn check_number_1_pid(q: &VecDeque<MyProcess>) -> (r: bool)
    ensures
        r == has_pid(q@, 1),
{
    let mut i: usize = 0;
    while i < q.len()
        invariant
            i <= q@.len(),
            forall|j: int| 0 <= j < i ==> q@[j].pid.0 != 1,
        decreases q@.len() - i,
    {
        if q[i].pid.0 == 1 {
            return true;
        }
        i = i + 1;
    }
    false
}

/// Puts `v` at index `i`.
pub fn set_at(q: &mut VecDeque<MyProcess>, i: usize, v: MyProcess)
    requires
        i < old(q)@.len(),
    ensures
        final(q)@ == old(q)@.update(i as int, v),
{
    q.remove(i);
    q.insert(i, v);
    assert(final(q)@ =~= old(q)@.update(i as int, v));
}

/// Exchanges the processes at `i` and `i + 1`.
pub fn swap_at(q: &mut VecDeque<MyProcess>, i: usize)
    requires
        i + 1 < old(q).len(),
    ensures
        final(q)@ == swap_next(old(q)@, i as int),
{
    let a = q[i];
    let b = q[i + 1];
    set_at(q, i, b);
    set_at(q, i + 1, a);
}

/// Adds one unit of total time to every process.
pub fn increment_timings(q: &mut VecDeque<MyProcess>)
    requires
        tick_ok(old(q)@),
    ensures
        final(q)@ == tick(old(q)@),
{
    let ghost s = q@;
    let mut i: usize = 0;
    while i < q.len()
        invariant
            i <= q@.len(),
            q@.len() == s.len(),
            tick_ok(s),
            forall|j: int| 0 <= j < i ==> q@[j] == add_total(s[j], 1),
            forall|j: int| i <= j < q@.len() ==> q@[j] == s[j],
        decreases q@.len() - i,
    {
        let mut p = q[i];
        p.timings.0 = p.timings.0 + 1;
        set_at(q, i, p);
        i = i + 1;
    }
    assert(q@ =~= tick(s));
}

/// The processes whose pid is not `pid`, in their order.
pub fn remove_pid(q: &VecDeque<MyProcess>, pid: Pid) -> (r: VecDeque<MyProcess>)
    ensures
        r@ == without_pid(q@, pid),
{
    let ghost f = |p: MyProcess| p.pid != pid;
    let mut r: VecDeque<MyProcess> = VecDeque::new();
    let mut i: usize = 0;
    while i < q.len()
        invariant
            i <= q@.len(),
            f == (|p: MyProcess| p.pid != pid),
            r@ == q@.take(i as int).filter(f),
        decreases q@.len() - i,
    {
        assert(q@.take(i + 1).drop_last() =~= q@.take(i as int));
        assert(q@.take(i + 1).last() == q@[i as int]);
        reveal(Seq::filter);
        assert(f(q@[i as int]) == (q@[i as int].pid != pid));
        assert(q@.take(i + 1).filter(f) == if f(q@[i as int]) {
            q@.take(i as int).filter(f).push(q@[i as int])
        } else {
            q@.take(i as int).filter(f)
        });
        if q[i].pid != pid {
            r.push_back(q[i]);
        }
        i = i + 1;
    }
    assert(q@.take(q@.len() as int) =~= q@);
    r
}

/// The number of ready and running processes.
pub fn sizeofprocesses(q: &VecDeque<MyProcess>) -> (r: usize)
    ensures
        r == active(q@).len(),
{
    let ghost f = |p: MyProcess| is_active(p);
    let mut r: usize = 0;
    let mut i: usize = 0;
    while i < q.len()
        invariant
            i <= q@.len(),
            f == (|p: MyProcess| is_active(p)),
            r == q@.take(i as int).filter(f).len(),
            r <= i,
        decreases q@.len() - i,
    {
        assert(q@.take(i + 1).drop_last() =~= q@.take(i as int));
        assert(q@.take(i + 1).last() == q@[i as int]);
        reveal(Seq::filter);
        assert(f(q@[i as int]) == is_active(q@[i as int]));
        assert(q@.take(i + 1).filter(f) == if f(q@[i as int]) {
            q@.take(i as int).filter(f).push(q@[i as int])
        } else {
            q@.take(i as int).filter(f)
        });
        let p = q[i];
        if p.state == ProcessState::Ready || p.state == ProcessState::Running {
            r = r + 1;
        }
        i = i + 1;
    }
    assert(q@.take(q@.len() as int) =~= q@);
    r
}

/// The smallest virtual run time of an active process (see `min_vmrun`).
pub fn find_smallest_vm_run(q: &VecDeque<MyProcess>) -> (r: usize)
    ensures
        r == min_vmrun(q@),
{
    let mut m: usize = 100000000;
    let mut i: usize = 0;
    while i < q.len()
        invariant
            i <= q@.len(),
            m == min_vmrun(q@.take(i as int)),
        decreases q@.len() - i,
    {
        assert(q@.take(i + 1).drop_last() =~= q@.take(i as int));
        let p = q[i];
        if p.vmrun < m && (p.state == ProcessState::Ready || p.state == ProcessState::Running) {
            m = p.vmrun;
        }
        i = i + 1;
    }
    assert(q@.take(q@.len() as int) =~= q@);
    m
}

/// The process with the smallest virtual run time other than `pid` (see
/// `select_min`); where no other process is active, a fresh process with
/// pid 100, which need not be queued.
pub fn select_smallest_vm_run(q: &VecDeque<MyProcess>, pid: Pid) -> (r: MyProcess)
    ensures
        r == select_min(q@, pid).1,
{
    let mut m: usize = 100000000;
    let mut r = MyProcess::new(100);
    let mut i: usize = 0;
    while i < q.len()
        invariant
            i <= q@.len(),
            (m, r) == select_min(q@.take(i as int), pid),
        decreases q@.len() - i,
    {
        assert(q@.take(i + 1).drop_last() =~= q@.take(i as int));
        let p = q[i];
        if p.vmrun < m && pid != p.pid && (p.state == ProcessState::Ready || p.state
            == ProcessState::Running) {
            m = p.vmrun;
            r = p;
        }
        i = i + 1;
    }
    assert(q@.take(q@.len() as int) =~= q@);
    r
}

/// The processes of `v` inserted one by one, each before the first process
/// of greater pid.
fn sort_vec_by_pid(v: &Vec<MyProcess>) -> (r: Vec<MyProcess>)
    ensures
        r@ == sort_by_pid(v@),
{
    let mut r: Vec<MyProcess> = Vec::new();
    let mut k: usize = 0;
    while k < v.len()
        invariant
            k <= v@.len(),
            r@ == sort_by_pid(v@.take(k as int)),
        decreases v@.len() - k,
    {
        let p = v[k];
        let mut j: usize = 0;
        while j < r.len() && !(p.pid.0 < r[j].pid.0)
            invariant
                j <= r@.len(),
                forall|i: int| 0 <= i < j ==> (#[trigger] r@[i]).pid.0 <= p.pid.0,
            decreases r@.len() - j,
        {
            j = j + 1;
        }
        proof {
            lemma_insert_by_pid_at(r@, p, j as int);
            let t = v@.take(k as int + 1);
            assert(t.drop_last() =~= v@.take(k as int));
            assert(t.last() == p);
        }
        r.insert(j, p);
        k = k + 1;
    }
    assert(v@.take(v@.len() as int) =~= v@);
    r
}

/// Sorts the processes waiting for `event` by pid: they are taken out, sorted
/// and put back, in order, at the places where waiting processes stood.
pub fn sort_waiting_by_pid(q: &mut VecDeque<MyProcess>, event: usize)
    ensures
        final(q)@ == sort_waiting(old(q)@, event),
{
    let ghost s = q@;
    let ghost fw = |p: MyProcess| waits_for(p, event);
    let w = ProcessState::Waiting { event: Some(event) };
    let mut ws: Vec<MyProcess> = Vec::new();
    let mut i: usize = 0;
    while i < q.len()
        invariant
            q@ == s,
            i <= s.len(),
            w == (ProcessState::Waiting { event: Some(event) }),
            fw == (|p: MyProcess| waits_for(p, event)),
            ws@ == waiters(s.take(i as int), event),
        decreases s.len() - i,
    {
        proof {
            assert(s.take(i as int + 1) =~= s.take(i as int).push(s[i as int]));
            s.take(i as int).lemma_filter_push(s[i as int], fw);
        }
        if q[i].state == w {
            ws.push(q[i]);
        }
        i = i + 1;
    }
    proof {
        assert(s.take(s.len() as int) =~= s);
    }
    let sorted = sort_vec_by_pid(&ws);
    proof {
        lemma_sort_by_pid(ws@);
    }
    let mut c: usize = 0;
    i = 0;
    proof {
        assert(s.skip(0) =~= s);
        assert(sorted@.skip(0) =~= sorted@);
        assert(q@.take(0) + fill_waiting(s, event, sorted@) =~= fill_waiting(s, event, sorted@));
    }
    while i < q.len()
        invariant
            q@.len() == s.len(),
            i <= s.len(),
            w == (ProcessState::Waiting { event: Some(event) }),
            fw == (|p: MyProcess| waits_for(p, event)),
            sorted@.len() == waiters(s, event).len(),
            c + waiters(s.skip(i as int), event).len() == sorted@.len(),
            q@.skip(i as int) == s.skip(i as int),
            q@.take(i as int) + fill_waiting(s.skip(i as int), event, sorted@.skip(c as int))
                == fill_waiting(s, event, sorted@),
        decreases s.len() - i,
    {
        let ghost k = i as int;
        let ghost rest = s.skip(k);
        proof {
            assert(rest =~= seq![s[k]] + s.skip(k + 1));
            s.skip(k + 1).lemma_filter_prepend(s[k], fw);
            assert(rest.drop_first() =~= s.skip(k + 1));
            assert(q@[k] == s[k]);
        }
        if q[i].state == w {
            proof {
                assert(sorted@.skip(c as int).drop_first() =~= sorted@.skip(c as int + 1));
            }
            let p = sorted[c];
            set_at(q, i, p);
            c = c + 1;
        }
        i = i + 1;
        proof {
            assert(q@.skip(i as int) =~= s.skip(i as int));
            assert(q@.take(i as int) =~= q@.take(k).push(q@[k]));
        }
    }
    proof {
        assert(q@.take(s.len() as int) =~= q@);
        assert(s.skip(s.len() as int) =~= Seq::<MyProcess>::empty());
    }
}

/// A copy of the queue.
pub fn copy_queue(q: &VecDeque<MyProcess>) -> (r: VecDeque<MyProcess>)
    ensures
        r@ == q@,
{
    let mut r: VecDeque<MyProcess> = VecDeque::new();
    let mut i: usize = 0;
    while i < q.len()
        invariant
            i <= q@.len(),
            r@ == q@.take(i as int),
        decreases q@.len() - i,
    {
        r.push_back(q[i]);
        i = i + 1;
        assert(r@ =~= q@.take(i as int));
    }
    assert(q@.take(q@.len() as int) =~= q@);
    r
}

/// The processes of the queue in a `Vec`, front first.
pub fn queue_to_vec(q: &VecDeque<MyProcess>) -> (r: Vec<MyProcess>)
    ensures
        r@ == q@,
{
    let mut r: Vec<MyProcess> = Vec::new();
    let mut i: usize = 0;
    while i < q.len()
        invariant
            i <= q@.len(),
            r@ == q@.take(i as int),
        decreases q@.len() - i,
    {
        r.push(q[i]);
        i = i + 1;
        assert(r@ =~= q@.take(i as int));
    }
    assert(q@.take(q@.len() as int) =~= q@);
    r
}

/// `s` where the processes with pid `pid` run; with `only_ready`, only those
/// of them that are ready.
pub open spec fn marked_running(s: Seq<MyProcess>, pid: Pid, only_ready: bool) -> Seq<MyProcess> {
    s.map_values(
        |p: MyProcess|
            if p.pid == pid && (!only_ready || p.state == ProcessState::Ready) {
                with_state(p, ProcessState::Running)
            } else {
                p
            },
    )
}

/// `s` after `d` units of time pass: every process gets `d` more total time,
/// and a sleeping one `d` less time to sleep.
pub open spec fn elapse(s: Seq<MyProcess>, d: int) -> Seq<MyProcess> {
    s.map_values(
        |p: MyProcess|
            add_total(
                if p.state == asleep() {
                    MyProcess { sleep_time: (p.sleep_time - d) as usize, ..p }
                } else {
                    p
                },
                d,
            ),
    )
}

/// Whether `elapse(s, d)` stays within the range of `usize`.
pub open spec fn elapse_ok(s: Seq<MyProcess>, d: int) -> bool {
    forall|i: int|
        0 <= i < s.len() ==> (#[trigger] s[i]).timings.0 + d <= usize::MAX && (s[i].state
            == asleep() ==> s[i].sleep_time >= d)
}

/// `s` where the processes asleep with no time left to sleep are ready.
pub open spec fn wake_done(s: Seq<MyProcess>) -> Seq<MyProcess> {
    s.map_values(
        |p: MyProcess|
            if p.sleep_time == 0 && p.state == asleep() {
                with_state(p, ProcessState::Ready)
            } else {
                p
            },
    )
}

/// Lets the processes with pid `pid` run (see `marked_running`).
pub fn mark_running(q: &mut VecDeque<MyProcess>, pid: Pid, only_ready: bool)
    ensures
        final(q)@ == marked_running(old(q)@, pid, only_ready),
{
    let ghost s = q@;
    let mut i: usize = 0;
    while i < q.len()
        invariant
            i <= q@.len(),
            q@.len() == s.len(),
            forall|j: int| 0 <= j < i ==> q@[j] == marked_running(s, pid, only_ready)[j],
            forall|j: int| i <= j < q@.len() ==> q@[j] == s[j],
        decreases q@.len() - i,
    {
        let mut p = q[i];
        if p.pid == pid && (!only_ready || p.state == ProcessState::Ready) {
            p.state = ProcessState::Running;
            set_at(q, i, p);
        }
        i = i + 1;
    }
    assert(q@ =~= marked_running(s, pid, only_ready));
}

/// Lets `d` units of time pass (see `elapse`).
pub fn elapse_all(q: &mut VecDeque<MyProcess>, d: usize)
    requires
        elapse_ok(old(q)@, d as int),
    ensures
        final(q)@ == elapse(old(q)@, d as int),
{
    let ghost s = q@;
    let mut i: usize = 0;
    while i < q.len()
        invariant
            i <= q@.len(),
            q@.len() == s.len(),
            elapse_ok(s, d as int),
            forall|j: int| 0 <= j < i ==> q@[j] == elapse(s, d as int)[j],
            forall|j: int| i <= j < q@.len() ==> q@[j] == s[j],
        decreases q@.len() - i,
    {
        let mut p = q[i];
        assert(p == s[i as int]);
        if p.state == (ProcessState::Waiting { event: None }) {
            p.sleep_time = p.sleep_time - d;
        }
        p.timings.0 = p.timings.0 + d;
        set_at(q, i, p);
        i = i + 1;
    }
    assert(q@ =~= elapse(s, d as int));
}

/// Makes ready the processes that are done sleeping (see `wake_done`).
pub fn wake_finished(q: &mut VecDeque<MyProcess>)
    ensures
        final(q)@ == wake_done(old(q)@),
{
    let ghost s = q@;
    let mut i: usize = 0;
    while i < q.len()
        invariant
            i <= q@.len(),
            q@.len() == s.len(),
            forall|j: int| 0 <= j < i ==> q@[j] == wake_done(s)[j],
            forall|j: int| i <= j < q@.len() ==> q@[j] == s[j],
        decreases q@.len() - i,
    {
        let mut p = q[i];
        if p.sleep_time == 0 && p.state == (ProcessState::Waiting { event: None }) {
            p.state = ProcessState::Ready;
            set_at(q, i, p);
        }
        i = i + 1;
    }
    assert(q@ =~= wake_done(s));
}

/// The processes that are not running, in their order.
pub fn remove_running(q: &VecDeque<MyProcess>) -> (r: VecDeque<MyProcess>)
    ensures
        r@ == q@.filter(|p: MyProcess| p.state != ProcessState::Running),
{
    let ghost f = |p: MyProcess| p.state != ProcessState::Running;
    let mut r: VecDeque<MyProcess> = VecDeque::new();
    let mut i: usize = 0;
    while i < q.len()
        invariant
            i <= q@.len(),
            f == (|p: MyProcess| p.state != ProcessState::Running),
            r@ == q@.take(i as int).filter(f),
        decreases q@.len() - i,
    {
        assert(q@.take(i + 1).drop_last() =~= q@.take(i as int));
        assert(q@.take(i + 1).last() == q@[i as int]);
        reveal(Seq::filter);
        assert(f(q@[i as int]) == (q@[i as int].state != ProcessState::Running));
        assert(q@.take(i + 1).filter(f) == if f(q@[i as int]) {
            q@.take(i as int).filter(f).push(q@[i as int])
        } else {
            q@.take(i as int).filter(f)
        });
        if q[i].state != ProcessState::Running {
            r.push_back(q[i]);
        }
        i = i + 1;
    }
    assert(q@.take(q@.len() as int) =~= q@);
    r
}

/// Whether every total time can take one more unit (see `tick_ok`).
pub fn tick_check(q: &VecDeque<MyProcess>) -> (r: bool)
    ensures
        r == tick_ok(q@),
{
    let mut i: usize = 0;
    while i < q.len()
        invariant
            i <= q@.len(),
            forall|j: int| 0 <= j < i ==> (#[trigger] q@[j]).timings.0 < usize::MAX,
        decreases q@.len() - i,
    {
        if q[i].timings.0 == usize::MAX {
            assert(!tick_ok(q@)) by {
                assert(q@[i as int].timings.0 == usize::MAX);
            }
            return false;
        }
        i = i + 1;
    }
    true
}

/// Whether letting `d` units pass stays within the range of `usize` (see `elapse_ok`).
pub fn elapse_check(q: &VecDeque<MyProcess>, d: usize) -> (r: bool)
    ensures
        r == elapse_ok(q@, d as int),
{
    let mut i: usize = 0;
    while i < q.len()
        invariant
            i <= q@.len(),
            forall|j: int|
                0 <= j < i ==> (#[trigger] q@[j]).timings.0 + d <= usize::MAX && (q@[j].state
                    == asleep() ==> q@[j].sleep_time >= d),
        decreases q@.len() - i,
    {
        let p = q[i];
        if p.timings.0 > usize::MAX - d || (p.state == (ProcessState::Waiting { event: None })
            && p.sleep_time < d) {
            assert(!elapse_ok(q@, d as int)) by {
                assert(q@[i as int] == p);
            }
            return false;
        }
        i = i + 1;
    }
    true
}

} // verus!
