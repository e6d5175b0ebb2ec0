//! The pids a run queue holds, each counted as often as it occurs, and how
//! `next` keeps them.
use vstd::prelude::*;
use vstd::multiset::Multiset;
use crate::process::{MyProcess, ProcessState};
use crate::queue::{
    asleep, first_in_state, first_where, in_state, insert_index, lemma_first_where,
    lemma_insert_by_pid_at, lemma_insert_index, lemma_sort_by_pid, lemma_sort_waiting,
    sort_by_pid, sort_waiting, waiters, waits_for, with_state, without_pid,
};
use crate::shared::{SchedState, dispatch, rotate_to};
use crate::round_robin::{
    lemma_rr_synced_len, not_signalled, rr_next, rr_signal, rr_step_as, rr_synced, rr_synced_upto,
    signalled,
};
use crate::cfs::{cfs_next, cfs_signal, cfs_signalled, cfs_synced};

verus! {

/// The pids of `s`, in order.
pub open spec fn pid_list(s: Seq<MyProcess>) -> Seq<usize> {
    s.map_values(|p: MyProcess| p.pid.0)
}

/// The pids of `s`, each as often as it occurs.
pub open spec fn pid_bag(s: Seq<MyProcess>) -> Multiset<usize> {
    pid_list(s).to_multiset()
}

/// No two processes of `s` share a pid.
pub open spec fn distinct_pids(s: Seq<MyProcess>) -> bool {
    forall|i: int, j: int|
        0 <= i < s.len() && 0 <= j < s.len() && i != j ==> (#[trigger] s[i]).pid != (#[trigger] s[j]).pid
}

proof fn lemma_bag_same_pids(a: Seq<MyProcess>, b: Seq<MyProcess>)
    requires
        a.len() == b.len(),
        forall|i: int| 0 <= i < a.len() ==> (#[trigger] a[i]).pid == b[i].pid,
    ensures
        pid_bag(a) == pid_bag(b),
{
    assert(pid_list(a) =~= pid_list(b));
}

proof fn lemma_bag_add(a: Seq<MyProcess>, b: Seq<MyProcess>)
    ensures
        pid_bag(a + b) == pid_bag(a).add(pid_bag(b)),
{
    assert(pid_list(a + b) =~= pid_list(a) + pid_list(b));
    vstd::seq_lib::lemma_multiset_commutative(pid_list(a), pid_list(b));
}

proof fn lemma_bag_push(a: Seq<MyProcess>, x: MyProcess)
    ensures
        pid_bag(a.push(x)) == pid_bag(a).insert(x.pid.0),
{
    assert(pid_list(a.push(x)) =~= pid_list(a).push(x.pid.0));
    vstd::seq_lib::to_multiset_build(pid_list(a), x.pid.0);
}

/// Exchanging two neighbours, each possibly changed but for its pid, keeps
/// the pids.
proof fn lemma_bag_swap(s: Seq<MyProcess>, k: int, a: MyProcess, b: MyProcess)
    requires
        0 <= k,
        k + 1 < s.len(),
        a.pid == s[k + 1].pid,
        b.pid == s[k].pid,
    ensures
        pid_bag(s.update(k, a).update(k + 1, b)) == pid_bag(s),
{
    broadcast use vstd::multiset::group_multiset_axioms;
    let l = pid_list(s);
    let x = l[k];
    let y = l[k + 1];
    let l1 = l.update(k, y);
    assert(pid_list(s.update(k, a).update(k + 1, b)) =~= l1.update(k + 1, x));
    vstd::seq_lib::to_multiset_update(l, k, y);
    vstd::seq_lib::to_multiset_update(l1, k + 1, x);
    vstd::seq_lib::to_multiset_contains(l, x);
    vstd::seq_lib::to_multiset_contains(l, y);
    assert(l.contains(x));
    assert(l.contains(y));
    assert(l.to_multiset().insert(y).remove(x).insert(x).remove(y) =~= l.to_multiset());
}

/// One step of the round-robin time update keeps the pids.
proof fn lemma_rr_step_bag(sp: MyProcess, cur: Seq<MyProcess>, ts: usize, k: int)
    requires
        0 <= k < cur.len(),
    ensures
        pid_bag(rr_step_as(sp, cur, ts, k)) == pid_bag(cur),
        rr_step_as(sp, cur, ts, k).len() == cur.len(),
{
    let c = cur[k];
    let t = rr_step_as(sp, cur, ts, k);
    if sp.state == crate::process::ProcessState::Running || !(sp.state == crate::queue::asleep()
        && ts >= sp.sleep_time && k + 1 < cur.len()) {
        assert forall|i: int| 0 <= i < t.len() implies (#[trigger] t[i]).pid == cur[i].pid by {}
        lemma_bag_same_pids(t, cur);
    } else {
        lemma_bag_swap(
            cur,
            k,
            crate::queue::add_total(cur[k + 1], ts as int),
            crate::round_robin::ready_now(c),
        );
    }
}

/// The round-robin time update keeps the pids.
proof fn lemma_rr_synced_bag(snap: Seq<MyProcess>, ts: usize, k: int)
    requires
        0 <= k <= snap.len(),
    ensures
        pid_bag(rr_synced_upto(snap, ts, k)) == pid_bag(snap),
    decreases k,
{
    if k > 0 {
        lemma_rr_synced_bag(snap, ts, k - 1);
        lemma_rr_synced_len(snap, ts, k - 1);
        lemma_rr_step_bag(snap[k - 1], rr_synced_upto(snap, ts, k - 1), ts, k - 1);
    }
}

/// Leaving out the processes with pid `x` leaves out every count of `x`
/// and keeps every other pid.
proof fn lemma_bag_without(q: Seq<MyProcess>, x: crate::process::Pid)
    ensures
        forall|y: usize|
            #[trigger] pid_bag(without_pid(q, x)).count(y) == if y == x.0 {
                0
            } else {
                pid_bag(q).count(y)
            },
    decreases q.len(),
{
    broadcast use vstd::multiset::group_multiset_axioms;
    broadcast use vstd::seq_lib::group_to_multiset_ensures;
    let f = |p: MyProcess| p.pid != x;
    if q.len() == 0 {
        assert(without_pid(q, x) =~= Seq::<MyProcess>::empty()) by {
            reveal(Seq::filter);
        }
        assert(q =~= Seq::<MyProcess>::empty());
        lemma_bag_empty();
    } else {
        let q0 = q.drop_last();
        let e = q.last();
        lemma_bag_without(q0, x);
        assert(q0.push(e) =~= q);
        q0.lemma_filter_push(e, f);
        lemma_bag_push(q0, e);
        if e.pid != x {
            lemma_bag_push(without_pid(q0, x), e);
            assert(e.pid.0 != x.0);
        }
        assert forall|y: usize| #[trigger] pid_bag(without_pid(q, x)).count(y) == if y == x.0 {
            0
        } else {
            pid_bag(q).count(y)
        } by {
            assert(pid_bag(without_pid(q0, x)).count(y) == if y == x.0 {
                0
            } else {
                pid_bag(q0).count(y)
            });
        }
    }
}

proof fn lemma_bag_empty()
    ensures
        pid_bag(Seq::<MyProcess>::empty()) == Multiset::<usize>::empty(),
{
    broadcast use vstd::multiset::group_multiset_axioms;
    broadcast use vstd::seq_lib::group_to_multiset_ensures;
    let l = pid_list(Seq::<MyProcess>::empty());
    assert(l =~= Seq::<usize>::empty());
    assert forall|a: usize| !l.contains(a) by {}
    assert(l.to_multiset() =~= Multiset::<usize>::empty());
}

/// The count of the pid of `q[j]` is one where pids are distinct.
proof fn lemma_bag_count_one(q: Seq<MyProcess>, j: int)
    requires
        distinct_pids(q),
        0 <= j < q.len(),
    ensures
        pid_bag(q).count(q[j].pid.0) == 1,
{
    let l = pid_list(q);
    assert(l.no_duplicates()) by {
        assert forall|a: int, b: int| 0 <= a < l.len() && 0 <= b < l.len() && a != b implies l[a]
            != l[b] by {
            assert(q[a].pid != q[b].pid);
        }
    }
    l.lemma_multiset_has_no_duplicates();
    assert(l[j] == q[j].pid.0);
    assert(l.contains(q[j].pid.0));
    vstd::seq_lib::to_multiset_contains(l, q[j].pid.0);
}

/// Putting a process with the pid of `q[j]` in front of the processes of
/// `q` with other pids keeps the pids, where pids are distinct.
proof fn lemma_bag_front(q: Seq<MyProcess>, j: int, r: MyProcess)
    requires
        distinct_pids(q),
        0 <= j < q.len(),
        r.pid == q[j].pid,
    ensures
        pid_bag(seq![r] + without_pid(q, r.pid)) == pid_bag(q),
{
    broadcast use vstd::multiset::group_multiset_axioms;
    lemma_bag_count_one(q, j);
    lemma_bag_without(q, r.pid);
    lemma_bag_add(seq![r], without_pid(q, r.pid));
    lemma_bag_push(Seq::<MyProcess>::empty(), r);
    assert(Seq::<MyProcess>::empty().push(r) =~= seq![r]);
    lemma_bag_empty();
    assert(pid_bag(seq![r] + without_pid(q, r.pid)) =~= pid_bag(q));
}

/// Pids distinct as a bag are distinct in the queue.
proof fn lemma_bag_distinct(a: Seq<MyProcess>, b: Seq<MyProcess>)
    requires
        distinct_pids(b),
        pid_bag(a) == pid_bag(b),
    ensures
        distinct_pids(a),
{
    let lb = pid_list(b);
    let la = pid_list(a);
    assert(lb.no_duplicates()) by {
        assert forall|x: int, y: int| 0 <= x < lb.len() && 0 <= y < lb.len() && x != y implies lb[x]
            != lb[y] by {
            assert(b[x].pid != b[y].pid);
        }
    }
    lb.lemma_multiset_has_no_duplicates();
    la.lemma_multiset_has_no_duplicates_conv();
    assert forall|i: int, j: int| 0 <= i < a.len() && 0 <= j < a.len() && i != j implies (#[trigger] a[i]).pid
        != (#[trigger] a[j]).pid by {
        assert(la[i] == a[i].pid.0);
        assert(la[j] == a[j].pid.0);
    }
}

proof fn lemma_bag_single(r: MyProcess, t: MyProcess)
    requires
        r.pid == t.pid,
    ensures
        pid_bag(seq![r]) == pid_bag(seq![t]),
{
    lemma_bag_same_pids(seq![r], seq![t]);
}

/// Moving the process at `k` to the front, possibly changed but for its
/// pid, and the processes before it to the back, keeps the pids.
proof fn lemma_bag_rotate(q: Seq<MyProcess>, k: int)
    requires
        0 <= k < q.len(),
    ensures
        pid_bag(rotate_to(q, k)) == pid_bag(q),
{
    broadcast use vstd::multiset::group_multiset_axioms;
    let a = q.subrange(0, k);
    let b = q.subrange(k + 1, q.len() as int);
    let x = seq![q[k]];
    let y = seq![with_state(q[k], ProcessState::Running)];
    assert(q =~= a + (x + b));
    assert(rotate_to(q, k) =~= (y + b) + a);
    lemma_bag_add(a, x + b);
    lemma_bag_add(x, b);
    lemma_bag_add(y + b, a);
    lemma_bag_add(y, b);
    lemma_bag_single(with_state(q[k], ProcessState::Running), q[k]);
    assert(pid_bag(rotate_to(q, k)) =~= pid_bag(q));
}

/// Whether `next`, with the front process `p` off the queue, finds no
/// process ready or running and a first sleeper with no time left to sleep:
/// it then queues that sleeper twice.
pub open spec fn requeues_sleeper(s: SchedState, p: MyProcess) -> bool {
    let q = seq![p] + s.procs;
    &&& !(s.timeslice >= s.min_remaining && p.state == ProcessState::Running)
    &&& p.state != ProcessState::Ready
    &&& first_in_state(s.procs, ProcessState::Ready) is None
    &&& first_in_state(q, ProcessState::Running) is None
    &&& first_in_state(q, asleep()) matches Some(z) && z.sleep_time == 0
}

proof fn lemma_dispatch_bag(s: SchedState, p: MyProcess)
    requires
        distinct_pids(seq![p] + s.procs),
        !requeues_sleeper(s, p),
    ensures
        pid_bag(dispatch(s, p).0.procs) == pid_bag(seq![p] + s.procs),
{
    broadcast use vstd::multiset::group_multiset_axioms;
    let rest = s.procs;
    let q = seq![p] + rest;
    let q1 = rest.push(crate::shared::yielded(p));
    lemma_bag_add(seq![p], rest);
    lemma_bag_push(rest, crate::shared::yielded(p));
    lemma_bag_push(Seq::<MyProcess>::empty(), p);
    assert(Seq::<MyProcess>::empty().push(p) =~= seq![p]);
    lemma_bag_empty();
    assert(pid_bag(q1) =~= pid_bag(q));
    lemma_first_where(q, in_state(ProcessState::Running));
    lemma_first_where(q, in_state(asleep()));
    lemma_first_where(q1, in_state(ProcessState::Ready));
    let after = dispatch(s, p).0.procs;
    if s.timeslice >= s.min_remaining && p.state == ProcessState::Running {
    } else if p.state == ProcessState::Ready {
        lemma_bag_push(rest, with_state(p, ProcessState::Running));
        assert(pid_bag(after) =~= pid_bag(q));
    } else if first_in_state(rest, ProcessState::Ready) is None {
        if let Some(r) = first_in_state(q, ProcessState::Running) {
            let j = first_where(q, in_state(ProcessState::Running)).unwrap();
            lemma_bag_front(q, j, r);
        } else if let Some(z) = first_in_state(q, asleep()) {
            let j = first_where(q, in_state(asleep())).unwrap();
            lemma_bag_front(q, j, crate::shared::awake(z));
            assert(without_pid(q, crate::shared::awake(z).pid) == without_pid(q, z.pid));
        }
    } else {
        if first_in_state(rest, ProcessState::Running) is None {
            lemma_first_where(rest, in_state(ProcessState::Ready));
            let r = first_where(rest, in_state(ProcessState::Ready)).unwrap();
            assert(q1[r] == rest[r]);
            assert(in_state(ProcessState::Ready)(q1[r]));
            let k = first_where(q1, in_state(ProcessState::Ready)).unwrap();
            lemma_bag_rotate(q1, k);
        }
    }
}

/// `next` keeps every pid of the queue, each as often as it occurred, so
/// pids that were distinct stay distinct, but where the front process is
/// off the queue, nothing is ready or running and the first sleeper has no
/// time left to sleep: the sleeper is then queued twice.
pub proof fn law_next_keeps_pids(s: SchedState)
    requires
        distinct_pids(s.procs),
        s.procs.len() > 0 ==> !requeues_sleeper(s.with_procs(s.procs.drop_first()), s.procs[0]),
    ensures
        pid_bag(rr_next(s).0.procs) == pid_bag(s.procs),
        pid_bag(cfs_next(s).0.procs) == pid_bag(s.procs),
        distinct_pids(rr_next(s).0.procs),
        distinct_pids(cfs_next(s).0.procs),
{
    if s.procs.len() > 0 {
        let p = s.procs[0];
        let t = s.procs.drop_first();
        assert(seq![p] + t =~= s.procs);
        lemma_bag_add(seq![p], t);
        lemma_rr_synced_bag(t, p.sleep_time, t.len() as int);
        let w = seq![crate::shared::woken(p)];
        lemma_bag_single(crate::shared::woken(p), p);
        lemma_bag_add(w, rr_synced(t, p.sleep_time));
        let ct = cfs_synced(t, p.sleep_time as int);
        assert forall|i: int| 0 <= i < ct.len() implies (#[trigger] ct[i]).pid == t[i].pid by {}
        lemma_bag_same_pids(ct, t);
        lemma_bag_add(w, ct);
        lemma_dispatch_bag(s.with_procs(t), p);
    }
    lemma_bag_distinct(rr_next(s).0.procs, s.procs);
    lemma_bag_distinct(cfs_next(s).0.procs, s.procs);
}

/// Sorting by pid keeps the pids.
proof fn lemma_sort_by_pid_bag(w: Seq<MyProcess>)
    ensures
        pid_bag(sort_by_pid(w)) == pid_bag(w),
    decreases w.len(),
{
    if w.len() > 0 {
        let w0 = w.drop_last();
        let p = w.last();
        let t0 = sort_by_pid(w0);
        lemma_sort_by_pid_bag(w0);
        lemma_sort_by_pid(w0);
        lemma_insert_index(t0, p);
        let j = insert_index(t0, p);
        lemma_insert_by_pid_at(t0, p, j);
        assert(pid_list(t0.insert(j, p)) =~= pid_list(t0).insert(j, p.pid.0));
        vstd::seq_lib::to_multiset_insert(pid_list(t0), j, p.pid.0);
        assert(w0.push(p) =~= w);
        lemma_bag_push(w0, p);
    }
}

/// Sorting the waiting processes keeps the pids.
proof fn lemma_sort_waiting_bag(s: Seq<MyProcess>, event: usize)
    ensures
        pid_bag(sort_waiting(s, event)) == pid_bag(s),
{
    lemma_sort_waiting(s, event);
    lemma_sort_by_pid_bag(waiters(s, event));
    lemma_bag_split(s, event);
    lemma_bag_split(sort_waiting(s, event), event);
}

/// The processes that wait for `event` and the others hold, together, the
/// pids of `q`.
proof fn lemma_bag_split(q: Seq<MyProcess>, event: usize)
    ensures
        pid_bag(q.filter(|p: MyProcess| !waits_for(p, event))).add(
            pid_bag(q.filter(|p: MyProcess| waits_for(p, event))),
        ) == pid_bag(q),
    decreases q.len(),
{
    broadcast use vstd::multiset::group_multiset_axioms;
    let w = |p: MyProcess| waits_for(p, event);
    let nw = |p: MyProcess| !waits_for(p, event);
    if q.len() == 0 {
        assert(q.filter(w) =~= q) by {
            reveal(Seq::filter);
        }
        assert(q.filter(nw) =~= q) by {
            reveal(Seq::filter);
        }
        assert(q =~= Seq::<MyProcess>::empty());
        lemma_bag_empty();
        assert(pid_bag(q).add(pid_bag(q)) =~= pid_bag(q));
    } else {
        let q0 = q.drop_last();
        let e = q.last();
        lemma_bag_split(q0, event);
        assert(q0.push(e) =~= q);
        q0.lemma_filter_push(e, w);
        q0.lemma_filter_push(e, nw);
        lemma_bag_push(q0, e);
        lemma_bag_push(q0.filter(w), e);
        lemma_bag_push(q0.filter(nw), e);
        assert(pid_bag(q.filter(nw)).add(pid_bag(q.filter(w))) =~= pid_bag(q));
    }
}

/// A signal keeps every pid of the queue, each as often as it occurred.
pub proof fn law_signal_keeps_pids(s: SchedState, event: usize, remaining: usize)
    ensures
        pid_bag(rr_signal(s, event, remaining).0.procs) == pid_bag(s.procs),
        pid_bag(cfs_signal(s, event, remaining).0.procs) == pid_bag(s.procs),
{
    broadcast use vstd::multiset::group_multiset_axioms;
    let q = sort_waiting(s.procs, event);
    let d = s.timeslice - remaining;
    lemma_sort_waiting_bag(s.procs, event);
    lemma_sort_waiting(s.procs, event);
    let c = cfs_signal(s, event, remaining).0.procs;
    assert forall|i: int| 0 <= i < c.len() implies (#[trigger] c[i]).pid == q[i].pid by {
        assert(c[i] == cfs_signalled(q[i], event, d));
    }
    lemma_bag_same_pids(c, q);
    let w = |p: MyProcess| waits_for(p, event);
    let nw = |p: MyProcess| !waits_for(p, event);
    let ns = not_signalled(q, event, d);
    let sg = signalled(q, event, d);
    lemma_bag_same_pids(ns, q.filter(nw));
    lemma_bag_same_pids(sg, q.filter(w));
    lemma_bag_split(q, event);
    let q2 = ns + sg;
    lemma_bag_add(ns, sg);
    assert(pid_bag(q2) == pid_bag(s.procs));
    if q2.len() > 1 {
        let q3 = q2.drop_first().push(with_state(q2[0], ProcessState::Ready));
        let q4 = seq![with_state(q3[0], ProcessState::Running)] + q3.drop_first();
        assert(q2 =~= seq![q2[0]] + q2.drop_first());
        lemma_bag_add(seq![q2[0]], q2.drop_first());
        lemma_bag_push(q2.drop_first(), with_state(q2[0], ProcessState::Ready));
        lemma_bag_push(Seq::<MyProcess>::empty(), q2[0]);
        assert(Seq::<MyProcess>::empty().push(q2[0]) =~= seq![q2[0]]);
        lemma_bag_empty();
        assert(pid_bag(q3) =~= pid_bag(q2));
        assert(q3 =~= seq![q3[0]] + q3.drop_first());
        lemma_bag_add(seq![q3[0]], q3.drop_first());
        lemma_bag_add(seq![with_state(q3[0], ProcessState::Running)], q3.drop_first());
        lemma_bag_single(with_state(q3[0], ProcessState::Running), q3[0]);
        assert(pid_bag(q4) =~= pid_bag(q2));
    }
}

} // verus!
