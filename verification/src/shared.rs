//! The state that both schedulers keep, and the part of `next` that they share.
use vstd::prelude::*;
use std::collections::VecDeque;
use crate::process::{Decision, MyProcess, NonZeroUsize, ProcessState, SchedulingDecision};
use crate::queue::{
    add_total, asleep, check_number_1_pid, find_state, first_in_state, first_where, has_pid,
    in_state, lemma_first_where, remove_pid, with_state, without_pid,
};

verus! {

broadcast use vstd::std_specs::vecdeque::group_vec_dequeue_axioms;

/// A process that waits for an event has that event as the one it last
/// waited for.
pub open spec fn wait_matches(p: MyProcess) -> bool {
    match p.state {
        ProcessState::Waiting { event: Some(e) } => p.event_number == e,
        _ => true,
    }
}

/// Every process of `s` waits, if at all, for the event it last waited for.
pub open spec fn waits_match(s: Seq<MyProcess>) -> bool {
    forall|i: int| 0 <= i < s.len() ==> wait_matches(#[trigger] s[i])
}

/// The mathematical value of a scheduler.
pub struct SchedState {
    /// The run queue, front first.
    pub procs: Seq<MyProcess>,
    /// The process that the first fork created.
    pub running: MyProcess,
    /// The time slice handed out now.
    pub timeslice: usize,
    /// The time slice the scheduler was made with.
    pub initial_timeslice: usize,
    /// The pid the next fork gives.
    pub next_pid: usize,
    /// The least time a process must have left to keep running.
    pub min_remaining: usize,
    /// Bookkeeping of the time left in the current round.
    pub remaining_time: usize,
}

impl SchedState {
    pub open spec fn with_procs(self, procs: Seq<MyProcess>) -> SchedState {
        SchedState { procs, ..self }
    }

    pub open spec fn with_timeslice(self, timeslice: usize) -> SchedState {
        SchedState { timeslice, ..self }
    }

    pub open spec fn with_next(self, next_pid: usize) -> SchedState {
        SchedState { next_pid, ..self }
    }

    /// The initial time slice where it is positive, the current one otherwise.
    pub open spec fn reset_timeslice(self) -> usize {
        if self.initial_timeslice > 0 {
            self.initial_timeslice
        } else {
            self.timeslice
        }
    }

    /// Whether the state is one the schedulers keep: the initial time slice
    /// is positive, and every process waits, if at all, for the event it
    /// last waited for.
    pub open spec fn well_formed(self) -> bool {
        &&& self.initial_timeslice > 0
        &&& waits_match(self.procs)
    }

    /// The state of a scheduler made with the time slice `timeslice`.
    pub open spec fn initial(timeslice: usize, min_remaining: usize) -> SchedState {
        SchedState {
            procs: Seq::empty(),
            running: MyProcess::fresh(1),
            timeslice,
            initial_timeslice: timeslice,
            next_pid: 1,
            min_remaining,
            remaining_time: timeslice,
        }
    }
}

/// The decision `next` takes without touching the run queue: `Done` for an
/// empty queue, `Panic` where no process has pid 1, and `Deadlock` where no
/// process is ready, running or asleep.
pub open spec fn early_decision(s: Seq<MyProcess>) -> Option<Decision> {
    if s.len() == 0 {
        Some(Decision::Done)
    } else if !has_pid(s, 1) {
        Some(Decision::Panic)
    } else if first_in_state(s, ProcessState::Ready) is None && first_in_state(
        s,
        ProcessState::Running,
    ) is None && first_in_state(s, asleep()) is None {
        Some(Decision::Deadlock)
    } else {
        None
    }
}

/// `q` turned so that it starts after index `k`, with the process at `k`,
/// now running, put in front.
pub open spec fn rotate_to(q: Seq<MyProcess>, k: int) -> Seq<MyProcess> {
    seq![with_state(q[k], ProcessState::Running)] + q.subrange(k + 1, q.len() as int) + q.subrange(
        0,
        k,
    )
}

/// `p` no longer marked as sleeping.
pub open spec fn awake(p: MyProcess) -> MyProcess {
    MyProcess { is_sleeping: false, ..p }
}

/// The state `p` keeps when it gives way to a ready process: it stays waiting
/// for a time or for the event it last waited for, and becomes ready otherwise.
pub open spec fn yielded(p: MyProcess) -> MyProcess {
    if p.state != asleep() && p.state != (ProcessState::Waiting { event: Some(p.event_number) }) {
        with_state(p, ProcessState::Ready)
    } else {
        p
    }
}

/// What `next` does once it has taken `p` off the front of the queue and `p`
/// had nothing left to sleep; `s.procs` is the rest of the queue.
///
/// One case does what a reader may not expect: where `p` is neither running
/// nor ready, nothing else is ready or running, and the first sleeper has no
/// time left to sleep, that sleeper is queued twice, once at the front and
/// once, running, at the back, and the answer runs `p`, which may itself
/// wait for an event.
pub open spec fn dispatch(s: SchedState, p: MyProcess) -> (SchedState, Decision) {
    let rest = s.procs;
    if s.timeslice >= s.min_remaining && p.state == ProcessState::Running {
        (s.with_procs(seq![p] + rest), Decision::Run { pid: p.pid, timeslice: s.timeslice })
    } else if p.state == ProcessState::Ready {
        (
            s.with_procs(rest.push(with_state(p, ProcessState::Running))),
            Decision::Run { pid: p.pid, timeslice: s.timeslice },
        )
    } else if first_in_state(rest, ProcessState::Ready) is None {
        let q = seq![p] + rest;
        match first_in_state(q, ProcessState::Running) {
            Some(r) => (
                s.with_procs(seq![r] + without_pid(q, r.pid)).with_timeslice(s.reset_timeslice()),
                Decision::Run { pid: r.pid, timeslice: s.reset_timeslice() },
            ),
            None => match first_in_state(q, asleep()) {
                Some(z) => {
                    let others = without_pid(q, z.pid);
                    if z.sleep_time > 0 {
                        (
                            s.with_procs(seq![awake(z)] + others).with_timeslice(z.sleep_time),
                            Decision::Sleep(z.sleep_time),
                        )
                    } else {
                        (
                            s.with_procs(
                                (seq![awake(z)] + others).push(
                                    with_state(awake(z), ProcessState::Running),
                                ),
                            ),
                            Decision::Run { pid: p.pid, timeslice: s.timeslice },
                        )
                    }
                },
                None => (s.with_procs(q), Decision::Deadlock),
            },
        }
    } else {
        let q = rest.push(yielded(p));
        if first_in_state(rest, ProcessState::Running) is None {
            let k = first_where(q, in_state(ProcessState::Ready)).unwrap();
            (
                s.with_procs(rotate_to(q, k)).with_timeslice(s.reset_timeslice()),
                Decision::Run { pid: q[k].pid, timeslice: s.reset_timeslice() },
            )
        } else {
            (
                s.with_procs(q).with_timeslice(s.reset_timeslice()),
                Decision::Run {
                    pid: first_in_state(q, ProcessState::Running).unwrap().pid,
                    timeslice: s.reset_timeslice(),
                },
            )
        }
    }
}

/// `p` woken from a sleep of `p.sleep_time` units: the time is added to its
/// total, and it runs.
pub open spec fn woken(p: MyProcess) -> MyProcess {
    MyProcess {
        sleep_time: 0,
        state: ProcessState::Running,
        ..add_total(p, p.sleep_time as int)
    }
}

/// Whether the process in front wakes up from a sleep when `next` takes it.
pub open spec fn wakes(p: MyProcess) -> bool {
    !p.is_sleeping && p.sleep_time != 0
}

/// The state both schedulers keep.
pub(crate) struct Core {
    pub(crate) processes: VecDeque<MyProcess>,
    pub(crate) running_process: MyProcess,
    pub(crate) timeslice: NonZeroUsize,
    pub(crate) initial_timeslice: usize,
    pub(crate) next_pid: usize,
    pub(crate) minimum_remaining_timeslice: usize,
    pub(crate) remaining_time: usize,
}

impl Core {
    pub(crate) open spec fn view(&self) -> SchedState {
        SchedState {
            procs: self.processes@,
            running: self.running_process,
            timeslice: self.timeslice@,
            initial_timeslice: self.initial_timeslice,
            next_pid: self.next_pid,
            min_remaining: self.minimum_remaining_timeslice,
            remaining_time: self.remaining_time,
        }
    }

    pub(crate) fn new(timeslice: NonZeroUsize, minimum_remaining_timeslice: usize) -> (r: Core)
        ensures
            r@ == SchedState::initial(timeslice@, minimum_remaining_timeslice),
            timeslice@ > 0,
    {
        Core {
            processes: VecDeque::new(),
            timeslice,
            running_process: MyProcess::new(1),
            next_pid: 1,
            minimum_remaining_timeslice,
            remaining_time: timeslice.get(),
            initial_timeslice: timeslice.get(),
        }
    }

    /// Sets the time slice to the initial one, where that is positive.
    pub(crate) fn reset_timeslice(&mut self)
        ensures
            final(self)@ == old(self)@.with_timeslice(old(self)@.reset_timeslice()),
    {
        if self.initial_timeslice > 0 {
            self.timeslice = NonZeroUsize::new(self.initial_timeslice).unwrap();
        }
    }

    /// The decision that needs no change of the queue (see `early_decision`).
    pub(crate) fn early_decision(&self) -> (r: Option<SchedulingDecision>)
        ensures
            match r {
                Some(d) => early_decision(self@.procs) == Some(d@),
                None => early_decision(self@.procs) is None,
            },
    {
        let size = self.processes.len();
        let is_pid_1_valid = check_number_1_pid(&self.processes);
        if size == 0 {
            return Some(SchedulingDecision::Done);
        }
        if !is_pid_1_valid {
            return Some(SchedulingDecision::Panic);
        }
        if find_state(&self.processes, ProcessState::Ready).is_none() && find_state(
            &self.processes,
            ProcessState::Running,
        ).is_none() && find_state(&self.processes, ProcessState::Waiting { event: None }).is_none()
            && self.processes.len() != 0 {
            return Some(SchedulingDecision::Deadlock);
        }
        None
    }

    /// Takes the front process off the queue and lets the process at the
    /// first ready index run.
    fn rotate_to_ready(&mut self, p: MyProcess) -> (r: SchedulingDecision)
        requires
            first_in_state(old(self)@.procs, ProcessState::Ready) is Some,
        ensures
            ({
                let q = old(self)@.procs.push(p);
                let k = first_where(q, in_state(ProcessState::Ready)).unwrap();
                &&& final(self)@ == old(self)@.with_procs(rotate_to(q, k)).with_timeslice(
                    old(self)@.reset_timeslice(),
                )
                &&& r@ == Decision::Run { pid: q[k].pid, timeslice: old(self)@.reset_timeslice() }
            }),
    {
        let ghost s0 = self@;
        let ghost rest = self.processes@;
        let ghost q = rest.push(p);
        proof {
            lemma_first_where(rest, in_state(ProcessState::Ready));
            lemma_first_where(q, in_state(ProcessState::Ready));
            let k = first_where(rest, in_state(ProcessState::Ready)).unwrap();
            assert(q[k] == rest[k]);
            if let Some(k2) = first_where(q, in_state(ProcessState::Ready)) {
                if k2 < k {
                    assert(q[k2] == rest[k2]);
                }
                if k2 > k {
                    assert(in_state(ProcessState::Ready)(q[k]));
                }
            }
        }
        let ghost k = first_where(q, in_state(ProcessState::Ready)).unwrap();
        let mut process2 = self.processes.pop_front().unwrap();
        self.processes.push_back(p);
        let ghost mut m: int = 0;
        while process2.state != ProcessState::Ready
            invariant
                0 <= m <= k,
                k < rest.len(),
                q == rest.push(p),
                q.len() == rest.len() + 1,
                q[k].state == ProcessState::Ready,
                forall|j: int| 0 <= j < k ==> !in_state(ProcessState::Ready)(#[trigger] q[j]),
                process2 == q[m],
                self@ == s0.with_procs(self.processes@),
                self.processes@ == q.subrange(m + 1, q.len() as int) + q.subrange(0, m),
            decreases k - m,
        {
            proof {
                if m == k {
                    assert(false);
                }
                assert(!in_state(ProcessState::Ready)(q[m]));
            }
            self.processes.push_back(process2);
            assert(self.processes@[0] == q[m + 1]);
            process2 = self.processes.pop_front().unwrap();
            proof {
                assert(self.processes@ =~= q.subrange(m + 2, q.len() as int) + q.subrange(0, m + 1));
                m = m + 1;
            }
        }
        assert(m == k);
        self.reset_timeslice();
        process2.state = ProcessState::Running;
        self.processes.push_front(process2);
        assert(self.processes@ =~= rotate_to(q, k));
        SchedulingDecision::Run { pid: process2.pid, timeslice: self.timeslice }
    }

    /// The rest of `next` once `p` is off the front of the queue and had no
    /// sleep left to wake from (see `dispatch`).
    pub(crate) fn dispatch(&mut self, p: MyProcess) -> (r: SchedulingDecision)
        ensures
            final(self)@ == dispatch(old(self)@, p).0,
            r@ == dispatch(old(self)@, p).1,
    {
        let mut process = p;
        let pide = process.pid;
        if self.timeslice.get() >= self.minimum_remaining_timeslice && process.state
            == ProcessState::Running {
            self.processes.push_front(process);
            return SchedulingDecision::Run { pid: pide, timeslice: self.timeslice };
        }
        let process_pid = process.pid;
        if process.state == ProcessState::Ready {
            process.state = ProcessState::Running;
            self.processes.push_back(process);
        } else if find_state(&self.processes, ProcessState::Ready).is_none() {
            self.processes.push_front(process);
            if let Some(mut r) = find_state(&self.processes, ProcessState::Running) {
                proof {
                    lemma_first_where(self.processes@, in_state(ProcessState::Running));
                }
                r.state = ProcessState::Running;
                assert(r == first_in_state(self.processes@, ProcessState::Running).unwrap());
                self.reset_timeslice();
                let mut element = remove_pid(&self.processes, r.pid);
                element.push_front(r);
                self.processes = element;
                return SchedulingDecision::Run { pid: r.pid, timeslice: self.timeslice };
            }
            if let Some(mut z) = find_state(&self.processes, ProcessState::Waiting { event: None }) {
                proof {
                    lemma_first_where(self.processes@, in_state(asleep()));
                }
                let value = remove_pid(&self.processes, z.pid);
                self.processes = value;
                if z.state == (ProcessState::Waiting { event: None }) {
                    if z.sleep_time > 0 {
                        self.timeslice = NonZeroUsize::new(z.sleep_time).unwrap();
                    }
                    z.is_sleeping = false;
                    self.processes.push_front(z);
                    if z.sleep_time > 0 {
                        return SchedulingDecision::Sleep(NonZeroUsize::new(z.sleep_time).unwrap());
                    }
                }
                z.state = ProcessState::Running;
                self.processes.push_back(z);
            } else {
                return SchedulingDecision::Deadlock;
            }
        } else {
            if process.state != (ProcessState::Waiting { event: None }) && process.state != (
            ProcessState::Waiting { event: Some(process.event_number) }) {
                process.state = ProcessState::Ready;
            }
            if find_state(&self.processes, ProcessState::Running).is_none() {
                return self.rotate_to_ready(process);
            } else {
                proof {
                    lemma_first_where(self.processes@, in_state(ProcessState::Running));
                    lemma_first_where(self.processes@.push(process), in_state(ProcessState::Running));
                    let i = first_where(self.processes@, in_state(ProcessState::Running)).unwrap();
                    assert(in_state(ProcessState::Running)(self.processes@.push(process)[i]));
                }
                self.processes.push_back(process);
                let r = find_state(&self.processes, ProcessState::Running).unwrap();
                self.reset_timeslice();
                return SchedulingDecision::Run { pid: r.pid, timeslice: self.timeslice };
            }
        }
        SchedulingDecision::Run { pid: process_pid, timeslice: self.timeslice }
    }

}

} // verus!
