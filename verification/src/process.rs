//! The values that schedulers exchange with the code that runs processes.
use vstd::prelude::*;

verus! {

/// A process identifier.
#[derive(Clone, Copy, Debug, PartialEq, Eq, Structural)]
pub struct Pid(pub usize);

impl Pid {
    pub fn new(pid: usize) -> (r: Pid)
        ensures
            r.0 == pid,
    {
        Pid(pid)
    }

    pub fn as_usize(&self) -> (r: usize)
        ensures
            r == self.0,
    {
        self.0
    }
}

/// The state of a process.
#[derive(Clone, Copy, Debug, PartialEq, Eq, Structural)]
pub enum ProcessState {
    Ready,
    Running,
    Waiting { event: Option<usize> },
}

/// A positive number of time units.
#[derive(Clone, Copy, Debug, PartialEq, Eq)]
pub struct NonZeroUsize {
    value: usize,
}

impl NonZeroUsize {
    #[verifier::type_invariant]
    spec fn positive(self) -> bool {
        self.value > 0
    }

    pub closed spec fn view(self) -> usize {
        self.value
    }

    /// `Some` exactly when `n` is not zero.
    pub fn new(n: usize) -> (r: Option<NonZeroUsize>)
        ensures
            r is Some <==> n > 0,
            r matches Some(v) ==> v@ == n,
    {
        if n > 0 {
            Some(NonZeroUsize { value: n })
        } else {
            None
        }
    }

    pub fn get(&self) -> (r: usize)
        ensures
            r == self@,
            r > 0,
    {
        proof {
            use_type_invariant(self);
        }
        self.value
    }
}

/// The calls a running process can make into the scheduler.
#[derive(Clone, Copy, Debug, PartialEq, Eq, Structural)]
pub enum Syscall {
    /// Create a new process with the given priority.
    Fork(i8),
    /// Sleep for the given number of time units.
    Sleep(usize),
    /// Wait for the given event.
    Wait(usize),
    /// Signal the given event.
    Signal(usize),
    /// Terminate the calling process.
    Exit,
}

/// Why the running process stopped.
#[derive(Clone, Copy, Debug, PartialEq, Eq, Structural)]
pub enum StopReason {
    /// The process made a system call, with `remaining` time units left of its time slice.
    Syscall { syscall: Syscall, remaining: usize },
    /// The time slice ran out.
    Expired,
}

/// What the scheduler answers to a stopped process.
#[derive(Clone, Copy, Debug, PartialEq, Eq, Structural)]
pub enum SyscallResult {
    Pid(Pid),
    Success,
    NoRunningProcess,
}

/// What the scheduler decides to do next.
#[derive(Clone, Copy, Debug, PartialEq, Eq)]
pub enum SchedulingDecision {
    /// Run the process `pid` for `timeslice` time units.
    Run { pid: Pid, timeslice: NonZeroUsize },
    /// Let the processor sleep.
    Sleep(NonZeroUsize),
    /// No process can ever run again.
    Deadlock,
    /// The process with pid 1 has gone.
    Panic,
    /// No process is left.
    Done,
}

/// The mathematical value of a `SchedulingDecision`, with the time spans as numbers.
pub enum Decision {
    Run { pid: Pid, timeslice: usize },
    Sleep(usize),
    Deadlock,
    Panic,
    Done,
}

impl SchedulingDecision {
    pub open spec fn view(self) -> Decision {
        match self {
            SchedulingDecision::Run { pid, timeslice } => Decision::Run { pid, timeslice: timeslice@ },
            SchedulingDecision::Sleep(t) => Decision::Sleep(t@),
            SchedulingDecision::Deadlock => Decision::Deadlock,
            SchedulingDecision::Panic => Decision::Panic,
            SchedulingDecision::Done => Decision::Done,
        }
    }
}

/// A process as a scheduler keeps it.
#[derive(Clone, Copy, Debug)]
pub struct MyProcess {
    pub pid: Pid,
    pub state: ProcessState,
    /// Total time, number of system calls, time spent running.
    pub timings: (usize, usize, usize),
    pub priority: i8,
    /// Time units left to sleep.
    pub sleep_time: usize,
    pub is_sleeping: bool,
    /// The event last waited for.
    pub event_number: usize,
    /// Virtual run time, as the fair scheduler counts it.
    pub vmrun: usize,
    /// Whether the extra text shows the virtual run time.
    pub shows_vruntime: bool,
}

/// The decimal digits of `n`.
pub open spec fn decimal(n: nat) -> Seq<char>
    decreases n,
{
    if n < 10 {
        seq![digit(n)]
    } else {
        decimal(n / 10).push(digit(n % 10))
    }
}

pub open spec fn digit(d: nat) -> char {
    (48 + d) as char
}

/// The text of the digit `d`.
fn digit_text(d: usize) -> (r: &'static str)
    requires
        d < 10,
    ensures
        r@ == seq![digit(d as nat)],
{
    proof {
        reveal_strlit("0");
        reveal_strlit("1");
        reveal_strlit("2");
        reveal_strlit("3");
        reveal_strlit("4");
        reveal_strlit("5");
        reveal_strlit("6");
        reveal_strlit("7");
        reveal_strlit("8");
        reveal_strlit("9");
    }
    match d {
        0 => "0",
        1 => "1",
        2 => "2",
        3 => "3",
        4 => "4",
        5 => "5",
        6 => "6",
        7 => "7",
        8 => "8",
        _ => "9",
    }
}

/// Appends the decimal digits of `n` to `text`.
fn push_decimal(text: &mut String, n: usize)
    ensures
        final(text)@ == old(text)@ + decimal(n as nat),
    decreases n,
{
    if n >= 10 {
        push_decimal(text, n / 10);
    }
    text.append(digit_text(n % 10));
    proof {
        assert(n >= 10 ==> decimal(n as nat) == decimal((n / 10) as nat).push(digit((n % 10) as nat)));
    }
}

impl MyProcess {
    /// A fresh process: ready, with every counter at zero.
    pub open spec fn fresh(pid: usize) -> MyProcess {
        MyProcess {
            pid: Pid(pid),
            state: ProcessState::Ready,
            timings: (0, 0, 0),
            priority: 0,
            sleep_time: 0,
            is_sleeping: false,
            event_number: 0,
            vmrun: 0,
            shows_vruntime: false,
        }
    }

    pub fn new(pid: usize) -> (r: MyProcess)
        ensures
            r == MyProcess::fresh(pid),
    {
        MyProcess {
            pid: Pid(pid),
            state: ProcessState::Ready,
            timings: (0, 0, 0),
            priority: 0,
            sleep_time: 0,
            is_sleeping: false,
            event_number: 0,
            vmrun: 0,
            shows_vruntime: false,
        }
    }

    pub fn pid(&self) -> (r: Pid)
        ensures
            r == self.pid,
    {
        self.pid
    }

    pub fn state(&self) -> (r: ProcessState)
        ensures
            r == self.state,
    {
        self.state
    }

    pub fn timings(&self) -> (r: (usize, usize, usize))
        ensures
            r == self.timings,
    {
        self.timings
    }

    pub fn priority(&self) -> (r: i8)
        ensures
            r == self.priority,
    {
        self.priority
    }

    pub fn sleep_time(&self) -> (r: usize)
        ensures
            r == self.sleep_time,
    {
        self.sleep_time
    }

    /// The extra text a scheduler attaches to the process.
    pub open spec fn extra_text(self) -> Seq<char> {
        if self.shows_vruntime {
            "vruntime="@ + decimal(self.vmrun as nat)
        } else {
            Seq::empty()
        }
    }

    pub fn extra(&self) -> (r: String)
        ensures
            r@ == self.extra_text(),
    {
        if self.shows_vruntime {
            let mut text = String::from_str("vruntime=");
            push_decimal(&mut text, self.vmrun);
            text
        } else {
            String::new()
        }
    }
}

} // verus!
