use lib::{
    Cfs, MyProcess, NonZeroUsize, Pid, ProcessState, RoundRobin, SchedulingDecision, StopReason,
    Syscall, SyscallResult,
};

fn nz(n: usize) -> NonZeroUsize {
    NonZeroUsize::new(n).unwrap()
}

fn call(syscall: Syscall, remaining: usize) -> StopReason {
    StopReason::Syscall { syscall, remaining }
}

fn run(pid: usize, timeslice: usize) -> SchedulingDecision {
    SchedulingDecision::Run { pid: Pid(pid), timeslice: nz(timeslice) }
}

fn waiting(event: usize) -> ProcessState {
    ProcessState::Waiting { event: Some(event) }
}

#[test]
fn non_zero_rejects_zero() {
    assert!(NonZeroUsize::new(0).is_none());
    assert_eq!(nz(7).get(), 7);
}

#[test]
fn rr_empty_is_done() {
    let mut rr = RoundRobin::new(nz(5), 1);
    assert_eq!(rr.next(), SchedulingDecision::Done);
    assert!(rr.list().is_empty());
}

#[test]
fn cfs_empty_is_done() {
    let mut cfs = Cfs::new(nz(5), 1);
    assert_eq!(cfs.next(), SchedulingDecision::Done);
}

#[test]
fn rr_first_fork_gives_pid_one() {
    let mut rr = RoundRobin::new(nz(5), 1);
    assert_eq!(rr.stop(call(Syscall::Fork(3), 0)), SyscallResult::Pid(Pid(1)));
    let l = rr.list();
    assert_eq!(l.len(), 1);
    assert_eq!(l[0].pid(), Pid(1));
    assert_eq!(l[0].state(), ProcessState::Ready);
    assert_eq!(l[0].priority(), 3);
    assert_eq!(rr.next(), run(1, 5));
    assert_eq!(rr.list()[0].state(), ProcessState::Running);
}

#[test]
fn rr_fork_then_expire_rotates() {
    let mut rr = RoundRobin::new(nz(5), 1);
    rr.stop(call(Syscall::Fork(0), 0));
    assert_eq!(rr.next(), run(1, 5));
    assert_eq!(rr.stop(call(Syscall::Fork(0), 3)), SyscallResult::Pid(Pid(2)));
    let l = rr.list();
    assert_eq!(l.len(), 2);
    assert_eq!(l[0].timings(), (2, 1, 1));
    assert_eq!(l[0].state(), ProcessState::Running);
    assert_eq!(l[1].pid(), Pid(2));
    assert_eq!(l[1].state(), ProcessState::Ready);
    assert_eq!(rr.next(), run(1, 3));
    assert_eq!(rr.stop(StopReason::Expired), SyscallResult::Success);
    let l = rr.list();
    assert_eq!(l[0].pid(), Pid(2));
    assert_eq!(l[0].state(), ProcessState::Running);
    assert_eq!(l[0].timings(), (3, 0, 0));
    assert_eq!(l[1].pid(), Pid(1));
    assert_eq!(l[1].state(), ProcessState::Ready);
    assert_eq!(l[1].timings(), (5, 1, 4));
    assert_eq!(rr.next(), run(2, 5));
}

#[test]
fn rr_wait_then_signal() {
    let mut rr = RoundRobin::new(nz(5), 1);
    rr.stop(call(Syscall::Fork(0), 0));
    rr.next();
    rr.stop(call(Syscall::Fork(0), 2));
    assert_eq!(rr.stop(call(Syscall::Wait(7), 1)), SyscallResult::Success);
    let l = rr.list();
    assert_eq!(l[0].pid(), Pid(2));
    assert_eq!(l[0].state(), ProcessState::Running);
    assert_eq!(l[0].timings(), (1, 0, 0));
    assert_eq!(l[1].pid(), Pid(1));
    assert_eq!(l[1].state(), waiting(7));
    assert_eq!(l[1].timings(), (4, 2, 2));
    assert_eq!(rr.stop(call(Syscall::Signal(7), 3)), SyscallResult::Success);
    let l = rr.list();
    assert_eq!(l[0].pid(), Pid(2));
    assert_eq!(l[0].timings(), (3, 1, 1));
    assert_eq!(l[1].pid(), Pid(1));
    assert_eq!(l[1].state(), ProcessState::Ready);
    assert_eq!(l[1].timings(), (6, 2, 2));
    assert_eq!(rr.next(), run(2, 3));
}

#[test]
fn rr_sleep_then_wake() {
    let mut rr = RoundRobin::new(nz(5), 1);
    rr.stop(call(Syscall::Fork(0), 0));
    rr.next();
    assert_eq!(rr.stop(call(Syscall::Sleep(4), 2)), SyscallResult::Success);
    let l = rr.list();
    assert_eq!(l[0].state(), ProcessState::Waiting { event: None });
    assert_eq!(l[0].sleep_time(), 4);
    assert_eq!(l[0].timings(), (3, 1, 2));
    assert_eq!(rr.next(), SchedulingDecision::Sleep(nz(4)));
    assert_eq!(rr.next(), run(1, 5));
    assert_eq!(rr.list()[0].timings(), (7, 1, 2));
    assert_eq!(rr.stop(call(Syscall::Exit, 0)), SyscallResult::Success);
    assert_eq!(rr.next(), SchedulingDecision::Done);
}

#[test]
fn rr_wait_alone_is_deadlock() {
    let mut rr = RoundRobin::new(nz(5), 1);
    rr.stop(call(Syscall::Fork(0), 0));
    rr.next();
    rr.stop(call(Syscall::Wait(3), 0));
    let l = rr.list();
    assert_eq!(l[0].state(), waiting(3));
    assert_eq!(l[0].timings(), (5, 1, 4));
    assert_eq!(rr.next(), SchedulingDecision::Deadlock);
}

#[test]
fn rr_exit_of_init_panics() {
    let mut rr = RoundRobin::new(nz(5), 1);
    rr.stop(call(Syscall::Fork(0), 0));
    rr.next();
    rr.stop(call(Syscall::Fork(0), 1));
    assert_eq!(rr.stop(call(Syscall::Exit, 0)), SyscallResult::Success);
    let l = rr.list();
    assert_eq!(l.len(), 1);
    assert_eq!(l[0].pid(), Pid(2));
    assert_eq!(l[0].timings(), (1, 0, 0));
    assert_eq!(rr.next(), SchedulingDecision::Panic);
}

#[test]
fn rr_expire_with_no_process_queues_a_fresh_one() {
    let mut rr = RoundRobin::new(nz(5), 1);
    assert_eq!(rr.stop(StopReason::Expired), SyscallResult::Pid(Pid(1)));
    assert_eq!(rr.list().len(), 1);
    assert_eq!(rr.stop(call(Syscall::Fork(0), 0)), SyscallResult::Pid(Pid(1)));
    assert_eq!(rr.list().len(), 2);
}

#[test]
fn rr_extra_is_empty() {
    let mut rr = RoundRobin::new(nz(5), 1);
    rr.stop(call(Syscall::Fork(0), 0));
    assert_eq!(rr.list()[0].extra(), "");
}

#[test]
fn cfs_first_fork_shows_vruntime() {
    let mut cfs = Cfs::new(nz(10), 1);
    assert_eq!(cfs.stop(call(Syscall::Fork(0), 0)), SyscallResult::Pid(Pid(1)));
    let l = cfs.list();
    assert_eq!(l[0].extra(), "vruntime=0");
    assert_eq!(cfs.next(), run(1, 10));
}

#[test]
fn cfs_expire_runs_least_vruntime() {
    let mut cfs = Cfs::new(nz(10), 1);
    cfs.stop(call(Syscall::Fork(0), 0));
    cfs.next();
    assert_eq!(cfs.stop(call(Syscall::Fork(0), 5)), SyscallResult::Pid(Pid(2)));
    let l = cfs.list();
    assert_eq!(l[0].timings(), (1, 1, 0));
    assert_eq!(l[0].vmrun, 1);
    assert_eq!(l[1].vmrun, 1);
    assert_eq!(l[1].extra(), "vruntime=1");
    assert_eq!(cfs.next(), run(1, 5));
    assert_eq!(cfs.stop(StopReason::Expired), SyscallResult::Success);
    let l = cfs.list();
    assert_eq!(l[0].pid(), Pid(1));
    assert_eq!(l[0].state(), ProcessState::Ready);
    assert_eq!(l[0].timings(), (6, 1, 5));
    assert_eq!(l[0].extra(), "vruntime=6");
    assert_eq!(l[1].pid(), Pid(2));
    assert_eq!(l[1].state(), ProcessState::Running);
    assert_eq!(l[1].timings(), (5, 0, 0));
    assert_eq!(cfs.next(), run(2, 5));
}

#[test]
fn cfs_sleep_counts_time() {
    let mut cfs = Cfs::new(nz(10), 1);
    cfs.stop(call(Syscall::Fork(0), 0));
    cfs.next();
    assert_eq!(cfs.stop(call(Syscall::Sleep(3), 6)), SyscallResult::Success);
    let l = cfs.list();
    assert_eq!(l[0].state(), ProcessState::Waiting { event: None });
    assert_eq!(l[0].sleep_time(), 3);
    assert_eq!(l[0].vmrun, 4);
    assert_eq!(l[0].timings(), (4, 1, 3));
    assert_eq!(cfs.next(), SchedulingDecision::Sleep(nz(3)));
    assert_eq!(cfs.next(), run(1, 10));
}

#[test]
fn cfs_wait_and_signal() {
    let mut cfs = Cfs::new(nz(10), 1);
    cfs.stop(call(Syscall::Fork(0), 0));
    cfs.next();
    cfs.stop(call(Syscall::Fork(0), 5));
    assert_eq!(cfs.stop(call(Syscall::Wait(9), 2)), SyscallResult::Success);
    let l = cfs.list();
    assert_eq!(l[0].pid(), Pid(2));
    assert_eq!(l[0].state(), ProcessState::Running);
    assert_eq!(l[1].pid(), Pid(1));
    assert_eq!(l[1].state(), waiting(9));
    assert_eq!(l[1].vmrun, 4);
    assert_eq!(l[1].timings(), (4, 2, 2));
    assert_eq!(cfs.stop(call(Syscall::Signal(9), 4)), SyscallResult::Success);
    let l = cfs.list();
    assert_eq!(l[0].pid(), Pid(2));
    assert_eq!(l[0].vmrun, 7);
    assert_eq!(l[0].timings(), (9, 1, 5));
    assert_eq!(l[1].state(), ProcessState::Ready);
    assert_eq!(l[1].timings(), (10, 2, 2));
    assert_eq!(cfs.next(), run(2, 5));
}

#[test]
fn cfs_exit_removes_running() {
    let mut cfs = Cfs::new(nz(10), 1);
    cfs.stop(call(Syscall::Fork(0), 0));
    cfs.next();
    cfs.stop(call(Syscall::Fork(0), 5));
    cfs.next();
    assert_eq!(cfs.stop(call(Syscall::Exit, 2)), SyscallResult::Success);
    let l = cfs.list();
    assert_eq!(l.len(), 1);
    assert_eq!(l[0].pid(), Pid(2));
    assert_eq!(cfs.next(), SchedulingDecision::Panic);
}

fn proc(pid: usize, state: ProcessState) -> MyProcess {
    let mut p = MyProcess::new(pid);
    p.state = state;
    p
}

#[test]
fn signal_sort_orders_waiters_across_others() {
    let mut q = std::collections::VecDeque::new();
    q.push_back(proc(3, waiting(7)));
    q.push_back(proc(1, waiting(7)));
    q.push_back(proc(5, ProcessState::Ready));
    q.push_back(proc(4, waiting(7)));
    q.push_back(proc(2, waiting(7)));
    q.push_back(proc(0, waiting(8)));
    lib::queue::sort_waiting_by_pid(&mut q, 7);
    let pids: Vec<usize> = q.iter().map(|p| p.pid.0).collect();
    assert_eq!(pids, vec![1, 2, 5, 3, 4, 0]);
    assert_eq!(q[2].state, ProcessState::Ready);
    assert_eq!(q[5].state, waiting(8));
}

#[test]
fn signal_sort_orders_waiters_apart() {
    let mut q = std::collections::VecDeque::new();
    q.push_back(proc(5, waiting(2)));
    q.push_back(proc(1, ProcessState::Running));
    q.push_back(proc(3, waiting(2)));
    lib::queue::sort_waiting_by_pid(&mut q, 2);
    let pids: Vec<usize> = q.iter().map(|p| p.pid.0).collect();
    assert_eq!(pids, vec![3, 1, 5]);
    assert_eq!(q[1].state, ProcessState::Running);
}

#[test]
fn signal_sort_keeps_order_of_equal_pids() {
    let mut q = std::collections::VecDeque::new();
    let mut a = proc(4, waiting(1));
    a.priority = 1;
    let mut b = proc(4, waiting(1));
    b.priority = 2;
    q.push_back(a);
    q.push_back(proc(2, ProcessState::Ready));
    q.push_back(b);
    q.push_back(proc(3, waiting(1)));
    lib::queue::sort_waiting_by_pid(&mut q, 1);
    let pids: Vec<usize> = q.iter().map(|p| p.pid.0).collect();
    assert_eq!(pids, vec![3, 2, 4, 4]);
    assert_eq!(q[2].priority, 1);
    assert_eq!(q[3].priority, 2);
}

#[test]
fn smallest_vruntime_skips_waiting_and_excluded() {
    let mut q = std::collections::VecDeque::new();
    let mut a = proc(1, ProcessState::Running);
    a.vmrun = 2;
    let mut b = proc(2, waiting(1));
    b.vmrun = 0;
    let mut c = proc(3, ProcessState::Ready);
    c.vmrun = 5;
    let mut d = proc(4, ProcessState::Ready);
    d.vmrun = 5;
    q.push_back(a);
    q.push_back(b);
    q.push_back(c);
    q.push_back(d);
    assert_eq!(lib::queue::find_smallest_vm_run(&q), 2);
    assert_eq!(lib::queue::select_smallest_vm_run(&q, Pid(1)).pid, Pid(3));
    let empty = std::collections::VecDeque::new();
    assert_eq!(lib::queue::find_smallest_vm_run(&empty), 100000000);
    assert_eq!(lib::queue::select_smallest_vm_run(&empty, Pid(1)).pid, Pid(100));
}

#[test]
fn cfs_refuses_calls_that_would_fail() {
    let cfs = Cfs::new(nz(10), 1);
    assert!(cfs.can_stop(StopReason::Expired));
    assert!(cfs.can_stop(call(Syscall::Wait(1), 0)));
    assert!(!cfs.can_stop(call(Syscall::Signal(1), 0)));
    assert!(!cfs.can_stop(call(Syscall::Exit, 0)));
    assert!(cfs.can_stop(call(Syscall::Fork(0), 0)));
    assert!(cfs.can_stop(call(Syscall::Sleep(3), 0)));
    assert!(cfs.can_next());
}

#[test]
fn cfs_expire_and_wait_on_empty_queue_change_nothing() {
    let mut cfs = Cfs::new(nz(10), 1);
    assert_eq!(cfs.stop(StopReason::Expired), SyscallResult::Success);
    assert!(cfs.list().is_empty());
    assert_eq!(cfs.stop(call(Syscall::Wait(4), 3)), SyscallResult::Success);
    assert!(cfs.list().is_empty());
    assert_eq!(cfs.next(), SchedulingDecision::Done);
}

#[test]
fn cfs_checks_running_process_before_exit() {
    let mut cfs = Cfs::new(nz(10), 1);
    cfs.stop(call(Syscall::Fork(0), 0));
    assert!(!cfs.can_stop(call(Syscall::Exit, 3)));
    cfs.next();
    assert!(cfs.can_stop(call(Syscall::Exit, 3)));
    assert!(!cfs.can_stop(call(Syscall::Exit, 11)));
    assert!(!cfs.can_stop(call(Syscall::Sleep(2), 10)));
    assert!(cfs.can_stop(call(Syscall::Sleep(2), 9)));
}

#[test]
fn rr_refuses_calls_that_would_fail() {
    let mut rr = RoundRobin::new(nz(5), 1);
    assert!(rr.can_stop(StopReason::Expired));
    assert!(rr.can_stop(call(Syscall::Fork(0), 9)));
    rr.stop(call(Syscall::Fork(0), 0));
    rr.next();
    assert!(!rr.can_stop(call(Syscall::Fork(0), 5)));
    assert!(rr.can_stop(call(Syscall::Fork(0), 4)));
    assert!(!rr.can_stop(call(Syscall::Sleep(1), 5)));
    assert!(!rr.can_stop(call(Syscall::Wait(1), 5)));
    assert!(!rr.can_stop(call(Syscall::Exit, 6)));
    assert!(rr.can_stop(call(Syscall::Exit, 5)));
    assert!(rr.can_next());
}

#[test]
fn rr_sleep_with_one_unit_slice_sleeps() {
    let mut rr = RoundRobin::new(nz(2), 1);
    assert_eq!(rr.stop(call(Syscall::Fork(0), 0)), SyscallResult::Pid(Pid(1)));
    assert_eq!(rr.next(), run(1, 2));
    assert_eq!(rr.stop(call(Syscall::Fork(0), 1)), SyscallResult::Pid(Pid(2)));
    assert_eq!(rr.next(), run(1, 1));
    assert!(rr.can_stop(call(Syscall::Sleep(5), 0)));
    assert_eq!(rr.stop(call(Syscall::Sleep(5), 0)), SyscallResult::Success);
    let l = rr.list();
    let p1 = l.iter().find(|p| p.pid() == Pid(1)).unwrap();
    assert_eq!(p1.state(), ProcessState::Waiting { event: None });
    assert_eq!(p1.sleep_time(), 5);
}

#[test]
fn rr_fork_without_time_left_queues_child() {
    let mut rr = RoundRobin::new(nz(5), 1);
    rr.stop(call(Syscall::Fork(0), 0));
    rr.next();
    assert_eq!(rr.stop(call(Syscall::Fork(4), 0)), SyscallResult::Pid(Pid(2)));
    let l = rr.list();
    assert_eq!(l.len(), 2);
    assert_eq!(l[0].pid(), Pid(1));
    assert_eq!(l[1].pid(), Pid(2));
    assert_eq!(l[1].state(), ProcessState::Ready);
    assert_eq!(l[1].priority(), 4);
    assert_eq!(rr.stop(call(Syscall::Fork(1), 0)), SyscallResult::Pid(Pid(3)));
    let l = rr.list();
    assert_eq!(l.len(), 3);
    assert_eq!(l[0].pid(), Pid(2));
    assert_eq!(l[0].state(), ProcessState::Running);
    assert_eq!(l[1].pid(), Pid(3));
    assert_eq!(l[1].priority(), 1);
    assert_eq!(l[2].pid(), Pid(1));
    assert_eq!(l[2].state(), ProcessState::Ready);
}

#[test]
fn rr_fork_on_empty_queue_queues_child() {
    let mut rr = RoundRobin::new(nz(5), 1);
    rr.stop(call(Syscall::Fork(0), 0));
    rr.next();
    rr.stop(call(Syscall::Exit, 2));
    assert!(rr.list().is_empty());
    assert_eq!(rr.stop(call(Syscall::Fork(0), 2)), SyscallResult::Pid(Pid(2)));
    assert_eq!(rr.list().len(), 1);
    assert_eq!(rr.list()[0].pid(), Pid(2));
}

#[test]
fn cfs_fork_without_time_left_queues_child() {
    let mut cfs = Cfs::new(nz(10), 1);
    cfs.stop(call(Syscall::Fork(0), 0));
    cfs.next();
    assert_eq!(cfs.stop(call(Syscall::Fork(6), 0)), SyscallResult::Pid(Pid(2)));
    let l = cfs.list();
    assert_eq!(l.len(), 2);
    assert_eq!(l[1].pid(), Pid(2));
    assert_eq!(l[1].state(), ProcessState::Ready);
    assert_eq!(l[1].priority(), 6);
}

#[test]
fn cfs_fork_with_zero_share_keeps_slice() {
    let mut cfs = Cfs::new(nz(2), 1);
    assert_eq!(cfs.stop(call(Syscall::Fork(0), 0)), SyscallResult::Pid(Pid(1)));
    assert_eq!(cfs.next(), run(1, 2));
    assert_eq!(cfs.stop(call(Syscall::Fork(0), 1)), SyscallResult::Pid(Pid(2)));
    assert_eq!(cfs.next(), run(1, 1));
    assert!(cfs.can_stop(call(Syscall::Fork(0), 0)));
    assert_eq!(cfs.stop(call(Syscall::Fork(0), 0)), SyscallResult::Pid(Pid(3)));
    let l = cfs.list();
    assert_eq!(l.len(), 3);
    assert!(l.iter().any(|p| p.pid() == Pid(3) && p.state() == ProcessState::Ready));
}

#[test]
fn rr_signal_keeps_running_process_running() {
    let mut rr = RoundRobin::new(nz(5), 1);
    rr.stop(call(Syscall::Fork(0), 0));
    rr.next();
    rr.stop(call(Syscall::Fork(0), 4));
    assert_eq!(rr.stop(call(Syscall::Signal(0), 3)), SyscallResult::Success);
    let l = rr.list();
    assert_eq!(l[0].pid(), Pid(1));
    assert_eq!(l[0].state(), ProcessState::Running);
    assert_eq!(l[1].pid(), Pid(2));
    assert_eq!(l[1].state(), ProcessState::Ready);
    assert_eq!(rr.next(), run(1, 3));
}

#[test]
fn cfs_signal_keeps_running_process_running() {
    let mut cfs = Cfs::new(nz(10), 1);
    cfs.stop(call(Syscall::Fork(0), 0));
    cfs.next();
    cfs.stop(call(Syscall::Fork(0), 8));
    assert_eq!(cfs.stop(call(Syscall::Signal(0), 6)), SyscallResult::Success);
    let l = cfs.list();
    assert_eq!(l[0].pid(), Pid(1));
    assert_eq!(l[0].state(), ProcessState::Running);
    assert_eq!(l[1].pid(), Pid(2));
    assert_eq!(l[1].state(), ProcessState::Ready);
}

#[test]
fn rr_signal_leaves_woken_waiter_alone() {
    let mut rr = RoundRobin::new(nz(5), 1);
    rr.stop(call(Syscall::Fork(0), 0));
    rr.next();
    rr.stop(call(Syscall::Fork(0), 2));
    rr.stop(call(Syscall::Wait(7), 1));
    rr.stop(call(Syscall::Signal(7), 3));
    assert_eq!(rr.next(), run(2, 3));
    assert_eq!(rr.stop(StopReason::Expired), SyscallResult::Success);
    assert_eq!(rr.next(), run(1, 5));
    assert_eq!(rr.list()[0].event_number, 7);
    assert_eq!(rr.stop(call(Syscall::Signal(7), 4)), SyscallResult::Success);
    let l = rr.list();
    assert_eq!(l[0].pid(), Pid(1));
    assert_eq!(l[0].state(), ProcessState::Running);
}

#[test]
fn rr_two_forks_give_consecutive_pids() {
    let mut rr = RoundRobin::new(nz(5), 1);
    assert_eq!(rr.stop(call(Syscall::Fork(0), 0)), SyscallResult::Pid(Pid(1)));
    rr.next();
    assert_eq!(rr.stop(call(Syscall::Fork(0), 2)), SyscallResult::Pid(Pid(2)));
    assert_eq!(rr.stop(call(Syscall::Fork(0), 1)), SyscallResult::Pid(Pid(3)));
}

#[test]
fn rr_time_update_passes_share_of_woken_process() {
    let mut q = std::collections::VecDeque::new();
    let mut a = proc(1, ProcessState::Waiting { event: None });
    a.sleep_time = 1;
    let b = proc(2, ProcessState::Ready);
    q.push_back(a);
    q.push_back(b);
    lib::round_robin::syncronize_timings(&mut q, 2);
    assert_eq!(q[0].pid, Pid(2));
    assert_eq!(q[0].timings, (2, 0, 0));
    assert_eq!(q[1].pid, Pid(1));
    assert_eq!(q[1].state, ProcessState::Ready);
    assert_eq!(q[1].sleep_time, 0);
    assert_eq!(q[1].timings, (2, 0, 0));
}

#[test]
fn cfs_time_update_counts_vruntime() {
    let mut q = std::collections::VecDeque::new();
    let mut a = proc(1, ProcessState::Running);
    a.vmrun = 3;
    let mut b = proc(2, ProcessState::Waiting { event: None });
    b.sleep_time = 5;
    q.push_back(a);
    q.push_back(b);
    lib::cfs::syncronize_timings(&mut q, 2);
    assert_eq!(q[0].timings, (2, 0, 2));
    assert_eq!(q[0].vmrun, 5);
    assert_eq!(q[0].extra(), "vruntime=5");
    assert_eq!(q[1].timings, (2, 0, 0));
    assert_eq!(q[1].sleep_time, 3);
}

#[test]
fn cfs_fork_without_time_left_lets_second_run() {
    let mut cfs = Cfs::new(nz(12), 1);
    cfs.stop(call(Syscall::Fork(0), 0));
    cfs.next();
    cfs.stop(call(Syscall::Fork(0), 5));
    assert_eq!(cfs.stop(call(Syscall::Fork(2), 0)), SyscallResult::Pid(Pid(3)));
    let l = cfs.list();
    assert_eq!(l.len(), 3);
    assert_eq!(l[0].pid(), Pid(2));
    assert_eq!(l[0].state(), ProcessState::Running);
    assert_eq!(l[1].pid(), Pid(3));
    assert_eq!(l[1].priority(), 2);
    assert_eq!(l[1].vmrun, 1);
    assert_eq!(l[2].pid(), Pid(1));
    assert_eq!(l[2].state(), ProcessState::Ready);
    assert_eq!(l[2].vmrun, 2);
    assert_eq!(l[2].timings(), (2, 2, 0));
    assert_eq!(cfs.next(), run(2, 4));
}

#[test]
fn fork_answers_pid_no_queued_process_has() {
    let mut rr = RoundRobin::new(nz(5), 1);
    let mut cfs = Cfs::new(nz(10), 1);
    rr.stop(call(Syscall::Fork(0), 0));
    cfs.stop(call(Syscall::Fork(0), 0));
    rr.next();
    cfs.next();
    for remaining in [3usize, 0, 2, 0] {
        let before: Vec<Pid> = rr.list().iter().map(|p| p.pid()).collect();
        assert!(rr.can_stop(call(Syscall::Fork(0), remaining)));
        match rr.stop(call(Syscall::Fork(0), remaining)) {
            SyscallResult::Pid(p) => assert!(!before.contains(&p)),
            other => panic!("unexpected {:?}", other),
        }
        rr.next();
        let before: Vec<Pid> = cfs.list().iter().map(|p| p.pid()).collect();
        assert!(cfs.can_stop(call(Syscall::Fork(0), remaining)));
        match cfs.stop(call(Syscall::Fork(0), remaining)) {
            SyscallResult::Pid(p) => assert!(!before.contains(&p)),
            other => panic!("unexpected {:?}", other),
        }
        cfs.next();
    }
    assert_eq!(rr.list().len(), 5);
    assert_eq!(cfs.list().len(), 5);
}

#[test]
fn next_keeps_distinct_pids() {
    let mut rr = RoundRobin::new(nz(4), 1);
    rr.stop(call(Syscall::Fork(0), 0));
    rr.next();
    rr.stop(call(Syscall::Fork(0), 2));
    rr.stop(call(Syscall::Sleep(3), 1));
    for _ in 0..4 {
        let mut before: Vec<usize> = rr.list().iter().map(|p| p.pid().0).collect();
        rr.next();
        let mut after: Vec<usize> = rr.list().iter().map(|p| p.pid().0).collect();
        before.sort();
        after.sort();
        assert_eq!(before, after);
    }
}

#[test]
fn next_requeues_sleeper_with_no_time_left() {
    let mut rr = RoundRobin::new(nz(5), 1);
    rr.stop(call(Syscall::Fork(0), 0));
    rr.next();
    assert!(rr.can_stop(call(Syscall::Sleep(0), 2)));
    assert_eq!(rr.stop(call(Syscall::Sleep(0), 2)), SyscallResult::Success);
    match rr.next() {
        SchedulingDecision::Run { pid, .. } => assert_eq!(pid, Pid(1)),
        other => panic!("unexpected {:?}", other),
    }
    let pids: Vec<usize> = rr.list().iter().map(|p| p.pid().0).collect();
    assert_eq!(pids, vec![1, 1]);
}

#[test]
fn signal_keeps_pids() {
    let mut rr = RoundRobin::new(nz(5), 1);
    rr.stop(call(Syscall::Fork(0), 0));
    rr.next();
    rr.stop(call(Syscall::Fork(0), 3));
    rr.stop(call(Syscall::Fork(0), 2));
    rr.stop(call(Syscall::Wait(2), 1));
    let mut before: Vec<usize> = rr.list().iter().map(|p| p.pid().0).collect();
    assert!(rr.can_stop(call(Syscall::Signal(2), 0)));
    assert_eq!(rr.stop(call(Syscall::Signal(2), 0)), SyscallResult::Success);
    let mut after: Vec<usize> = rr.list().iter().map(|p| p.pid().0).collect();
    before.sort();
    after.sort();
    assert_eq!(before, after);
}

#[test]
fn extra_text_has_every_digit() {
    let mut p = MyProcess::new(1);
    p.shows_vruntime = true;
    for (v, text) in [(0usize, "vruntime=0"), (10, "vruntime=10"), (907, "vruntime=907"), (123456789, "vruntime=123456789")] {
        p.vmrun = v;
        assert_eq!(p.extra(), text);
    }
}

#[test]
fn cfs_time_update_adds_up() {
    let mut a = proc(1, ProcessState::Running);
    a.vmrun = 3;
    let mut b = proc(2, ProcessState::Waiting { event: None });
    b.sleep_time = 9;
    let c = proc(3, ProcessState::Ready);
    let mut q1 = std::collections::VecDeque::new();
    q1.push_back(a);
    q1.push_back(b);
    q1.push_back(c);
    let mut q2 = q1.clone();
    lib::cfs::syncronize_timings(&mut q1, 2);
    lib::cfs::syncronize_timings(&mut q1, 5);
    lib::cfs::syncronize_timings(&mut q2, 7);
    for i in 0..3 {
        assert_eq!(q1[i].pid, q2[i].pid);
        assert_eq!(q1[i].state, q2[i].state);
        assert_eq!(q1[i].timings, q2[i].timings);
        assert_eq!(q1[i].vmrun, q2[i].vmrun);
        assert_eq!(q1[i].sleep_time, q2[i].sleep_time);
        assert_eq!(q1[i].extra(), q2[i].extra());
    }
    assert_eq!(q2[0].vmrun, 10);
    assert_eq!(q2[1].sleep_time, 2);
    assert_eq!(q2[2].timings, (7, 0, 0));
}
