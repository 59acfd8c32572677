use eduos_sched::frame::INITIAL_STACK_POINTER;
use eduos_sched::scheduler::Scheduler;
use eduos_sched::task::Priority;
use eduos_sched::task::TaskId;

#[test]
fn bootstrap_installs_idle_as_task_zero() {
    let mut s = Scheduler::new();
    let bottom = s.add_idle_task();
    assert_eq!(bottom, 0);
    assert_eq!(s.get_current_taskid(), TaskId(0));
    assert_eq!(s.get_current_priority(), Priority(30));
    assert_eq!(s.task_count(), 1);
    assert!(s.contains_task(TaskId(0)));
}

#[test]
fn spawn_assigns_distinct_ids() {
    let mut s = Scheduler::new();
    s.add_idle_task();
    let a = s.spawn(0x1000, Priority(5));
    let b = s.spawn(0x2000, Priority(5));
    let c = s.spawn(0x3000, Priority(2));
    assert_ne!(a, TaskId(0));
    assert_ne!(b, TaskId(0));
    assert_ne!(c, TaskId(0));
    assert_ne!(a, b);
    assert_ne!(a, c);
    assert_ne!(b, c);
    assert!(s.contains_task(a) && s.contains_task(b) && s.contains_task(c));
    assert_eq!(s.task_count(), 4);
}

#[test]
fn first_switch_resumes_at_initial_frame() {
    let mut s = Scheduler::new();
    s.add_idle_task();
    let t = s.spawn(0x4000, Priority(3));
    let sw = s.schedule().expect("a ready task must preempt the idle task");
    assert_eq!(sw.prev_id, TaskId(0));
    assert_eq!(sw.next_id, t);
    assert_eq!(sw.next_stack_pointer, INITIAL_STACK_POINTER);
    assert_eq!(s.get_current_taskid(), t);
}

#[test]
fn example_scenario_round_robin_with_aging() {
    // Spawn A(prio 5), B(prio 5), C(prio 2) while the idle task is current:
    // the first pass switches to C; further passes keep C running until its
    // penalty raises its effective priority past 5; then A runs, then B.
    let mut s = Scheduler::new();
    s.add_idle_task();
    let a = s.spawn(0xA, Priority(5));
    let b = s.spawn(0xB, Priority(5));
    let c = s.spawn(0xC, Priority(2));
    let sw1 = s.schedule().expect("C preempts the idle task");
    assert_eq!(sw1.next_id, c);
    assert_eq!(s.get_current_priority(), Priority(2));
    // C stays current while nothing beats its aged effective priority
    assert!(s.schedule().is_none());
    assert_eq!(s.get_current_priority(), Priority(4));
    assert!(s.schedule().is_none());
    assert_eq!(s.get_current_priority(), Priority(6));
    // now level 5 beats C's threshold: A is switched in, then B
    let sw2 = s.schedule().expect("A preempts the aged C");
    assert_eq!(sw2.prev_id, c);
    assert_eq!(sw2.next_id, a);
    let sw3 = s.schedule().expect("round robin reaches B");
    assert_eq!(sw3.prev_id, a);
    assert_eq!(sw3.next_id, b);
}

#[test]
fn exit_falls_back_to_idle_and_defers_reclamation() {
    let mut s = Scheduler::new();
    s.add_idle_task();
    let t = s.spawn(0x4000, Priority(3));
    let sw = s.schedule().expect("switch into the spawned task");
    assert_eq!(sw.next_id, t);
    // give the idle task a saved stack pointer, as the switch primitive would
    assert!(s.set_last_stack_pointer(TaskId(0), 4242));
    let sw2 = s.exit();
    // idle fallback: the run queue is empty and the task finished
    assert_eq!(sw2.prev_id, t);
    assert_eq!(sw2.next_id, TaskId(0));
    assert_eq!(sw2.next_stack_pointer, 4242);
    // the finished task's control block survives the pass that switched away
    assert!(s.contains_task(t));
    assert_eq!(s.task_count(), 2);
    // the next pass reaps it
    assert!(s.schedule().is_none());
    assert!(!s.contains_task(t));
    assert_eq!(s.task_count(), 1);
}

#[test]
fn freed_id_is_reused_only_after_reclamation() {
    let mut s = Scheduler::new();
    s.add_idle_task();
    let t = s.spawn(0x1, Priority(1));
    s.schedule().expect("switch into the task");
    s.exit();
    // the id is still live (pending reclamation): a new spawn skips it
    let u = s.spawn(0x2, Priority(1));
    assert_ne!(u, t);
    s.reschedule().expect("switch into the new task");
    // the reap of that pass freed the old id
    assert!(!s.contains_task(t));
}

#[test]
fn equal_priority_tasks_rotate() {
    let mut s = Scheduler::new();
    s.add_idle_task();
    let x = s.spawn(0x1, Priority(5));
    let y = s.spawn(0x2, Priority(5));
    let s1 = s.schedule().expect("x preempts idle");
    assert_eq!(s1.next_id, x);
    // equal priority rotates: y preempts x at the same level
    let s2 = s.schedule().expect("y rotates in");
    assert_eq!(s2.prev_id, x);
    assert_eq!(s2.next_id, y);
    // x is still aging back down: y keeps running one pass
    assert!(s.schedule().is_none());
    // then x rotates back in
    let s4 = s.schedule().expect("x rotates back in");
    assert_eq!(s4.prev_id, y);
    assert_eq!(s4.next_id, x);
    assert!(s.schedule().is_none());
    let s6 = s.schedule().expect("y again");
    assert_eq!(s6.next_id, y);
}

#[test]
fn out_of_range_priority_is_clamped_to_lowest() {
    let mut s = Scheduler::new();
    s.add_idle_task();
    let t = s.spawn(0x1, Priority(100));
    // queued at the lowest level, it is still eligible from the idle task
    let sw = s.schedule().expect("clamped task still runs");
    assert_eq!(sw.next_id, t);
}
