use eduos_sched::queue::PriorityTaskQueue;
use eduos_sched::queue::TaskQueue;
use eduos_sched::task::Priority;
use eduos_sched::task::Task;
use eduos_sched::task::TaskId;
use eduos_sched::task::TaskStatus;

#[test]
fn task_queue_is_fifo() {
    let mut q = TaskQueue::new();
    assert!(q.is_empty());
    q.push_back(TaskId(1));
    q.push_back(TaskId(2));
    q.push_back(TaskId(3));
    assert!(!q.is_empty());
    assert_eq!(q.pop_front(), Some(TaskId(1)));
    assert_eq!(q.pop_front(), Some(TaskId(2)));
    assert_eq!(q.pop_front(), Some(TaskId(3)));
    assert_eq!(q.pop_front(), None);
    assert!(q.is_empty());
}

#[test]
fn task_queue_pop_pos() {
    let mut q = TaskQueue::new();
    q.push_back(TaskId(10));
    q.push_back(TaskId(11));
    q.push_back(TaskId(12));
    assert_eq!(q.pop_pos(1), Some(TaskId(11)));
    assert_eq!(q.pop_pos(5), None);
    assert_eq!(q.pop_front(), Some(TaskId(10)));
    assert_eq!(q.pop_front(), Some(TaskId(12)));
}

#[test]
fn pop_serves_priorities_in_order_fifo_within_level() {
    let mut q = PriorityTaskQueue::new();
    q.push(Priority(5), TaskId(1));
    q.push(Priority(5), TaskId(2));
    q.push(Priority(2), TaskId(3));
    q.push(Priority(30), TaskId(4));
    assert_eq!(q.pop(), Some(TaskId(3)));
    assert_eq!(q.pop(), Some(TaskId(1)));
    assert_eq!(q.pop(), Some(TaskId(2)));
    assert_eq!(q.pop(), Some(TaskId(4)));
    assert_eq!(q.pop(), None);
}

#[test]
fn pop_with_prio_gates_on_threshold() {
    let mut q = PriorityTaskQueue::new();
    q.push(Priority(5), TaskId(1));
    // best level 5 is numerically greater than 3: nothing eligible, queue
    // untouched
    assert_eq!(q.pop_with_prio(Priority(3)), None);
    assert_eq!(q.pop_with_prio(Priority(5)), Some(TaskId(1)));
    assert_eq!(q.pop_with_prio(Priority(30)), None);
}

#[test]
fn push_clamps_out_of_range_priority_to_lowest() {
    let mut q = PriorityTaskQueue::new();
    q.push(Priority(200), TaskId(7));
    assert_eq!(q.pop_with_prio(Priority(29)), None);
    assert_eq!(q.pop_with_prio(Priority(30)), Some(TaskId(7)));
}

#[test]
fn pop_pos_takes_from_chosen_level() {
    let mut q = PriorityTaskQueue::new();
    q.push(Priority(4), TaskId(1));
    q.push(Priority(4), TaskId(2));
    assert_eq!(q.pop_pos(4, 1), Some(TaskId(2)));
    assert_eq!(q.pop_pos(4, 1), None);
    assert_eq!(q.pop_pos(40, 0), None);
    assert_eq!(q.pop_pos(4, 0), Some(TaskId(1)));
    assert_eq!(q.pop(), None);
}

#[test]
fn update_prios_halves_penalty_and_requeues() {
    let mut q = PriorityTaskQueue::new();
    let mut tasks: Vec<Task> = Vec::new();
    let mut t = Task::new(TaskId(1), TaskStatus::TaskReady, Priority(5), 6);
    t.prio = Priority(11);
    tasks.push(t);
    q.push(Priority(11), TaskId(1));
    q.update_prios(&mut tasks);
    // penalty 6 halves to 3; effective priority becomes 5 + 3 = 8
    assert_eq!(tasks[0].penalty, 3);
    assert_eq!(tasks[0].prio, Priority(8));
    assert_eq!(q.pop_with_prio(Priority(7)), None);
    assert_eq!(q.pop_with_prio(Priority(8)), Some(TaskId(1)));
}

#[test]
fn update_prios_sweeps_every_level_once() {
    let mut q = PriorityTaskQueue::new();
    let mut tasks: Vec<Task> = Vec::new();
    tasks.push(Task::new(TaskId(1), TaskStatus::TaskReady, Priority(0), 0));
    let mut t2 = Task::new(TaskId(2), TaskStatus::TaskReady, Priority(3), 9);
    t2.prio = Priority(12);
    tasks.push(t2);
    q.push(Priority(0), TaskId(1));
    q.push(Priority(12), TaskId(2));
    q.update_prios(&mut tasks);
    // task 1 keeps penalty 0 at level 0; task 2 ages to penalty 4, level 7
    assert_eq!(tasks[0].penalty, 0);
    assert_eq!(tasks[0].prio, Priority(0));
    assert_eq!(tasks[1].penalty, 4);
    assert_eq!(tasks[1].prio, Priority(7));
    assert_eq!(q.pop(), Some(TaskId(1)));
    assert_eq!(q.pop(), Some(TaskId(2)));
    assert_eq!(q.pop(), None);
}
