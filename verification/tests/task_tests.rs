use eduos_sched::console::Console;
use eduos_sched::frame::INITIAL_FLAGS;
use eduos_sched::frame::INITIAL_STACK_POINTER;
use eduos_sched::frame::RETURN_SLOT_WORD;
use eduos_sched::frame::SENTINEL_WORD;
use eduos_sched::frame::STACK_FILL_WORD;
use eduos_sched::frame::STACK_SENTINEL;
use eduos_sched::frame::STATE_BOTTOM_WORD;
use eduos_sched::frame::STATE_FLAGS_INDEX;
use eduos_sched::frame::STATE_PC_INDEX;
use eduos_sched::frame::STATE_SP_INDEX;
use eduos_sched::frame::TaskFrame;
use eduos_sched::serial::ComPort;
use eduos_sched::task::KERNEL_STACK_SIZE;
use eduos_sched::task::KernelStack;
use eduos_sched::task::Priority;
use eduos_sched::task::STACK_WORDS;
use eduos_sched::task::Task;
use eduos_sched::task::TaskId;
use eduos_sched::task::TaskStatus;
use eduos_sched::task::compute_eff_prio;

#[test]
fn id_and_priority_round_trip() {
    assert_eq!(TaskId::from(17).into(), 17usize);
    assert_eq!(Priority::from(9).into(), 9u8);
    assert_eq!(TaskId::from(3), TaskId(3));
}

#[test]
fn effective_priority_clamps_to_lowest_level() {
    assert_eq!(compute_eff_prio(Priority(5), 6), Priority(11));
    assert_eq!(compute_eff_prio(Priority(28), 2), Priority(30));
    assert_eq!(compute_eff_prio(Priority(28), 200), Priority(30));
    assert_eq!(compute_eff_prio(Priority(0), 0), Priority(0));
}

#[test]
fn kernel_stack_layout() {
    let s = KernelStack::new();
    assert_eq!(s.bottom(), 0);
    assert_eq!(s.top(), KERNEL_STACK_SIZE - 1);
    assert_eq!(s.word_count(), STACK_WORDS);
    assert_eq!(s.word_at(0), Some(0));
    assert_eq!(s.word_at(STACK_WORDS), None);
}

#[test]
fn new_task_starts_clean() {
    let t = Task::new(TaskId(4), TaskStatus::TaskReady, Priority(7), 1);
    assert_eq!(t.id, TaskId(4));
    assert_eq!(t.status, TaskStatus::TaskReady);
    assert_eq!(t.prio, Priority(7));
    assert_eq!(t.base_prio, Priority(7));
    assert_eq!(t.penalty, 1);
    assert_eq!(t.last_stack_pointer, 0);
}

#[test]
fn initial_frame_has_entry_flags_and_sentinel() {
    let mut t = Task::new(TaskId(1), TaskStatus::TaskReady, Priority(5), 0);
    t.create_stack_frame(0xABCD);
    assert_eq!(t.last_stack_pointer, INITIAL_STACK_POINTER);
    assert_eq!(t.stack.word_at(SENTINEL_WORD), Some(STACK_SENTINEL));
    assert_eq!(t.stack.word_at(RETURN_SLOT_WORD), Some(0));
    assert_eq!(t.stack.word_at(STATE_BOTTOM_WORD + STATE_PC_INDEX), Some(0xABCD));
    assert_eq!(t.stack.word_at(STATE_BOTTOM_WORD + STATE_FLAGS_INDEX), Some(INITIAL_FLAGS));
    assert_eq!(
        t.stack.word_at(STATE_BOTTOM_WORD + STATE_SP_INDEX),
        Some((8 * RETURN_SLOT_WORD) as u64)
    );
    assert_eq!(t.stack.word_at(STATE_BOTTOM_WORD), Some(0));
    assert_eq!(t.stack.word_at(0), Some(STACK_FILL_WORD));
    assert_eq!(t.stack.word_at(STATE_BOTTOM_WORD - 1), Some(STACK_FILL_WORD));
}

#[test]
fn com_port_keeps_its_address() {
    let port = ComPort::new(0x0900_0000);
    assert_eq!(port.address(), 0x0900_0000);
    let _console = Console;
}
