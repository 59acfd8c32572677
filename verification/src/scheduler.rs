//! The scheduler: the task table it owns, task creation, exit, and the
//! scheduling decision loop.
//!
//! The scheduler is the sole owner of every control block, through its task
//! table.  The run queue, the `current`/`idle` slots and the reclamation list
//! hold task ids only; they locate a task but never own it.  The
//! architecture-specific context switch is not performed here: `schedule`
//! carries out all bookkeeping and returns the hand-off (previous task, next
//! task, and the next task's saved stack pointer) for the platform to
//! perform.

use vstd::prelude::*;
use vstd::set_lib::lemma_len_subset;
use vstd::set_lib::lemma_int_range;
use vstd::set_lib::set_int_range;

use crate::queue::PriorityTaskQueue;
use crate::queue::TaskQueue;
use crate::queue::clamp_level;
use crate::queue::concat_all;
use crate::queue::first_busy;
use crate::queue::lemma_concat_all_empty;
use crate::queue::lemma_first_busy;
use crate::queue::lemma_concat_all_distinct;
use crate::queue::lemma_concat_all_membership;
use crate::queue::lemma_sweep_level_contains;
use crate::queue::lemma_sweep_level_props;
use crate::queue::queued_somewhere;
use crate::queue::queues_distinct;
use crate::queue::sweep_level;
use crate::task::LOW_PRIO_VALUE;
use crate::task::NO_PRIORITIES;
use crate::task::Priority;
use crate::task::Task;
use crate::task::TaskId;
use crate::task::TaskStatus;
use crate::task::age_task;
use crate::task::bump_task;
use crate::task::compute_eff_prio;
use crate::task::distinct_ids;
use crate::task::find_task;
use crate::task::has_id;
use crate::task::idx_of;
use crate::task::lemma_idx_of;
use crate::task::table_set_status;
use crate::task::task_of;
use crate::task::with_status;
use crate::frame::INITIAL_STACK_POINTER;
use crate::frame::initial_stack_words;

verus! {

/// The hand-off a scheduling pass asks the platform to perform: save the
/// machine context of `prev_id` into its control block's stack-pointer slot,
/// then resume the context found at `next_stack_pointer`, which belongs to
/// `next_id`.
#[derive(Copy, Clone, Debug, PartialEq, Eq, Structural)]
pub struct TaskSwitch {
    /// The task that was current when the pass began.
    pub prev_id: TaskId,
    /// The task to resume.
    pub next_id: TaskId,
    /// The saved stack pointer of the task to resume.
    pub next_stack_pointer: u64,
}

/// The id held by an optional slot (callers only apply this to slots known to
/// be filled).
pub open spec fn oid(o: Option<TaskId>) -> TaskId {
    match o {
        Some(id) => id,
        None => TaskId(0),
    }
}

/// The table after the reap step: the head of the reclamation list, if any,
/// is removed; an id no longer present is skipped.
pub open spec fn reap_tasks(tasks: Seq<Task>, fin: Seq<TaskId>) -> Seq<Task> {
    if fin.len() > 0 && has_id(tasks, fin[0]) {
        tasks.remove(idx_of(tasks, fin[0]))
    } else {
        tasks
    }
}

/// The reclamation list after the reap step.
pub open spec fn reap_fin(fin: Seq<TaskId>) -> Seq<TaskId> {
    if fin.len() > 0 {
        fin.drop_first()
    } else {
        fin
    }
}

/// The table after the running task's penalty bump.
pub open spec fn bump_current(tasks: Seq<Task>, cur: TaskId) -> Seq<Task> {
    tasks.update(idx_of(tasks, cur), bump_task(task_of(tasks, cur)))
}

/// The table after one aging sweep over the queued ids.
pub open spec fn sweep_table(tasks: Seq<Task>, ids: Seq<TaskId>) -> Seq<Task> {
    tasks.map(
        |i: int, t: Task|
            if ids.contains(t.id) {
                age_task(t)
            } else {
                t
            },
    )
}

/// The run-queue levels after one aging sweep.
pub open spec fn sweep_levels(tasks: Seq<Task>, ids: Seq<TaskId>) -> Seq<Seq<TaskId>> {
    Seq::new(NO_PRIORITIES as nat, |l: int| sweep_level(tasks, ids, l))
}

/// The scheduling decision and all its bookkeeping, from the state of the
/// scheduler after the reap step: the running task's penalty is bumped, the
/// whole run queue is aged, and the best eligible task (if any) is selected;
/// the previous task is re-inserted when it can still run, or queued for
/// reclamation when it finished; the idle task stands in when the previous
/// task cannot continue and nothing is ready.  Returns the new table, run
/// queue, reclamation list, current task, and the hand-off to perform.
pub open spec fn select_result(
    tasks: Seq<Task>,
    levels: Seq<Seq<TaskId>>,
    fin: Seq<TaskId>,
    cur: TaskId,
    idle: TaskId,
) -> (Seq<Task>, Seq<Seq<TaskId>>, Seq<TaskId>, TaskId, Option<TaskSwitch>) {
    let c = task_of(tasks, cur);
    let threshold: int = if c.status == TaskStatus::TaskRunning {
        c.prio.0 as int
    } else {
        LOW_PRIO_VALUE as int
    };
    let ids = concat_all(levels);
    let t1 = bump_current(tasks, cur);
    let t2 = sweep_table(t1, ids);
    let l2 = sweep_levels(t1, ids);
    let best = first_busy(l2);
    if best < NO_PRIORITIES && best <= threshold {
        let next = l2[best][0];
        let l3 = l2.update(best, l2[best].drop_first());
        let t3 = table_set_status(t2, next, TaskStatus::TaskRunning);
        let sw = TaskSwitch {
            prev_id: cur,
            next_id: next,
            next_stack_pointer: task_of(t2, next).last_stack_pointer,
        };
        if c.status == TaskStatus::TaskRunning {
            let back = clamp_level(bump_task(c).prio);
            (
                table_set_status(t3, cur, TaskStatus::TaskReady),
                l3.update(back, l3[back].push(cur)),
                fin,
                next,
                Some(sw),
            )
        } else if c.status == TaskStatus::TaskFinished {
            (table_set_status(t3, cur, TaskStatus::TaskInvalid), l3, fin.push(cur), next, Some(sw))
        } else {
            (t3, l3, fin, next, Some(sw))
        }
    } else if c.status != TaskStatus::TaskRunning && c.status != TaskStatus::TaskIdle {
        let sw = TaskSwitch {
            prev_id: cur,
            next_id: idle,
            next_stack_pointer: task_of(t2, idle).last_stack_pointer,
        };
        if c.status == TaskStatus::TaskFinished {
            (table_set_status(t2, cur, TaskStatus::TaskInvalid), l2, fin.push(cur), idle, Some(sw))
        } else {
            (t2, l2, fin, idle, Some(sw))
        }
    } else {
        (t2, l2, fin, cur, None)
    }
}

/// Where a control block must be reachable from, by its status: the run
/// queue for a ready task, the `current` slot for the running (or just
/// finished) task, the `idle` slot for the idle task, and the reclamation
/// list for an invalidated one.  `TaskBlocked` is reserved and never
/// produced.
pub open spec fn placed(
    t: Task,
    cur: TaskId,
    idle: TaskId,
    levels: Seq<Seq<TaskId>>,
    fin: Seq<TaskId>,
) -> bool {
    match t.status {
        TaskStatus::TaskReady => queued_somewhere(levels, t.id),
        TaskStatus::TaskRunning => t.id == cur,
        TaskStatus::TaskIdle => t.id == idle,
        TaskStatus::TaskFinished => t.id == cur,
        TaskStatus::TaskInvalid => fin.contains(t.id),
        TaskStatus::TaskBlocked => false,
    }
}

/// Every queued id names a ready task in the table.
pub open spec fn queue_members_ok(tasks: Seq<Task>, levels: Seq<Seq<TaskId>>) -> bool {
    forall|l: int, i: int|
        0 <= l < levels.len() && 0 <= i < levels[l].len() ==> has_id(
            tasks,
            #[trigger] levels[l][i],
        ) && task_of(tasks, levels[l][i]).status == TaskStatus::TaskReady
}

/// Every id on the reclamation list names an invalidated task in the table.
pub open spec fn fin_members_ok(tasks: Seq<Task>, fin: Seq<TaskId>) -> bool {
    forall|i: int|
        0 <= i < fin.len() ==> has_id(tasks, #[trigger] fin[i]) && task_of(tasks, fin[i]).status
            == TaskStatus::TaskInvalid
}

/// Every control block is reachable from the place its status demands.
pub open spec fn all_placed(
    tasks: Seq<Task>,
    levels: Seq<Seq<TaskId>>,
    fin: Seq<TaskId>,
    cur: TaskId,
    idle: TaskId,
) -> bool {
    forall|i: int| 0 <= i < tasks.len() ==> placed(#[trigger] tasks[i], cur, idle, levels, fin)
}

/// The pre-bootstrap state: nothing tracked, nothing queued.
pub open spec fn uninit_state(
    tasks: Seq<Task>,
    levels: Seq<Seq<TaskId>>,
    fin: Seq<TaskId>,
    counter: usize,
) -> bool {
    &&& tasks.len() == 0
    &&& fin.len() == 0
    &&& counter == 0
    &&& forall|l: int| 0 <= l < levels.len() ==> #[trigger] levels[l].len() == 0
}

/// The state after bootstrap: `current` and `idle` name live tasks with
/// fitting statuses, and the queues, the reclamation list and the table
/// cross-reference each other correctly.
pub open spec fn live_state(
    tasks: Seq<Task>,
    levels: Seq<Seq<TaskId>>,
    fin: Seq<TaskId>,
    cur: TaskId,
    idle: TaskId,
) -> bool {
    &&& has_id(tasks, cur)
    &&& has_id(tasks, idle)
    &&& task_of(tasks, idle).status == TaskStatus::TaskIdle
    &&& cur == idle || task_of(tasks, cur).status == TaskStatus::TaskRunning || task_of(
        tasks,
        cur,
    ).status == TaskStatus::TaskFinished
    &&& queue_members_ok(tasks, levels)
    &&& fin_members_ok(tasks, fin)
    &&& all_placed(tasks, levels, fin, cur, idle)
}

/// Well-formedness of the scheduler's state, over its components.
pub open spec fn wf_state(
    tasks: Seq<Task>,
    levels: Seq<Seq<TaskId>>,
    fin: Seq<TaskId>,
    cur_o: Option<TaskId>,
    idle_o: Option<TaskId>,
    counter: usize,
) -> bool {
    &&& distinct_ids(tasks)
    &&& queues_distinct(levels)
    &&& fin.len() <= 1
    &&& levels.len() == NO_PRIORITIES
    &&& match (cur_o, idle_o) {
        (None, None) => uninit_state(tasks, levels, fin, counter),
        (Some(cur), Some(idle)) => live_state(tasks, levels, fin, cur, idle),
        _ => false,
    }
}

/// Replacing control blocks without touching their ids or statuses keeps the
/// state well-formed.
pub proof fn lemma_wf_state_table_compat(
    t1: Seq<Task>,
    t2: Seq<Task>,
    levels: Seq<Seq<TaskId>>,
    fin: Seq<TaskId>,
    cur_o: Option<TaskId>,
    idle_o: Option<TaskId>,
    counter: usize,
)
    requires
        wf_state(t1, levels, fin, cur_o, idle_o, counter),
        t2.len() == t1.len(),
        forall|i: int|
            0 <= i < t1.len() ==> #[trigger] t2[i].id == t1[i].id && t2[i].status == t1[i].status,
    ensures
        wf_state(t2, levels, fin, cur_o, idle_o, counter),
        forall|id: TaskId| #[trigger] has_id(t2, id) == has_id(t1, id),
        forall|id: TaskId|
            #[trigger] has_id(t1, id) ==> task_of(t2, id).status == task_of(t1, id).status
                && task_of(t2, id).id == id && idx_of(t2, id) == idx_of(t1, id),
{
    assert forall|id: TaskId| #[trigger] has_id(t2, id) == has_id(t1, id) by {
        if has_id(t1, id) {
            let w = idx_of(t1, id);
            assert(t2[w].id == id);
        }
        if has_id(t2, id) {
            let w = idx_of(t2, id);
            assert(t1[w].id == id);
        }
    }
    assert forall|id: TaskId| #[trigger] has_id(t1, id) implies task_of(t2, id).status == task_of(
        t1,
        id,
    ).status && task_of(t2, id).id == id && idx_of(t2, id) == idx_of(t1, id) by {
        let w1 = idx_of(t1, id);
        assert(t2[w1].id == id);
        let w2 = idx_of(t2, id);
        assert(t1[w2].id == id);
        lemma_idx_of(t1, w2);
    }
    match (cur_o, idle_o) {
        (None, None) => {},
        (Some(cur), Some(idle)) => {
            assert forall|i: int| 0 <= i < t2.len() implies placed(
                #[trigger] t2[i],
                cur,
                idle,
                levels,
                fin,
            ) by {
                assert(placed(t1[i], cur, idle, levels, fin));
            }
            assert(live_state(t2, levels, fin, cur, idle));
        },
        _ => {},
    }
}

/// Addition that wraps around at the machine word size, as the id counter
/// does.
pub open spec fn wrap_add_spec(a: usize, b: usize) -> usize {
    if a + b <= usize::MAX {
        (a + b) as usize
    } else {
        (a + b - usize::MAX - 1) as usize
    }
}

fn wrap_add(a: usize, b: usize) -> (r: usize)
    ensures
        r == wrap_add_spec(a, b),
{
    if b <= usize::MAX - a {
        a + b
    } else {
        b - (usize::MAX - a) - 1
    }
}

/// Appending a control block with a fresh id leaves every lookup of an old
/// id unchanged.
pub proof fn lemma_table_push(t1: Seq<Task>, nt: Task)
    requires
        distinct_ids(t1),
        !has_id(t1, nt.id),
    ensures
        distinct_ids(t1.push(nt)),
        has_id(t1.push(nt), nt.id),
        task_of(t1.push(nt), nt.id) == nt,
        forall|id: TaskId| #[trigger] has_id(t1.push(nt), id) == (has_id(t1, id) || id == nt.id),
        forall|id: TaskId|
            #[trigger] has_id(t1, id) ==> idx_of(t1.push(nt), id) == idx_of(t1, id) && task_of(
                t1.push(nt),
                id,
            ) == task_of(t1, id),
{
    let t2 = t1.push(nt);
    assert forall|id: TaskId| #[trigger] has_id(t2, id) == (has_id(t1, id) || id == nt.id) by {
        if has_id(t1, id) {
            let w = idx_of(t1, id);
            assert(t2[w].id == id);
        }
        if id == nt.id {
            assert(t2[t1.len() as int].id == id);
        }
        if has_id(t2, id) {
            let w = idx_of(t2, id);
            if w < t1.len() {
                assert(t1[w].id == id);
            }
        }
    }
    assert(t2[t1.len() as int].id == nt.id);
    assert forall|i: int| 0 <= i < t2.len() && t2[i].id == nt.id implies i == t1.len() by {
        if i < t1.len() {
            assert(t1[i].id == nt.id);
        }
    }
    assert(task_of(t2, nt.id) == nt);
    assert forall|id: TaskId| #[trigger] has_id(t1, id) implies idx_of(t2, id) == idx_of(t1, id)
        && task_of(t2, id) == task_of(t1, id) by {
        let w1 = idx_of(t1, id);
        assert(t2[w1].id == id);
        let w2 = idx_of(t2, id);
        if w2 < t1.len() {
            assert(t1[w2].id == id);
            lemma_idx_of(t1, w2);
        } else {
            assert(id == nt.id);
        }
    }
}

/// Removing one control block leaves every lookup of another id unchanged.
pub proof fn lemma_table_remove(t1: Seq<Task>, k: int)
    requires
        distinct_ids(t1),
        0 <= k < t1.len(),
    ensures
        distinct_ids(t1.remove(k)),
        !has_id(t1.remove(k), t1[k].id),
        forall|id: TaskId|
            id != t1[k].id ==> #[trigger] has_id(t1.remove(k), id) == has_id(t1, id),
        forall|id: TaskId|
            id != t1[k].id && has_id(t1, id) ==> #[trigger] task_of(t1.remove(k), id) == task_of(
                t1,
                id,
            ),
{
    let t2 = t1.remove(k);
    assert forall|i: int| 0 <= i < t2.len() implies #[trigger] t2[i] == (if i < k {
        t1[i]
    } else {
        t1[i + 1]
    }) by {}
    if has_id(t2, t1[k].id) {
        let w = idx_of(t2, t1[k].id);
        if w < k {
            assert(t1[w].id == t1[k].id);
        } else {
            assert(t1[w + 1].id == t1[k].id);
        }
    }
    assert forall|id: TaskId| id != t1[k].id implies #[trigger] has_id(t1.remove(k), id) == has_id(
        t1,
        id,
    ) by {
        if has_id(t1, id) {
            let w = idx_of(t1, id);
            if w < k {
                assert(t2[w].id == id);
            } else {
                assert(w > k);
                assert(t2[w - 1].id == id);
            }
        }
        if has_id(t2, id) {
            let w = idx_of(t2, id);
            if w < k {
                assert(t1[w].id == id);
            } else {
                assert(t1[w + 1].id == id);
            }
        }
    }
    assert forall|id: TaskId| id != t1[k].id && has_id(t1, id) implies #[trigger] task_of(
        t1.remove(k),
        id,
    ) == task_of(t1, id) by {
        let w1 = idx_of(t1, id);
        if w1 < k {
            assert(t2[w1].id == id);
        } else {
            assert(w1 > k);
            assert(t2[w1 - 1].id == id);
        }
        assert(has_id(t2, id));
        let w2 = idx_of(t2, id);
        if w2 < k {
            assert(t1[w2].id == id);
            lemma_idx_of(t1, w2);
        } else {
            assert(t1[w2 + 1].id == id);
            lemma_idx_of(t1, w2 + 1);
        }
    }
}

/// Replacing one task's status leaves every other lookup unchanged.
pub proof fn lemma_set_status_lookup(t: Seq<Task>, id: TaskId, st: TaskStatus)
    requires
        distinct_ids(t),
        has_id(t, id),
    ensures
        table_set_status(t, id, st).len() == t.len(),
        distinct_ids(table_set_status(t, id, st)),
        forall|x: TaskId| #[trigger] has_id(table_set_status(t, id, st), x) == has_id(t, x),
        task_of(table_set_status(t, id, st), id) == with_status(task_of(t, id), st),
        forall|x: TaskId|
            x != id && has_id(t, x) ==> #[trigger] task_of(table_set_status(t, id, st), x)
                == task_of(t, x),
        forall|i: int|
            0 <= i < t.len() ==> #[trigger] table_set_status(t, id, st)[i].id == t[i].id,
{
    let t2 = table_set_status(t, id, st);
    let k = idx_of(t, id);
    assert forall|x: TaskId| #[trigger] has_id(t2, x) == has_id(t, x) by {
        if has_id(t, x) {
            let w = idx_of(t, x);
            assert(t2[w].id == x);
        }
        if has_id(t2, x) {
            let w = idx_of(t2, x);
            assert(t[w].id == x);
        }
    }
    assert(t2[k].id == id);
    let k2 = idx_of(t2, id);
    assert(t[k2].id == id);
    lemma_idx_of(t, k2);
    assert(task_of(t2, id) == with_status(task_of(t, id), st));
    assert forall|x: TaskId| x != id && has_id(t, x) implies #[trigger] task_of(t2, x) == task_of(
        t,
        x,
    ) by {
        let w1 = idx_of(t, x);
        assert(t2[w1].id == x);
        let w2 = idx_of(t2, x);
        assert(t[w2].id == x);
        lemma_idx_of(t, w2);
    }
}

/// Removing the head of one level keeps queue positions distinct.
proof fn lemma_queues_distinct_pop(levels: Seq<Seq<TaskId>>, b: int)
    requires
        queues_distinct(levels),
        0 <= b < levels.len(),
        levels[b].len() > 0,
    ensures
        queues_distinct(levels.update(b, levels[b].drop_first())),
{
    let l4 = levels.update(b, levels[b].drop_first());
    assert forall|l: int, i: int, l2: int, i2: int|
        0 <= l < l4.len() && 0 <= i < l4[l].len() && 0 <= l2 < l4.len() && 0 <= i2 < l4[l2].len()
            && (l != l2 || i != i2) implies #[trigger] l4[l][i] != #[trigger] l4[l2][i2] by {
        let j: int = if l == b {
            i + 1
        } else {
            i
        };
        let j2: int = if l2 == b {
            i2 + 1
        } else {
            i2
        };
        assert(l4[l][i] == levels[l][j]);
        assert(l4[l2][i2] == levels[l2][j2]);
    }
}

/// Appending an id that is queued nowhere keeps queue positions distinct.
proof fn lemma_queues_distinct_push(levels: Seq<Seq<TaskId>>, b: int, x: TaskId)
    requires
        queues_distinct(levels),
        0 <= b < levels.len(),
        forall|l: int, i: int|
            0 <= l < levels.len() && 0 <= i < levels[l].len() ==> #[trigger] levels[l][i] != x,
    ensures
        queues_distinct(levels.update(b, levels[b].push(x))),
{
    let l4 = levels.update(b, levels[b].push(x));
    assert forall|l: int, i: int, l2: int, i2: int|
        0 <= l < l4.len() && 0 <= i < l4[l].len() && 0 <= l2 < l4.len() && 0 <= i2 < l4[l2].len()
            && (l != l2 || i != i2) implies #[trigger] l4[l][i] != #[trigger] l4[l2][i2] by {
        if l == b && i == levels[b].len() {
            assert(l4[l][i] == x);
            assert(l4[l2][i2] == levels[l2][i2]);
        } else if l2 == b && i2 == levels[b].len() {
            assert(l4[l2][i2] == x);
            assert(l4[l][i] == levels[l][i]);
        } else {
            assert(l4[l][i] == levels[l][i]);
            assert(l4[l2][i2] == levels[l2][i2]);
        }
    }
}

/// An id other than the removed head stays queued.
proof fn lemma_queued_somewhere_pop(levels: Seq<Seq<TaskId>>, b: int, id: TaskId)
    requires
        0 <= b < levels.len(),
        levels[b].len() > 0,
        queued_somewhere(levels, id),
        id != levels[b][0],
    ensures
        queued_somewhere(levels.update(b, levels[b].drop_first()), id),
{
    let l4 = levels.update(b, levels[b].drop_first());
    let l = choose|l: int| 0 <= l < levels.len() && #[trigger] levels[l].contains(id);
    if l != b {
        assert(l4[l].contains(id));
    } else {
        let w = choose|w: int| 0 <= w < levels[b].len() && levels[b][w] == id;
        assert(w > 0);
        assert(l4[b][w - 1] == id);
        assert(l4[b].contains(id));
    }
}

/// A queued id stays queued when some level is appended to.
proof fn lemma_queued_somewhere_push(levels: Seq<Seq<TaskId>>, b: int, x: TaskId, id: TaskId)
    requires
        0 <= b < levels.len(),
        queued_somewhere(levels, id),
    ensures
        queued_somewhere(levels.update(b, levels[b].push(x)), id),
{
    let l4 = levels.update(b, levels[b].push(x));
    let l = choose|l: int| 0 <= l < levels.len() && #[trigger] levels[l].contains(id);
    if l != b {
        assert(l4[l].contains(id));
    } else {
        let w = choose|w: int| 0 <= w < levels[b].len() && levels[b][w] == id;
        assert(l4[b][w] == id);
        assert(l4[b].contains(id));
    }
}

/// The scheduler.  One instance owns the whole machine's tasks.
pub struct Scheduler {
    /// Task which is currently running (`None` before bootstrap).
    current_task: Option<TaskId>,
    /// The idle task (`None` before bootstrap).
    idle_task: Option<TaskId>,
    /// Queues of tasks which are ready.
    ready_queue: PriorityTaskQueue,
    /// Queue of tasks which are finished and can be released.
    finished_tasks: TaskQueue,
    /// The task table: id to control block, owning every control block.
    tasks: Vec<Task>,
    /// Monotonically advancing (wrapping) id counter.
    tid_counter: usize,
}

impl Scheduler {
    /// The currently running task's slot.
    pub closed spec fn spec_current(&self) -> Option<TaskId> {
        self.current_task
    }

    /// The idle task's slot.
    pub closed spec fn spec_idle(&self) -> Option<TaskId> {
        self.idle_task
    }

    /// The run-queue levels.
    pub closed spec fn levels(&self) -> Seq<Seq<TaskId>> {
        self.ready_queue@
    }

    /// The task table.
    pub closed spec fn table(&self) -> Seq<Task> {
        self.tasks@
    }

    /// The reclamation list.
    pub closed spec fn finished(&self) -> Seq<TaskId> {
        self.finished_tasks@
    }

    /// The id counter.
    pub closed spec fn counter(&self) -> usize {
        self.tid_counter
    }

    /// Whether `add_idle_task` has run.
    pub open spec fn inited(&self) -> bool {
        self.spec_current() is Some
    }

    /// Well-formedness of the whole scheduler state: the run queue is
    /// well-formed; ids are unique in the table and across queue positions;
    /// the reclamation list holds at most one id; the `current` and `idle`
    /// slots name live tasks with fitting statuses; every queued id names a
    /// ready task; every listed id names an invalidated task; and every
    /// control block is reachable from exactly the place its status demands.
    pub closed spec fn wf(&self) -> bool {
        &&& self.ready_queue.wf()
        &&& wf_state(
            self.tasks@,
            self.ready_queue@,
            self.finished_tasks@,
            self.current_task,
            self.idle_task,
            self.tid_counter,
        )
    }

    /// A scheduler before bootstrap: no tasks, nothing queued.
    pub fn new() -> (r: Scheduler)
        ensures
            r.wf(),
            !r.inited(),
            r.table().len() == 0,
            r.counter() == 0,
    {
        Scheduler {
            current_task: None,
            idle_task: None,
            ready_queue: PriorityTaskQueue::new(),
            finished_tasks: TaskQueue::new(),
            tasks: Vec::new(),
            tid_counter: 0,
        }
    }

    /// Allocate a fresh task id: the first candidate from the wrapping
    /// counter that no live task carries.
    fn get_tid(&mut self) -> (r: TaskId)
        requires
            distinct_ids(old(self).tasks@),
            old(self).tasks@.len() < usize::MAX,
        ensures
            !has_id(old(self).tasks@, r),
            exists|m: int|
                0 <= m <= old(self).tasks@.len() && r.0 == #[trigger] wrap_add_spec(
                    old(self).tid_counter,
                    m as usize,
                ) && (forall|j: int|
                    0 <= j < m ==> has_id(
                        old(self).tasks@,
                        TaskId(#[trigger] wrap_add_spec(old(self).tid_counter, j as usize)),
                    )),
            final(self).tid_counter == wrap_add_spec(r.0, 1),
            final(self).tasks == old(self).tasks,
            final(self).ready_queue == old(self).ready_queue,
            final(self).finished_tasks == old(self).finished_tasks,
            final(self).current_task == old(self).current_task,
            final(self).idle_task == old(self).idle_task,
    {
        let n = self.tasks.len();
        let c = self.tid_counter;
        let mut m: usize = 0;
        while m <= n
            invariant
                m <= n + 1,
                n == self.tasks@.len(),
                n < usize::MAX,
                c == self.tid_counter,
                self.tasks == old(self).tasks,
                self.ready_queue == old(self).ready_queue,
                self.finished_tasks == old(self).finished_tasks,
                self.current_task == old(self).current_task,
                self.idle_task == old(self).idle_task,
                self.tid_counter == old(self).tid_counter,
                distinct_ids(self.tasks@),
                forall|j: int|
                    0 <= j < m ==> has_id(
                        self.tasks@,
                        TaskId(#[trigger] wrap_add_spec(c, j as usize)),
                    ),
            decreases n + 1 - m,
        {
            let cand = wrap_add(c, m);
            if find_task(&self.tasks, TaskId(cand)).is_none() {
                self.tid_counter = wrap_add(cand, 1);
                proof {
                    let mi: int = m as int;
                    assert(0 <= mi <= old(self).tasks@.len());
                    assert(cand == wrap_add_spec(old(self).tid_counter, mi as usize));
                    assert(forall|j: int|
                        0 <= j < mi ==> has_id(
                            old(self).tasks@,
                            TaskId(#[trigger] wrap_add_spec(old(self).tid_counter, j as usize)),
                        ));
                }
                return TaskId(cand);
            }
            m = m + 1;
        }
        proof {
            // Pigeonhole: n + 1 distinct candidate ids cannot all live in a
            // table of n tasks.
            let tg = self.tasks@;
            let f = Seq::new((n + 1) as nat, |j: int| idx_of(tg, TaskId(wrap_add_spec(c, j as usize))));
            assert forall|j1: int, j2: int| 0 <= j1 < j2 < f.len() implies f[j1] != f[j2] by {
                let c1 = wrap_add_spec(c, j1 as usize);
                let c2 = wrap_add_spec(c, j2 as usize);
                assert(c1 != c2);
                assert(has_id(tg, TaskId(c1)) && has_id(tg, TaskId(c2)));
                assert(tg[idx_of(tg, TaskId(c1))].id == TaskId(c1));
                assert(tg[idx_of(tg, TaskId(c2))].id == TaskId(c2));
            }
            assert(f.no_duplicates());
            f.unique_seq_to_set();
            assert forall|x: int| f.to_set().contains(x) implies set_int_range(
                0,
                n as int,
            ).contains(x) by {
                let j = choose|j: int| 0 <= j < f.len() && f[j] == x;
                assert(has_id(tg, TaskId(wrap_add_spec(c, j as usize))));
            }
            lemma_int_range(0, n as int);
            lemma_len_subset(f.to_set(), set_int_range(0, n as int));
            assert(false);
        }
        TaskId(0)
    }

    /// One-time bootstrap: build the idle task (task 0) with the lowest
    /// priority, install it as both the current and the idle task, and
    /// return the byte offset of the bottom of its stack, which the platform
    /// hands to its boot-stack replacement primitive.
    pub fn add_idle_task(&mut self) -> (r: usize)
        requires
            old(self).wf(),
            !old(self).inited(),
        ensures
            final(self).wf(),
            final(self).inited(),
            final(self).spec_current() == Some(TaskId(0)),
            final(self).spec_idle() == Some(TaskId(0)),
            final(self).table().len() == 1,
            final(self).table()[0].id == TaskId(0),
            final(self).table()[0].status == TaskStatus::TaskIdle,
            final(self).table()[0].prio == Priority(LOW_PRIO_VALUE),
            final(self).table()[0].base_prio == Priority(LOW_PRIO_VALUE),
            final(self).table()[0].penalty == 0u8,
            final(self).levels() == old(self).levels(),
            final(self).finished().len() == 0,
            r == 0,
    {
        let tid = self.get_tid();
        proof {
            assert(tid.0 == wrap_add_spec(0, 0));
        }
        let idle = Task::new(tid, TaskStatus::TaskIdle, Priority(LOW_PRIO_VALUE), 0);
        let bottom = idle.stack.bottom();
        let ghost gidle = idle;
        self.tasks.push(idle);
        self.idle_task = Some(tid);
        self.current_task = Some(tid);
        proof {
            assert(self.tasks@ =~= Seq::<Task>::empty().push(gidle));
            assert(self.tasks@[0] == gidle);
            assert(has_id(self.tasks@, tid));
            assert(idx_of(self.tasks@, tid) == 0);
            assert(queue_members_ok(self.tasks@, self.ready_queue@));
            assert(fin_members_ok(self.tasks@, self.finished_tasks@));
            assert(all_placed(self.tasks@, self.ready_queue@, self.finished_tasks@, tid, tid));
        }
        bottom
    }

    /// Create a task that will start at entry point `func`: allocate a fresh
    /// id and a stack, build the initial frame, insert the control block
    /// into the task table, and queue it ready at priority `prio`.
    pub fn spawn(&mut self, func: u64, prio: Priority) -> (r: TaskId)
        requires
            old(self).wf(),
            old(self).inited(),
            old(self).table().len() < usize::MAX,
        ensures
            final(self).wf(),
            final(self).inited(),
            !has_id(old(self).table(), r),
            exists|m: int|
                0 <= m <= old(self).table().len() && r.0 == #[trigger] wrap_add_spec(
                    old(self).counter(),
                    m as usize,
                ) && (forall|j: int|
                    0 <= j < m ==> has_id(
                        old(self).table(),
                        TaskId(#[trigger] wrap_add_spec(old(self).counter(), j as usize)),
                    )),
            final(self).table().len() == old(self).table().len() + 1,
            final(self).table().subrange(0, old(self).table().len() as int) == old(self).table(),
            final(self).table().last().id == r,
            final(self).table().last().status == TaskStatus::TaskReady,
            final(self).table().last().prio == prio,
            final(self).table().last().base_prio == prio,
            final(self).table().last().penalty == 0u8,
            final(self).table().last().last_stack_pointer == INITIAL_STACK_POINTER,
            final(self).table().last().stack@ == initial_stack_words(func),
            final(self).levels() == old(self).levels().update(
                clamp_level(prio),
                old(self).levels()[clamp_level(prio)].push(r),
            ),
            final(self).spec_current() == old(self).spec_current(),
            final(self).spec_idle() == old(self).spec_idle(),
            final(self).finished() == old(self).finished(),
    {
        let id = self.get_tid();
        proof {
            let m = choose|m: int|
                0 <= m <= old(self).tasks@.len() && id.0 == #[trigger] wrap_add_spec(
                    old(self).tid_counter,
                    m as usize,
                ) && (forall|j: int|
                    0 <= j < m ==> has_id(
                        old(self).tasks@,
                        TaskId(#[trigger] wrap_add_spec(old(self).tid_counter, j as usize)),
                    ));
            assert(id.0 == wrap_add_spec(old(self).counter(), m as usize));
        }
        let mut task = Task::new(id, TaskStatus::TaskReady, prio, 0);
        task.build_stack_frame(func);
        self.ready_queue.push(prio, id);
        let ghost gtask = task;
        let ghost pre_tasks = self.tasks@;
        let ghost pre_levels = old(self).ready_queue@;
        self.tasks.push(task);
        proof {
            let nt = self.tasks@;
            let nl = self.ready_queue@;
            let cl = clamp_level(prio);
            lemma_table_push(pre_tasks, gtask);
            assert(nt == pre_tasks.push(gtask));
            assert(nt.last() == gtask);
            assert(nt.subrange(0, pre_tasks.len() as int) =~= pre_tasks);
            let cur = oid(self.current_task);
            let idle = oid(self.idle_task);
            // fresh id differs from every queued id and every listed id
            assert forall|l: int, i: int|
                0 <= l < nl.len() && 0 <= i < nl[l].len() implies has_id(
                nt,
                #[trigger] nl[l][i],
            ) && task_of(nt, nl[l][i]).status == TaskStatus::TaskReady by {
                if l == cl && i == pre_levels[cl].len() {
                    assert(nl[l][i] == id);
                } else {
                    assert(nl[l][i] == pre_levels[l][i]);
                    assert(has_id(pre_tasks, pre_levels[l][i]));
                }
            }
            assert(queues_distinct(nl)) by {
                assert forall|l: int, i: int, l2: int, i2: int|
                    0 <= l < nl.len() && 0 <= i < nl[l].len() && 0 <= l2 < nl.len() && 0 <= i2
                        < nl[l2].len() && (l != l2 || i != i2) implies #[trigger] nl[l][i]
                    != #[trigger] nl[l2][i2] by {
                    if l == cl && i == pre_levels[cl].len() {
                        assert(nl[l][i] == id);
                        assert(nl[l2][i2] == pre_levels[l2][i2]);
                        assert(has_id(pre_tasks, pre_levels[l2][i2]));
                    } else if l2 == cl && i2 == pre_levels[cl].len() {
                        assert(nl[l2][i2] == id);
                        assert(nl[l][i] == pre_levels[l][i]);
                        assert(has_id(pre_tasks, pre_levels[l][i]));
                    } else {
                        assert(nl[l][i] == pre_levels[l][i]);
                        assert(nl[l2][i2] == pre_levels[l2][i2]);
                    }
                }
            }
            assert(fin_members_ok(nt, self.finished_tasks@)) by {
                assert forall|i: int| 0 <= i < self.finished_tasks@.len() implies has_id(
                    nt,
                    #[trigger] self.finished_tasks@[i],
                ) && task_of(nt, self.finished_tasks@[i]).status == TaskStatus::TaskInvalid by {
                    assert(has_id(pre_tasks, self.finished_tasks@[i]));
                }
            }
            assert(all_placed(nt, nl, self.finished_tasks@, cur, idle)) by {
                assert forall|i: int| 0 <= i < nt.len() implies placed(
                    #[trigger] nt[i],
                    cur,
                    idle,
                    nl,
                    self.finished_tasks@,
                ) by {
                    if i < pre_tasks.len() {
                        assert(placed(pre_tasks[i], cur, idle, pre_levels, self.finished_tasks@));
                        if pre_tasks[i].status == TaskStatus::TaskReady {
                            let l = choose|l: int|
                                0 <= l < pre_levels.len() && #[trigger] pre_levels[l].contains(
                                    pre_tasks[i].id,
                                );
                            let w = choose|w: int|
                                0 <= w < pre_levels[l].len() && pre_levels[l][w] == pre_tasks[i].id;
                            assert(nl[l][w] == pre_tasks[i].id);
                            assert(nl[l].contains(pre_tasks[i].id));
                        }
                    } else {
                        assert(nt[i] == gtask);
                        assert(nl[cl][pre_levels[cl].len() as int] == id);
                        assert(nl[cl].contains(id));
                    }
                }
            }
            assert(live_state(nt, nl, self.finished_tasks@, cur, idle));
        }
        id
    }

    /// Reap step: pop at most one id from the reclamation list and, if its
    /// task is still tracked, remove the control block (and with it the
    /// stack) from the table.
    fn reap(&mut self)
        requires
            old(self).wf(),
            old(self).inited(),
        ensures
            final(self).wf(),
            final(self).inited(),
            final(self).tasks@ == reap_tasks(old(self).tasks@, old(self).finished_tasks@),
            final(self).finished_tasks@ == reap_fin(old(self).finished_tasks@),
            final(self).ready_queue == old(self).ready_queue,
            final(self).current_task == old(self).current_task,
            final(self).idle_task == old(self).idle_task,
            final(self).tid_counter == old(self).tid_counter,
    {
        match self.finished_tasks.pop_front() {
            None => {},
            Some(id) => {
                match find_task(&self.tasks, id) {
                    Some(i) => {
                        proof {
                            lemma_idx_of(self.tasks@, i as int);
                        }
                        let _removed = self.tasks.remove(i);
                        proof {
                            let ot = old(self).tasks@;
                            let nt = self.tasks@;
                            let cur = oid(self.current_task);
                            let idle = oid(self.idle_task);
                            lemma_table_remove(ot, i as int);
                            assert(task_of(ot, id).status == TaskStatus::TaskInvalid);
                            assert(id != cur && id != idle) by {
                                if id == cur {
                                    assert(task_of(ot, cur).status == TaskStatus::TaskInvalid);
                                }
                                if id == idle {
                                    assert(task_of(ot, idle).status == TaskStatus::TaskInvalid);
                                }
                            }
                            assert(queue_members_ok(nt, self.ready_queue@)) by {
                                assert forall|l: int, k: int|
                                    0 <= l < self.ready_queue@.len() && 0 <= k
                                        < self.ready_queue@[l].len() implies has_id(
                                    nt,
                                    #[trigger] self.ready_queue@[l][k],
                                ) && task_of(nt, self.ready_queue@[l][k]).status
                                    == TaskStatus::TaskReady by {
                                    let qid = self.ready_queue@[l][k];
                                    assert(has_id(ot, qid) && task_of(ot, qid).status
                                        == TaskStatus::TaskReady);
                                    assert(qid != id);
                                }
                            }
                            assert(fin_members_ok(nt, self.finished_tasks@));
                            assert(all_placed(
                                nt,
                                self.ready_queue@,
                                self.finished_tasks@,
                                cur,
                                idle,
                            )) by {
                                assert forall|k: int| 0 <= k < nt.len() implies placed(
                                    #[trigger] nt[k],
                                    cur,
                                    idle,
                                    self.ready_queue@,
                                    self.finished_tasks@,
                                ) by {
                                    let t = nt[k];
                                    let k1: int = if k < i as int {
                                        k
                                    } else {
                                        k + 1
                                    };
                                    assert(t == ot[k1]);
                                    assert(placed(
                                        ot[k1],
                                        cur,
                                        idle,
                                        self.ready_queue@,
                                        old(self).finished_tasks@,
                                    ));
                                    if t.status == TaskStatus::TaskInvalid {
                                        assert(old(self).finished_tasks@.contains(t.id));
                                        let w = choose|w: int|
                                            0 <= w < old(self).finished_tasks@.len() && old(
                                                self,
                                            ).finished_tasks@[w] == t.id;
                                        assert(w == 0);
                                        assert(t.id == id);
                                        lemma_idx_of(ot, k1);
                                        assert(false);
                                    }
                                }
                            }
                            assert(live_state(
                                nt,
                                self.ready_queue@,
                                self.finished_tasks@,
                                cur,
                                idle,
                            ));
                        }
                    },
                    None => {
                        proof {
                            assert(has_id(self.tasks@, id));
                            assert(false);
                        }
                    },
                }
            },
        }
    }

    /// The first half of a scheduling pass: bump the previous task's
    /// penalty, recompute its effective priority, and run the aging sweep
    /// over the whole run queue.  Returns the previous task's status at
    /// entry, the preemption threshold, and the previous task's bumped
    /// effective priority.
    #[verifier::rlimit(100)]
    #[verifier::spinoff_prover]
    fn select_prepare(&mut self) -> (r: (TaskStatus, Priority, Priority))
        requires
            old(self).wf(),
            old(self).inited(),
        ensures
            final(self).current_task == old(self).current_task,
            final(self).idle_task == old(self).idle_task,
            final(self).finished_tasks == old(self).finished_tasks,
            final(self).tid_counter == old(self).tid_counter,
            final(self).ready_queue.wf(),
            ({
                let cur = oid(old(self).current_task);
                let idle = oid(old(self).idle_task);
                let ids = concat_all(old(self).ready_queue@);
                let t1 = bump_current(old(self).tasks@, cur);
                &&& final(self).tasks@ == sweep_table(t1, ids)
                &&& final(self).ready_queue@ == sweep_levels(t1, ids)
                &&& wf_state(
                    final(self).tasks@,
                    final(self).ready_queue@,
                    old(self).finished_tasks@,
                    Some(cur),
                    Some(idle),
                    old(self).tid_counter,
                )
                &&& r.0 == task_of(old(self).tasks@, cur).status
                &&& task_of(final(self).tasks@, cur) == bump_task(task_of(old(self).tasks@, cur))
                &&& r.1.0 as int == (if r.0 == TaskStatus::TaskRunning {
                    task_of(old(self).tasks@, cur).prio.0 as int
                } else {
                    LOW_PRIO_VALUE as int
                })
                &&& r.2 == bump_task(task_of(old(self).tasks@, cur)).prio
                &&& ({
                    let nl = final(self).ready_queue@;
                    forall|l: int, i: int|
                        0 <= l < nl.len() && 0 <= i < nl[l].len() ==> #[trigger] nl[l][i] != cur
                })
            }),
    {
        let cur_id = match self.current_task {
            Some(id) => id,
            None => {
                proof {
                    assert(false);
                }
                TaskId(0)
            },
        };
        let ghost idle_id = oid(old(self).idle_task);
        let ghost t0 = self.tasks@;
        let ghost l0 = self.ready_queue@;
        let ghost fin0 = self.finished_tasks@;
        let ghost ids = concat_all(l0);
        let cidx = match find_task(&self.tasks, cur_id) {
            Some(i) => i,
            None => {
                proof {
                    assert(false);
                }
                0
            },
        };
        proof {
            lemma_idx_of(t0, cidx as int);
            assert forall|l: int, i: int|
                0 <= l < l0.len() && 0 <= i < l0[l].len() implies #[trigger] l0[l][i]
                != cur_id by {
                if l0[l][i] == cur_id {
                    assert(task_of(t0, cur_id).status == TaskStatus::TaskReady);
                }
            }
        }
        let status = self.tasks[cidx].status;
        let threshold: Priority = if status == TaskStatus::TaskRunning {
            self.tasks[cidx].prio
        } else {
            Priority(LOW_PRIO_VALUE)
        };
        let mut ct = self.tasks.remove(cidx);
        ct.penalty = if ct.penalty <= 253 {
            ct.penalty + 2
        } else {
            255
        };
        ct.prio = compute_eff_prio(ct.base_prio, ct.penalty);
        let back_prio = ct.prio;
        let ghost gct = ct;
        self.tasks.insert(cidx, ct);
        let ghost t1 = self.tasks@;
        proof {
            assert(t1 =~= t0.update(cidx as int, gct));
            assert(gct == bump_task(task_of(t0, cur_id)));
            assert(t1 == bump_current(t0, cur_id));
            lemma_wf_state_table_compat(
                t0,
                t1,
                l0,
                fin0,
                Some(cur_id),
                Some(idle_id),
                self.tid_counter,
            );
            lemma_concat_all_distinct(l0);
            lemma_concat_all_membership(l0);
            assert forall|k: int| 0 <= k < ids.len() implies has_id(t1, #[trigger] ids[k]) by {
                assert(concat_all(l0).contains(ids[k]));
                assert(queued_somewhere(l0, ids[k]));
                let l = choose|l: int| 0 <= l < l0.len() && #[trigger] l0[l].contains(ids[k]);
                let w = choose|w: int| 0 <= w < l0[l].len() && l0[l][w] == ids[k];
                assert(has_id(t1, l0[l][w]));
            }
        }
        self.ready_queue.update_prios(&mut self.tasks);
        let ghost t2 = self.tasks@;
        let ghost l2 = self.ready_queue@;
        proof {
            assert(t2 =~= sweep_table(t1, ids));
            assert(l2 =~= sweep_levels(t1, ids));
            lemma_wf_state_table_compat(
                t1,
                t2,
                l0,
                fin0,
                Some(cur_id),
                Some(idle_id),
                self.tid_counter,
            );
            assert(!ids.contains(cur_id)) by {
                if ids.contains(cur_id) {
                    let k = choose|k: int| 0 <= k < ids.len() && ids[k] == cur_id;
                    assert(queued_somewhere(l0, cur_id));
                    let l = choose|l: int| 0 <= l < l0.len() && #[trigger] l0[l].contains(cur_id);
                    let w = choose|w: int| 0 <= w < l0[l].len() && l0[l][w] == cur_id;
                }
            }
            assert(task_of(t2, cur_id) == bump_task(task_of(t0, cur_id))) by {
                let k = idx_of(t1, cur_id);
                assert(t1[k].id == cur_id);
                assert(t2[k] == t1[k]);
                lemma_idx_of(t2, k);
            }
            assert(queues_distinct(l2)) by {
                assert forall|l: int, i: int, lb: int, i2: int|
                    0 <= l < l2.len() && 0 <= i < l2[l].len() && 0 <= lb < l2.len() && 0 <= i2
                        < l2[lb].len() && (l != lb || i != i2) implies #[trigger] l2[l][i]
                    != #[trigger] l2[lb][i2] by {
                    lemma_sweep_level_props(t1, ids, l);
                    lemma_sweep_level_props(t1, ids, lb);
                }
            }
            assert(queue_members_ok(t2, l2)) by {
                assert forall|l: int, i: int|
                    0 <= l < l2.len() && 0 <= i < l2[l].len() implies has_id(
                    t2,
                    #[trigger] l2[l][i],
                ) && task_of(t2, l2[l][i]).status == TaskStatus::TaskReady by {
                    lemma_sweep_level_props(t1, ids, l);
                    let x = l2[l][i];
                    assert(ids.contains(x));
                    assert(queued_somewhere(l0, x));
                    let lw = choose|lw: int| 0 <= lw < l0.len() && #[trigger] l0[lw].contains(x);
                    let w = choose|w: int| 0 <= w < l0[lw].len() && l0[lw][w] == x;
                    assert(has_id(t0, l0[lw][w]) && task_of(t0, l0[lw][w]).status
                        == TaskStatus::TaskReady);
                }
            }
            assert(all_placed(t2, l2, fin0, cur_id, idle_id)) by {
                assert forall|i: int| 0 <= i < t2.len() implies placed(
                    #[trigger] t2[i],
                    cur_id,
                    idle_id,
                    l2,
                    fin0,
                ) by {
                    assert(placed(t0[i], cur_id, idle_id, l0, fin0));
                    assert(t2[i].id == t0[i].id && t2[i].status == t0[i].status);
                    if t0[i].status == TaskStatus::TaskReady {
                        let lw = choose|lw: int|
                            0 <= lw < l0.len() && #[trigger] l0[lw].contains(t0[i].id);
                        let w = choose|w: int| 0 <= w < l0[lw].len() && l0[lw][w] == t0[i].id;
                        assert(ids.contains(t0[i].id));
                        lemma_sweep_level_contains(t1, ids, t0[i].id);
                        let al = crate::queue::aged_level(t1, t0[i].id);
                        assert(l2[al].contains(t0[i].id));
                        assert(queued_somewhere(l2, t0[i].id));
                    }
                }
            }
            assert(live_state(t2, l2, fin0, cur_id, idle_id));
            assert forall|l: int, i: int|
                0 <= l < l2.len() && 0 <= i < l2[l].len() implies #[trigger] l2[l][i]
                != cur_id by {
                if l2[l][i] == cur_id {
                    assert(task_of(t2, cur_id).status == TaskStatus::TaskReady);
                    assert(task_of(t2, cur_id).status == task_of(t0, cur_id).status);
                }
            }
        }
        (status, threshold, back_prio)
    }

    /// After the sweep, selecting the best task and re-queueing the previous,
    /// still-running task keeps the state well-formed.
    proof fn lemma_select_running(
        t2: Seq<Task>,
        l2: Seq<Seq<TaskId>>,
        fin: Seq<TaskId>,
        cur: TaskId,
        idle: TaskId,
        best: int,
        back: int,
        ctr: usize,
    )
        requires
            wf_state(t2, l2, fin, Some(cur), Some(idle), ctr),
            fin.len() == 0,
            0 <= best < l2.len(),
            l2[best].len() > 0,
            0 <= back < l2.len(),
            task_of(t2, cur).status == TaskStatus::TaskRunning,
            forall|l: int, i: int|
                0 <= l < l2.len() && 0 <= i < l2[l].len() ==> #[trigger] l2[l][i] != cur,
        ensures
            ({
                let next = l2[best][0];
                let l3 = l2.update(best, l2[best].drop_first());
                let t3 = table_set_status(t2, next, TaskStatus::TaskRunning);
                let t4 = table_set_status(t3, cur, TaskStatus::TaskReady);
                let l4 = l3.update(back, l3[back].push(cur));
                wf_state(t4, l4, fin, Some(next), Some(idle), ctr)
            }),
    {
        let next = l2[best][0];
        let l3 = l2.update(best, l2[best].drop_first());
        let t3 = table_set_status(t2, next, TaskStatus::TaskRunning);
        let t4 = table_set_status(t3, cur, TaskStatus::TaskReady);
        let l4 = l3.update(back, l3[back].push(cur));
        assert(l2[best].contains(next));
        assert(has_id(t2, next) && task_of(t2, next).status == TaskStatus::TaskReady);
        assert(next != cur);
        assert(next != idle) by {
            if next == idle {
                assert(task_of(t2, idle).status == TaskStatus::TaskIdle);
            }
        }
        assert(cur != idle) by {
            if cur == idle {
                assert(task_of(t2, cur).status == TaskStatus::TaskIdle);
            }
        }
        lemma_set_status_lookup(t2, next, TaskStatus::TaskRunning);
        lemma_set_status_lookup(t3, cur, TaskStatus::TaskReady);
        lemma_queues_distinct_pop(l2, best);
        assert forall|l: int, i: int|
            0 <= l < l3.len() && 0 <= i < l3[l].len() implies #[trigger] l3[l][i] != cur by {
            let j: int = if l == best {
                i + 1
            } else {
                i
            };
            assert(l3[l][i] == l2[l][j]);
        }
        lemma_queues_distinct_push(l3, back, cur);
        assert(queue_members_ok(t4, l4)) by {
            assert forall|l: int, i: int|
                0 <= l < l4.len() && 0 <= i < l4[l].len() implies has_id(t4, #[trigger] l4[l][i])
                && task_of(t4, l4[l][i]).status == TaskStatus::TaskReady by {
                if l == back && i == l3[back].len() {
                    assert(l4[l][i] == cur);
                } else {
                    assert(l4[l][i] == l3[l][i]);
                    let j: int = if l == best {
                        i + 1
                    } else {
                        i
                    };
                    assert(l3[l][i] == l2[l][j]);
                    let x = l2[l][j];
                    assert(has_id(t2, x) && task_of(t2, x).status == TaskStatus::TaskReady);
                    assert(x != next && x != cur);
                }
            }
        }
        assert(all_placed(t4, l4, fin, next, idle)) by {
            assert forall|i: int| 0 <= i < t4.len() implies placed(
                #[trigger] t4[i],
                next,
                idle,
                l4,
                fin,
            ) by {
                let x = t4[i];
                assert(x.id == t2[i].id && t2[i] == task_of(t2, t2[i].id)) by {
                    lemma_idx_of(t2, i);
                }
                if x.id == next {
                    assert(x == task_of(t4, next));
                } else if x.id == cur {
                    assert(x == task_of(t4, cur));
                    assert(l4[back][l3[back].len() as int] == cur);
                    assert(l4[back].contains(cur));
                    assert(queued_somewhere(l4, cur));
                } else {
                    assert(x == task_of(t4, x.id));
                    assert(task_of(t4, x.id) == task_of(t2, x.id));
                    assert(placed(t2[i], cur, idle, l2, fin));
                    if x.status == TaskStatus::TaskReady {
                        lemma_queued_somewhere_pop(l2, best, x.id);
                        lemma_queued_somewhere_push(l3, back, cur, x.id);
                    }
                }
            }
        }
        assert(live_state(t4, l4, fin, next, idle));
    }

    /// After the sweep, selecting the best task and invalidating the
    /// previous, finished task keeps the state well-formed.
    proof fn lemma_select_finished(
        t2: Seq<Task>,
        l2: Seq<Seq<TaskId>>,
        fin: Seq<TaskId>,
        cur: TaskId,
        idle: TaskId,
        best: int,
        ctr: usize,
    )
        requires
            wf_state(t2, l2, fin, Some(cur), Some(idle), ctr),
            fin.len() == 0,
            0 <= best < l2.len(),
            l2[best].len() > 0,
            task_of(t2, cur).status == TaskStatus::TaskFinished,
        ensures
            ({
                let next = l2[best][0];
                let l3 = l2.update(best, l2[best].drop_first());
                let t3 = table_set_status(t2, next, TaskStatus::TaskRunning);
                let t4 = table_set_status(t3, cur, TaskStatus::TaskInvalid);
                wf_state(t4, l3, fin.push(cur), Some(next), Some(idle), ctr)
            }),
    {
        let next = l2[best][0];
        let l3 = l2.update(best, l2[best].drop_first());
        let t3 = table_set_status(t2, next, TaskStatus::TaskRunning);
        let t4 = table_set_status(t3, cur, TaskStatus::TaskInvalid);
        let f4 = fin.push(cur);
        assert(l2[best].contains(next));
        assert(has_id(t2, next) && task_of(t2, next).status == TaskStatus::TaskReady);
        assert(next != cur);
        assert(next != idle) by {
            if next == idle {
                assert(task_of(t2, idle).status == TaskStatus::TaskIdle);
            }
        }
        assert(cur != idle) by {
            if cur == idle {
                assert(task_of(t2, cur).status == TaskStatus::TaskIdle);
            }
        }
        lemma_set_status_lookup(t2, next, TaskStatus::TaskRunning);
        lemma_set_status_lookup(t3, cur, TaskStatus::TaskInvalid);
        lemma_queues_distinct_pop(l2, best);
        assert(f4[0] == cur);
        assert(queue_members_ok(t4, l3)) by {
            assert forall|l: int, i: int|
                0 <= l < l3.len() && 0 <= i < l3[l].len() implies has_id(t4, #[trigger] l3[l][i])
                && task_of(t4, l3[l][i]).status == TaskStatus::TaskReady by {
                let j: int = if l == best {
                    i + 1
                } else {
                    i
                };
                assert(l3[l][i] == l2[l][j]);
                let x = l2[l][j];
                assert(has_id(t2, x) && task_of(t2, x).status == TaskStatus::TaskReady);
                assert(x != next && x != cur);
            }
        }
        assert(fin_members_ok(t4, f4)) by {
            assert forall|i: int| 0 <= i < f4.len() implies has_id(t4, #[trigger] f4[i])
                && task_of(t4, f4[i]).status == TaskStatus::TaskInvalid by {
                assert(f4[i] == cur);
            }
        }
        assert(all_placed(t4, l3, f4, next, idle)) by {
            assert forall|i: int| 0 <= i < t4.len() implies placed(
                #[trigger] t4[i],
                next,
                idle,
                l3,
                f4,
            ) by {
                let x = t4[i];
                assert(x.id == t2[i].id && t2[i] == task_of(t2, t2[i].id)) by {
                    lemma_idx_of(t2, i);
                }
                if x.id == next {
                    assert(x == task_of(t4, next));
                } else if x.id == cur {
                    assert(x == task_of(t4, cur));
                    assert(f4.contains(cur));
                } else {
                    assert(x == task_of(t4, x.id));
                    assert(task_of(t4, x.id) == task_of(t2, x.id));
                    assert(placed(t2[i], cur, idle, l2, fin));
                    if x.status == TaskStatus::TaskReady {
                        assert(x.id != l2[best][0]);
                        lemma_queued_somewhere_pop(l2, best, x.id);
                    }
                    if x.status == TaskStatus::TaskInvalid {
                        assert(fin.contains(x.id));
                    }
                }
            }
        }
        assert(live_state(t4, l3, f4, next, idle));
    }

    /// After the sweep, selecting the best task while the idle task was
    /// current keeps the state well-formed.
    proof fn lemma_select_idle_current(
        t2: Seq<Task>,
        l2: Seq<Seq<TaskId>>,
        fin: Seq<TaskId>,
        cur: TaskId,
        idle: TaskId,
        best: int,
        ctr: usize,
    )
        requires
            wf_state(t2, l2, fin, Some(cur), Some(idle), ctr),
            0 <= best < l2.len(),
            l2[best].len() > 0,
            task_of(t2, cur).status == TaskStatus::TaskIdle,
            cur == idle,
        ensures
            ({
                let next = l2[best][0];
                let l3 = l2.update(best, l2[best].drop_first());
                let t3 = table_set_status(t2, next, TaskStatus::TaskRunning);
                wf_state(t3, l3, fin, Some(next), Some(idle), ctr)
            }),
    {
        let next = l2[best][0];
        let l3 = l2.update(best, l2[best].drop_first());
        let t3 = table_set_status(t2, next, TaskStatus::TaskRunning);
        assert(l2[best].contains(next));
        assert(has_id(t2, next) && task_of(t2, next).status == TaskStatus::TaskReady);
        assert(next != idle) by {
            if next == idle {
                assert(task_of(t2, idle).status == TaskStatus::TaskIdle);
            }
        }
        lemma_set_status_lookup(t2, next, TaskStatus::TaskRunning);
        lemma_queues_distinct_pop(l2, best);
        assert(queue_members_ok(t3, l3)) by {
            assert forall|l: int, i: int|
                0 <= l < l3.len() && 0 <= i < l3[l].len() implies has_id(t3, #[trigger] l3[l][i])
                && task_of(t3, l3[l][i]).status == TaskStatus::TaskReady by {
                let j: int = if l == best {
                    i + 1
                } else {
                    i
                };
                assert(l3[l][i] == l2[l][j]);
                let x = l2[l][j];
                assert(has_id(t2, x) && task_of(t2, x).status == TaskStatus::TaskReady);
                assert(x != next && x != cur);
            }
        }
        assert(fin_members_ok(t3, fin)) by {
            assert forall|i: int| 0 <= i < fin.len() implies has_id(t3, #[trigger] fin[i])
                && task_of(t3, fin[i]).status == TaskStatus::TaskInvalid by {
                assert(has_id(t2, fin[i]) && task_of(t2, fin[i]).status
                    == TaskStatus::TaskInvalid);
                assert(fin[i] != next);
            }
        }
        assert(all_placed(t3, l3, fin, next, idle)) by {
            assert forall|i: int| 0 <= i < t3.len() implies placed(
                #[trigger] t3[i],
                next,
                idle,
                l3,
                fin,
            ) by {
                let x = t3[i];
                assert(x.id == t2[i].id && t2[i] == task_of(t2, t2[i].id)) by {
                    lemma_idx_of(t2, i);
                }
                if x.id == next {
                    assert(x == task_of(t3, next));
                } else {
                    assert(x == task_of(t3, x.id));
                    assert(task_of(t3, x.id) == task_of(t2, x.id));
                    assert(placed(t2[i], cur, idle, l2, fin));
                    if x.status == TaskStatus::TaskReady {
                        assert(x.id != l2[best][0]);
                        lemma_queued_somewhere_pop(l2, best, x.id);
                    }
                }
            }
        }
        assert(live_state(t3, l3, fin, next, idle));
    }

    /// When nothing is eligible and the previous task has finished, falling
    /// back to the idle task keeps the state well-formed.
    proof fn lemma_select_fallback(
        t2: Seq<Task>,
        l2: Seq<Seq<TaskId>>,
        fin: Seq<TaskId>,
        cur: TaskId,
        idle: TaskId,
        ctr: usize,
    )
        requires
            wf_state(t2, l2, fin, Some(cur), Some(idle), ctr),
            fin.len() == 0,
            task_of(t2, cur).status == TaskStatus::TaskFinished,
        ensures
            wf_state(
                table_set_status(t2, cur, TaskStatus::TaskInvalid),
                l2,
                fin.push(cur),
                Some(idle),
                Some(idle),
                ctr,
            ),
    {
        let t4 = table_set_status(t2, cur, TaskStatus::TaskInvalid);
        let f4 = fin.push(cur);
        assert(cur != idle) by {
            if cur == idle {
                assert(task_of(t2, cur).status == TaskStatus::TaskIdle);
            }
        }
        lemma_set_status_lookup(t2, cur, TaskStatus::TaskInvalid);
        assert(f4[0] == cur);
        assert(queue_members_ok(t4, l2)) by {
            assert forall|l: int, i: int|
                0 <= l < l2.len() && 0 <= i < l2[l].len() implies has_id(t4, #[trigger] l2[l][i])
                && task_of(t4, l2[l][i]).status == TaskStatus::TaskReady by {
                let x = l2[l][i];
                assert(has_id(t2, x) && task_of(t2, x).status == TaskStatus::TaskReady);
                assert(x != cur);
            }
        }
        assert(fin_members_ok(t4, f4)) by {
            assert forall|i: int| 0 <= i < f4.len() implies has_id(t4, #[trigger] f4[i])
                && task_of(t4, f4[i]).status == TaskStatus::TaskInvalid by {
                assert(f4[i] == cur);
            }
        }
        assert(all_placed(t4, l2, f4, idle, idle)) by {
            assert forall|i: int| 0 <= i < t4.len() implies placed(
                #[trigger] t4[i],
                idle,
                idle,
                l2,
                f4,
            ) by {
                let x = t4[i];
                assert(x.id == t2[i].id && t2[i] == task_of(t2, t2[i].id)) by {
                    lemma_idx_of(t2, i);
                }
                if x.id == cur {
                    assert(x == task_of(t4, cur));
                    assert(f4.contains(cur));
                } else {
                    assert(x == task_of(t4, x.id));
                    assert(task_of(t4, x.id) == task_of(t2, x.id));
                    assert(placed(t2[i], cur, idle, l2, fin));
                }
            }
        }
        assert(live_state(t4, l2, f4, idle, idle));
    }

    /// Select the next task to run, carrying out the penalty bump on the
    /// previous task, the aging sweep over the whole run queue, the
    /// preemption-gated pop, and all hand-off bookkeeping.  Returns the
    /// switch to perform, or `None` when the current task keeps running.
    #[verifier::rlimit(100)]
    #[verifier::spinoff_prover]
    fn get_next_task(&mut self) -> (r: Option<TaskSwitch>)
        requires
            old(self).wf(),
            old(self).inited(),
            old(self).finished_tasks@.len() == 0,
        ensures
            final(self).wf(),
            final(self).inited(),
            final(self).idle_task == old(self).idle_task,
            final(self).tid_counter == old(self).tid_counter,
            ({
                let (t, lv, f, c, sw) = select_result(
                    old(self).tasks@,
                    old(self).ready_queue@,
                    old(self).finished_tasks@,
                    oid(old(self).current_task),
                    oid(old(self).idle_task),
                );
                &&& final(self).tasks@ == t
                &&& final(self).ready_queue@ == lv
                &&& final(self).finished_tasks@ == f
                &&& final(self).current_task == Some(c)
                &&& r == sw
            }),
    {
        let cur_id = match self.current_task {
            Some(id) => id,
            None => {
                proof {
                    assert(false);
                }
                TaskId(0)
            },
        };
        let idle_id = match self.idle_task {
            Some(id) => id,
            None => {
                proof {
                    assert(false);
                }
                TaskId(0)
            },
        };
        let (status, threshold, back_prio) = self.select_prepare();
        let ghost t2 = self.tasks@;
        let ghost l2 = self.ready_queue@;
        let ghost fin0 = self.finished_tasks@;
        let ghost ctr = self.tid_counter;
        let popped = self.ready_queue.pop_with_prio(threshold);
        match popped {
            Some(next) => {
                let ghost best = first_busy(l2);
                let ghost l3 = self.ready_queue@;
                proof {
                    lemma_first_busy(l2);
                    assert(0 <= best < NO_PRIORITIES && l2[best].len() > 0);
                    assert(next == l2[best][0]);
                    assert(has_id(t2, next) && task_of(t2, next).status == TaskStatus::TaskReady);
                    assert(next != cur_id);
                }
                let nidx = match find_task(&self.tasks, next) {
                    Some(i) => i,
                    None => {
                        proof {
                            assert(false);
                        }
                        0
                    },
                };
                proof {
                    lemma_idx_of(t2, nidx as int);
                }
                let mut nt = self.tasks.remove(nidx);
                nt.status = TaskStatus::TaskRunning;
                let sp = nt.last_stack_pointer;
                let ghost gnt = nt;
                self.tasks.insert(nidx, nt);
                let ghost t3 = self.tasks@;
                proof {
                    assert(t3 =~= t2.update(nidx as int, gnt));
                    assert(gnt == with_status(task_of(t2, next), TaskStatus::TaskRunning));
                    assert(t3 == table_set_status(t2, next, TaskStatus::TaskRunning));
                    lemma_set_status_lookup(t2, next, TaskStatus::TaskRunning);
                    assert(sp == task_of(t2, next).last_stack_pointer);
                }
                if status == TaskStatus::TaskRunning {
                    let pidx = match find_task(&self.tasks, cur_id) {
                        Some(i) => i,
                        None => {
                            proof {
                                assert(false);
                            }
                            0
                        },
                    };
                    proof {
                        lemma_idx_of(t3, pidx as int);
                    }
                    let mut pt = self.tasks.remove(pidx);
                    pt.status = TaskStatus::TaskReady;
                    let ghost gpt = pt;
                    self.tasks.insert(pidx, pt);
                    self.ready_queue.push(back_prio, cur_id);
                    proof {
                        assert(self.tasks@ =~= t3.update(pidx as int, gpt));
                        assert(gpt == with_status(task_of(t3, cur_id), TaskStatus::TaskReady));
                        assert(self.tasks@ == table_set_status(t3, cur_id, TaskStatus::TaskReady));
                        Self::lemma_select_running(
                            t2,
                            l2,
                            fin0,
                            cur_id,
                            idle_id,
                            best,
                            clamp_level(back_prio),
                            ctr,
                        );
                    }
                } else if status == TaskStatus::TaskFinished {
                    let pidx = match find_task(&self.tasks, cur_id) {
                        Some(i) => i,
                        None => {
                            proof {
                                assert(false);
                            }
                            0
                        },
                    };
                    proof {
                        lemma_idx_of(t3, pidx as int);
                    }
                    let mut pt = self.tasks.remove(pidx);
                    pt.status = TaskStatus::TaskInvalid;
                    let ghost gpt = pt;
                    self.tasks.insert(pidx, pt);
                    self.finished_tasks.push_back(cur_id);
                    proof {
                        assert(self.tasks@ =~= t3.update(pidx as int, gpt));
                        assert(gpt == with_status(task_of(t3, cur_id), TaskStatus::TaskInvalid));
                        assert(self.tasks@ == table_set_status(
                            t3,
                            cur_id,
                            TaskStatus::TaskInvalid,
                        ));
                        assert(self.finished_tasks@ =~= fin0.push(cur_id));
                        Self::lemma_select_finished(t2, l2, fin0, cur_id, idle_id, best, ctr);
                    }
                } else {
                    proof {
                        assert(status == TaskStatus::TaskIdle && cur_id == idle_id) by {
                            assert(task_of(t2, cur_id).status == status);
                            let k = idx_of(t2, cur_id);
                            if task_of(t2, cur_id).status == TaskStatus::TaskIdle {
                                assert(placed(t2[k], cur_id, idle_id, l2, fin0));
                            }
                        }
                        Self::lemma_select_idle_current(t2, l2, fin0, cur_id, idle_id, best, ctr);
                    }
                }
                self.current_task = Some(next);
                Some(TaskSwitch { prev_id: cur_id, next_id: next, next_stack_pointer: sp })
            },
            None => {
                if status != TaskStatus::TaskRunning && status != TaskStatus::TaskIdle {
                    proof {
                        assert(status == TaskStatus::TaskFinished);
                        assert(cur_id != idle_id) by {
                            if cur_id == idle_id {
                                assert(task_of(t2, cur_id).status == TaskStatus::TaskIdle);
                            }
                        }
                    }
                    let pidx = match find_task(&self.tasks, cur_id) {
                        Some(i) => i,
                        None => {
                            proof {
                                assert(false);
                            }
                            0
                        },
                    };
                    proof {
                        lemma_idx_of(t2, pidx as int);
                    }
                    let mut pt = self.tasks.remove(pidx);
                    pt.status = TaskStatus::TaskInvalid;
                    let ghost gpt = pt;
                    self.tasks.insert(pidx, pt);
                    self.finished_tasks.push_back(cur_id);
                    let ghost t4 = self.tasks@;
                    proof {
                        assert(t4 =~= t2.update(pidx as int, gpt));
                        assert(gpt == with_status(task_of(t2, cur_id), TaskStatus::TaskInvalid));
                        assert(t4 == table_set_status(t2, cur_id, TaskStatus::TaskInvalid));
                        lemma_set_status_lookup(t2, cur_id, TaskStatus::TaskInvalid);
                        assert(self.finished_tasks@ =~= fin0.push(cur_id));
                        Self::lemma_select_fallback(t2, l2, fin0, cur_id, idle_id, ctr);
                    }
                    let iidx = match find_task(&self.tasks, idle_id) {
                        Some(i) => i,
                        None => {
                            proof {
                                assert(false);
                            }
                            0
                        },
                    };
                    proof {
                        lemma_idx_of(t4, iidx as int);
                        assert(task_of(t4, idle_id) == task_of(t2, idle_id));
                    }
                    let sp = self.tasks[iidx].last_stack_pointer;
                    self.current_task = Some(idle_id);
                    Some(TaskSwitch { prev_id: cur_id, next_id: idle_id, next_stack_pointer: sp })
                } else {
                    None
                }
            },
        }
    }

    /// One scheduling pass: reap at most one finished task, then select the
    /// next task to run.  Returns the hand-off the platform must perform, or
    /// `None` when the current task simply keeps running.
    pub fn schedule(&mut self) -> (r: Option<TaskSwitch>)
        requires
            old(self).wf(),
            old(self).inited(),
        ensures
            final(self).wf(),
            final(self).inited(),
            final(self).spec_idle() == old(self).spec_idle(),
            final(self).counter() == old(self).counter(),
            ({
                let rt = reap_tasks(old(self).table(), old(self).finished());
                let rf = reap_fin(old(self).finished());
                let (t, lv, f, c, sw) = select_result(
                    rt,
                    old(self).levels(),
                    rf,
                    oid(old(self).spec_current()),
                    oid(old(self).spec_idle()),
                );
                &&& final(self).table() == t
                &&& final(self).levels() == lv
                &&& final(self).finished() == f
                &&& final(self).spec_current() == Some(c)
                &&& r == sw
            }),
    {
        self.reap();
        self.get_next_task()
    }

    /// Alias for [`Scheduler::schedule`], used by exit paths.
    pub fn reschedule(&mut self) -> (r: Option<TaskSwitch>)
        requires
            old(self).wf(),
            old(self).inited(),
        ensures
            final(self).wf(),
            final(self).inited(),
            final(self).spec_idle() == old(self).spec_idle(),
            final(self).counter() == old(self).counter(),
            ({
                let rt = reap_tasks(old(self).table(), old(self).finished());
                let rf = reap_fin(old(self).finished());
                let (t, lv, f, c, sw) = select_result(
                    rt,
                    old(self).levels(),
                    rf,
                    oid(old(self).spec_current()),
                    oid(old(self).spec_idle()),
                );
                &&& final(self).table() == t
                &&& final(self).levels() == lv
                &&& final(self).finished() == f
                &&& final(self).spec_current() == Some(c)
                &&& r == sw
            }),
    {
        self.schedule()
    }

    /// End the current task: mark it finished and reschedule away from it.
    /// The idle task must never exit.  A switch always results, and the
    /// finished task's control block stays in the table (its stack is still
    /// the active one) until a later pass reaps it.
    pub fn exit(&mut self) -> (r: TaskSwitch)
        requires
            old(self).wf(),
            old(self).inited(),
            old(self).spec_current() != old(self).spec_idle(),
        ensures
            final(self).wf(),
            final(self).inited(),
            final(self).spec_idle() == old(self).spec_idle(),
            ({
                let marked = table_set_status(
                    old(self).table(),
                    oid(old(self).spec_current()),
                    TaskStatus::TaskFinished,
                );
                let rt = reap_tasks(marked, old(self).finished());
                let rf = reap_fin(old(self).finished());
                let (t, lv, f, c, sw) = select_result(
                    rt,
                    old(self).levels(),
                    rf,
                    oid(old(self).spec_current()),
                    oid(old(self).spec_idle()),
                );
                &&& final(self).table() == t
                &&& final(self).levels() == lv
                &&& final(self).finished() == f
                &&& final(self).spec_current() == Some(c)
                &&& Some(r) == sw
            }),
    {
        let cur_id = match self.current_task {
            Some(id) => id,
            None => {
                proof {
                    assert(false);
                }
                TaskId(0)
            },
        };
        let ghost idle_id = oid(old(self).idle_task);
        let ghost t0 = self.tasks@;
        let cidx = match find_task(&self.tasks, cur_id) {
            Some(i) => i,
            None => {
                proof {
                    assert(false);
                }
                0
            },
        };
        proof {
            lemma_idx_of(t0, cidx as int);
        }
        let mut ct = self.tasks.remove(cidx);
        ct.status = TaskStatus::TaskFinished;
        let ghost gct = ct;
        self.tasks.insert(cidx, ct);
        proof {
            let tm = self.tasks@;
            assert(tm =~= t0.update(cidx as int, gct));
            assert(gct == with_status(task_of(t0, cur_id), TaskStatus::TaskFinished));
            assert(tm == table_set_status(t0, cur_id, TaskStatus::TaskFinished));
            lemma_set_status_lookup(t0, cur_id, TaskStatus::TaskFinished);
            assert(cur_id != idle_id);
            assert(task_of(tm, idle_id).status == TaskStatus::TaskIdle);
            assert(queue_members_ok(tm, self.ready_queue@)) by {
                assert forall|l: int, i: int|
                    0 <= l < self.ready_queue@.len() && 0 <= i
                        < self.ready_queue@[l].len() implies has_id(
                    tm,
                    #[trigger] self.ready_queue@[l][i],
                ) && task_of(tm, self.ready_queue@[l][i]).status == TaskStatus::TaskReady by {
                    let x = self.ready_queue@[l][i];
                    assert(has_id(t0, x) && task_of(t0, x).status == TaskStatus::TaskReady);
                    assert(x != cur_id);
                }
            }
            assert(fin_members_ok(tm, self.finished_tasks@)) by {
                assert forall|i: int| 0 <= i < self.finished_tasks@.len() implies has_id(
                    tm,
                    #[trigger] self.finished_tasks@[i],
                ) && task_of(tm, self.finished_tasks@[i]).status == TaskStatus::TaskInvalid by {
                    let x = self.finished_tasks@[i];
                    assert(has_id(t0, x) && task_of(t0, x).status == TaskStatus::TaskInvalid);
                    assert(x != cur_id);
                }
            }
            assert(all_placed(tm, self.ready_queue@, self.finished_tasks@, cur_id, idle_id)) by {
                assert forall|i: int| 0 <= i < tm.len() implies placed(
                    #[trigger] tm[i],
                    cur_id,
                    idle_id,
                    self.ready_queue@,
                    self.finished_tasks@,
                ) by {
                    let x = tm[i];
                    assert(x.id == t0[i].id);
                    if i == cidx as int {
                        assert(x.status == TaskStatus::TaskFinished && x.id == cur_id);
                    } else {
                        assert(x == t0[i]);
                        assert(placed(
                            t0[i],
                            cur_id,
                            idle_id,
                            self.ready_queue@,
                            self.finished_tasks@,
                        ));
                    }
                }
            }
            assert(live_state(tm, self.ready_queue@, self.finished_tasks@, cur_id, idle_id));
            assert(self.wf());
        }
        let r = self.schedule();
        match r {
            Some(sw) => sw,
            None => {
                proof {
                    let marked = table_set_status(t0, cur_id, TaskStatus::TaskFinished);
                    let rt = reap_tasks(marked, old(self).finished_tasks@);
                    assert(task_of(rt, cur_id).status == TaskStatus::TaskFinished) by {
                        lemma_set_status_lookup(t0, cur_id, TaskStatus::TaskFinished);
                        if old(self).finished_tasks@.len() > 0 && has_id(
                            marked,
                            old(self).finished_tasks@[0],
                        ) {
                            let fid = old(self).finished_tasks@[0];
                            assert(task_of(t0, fid).status == TaskStatus::TaskInvalid);
                            assert(fid != cur_id);
                            lemma_table_remove(marked, idx_of(marked, fid));
                            assert(marked[idx_of(marked, fid)].id == fid);
                        }
                    }
                    assert(false);
                }
                TaskSwitch { prev_id: cur_id, next_id: cur_id, next_stack_pointer: 0 }
            },
        }
    }

    /// The id of the currently running task.
    pub fn get_current_taskid(&self) -> (r: TaskId)
        requires
            self.inited(),
        ensures
            r == oid(self.spec_current()),
    {
        match self.current_task {
            Some(id) => id,
            None => TaskId(0),
        }
    }

    /// The effective priority of the currently running task.
    pub fn get_current_priority(&self) -> (r: Priority)
        requires
            self.wf(),
            self.inited(),
        ensures
            r == task_of(self.table(), oid(self.spec_current())).prio,
    {
        let id = self.get_current_taskid();
        let idx = match find_task(&self.tasks, id) {
            Some(i) => i,
            None => {
                proof {
                    assert(false);
                }
                0
            },
        };
        proof {
            lemma_idx_of(self.tasks@, idx as int);
        }
        self.tasks[idx].prio
    }

    /// Number of tasks the table tracks.
    pub fn task_count(&self) -> (r: usize)
        ensures
            r == self.table().len(),
    {
        self.tasks.len()
    }

    /// Whether the table tracks a task with this id.
    pub fn contains_task(&self, id: TaskId) -> (r: bool)
        ensures
            r == has_id(self.table(), id),
    {
        find_task(&self.tasks, id).is_some()
    }

    /// Record a task's saved stack pointer, as the context-switch primitive
    /// does when it suspends the task.  Returns false (and changes nothing)
    /// if the id is no longer tracked.
    #[verifier::rlimit(60)]
    #[verifier::spinoff_prover]
    pub fn set_last_stack_pointer(&mut self, id: TaskId, sp: u64) -> (r: bool)
        requires
            old(self).wf(),
        ensures
            final(self).wf(),
            r == has_id(old(self).table(), id),
            !r ==> final(self).table() == old(self).table(),
            r ==> final(self).table() == old(self).table().update(
                idx_of(old(self).table(), id),
                (Task {
                    last_stack_pointer: sp,
                    ..task_of(old(self).table(), id)
                }),
            ),
            final(self).spec_current() == old(self).spec_current(),
            final(self).spec_idle() == old(self).spec_idle(),
            final(self).levels() == old(self).levels(),
            final(self).finished() == old(self).finished(),
            final(self).counter() == old(self).counter(),
    {
        match find_task(&self.tasks, id) {
            None => false,
            Some(idx) => {
                proof {
                    lemma_idx_of(self.tasks@, idx as int);
                }
                let mut t = self.tasks.remove(idx);
                t.last_stack_pointer = sp;
                let ghost gt = t;
                self.tasks.insert(idx, t);
                proof {
                    assert(self.tasks@ =~= old(self).tasks@.update(idx as int, gt));
                    lemma_wf_state_table_compat(
                        old(self).tasks@,
                        self.tasks@,
                        self.ready_queue@,
                        self.finished_tasks@,
                        self.current_task,
                        self.idle_task,
                        self.tid_counter,
                    );
                }
                true
            },
        }
    }
}

/// Idle fallback: when the run queue is empty and the current task has
/// finished (it cannot continue), a scheduling pass selects the idle task.
pub proof fn lemma_idle_fallback(
    tasks: Seq<Task>,
    levels: Seq<Seq<TaskId>>,
    fin: Seq<TaskId>,
    cur: TaskId,
    idle: TaskId,
)
    requires
        distinct_ids(tasks),
        has_id(tasks, cur),
        levels.len() == NO_PRIORITIES,
        forall|l: int| 0 <= l < NO_PRIORITIES ==> #[trigger] levels[l].len() == 0,
        task_of(tasks, cur).status == TaskStatus::TaskFinished,
    ensures
        select_result(tasks, levels, fin, cur, idle).3 == idle,
        (match select_result(tasks, levels, fin, cur, idle).4 {
            Some(sw) => sw.next_id == idle && sw.prev_id == cur,
            None => false,
        }),
{
    let ids = concat_all(levels);
    lemma_concat_all_empty(levels);
    let t1 = bump_current(tasks, cur);
    let l2 = sweep_levels(t1, ids);
    assert forall|l: int| 0 <= l < NO_PRIORITIES implies #[trigger] l2[l].len() == 0 by {
        assert(l2[l] == sweep_level(t1, ids, l));
        assert(ids =~= Seq::<TaskId>::empty());
    }
    lemma_first_busy(l2);
    if first_busy(l2) < NO_PRIORITIES {
        assert(l2[first_busy(l2)].len() > 0);
    }
}

/// Deferred reclamation, second half: the reap step of the following pass
/// removes a task whose id waits on the reclamation list from the table for
/// good.
pub proof fn lemma_deferred_reclamation(tasks: Seq<Task>, fin: Seq<TaskId>, x: TaskId)
    requires
        distinct_ids(tasks),
        fin.len() == 1,
        fin[0] == x,
        has_id(tasks, x),
    ensures
        !has_id(reap_tasks(tasks, fin), x),
        reap_fin(fin).len() == 0,
{
    lemma_table_remove(tasks, idx_of(tasks, x));
}

/// Deferred reclamation, first half: the pass that switches away from a
/// finished task keeps its control block in the table — the stack is still
/// the active one until the switch completes — marked invalid, with its id
/// queued for reclamation by the next pass.
pub proof fn lemma_finished_stays_through_pass(
    tasks: Seq<Task>,
    levels: Seq<Seq<TaskId>>,
    fin: Seq<TaskId>,
    cur: TaskId,
    idle: TaskId,
    ctr: usize,
)
    requires
        wf_state(tasks, levels, fin, Some(cur), Some(idle), ctr),
        fin.len() == 0,
        task_of(tasks, cur).status == TaskStatus::TaskFinished,
    ensures
        ({
            let (t, lv, f, c, sw) = select_result(tasks, levels, fin, cur, idle);
            &&& has_id(t, cur)
            &&& task_of(t, cur).status == TaskStatus::TaskInvalid
            &&& f == fin.push(cur)
            &&& sw is Some
        }),
{
    let ids = concat_all(levels);
    let t1 = bump_current(tasks, cur);
    let t2 = sweep_table(t1, ids);
    let l2 = sweep_levels(t1, ids);
    let best = first_busy(l2);
    lemma_concat_all_distinct(levels);
    lemma_concat_all_membership(levels);
    assert forall|k: int| 0 <= k < ids.len() implies has_id(t1, #[trigger] ids[k]) by {
        assert(concat_all(levels).contains(ids[k]));
        assert(queued_somewhere(levels, ids[k]));
        let l = choose|l: int| 0 <= l < levels.len() && #[trigger] levels[l].contains(ids[k]);
        let w = choose|w: int| 0 <= w < levels[l].len() && levels[l][w] == ids[k];
        assert(has_id(tasks, levels[l][w]));
        let k2 = idx_of(tasks, levels[l][w]);
        assert(t1[k2].id == ids[k]);
    }
    lemma_wf_state_table_compat(tasks, t1, levels, fin, Some(cur), Some(idle), ctr);
    assert forall|i: int|
        0 <= i < t2.len() implies #[trigger] t2[i].id == t1[i].id && t2[i].status
        == t1[i].status by {}
    lemma_wf_state_table_compat(t1, t2, levels, fin, Some(cur), Some(idle), ctr);
    assert(task_of(t2, cur).status == TaskStatus::TaskFinished);
    lemma_first_busy(l2);
    if best < NO_PRIORITIES && best <= LOW_PRIO_VALUE as int {
        let next = l2[best][0];
        assert(l2[best].contains(next));
        lemma_sweep_level_props(t1, ids, best);
        assert(ids.contains(next));
        assert(has_id(t2, next));
        assert(next != cur) by {
            if next == cur {
                assert(queued_somewhere(levels, cur));
                let l = choose|l: int| 0 <= l < levels.len() && #[trigger] levels[l].contains(cur);
                let w = choose|w: int| 0 <= w < levels[l].len() && levels[l][w] == cur;
                assert(task_of(tasks, cur).status == TaskStatus::TaskReady);
            }
        }
        let t3 = table_set_status(t2, next, TaskStatus::TaskRunning);
        lemma_set_status_lookup(t2, next, TaskStatus::TaskRunning);
        lemma_set_status_lookup(t3, cur, TaskStatus::TaskInvalid);
    } else {
        lemma_set_status_lookup(t2, cur, TaskStatus::TaskInvalid);
    }
}

} // verus!
