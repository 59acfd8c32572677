//! Task identifiers, priorities, statuses, the stack resource, and the task
//! control block.

use vstd::prelude::*;

verus! {

/// Number of priority levels.  Level 0 is the highest priority, level
/// `NO_PRIORITIES - 1` the lowest.
pub const NO_PRIORITIES: usize = 31;

/// Numeric value of the lowest priority level.
pub const LOW_PRIO_VALUE: u8 = 30;

/// Size of a task's kernel stack in bytes.
pub const KERNEL_STACK_SIZE: usize = 16384;

/// The stack is modelled word by word: `KERNEL_STACK_SIZE / 8` 64-bit words.
pub const STACK_WORDS: usize = 2048;

/// The status of a task - used for scheduling.
#[derive(Copy, Clone, Debug, Eq, PartialEq, Structural)]
pub enum TaskStatus {
    TaskInvalid,
    TaskReady,
    TaskRunning,
    TaskBlocked,
    TaskFinished,
    TaskIdle,
}

/// Unique identifier for a task (i.e. `pid`).
#[derive(PartialEq, Eq, Structural, PartialOrd, Ord, Debug, Clone, Copy, Hash)]
pub struct TaskId(pub usize);

impl TaskId {
    pub fn into(self) -> (r: usize)
        ensures
            r == self.0,
    {
        self.0
    }

    pub fn from(x: usize) -> (r: Self)
        ensures
            r.0 == x,
    {
        TaskId(x)
    }
}

/// Priority of a task.  Smaller numbers mean higher priority.
#[derive(PartialEq, Eq, Structural, PartialOrd, Ord, Debug, Clone, Copy, Hash)]
pub struct Priority(pub u8);

impl Priority {
    pub fn into(self) -> (r: u8)
        ensures
            r == self.0,
    {
        self.0
    }

    pub fn from(x: u8) -> (r: Self)
        ensures
            r.0 == x,
    {
        Priority(x)
    }
}

/// The effective priority of a task: base priority plus penalty, clamped to
/// the lowest priority level.
pub open spec fn eff_prio(base: Priority, penalty: u8) -> Priority {
    if base.0 + penalty <= LOW_PRIO_VALUE {
        Priority((base.0 + penalty) as u8)
    } else {
        Priority(LOW_PRIO_VALUE)
    }
}

/// Executable counterpart of [`eff_prio`].
pub fn compute_eff_prio(base: Priority, penalty: u8) -> (r: Priority)
    ensures
        r == eff_prio(base, penalty),
{
    let sum: u16 = base.0 as u16 + penalty as u16;
    if sum <= LOW_PRIO_VALUE as u16 {
        Priority(sum as u8)
    } else {
        Priority(LOW_PRIO_VALUE)
    }
}

/// A fixed-size stack region owned exclusively by one task.  Addresses within
/// the stack are byte offsets from its bottom.
#[derive(Clone, Debug)]
pub struct KernelStack {
    words: Vec<u64>,
}

impl View for KernelStack {
    type V = Seq<u64>;

    closed spec fn view(&self) -> Seq<u64> {
        self.words@
    }
}

impl KernelStack {
    /// A fresh, zero-filled stack.
    pub fn new() -> (r: KernelStack)
        ensures
            r@ == Seq::new(STACK_WORDS as nat, |i: int| 0u64),
    {
        let mut words: Vec<u64> = Vec::new();
        while words.len() < STACK_WORDS
            invariant
                words@.len() <= STACK_WORDS,
                forall|j: int| 0 <= j < words@.len() ==> words@[j] == 0u64,
            decreases STACK_WORDS - words@.len(),
        {
            words.push(0u64);
        }
        proof {
            assert(words@ =~= Seq::new(STACK_WORDS as nat, |i: int| 0u64));
        }
        KernelStack { words }
    }

    /// Byte offset of the last byte of the stack.
    pub fn top(&self) -> (r: usize)
        ensures
            r == KERNEL_STACK_SIZE - 1,
    {
        KERNEL_STACK_SIZE - 1
    }

    /// Byte offset of the first byte of the stack.
    pub fn bottom(&self) -> (r: usize)
        ensures
            r == 0,
    {
        0
    }

    /// Number of words the stack holds.
    pub fn word_count(&self) -> (r: usize)
        ensures
            r == self@.len(),
    {
        self.words.len()
    }

    /// Read one word of the stack, if the index is in range.
    pub fn word_at(&self, idx: usize) -> (r: Option<u64>)
        ensures
            idx < self@.len() ==> r == Some(self@[idx as int]),
            idx >= self@.len() ==> r is None,
    {
        if idx < self.words.len() {
            Some(self.words[idx])
        } else {
            None
        }
    }

    /// Overwrite one word of the stack.
    pub fn set_word(&mut self, idx: usize, w: u64)
        requires
            idx < old(self)@.len(),
        ensures
            final(self)@ == old(self)@.update(idx as int, w),
    {
        self.words[idx] = w;
    }
}

/// A task control block: the record of one task's identity, scheduling state,
/// saved stack pointer, and exclusively owned stack.
pub struct Task {
    /// The ID of this context.
    pub id: TaskId,
    /// Status of the task, e.g. if the task is ready or blocked.
    pub status: TaskStatus,
    /// Effective task priority.
    pub prio: Priority,
    /// Task base priority, before any penalty.
    pub base_prio: Priority,
    /// Aging penalty: raises the effective priority value the more the task
    /// runs, and decays over time.
    pub penalty: u8,
    /// Stack pointer saved when the task was last suspended, as a byte
    /// offset into its stack.
    pub last_stack_pointer: u64,
    /// Stack of the task.
    pub stack: KernelStack,
}

impl Task {
    /// A fresh control block with a zero-filled stack.
    pub fn new(tid: TaskId, task_status: TaskStatus, task_prio: Priority, penalty: u8) -> (r: Task)
        ensures
            r.id == tid,
            r.status == task_status,
            r.prio == task_prio,
            r.base_prio == task_prio,
            r.penalty == penalty,
            r.last_stack_pointer == 0u64,
            r.stack@ == Seq::new(STACK_WORDS as nat, |i: int| 0u64),
    {
        Task {
            id: tid,
            status: task_status,
            prio: task_prio,
            base_prio: task_prio,
            penalty,
            last_stack_pointer: 0,
            stack: KernelStack::new(),
        }
    }
}

/// Saturating penalty bump applied to the task that was running when a
/// scheduling pass starts.
pub open spec fn bumped_penalty(p: u8) -> u8 {
    if p + 2 <= 255 {
        (p + 2) as u8
    } else {
        255u8
    }
}

/// Penalty decay applied by the aging sweep: integer halving.
pub open spec fn aged_penalty(p: u8) -> u8 {
    p / 2
}

/// The control block of the running task after its penalty bump.
pub open spec fn bump_task(t: Task) -> Task {
    Task {
        id: t.id,
        status: t.status,
        prio: eff_prio(t.base_prio, bumped_penalty(t.penalty)),
        base_prio: t.base_prio,
        penalty: bumped_penalty(t.penalty),
        last_stack_pointer: t.last_stack_pointer,
        stack: t.stack,
    }
}

/// A queued control block after one aging sweep: penalty halved, effective
/// priority recomputed.
pub open spec fn age_task(t: Task) -> Task {
    Task {
        id: t.id,
        status: t.status,
        prio: eff_prio(t.base_prio, aged_penalty(t.penalty)),
        base_prio: t.base_prio,
        penalty: aged_penalty(t.penalty),
        last_stack_pointer: t.last_stack_pointer,
        stack: t.stack,
    }
}

/// A control block with only its status replaced.
pub open spec fn with_status(t: Task, st: TaskStatus) -> Task {
    Task {
        id: t.id,
        status: st,
        prio: t.prio,
        base_prio: t.base_prio,
        penalty: t.penalty,
        last_stack_pointer: t.last_stack_pointer,
        stack: t.stack,
    }
}

/// Whether some control block in the table carries `id`.
pub open spec fn has_id(s: Seq<Task>, id: TaskId) -> bool {
    exists|i: int| 0 <= i < s.len() && s[i].id == id
}

/// The index of the control block carrying `id` (unique when ids are
/// pairwise distinct).
pub open spec fn idx_of(s: Seq<Task>, id: TaskId) -> int {
    choose|i: int| 0 <= i < s.len() && s[i].id == id
}

/// The control block carrying `id`.
pub open spec fn task_of(s: Seq<Task>, id: TaskId) -> Task {
    s[idx_of(s, id)]
}

/// All ids in the table are pairwise distinct.
pub open spec fn distinct_ids(s: Seq<Task>) -> bool {
    forall|i: int, j: int| 0 <= i < j < s.len() ==> s[i].id != s[j].id
}

/// The table with the status of the task carrying `id` replaced.
pub open spec fn table_set_status(s: Seq<Task>, id: TaskId, st: TaskStatus) -> Seq<Task> {
    s.update(idx_of(s, id), with_status(task_of(s, id), st))
}

/// With pairwise distinct ids, `idx_of` inverts indexing.
pub proof fn lemma_idx_of(s: Seq<Task>, i: int)
    requires
        distinct_ids(s),
        0 <= i < s.len(),
    ensures
        has_id(s, s[i].id),
        idx_of(s, s[i].id) == i,
{
    assert(has_id(s, s[i].id));
    let j = idx_of(s, s[i].id);
    assert(0 <= j < s.len() && s[j].id == s[i].id);
    if i != j {
        assert(s[i].id != s[j].id);
    }
}

/// The penalty a task carries after one preempt-and-age round: it ran and
/// was bumped, then one aging sweep halved its penalty while it waited.
pub open spec fn preempt_age_round(p: u8) -> u8 {
    aged_penalty(bumped_penalty(p))
}

/// The penalty after `n` preempt-and-age rounds.
pub open spec fn preempt_age_rounds(n: nat, p: u8) -> u8
    decreases n,
{
    if n == 0 {
        p
    } else {
        preempt_age_round(preempt_age_rounds((n - 1) as nat, p))
    }
}

/// Aging convergence, one round: being bumped and then halved never raises a
/// small penalty above 2, and strictly lowers a penalty that is above 2 — the
/// penalty converges toward a bound instead of diverging.
pub proof fn lemma_aging_step(p: u8)
    ensures
        p <= 2 ==> preempt_age_round(p) <= 2,
        p > 2 ==> preempt_age_round(p) < p,
{
}

/// One preempt-and-age round is monotone in the penalty.
proof fn lemma_round_mono(p: u8, q: u8)
    requires
        p <= q,
    ensures
        preempt_age_round(p) <= preempt_age_round(q),
{
}

proof fn lemma_rounds_mono(n: nat, p: u8, q: u8)
    requires
        p <= q,
    ensures
        preempt_age_rounds(n, p) <= preempt_age_rounds(n, q),
    decreases n,
{
    if n > 0 {
        lemma_rounds_mono((n - 1) as nat, p, q);
        lemma_round_mono(preempt_age_rounds((n - 1) as nat, p), preempt_age_rounds((n - 1) as nat, q));
    }
}

/// Aging convergence: after eight preempt-and-age rounds the penalty is at
/// most 2, whatever it started from, so a repeatedly preempted task's
/// effective priority settles at most two levels below its base priority and
/// the task is not starved by accumulated penalty.
pub proof fn lemma_aging_converges(p: u8, n: nat)
    requires
        n >= 8,
    ensures
        preempt_age_rounds(n, p) <= 2,
    decreases n,
{
    if n == 8 {
        lemma_rounds_mono(8, p, 255);
        reveal_with_fuel(preempt_age_rounds, 9);
        assert(preempt_age_rounds(1, 255) == 127);
        assert(preempt_age_rounds(2, 255) == 64);
        assert(preempt_age_rounds(3, 255) == 33);
        assert(preempt_age_rounds(4, 255) == 17);
        assert(preempt_age_rounds(5, 255) == 9);
        assert(preempt_age_rounds(6, 255) == 5);
        assert(preempt_age_rounds(7, 255) == 3);
        assert(preempt_age_rounds(8, 255) == 2);
    } else {
        lemma_aging_converges(p, (n - 1) as nat);
        lemma_aging_step(preempt_age_rounds((n - 1) as nat, p));
    }
}

/// The penalty after `n` passes in which the task kept running and was
/// bumped each time.
pub open spec fn bump_rounds(n: nat, p: u8) -> u8
    decreases n,
{
    if n == 0 {
        p
    } else {
        bumped_penalty(bump_rounds((n - 1) as nat, p))
    }
}

proof fn lemma_bump_rounds_grow(n: nat, p: u8)
    ensures
        bump_rounds(n, p) >= (if 2 * (n as int) <= 255 {
            2 * (n as int)
        } else {
            255int
        }),
    decreases n,
{
    if n > 0 {
        lemma_bump_rounds_grow((n - 1) as nat, p);
    }
}

/// A task that keeps running is bumped every pass; after fifteen passes its
/// effective priority has reached the lowest level, where every ready task
/// passes the preemption gate — the other half of the no-starvation
/// argument.
pub proof fn lemma_running_reaches_low(base: Priority, p: u8, n: nat)
    requires
        n >= 15,
    ensures
        eff_prio(base, bump_rounds(n, p)) == Priority(LOW_PRIO_VALUE),
{
    lemma_bump_rounds_grow(n, p);
}

/// Look up the table slot of the control block carrying `id`.
pub fn find_task(tasks: &Vec<Task>, id: TaskId) -> (r: Option<usize>)
    ensures
        (match r {
            Some(i) => i < tasks@.len() && tasks@[i as int].id == id,
            None => !has_id(tasks@, id),
        }),
{
    let mut i: usize = 0;
    while i < tasks.len()
        invariant
            i <= tasks@.len(),
            forall|j: int| 0 <= j < i ==> tasks@[j].id != id,
        decreases tasks@.len() - i,
    {
        if tasks[i].id == id {
            return Some(i);
        }
        i = i + 1;
    }
    None
}

} // verus!
