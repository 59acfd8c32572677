//! FIFO task queues and the priority run queue with its bitmap of non-empty
//! levels.

use vstd::prelude::*;

use crate::task::NO_PRIORITIES;
use crate::task::Priority;
use crate::task::Task;
use crate::task::TaskId;
use crate::task::age_task;
use crate::task::aged_penalty;
use crate::task::compute_eff_prio;
use crate::task::distinct_ids;
use crate::task::eff_prio;
use crate::task::find_task;
use crate::task::has_id;
use crate::task::lemma_idx_of;
use crate::task::task_of;

verus! {

/// A FIFO queue of task ids: one run-queue level.
pub struct TaskQueue {
    items: Vec<TaskId>,
}

impl View for TaskQueue {
    type V = Seq<TaskId>;

    closed spec fn view(&self) -> Seq<TaskId> {
        self.items@
    }
}

impl TaskQueue {
    /// An empty queue.
    pub fn new() -> (r: TaskQueue)
        ensures
            r@ == Seq::<TaskId>::empty(),
    {
        let items: Vec<TaskId> = Vec::new();
        proof {
            assert(items@ =~= Seq::<TaskId>::empty());
        }
        TaskQueue { items }
    }

    /// Check if the queue is empty.
    pub fn is_empty(&self) -> (r: bool)
        ensures
            r == (self@.len() == 0),
    {
        self.items.len() == 0
    }

    /// Append a task id at the tail.
    pub fn push_back(&mut self, id: TaskId)
        ensures
            final(self)@ == old(self)@.push(id),
    {
        self.items.push(id);
    }

    /// Remove and return the head, or `None` on an empty queue.
    pub fn pop_front(&mut self) -> (r: Option<TaskId>)
        ensures
            old(self)@.len() == 0 ==> r is None && final(self)@ == old(self)@,
            old(self)@.len() > 0 ==> r == Some(old(self)@[0]) && final(self)@ == old(
                self,
            )@.drop_first(),
    {
        if self.items.len() == 0 {
            None
        } else {
            let id = self.items.remove(0);
            proof {
                assert(self.items@ =~= old(self)@.drop_first());
            }
            Some(id)
        }
    }

    /// Remove and return the id at position `pos`, or `None` if `pos` is out
    /// of range.
    pub fn pop_pos(&mut self, pos: u64) -> (r: Option<TaskId>)
        ensures
            pos >= old(self)@.len() ==> r is None && final(self)@ == old(self)@,
            pos < old(self)@.len() ==> r == Some(old(self)@[pos as int]) && final(self)@ == old(
                self,
            )@.remove(pos as int),
    {
        if pos >= self.items.len() as u64 {
            None
        } else {
            let id = self.items.remove(pos as usize);
            Some(id)
        }
    }

    /// Hand the queued ids out in order, consuming the queue.
    pub fn into_items(self) -> (r: Vec<TaskId>)
        ensures
            r@ == self@,
    {
        self.items
    }
}

/// Whether bit `l` of `m` is set.
pub open spec fn nth_bit(m: u64, l: int) -> bool {
    (m >> (l as u64)) & 1u64 == 1u64
}

proof fn lemma_bit_or(m: u64, l: u64, j: u64)
    requires
        l < 64,
        j < 64,
    ensures
        nth_bit(m | (1u64 << l), j as int) == (nth_bit(m, j as int) || j == l),
{
    assert((((m | (1u64 << l)) >> j) & 1u64 == 1u64) == ((((m >> j) & 1u64) == 1u64) || j == l))
        by (bit_vector)
        requires
            l < 64u64,
            j < 64u64,
    ;
}

proof fn lemma_bit_clear(m: u64, l: u64, j: u64)
    requires
        l < 64,
        j < 64,
    ensures
        nth_bit(m & !(1u64 << l), j as int) == (nth_bit(m, j as int) && j != l),
{
    assert((((m & !(1u64 << l)) >> j) & 1u64 == 1u64) == ((((m >> j) & 1u64) == 1u64) && j != l))
        by (bit_vector)
        requires
            l < 64u64,
            j < 64u64,
    ;
}

proof fn lemma_bit_zero(j: u64)
    requires
        j < 64,
    ensures
        !nth_bit(0u64, j as int),
{
    assert((0u64 >> j) & 1u64 == 0u64) by (bit_vector);
}

/// The numerically smallest priority level in `[i, NO_PRIORITIES)` whose
/// queue is non-empty, or `NO_PRIORITIES` if they are all empty.
pub open spec fn first_busy_from(levels: Seq<Seq<TaskId>>, i: int) -> int
    decreases NO_PRIORITIES - i,
{
    if i < 0 || i >= NO_PRIORITIES {
        NO_PRIORITIES as int
    } else if levels[i].len() > 0 {
        i
    } else {
        first_busy_from(levels, i + 1)
    }
}

/// The numerically smallest non-empty priority level, i.e. the level `pop`
/// serves, or `NO_PRIORITIES` when the whole run queue is empty.
pub open spec fn first_busy(levels: Seq<Seq<TaskId>>) -> int {
    first_busy_from(levels, 0)
}

/// Basic facts about `first_busy_from`.
proof fn lemma_first_busy_from(levels: Seq<Seq<TaskId>>, i: int)
    requires
        0 <= i <= NO_PRIORITIES,
    ensures
        i <= first_busy_from(levels, i) <= NO_PRIORITIES,
        first_busy_from(levels, i) < NO_PRIORITIES ==> levels[first_busy_from(levels, i)].len()
            > 0,
        forall|j: int|
            i <= j < first_busy_from(levels, i) ==> #[trigger] levels[j].len() == 0,
    decreases NO_PRIORITIES - i,
{
    if i < NO_PRIORITIES && levels[i].len() == 0 {
        lemma_first_busy_from(levels, i + 1);
    }
}

/// Facts about `first_busy`: it is in range, names a non-empty level when one
/// exists, and every smaller level is empty.
pub proof fn lemma_first_busy(levels: Seq<Seq<TaskId>>)
    ensures
        0 <= first_busy(levels) <= NO_PRIORITIES,
        first_busy(levels) < NO_PRIORITIES ==> levels[first_busy(levels)].len() > 0,
        forall|j: int| 0 <= j < first_busy(levels) ==> #[trigger] levels[j].len() == 0,
{
    lemma_first_busy_from(levels, 0);
}

/// `first_busy` is the unique level that is non-empty while all levels below
/// it are empty.
proof fn lemma_first_busy_eq(levels: Seq<Seq<TaskId>>, r: int)
    requires
        0 <= r <= NO_PRIORITIES,
        forall|j: int| 0 <= j < r ==> #[trigger] levels[j].len() == 0,
        r < NO_PRIORITIES ==> levels[r].len() > 0,
        r == NO_PRIORITIES ==> forall|j: int|
            0 <= j < NO_PRIORITIES ==> #[trigger] levels[j].len() == 0,
    ensures
        first_busy(levels) == r,
{
    lemma_first_busy_from_eq(levels, 0, r);
}

proof fn lemma_first_busy_from_eq(levels: Seq<Seq<TaskId>>, i: int, r: int)
    requires
        0 <= i <= r <= NO_PRIORITIES,
        forall|j: int| i <= j < r ==> #[trigger] levels[j].len() == 0,
        r < NO_PRIORITIES ==> levels[r].len() > 0,
        r == NO_PRIORITIES ==> forall|j: int|
            i <= j < NO_PRIORITIES ==> #[trigger] levels[j].len() == 0,
    ensures
        first_busy_from(levels, i) == r,
    decreases NO_PRIORITIES - i,
{
    if i < r {
        lemma_first_busy_from_eq(levels, i + 1, r);
    }
}

/// Find the lowest set bit of `x`, or 64 if `x` has none.
fn lsb(x: u64) -> (r: u64)
    ensures
        r <= 64,
        r < 64 ==> nth_bit(x, r as int),
        forall|j: int| 0 <= j < r ==> !nth_bit(x, j),
        r == 64 ==> forall|j: int| 0 <= j < 64 ==> !nth_bit(x, j),
{
    let mut i: u64 = 0;
    while i < 64
        invariant
            i <= 64,
            forall|j: int| 0 <= j < i ==> !nth_bit(x, j),
        decreases 64 - i,
    {
        if (x >> i) & 1u64 == 1u64 {
            return i;
        }
        i = i + 1;
    }
    64
}

/// The priority level a push at priority `prio` actually targets: the
/// priority's own value, clamped into the valid range.
pub open spec fn clamp_level(prio: crate::task::Priority) -> int {
    if prio.0 < NO_PRIORITIES {
        prio.0 as int
    } else {
        NO_PRIORITIES - 1
    }
}

/// A priority run queue: one FIFO per priority level, plus a bitmap giving
/// O(1) lookup of the lowest non-empty level.
pub struct PriorityTaskQueue {
    queues: Vec<TaskQueue>,
    prio_bitmap: u64,
}

impl View for PriorityTaskQueue {
    type V = Seq<Seq<TaskId>>;

    closed spec fn view(&self) -> Seq<Seq<TaskId>> {
        self.queues@.map(|i: int, q: TaskQueue| q@)
    }
}

impl PriorityTaskQueue {
    /// The bitmap of non-empty levels.
    pub closed spec fn bitmap(&self) -> u64 {
        self.prio_bitmap
    }

    /// Well-formedness: one queue per priority level, and bit `l` of the
    /// bitmap is set iff the queue of level `l` is non-empty.
    pub open spec fn wf(&self) -> bool {
        &&& self@.len() == NO_PRIORITIES
        &&& forall|l: int|
            0 <= l < NO_PRIORITIES ==> (nth_bit(self.bitmap(), l) <==> #[trigger] self@[l].len()
                > 0)
        &&& forall|l: int| NO_PRIORITIES <= l < 64 ==> !#[trigger] nth_bit(self.bitmap(), l)
    }

    /// Creates an empty priority queue for tasks.
    pub fn new() -> (r: PriorityTaskQueue)
        ensures
            r.wf(),
            r@.len() == NO_PRIORITIES,
            forall|l: int| 0 <= l < NO_PRIORITIES ==> #[trigger] r@[l].len() == 0,
            r.bitmap() == 0u64,
    {
        let mut queues: Vec<TaskQueue> = Vec::new();
        while queues.len() < NO_PRIORITIES
            invariant
                queues@.len() <= NO_PRIORITIES,
                forall|l: int| 0 <= l < queues@.len() ==> #[trigger] queues@[l]@.len() == 0,
            decreases NO_PRIORITIES - queues@.len(),
        {
            queues.push(TaskQueue::new());
        }
        let r = PriorityTaskQueue { queues, prio_bitmap: 0 };
        proof {
            assert forall|l: int| 0 <= l < 64 implies !nth_bit(0u64, l) by {
                lemma_bit_zero(l as u64);
            }
        }
        r
    }

    /// Add a task id at its priority level; priorities out of range are
    /// clamped to the lowest level.
    pub fn push(&mut self, prio: crate::task::Priority, id: TaskId)
        requires
            old(self).wf(),
        ensures
            final(self).wf(),
            final(self)@ == old(self)@.update(
                clamp_level(prio),
                old(self)@[clamp_level(prio)].push(id),
            ),
            final(self).bitmap() == old(self).bitmap() | (1u64 << (clamp_level(prio) as u64)),
    {
        let mut i: usize = prio.0 as usize;
        if i >= NO_PRIORITIES {
            i = NO_PRIORITIES - 1;
        }
        self.prio_bitmap = self.prio_bitmap | (1u64 << (i as u64));
        let mut q = self.queues.remove(i);
        q.push_back(id);
        self.queues.insert(i, q);
        proof {
            let l = clamp_level(prio);
            assert(self@ =~= old(self)@.update(l, old(self)@[l].push(id)));
            assert forall|j: int| 0 <= j < 64 implies nth_bit(self.bitmap(), j) == (nth_bit(
                old(self).bitmap(),
                j,
            ) || j == l) by {
                lemma_bit_or(old(self).bitmap(), l as u64, j as u64);
            }
        }
    }

    /// Remove the head of level `l`, clearing the level's bitmap bit when the
    /// level empties.
    fn pop_level(&mut self, l: usize) -> (r: TaskId)
        requires
            old(self).wf(),
            l < NO_PRIORITIES,
            old(self)@[l as int].len() > 0,
        ensures
            final(self).wf(),
            r == old(self)@[l as int][0],
            final(self)@ == old(self)@.update(l as int, old(self)@[l as int].drop_first()),
    {
        let mut q = self.queues.remove(l);
        let ret = q.pop_front();
        let now_empty = q.is_empty();
        self.queues.insert(l, q);
        proof {
            assert(self.queues@ =~= old(self).queues@.update(l as int, q));
            assert(self@ =~= old(self)@.update(l as int, old(self)@[l as int].drop_first()));
        }
        if now_empty {
            self.prio_bitmap = self.prio_bitmap & !(1u64 << (l as u64));
            proof {
                assert forall|j: int| 0 <= j < 64 implies nth_bit(self.bitmap(), j) == (nth_bit(
                    old(self).bitmap(),
                    j,
                ) && j != l) by {
                    lemma_bit_clear(old(self).bitmap(), l as u64, j as u64);
                }
            }
        }
        ret.unwrap()
    }

    /// Pop the task with the highest priority (the numerically smallest
    /// non-empty level); `None` when the whole run queue is empty.
    pub fn pop(&mut self) -> (r: Option<TaskId>)
        requires
            old(self).wf(),
        ensures
            final(self).wf(),
            first_busy(old(self)@) == NO_PRIORITIES ==> r is None && final(self)@ == old(self)@
                && final(self).bitmap() == old(self).bitmap(),
            first_busy(old(self)@) < NO_PRIORITIES ==> r == Some(
                old(self)@[first_busy(old(self)@)][0],
            ) && final(self)@ == old(self)@.update(
                first_busy(old(self)@),
                old(self)@[first_busy(old(self)@)].drop_first(),
            ),
    {
        let i = lsb(self.prio_bitmap);
        if i < NO_PRIORITIES as u64 {
            proof {
                lemma_first_busy_eq(self@, i as int);
            }
            Some(self.pop_level(i as usize))
        } else {
            proof {
                if i < 64 {
                    assert(!nth_bit(self.bitmap(), i as int));
                }
                assert forall|j: int| 0 <= j < NO_PRIORITIES implies #[trigger] self@[j].len()
                    == 0 by {
                    assert(!nth_bit(self.bitmap(), j));
                }
                lemma_first_busy_eq(self@, NO_PRIORITIES as int);
            }
            None
        }
    }

    /// Pop the next task whose priority is equal to or higher than `prio`
    /// (numerically `<=`); otherwise leave the queue untouched and return
    /// `None`.  This is the preemption-vs-keep-running decision point.
    pub fn pop_with_prio(&mut self, prio: Priority) -> (r: Option<TaskId>)
        requires
            old(self).wf(),
        ensures
            final(self).wf(),
            (first_busy(old(self)@) < NO_PRIORITIES && first_busy(old(self)@) <= prio.0) ==> r
                == Some(old(self)@[first_busy(old(self)@)][0]) && final(self)@ == old(
                self,
            )@.update(
                first_busy(old(self)@),
                old(self)@[first_busy(old(self)@)].drop_first(),
            ),
            !(first_busy(old(self)@) < NO_PRIORITIES && first_busy(old(self)@) <= prio.0) ==> r
                is None && final(self)@ == old(self)@ && final(self).bitmap() == old(
                self,
            ).bitmap(),
    {
        let i = lsb(self.prio_bitmap);
        if i < NO_PRIORITIES as u64 && i <= prio.0 as u64 {
            proof {
                lemma_first_busy_eq(self@, i as int);
            }
            Some(self.pop_level(i as usize))
        } else {
            proof {
                if i >= NO_PRIORITIES as u64 {
                    if i < 64 {
                        assert(!nth_bit(self.bitmap(), i as int));
                    }
                    assert forall|j: int| 0 <= j < NO_PRIORITIES implies #[trigger] self@[j].len()
                        == 0 by {
                        assert(!nth_bit(self.bitmap(), j));
                    }
                    lemma_first_busy_eq(self@, NO_PRIORITIES as int);
                } else {
                    lemma_first_busy_eq(self@, i as int);
                }
            }
            None
        }
    }

    /// Remove the id at position `pos` of level `queue`; `None` when either
    /// index is out of range.
    pub fn pop_pos(&mut self, queue: u8, pos: u64) -> (r: Option<TaskId>)
        requires
            old(self).wf(),
        ensures
            final(self).wf(),
            (queue >= NO_PRIORITIES || pos >= old(self)@[queue as int].len()) ==> r is None
                && final(self)@ == old(self)@ && final(self).bitmap() == old(self).bitmap(),
            (queue < NO_PRIORITIES && pos < old(self)@[queue as int].len()) ==> r == Some(
                old(self)@[queue as int][pos as int],
            ) && final(self)@ == old(self)@.update(
                queue as int,
                old(self)@[queue as int].remove(pos as int),
            ),
    {
        if queue as usize >= NO_PRIORITIES {
            return None;
        }
        let qi = queue as usize;
        let mut q = self.queues.remove(qi);
        let ret = q.pop_pos(pos);
        let now_empty = q.is_empty();
        self.queues.insert(qi, q);
        proof {
            assert(self.queues@ =~= old(self).queues@.update(qi as int, q));
        }
        match ret {
            None => {
                proof {
                    assert(self@ =~= old(self)@);
                }
                None
            },
            Some(id) => {
                proof {
                    assert(self@ =~= old(self)@.update(
                        qi as int,
                        old(self)@[qi as int].remove(pos as int),
                    ));
                }
                if now_empty {
                    self.prio_bitmap = self.prio_bitmap & !(1u64 << (qi as u64));
                    proof {
                        assert forall|j: int| 0 <= j < 64 implies nth_bit(self.bitmap(), j) == (
                        nth_bit(old(self).bitmap(), j) && j != qi) by {
                            lemma_bit_clear(old(self).bitmap(), qi as u64, j as u64);
                        }
                    }
                }
                Some(id)
            },
        }
    }
}

/// All queued ids, in sweep order: level by level from the highest priority,
/// FIFO within a level.
pub open spec fn concat_all(levels: Seq<Seq<TaskId>>) -> Seq<TaskId>
    decreases levels.len(),
{
    if levels.len() == 0 {
        Seq::empty()
    } else {
        levels[0] + concat_all(levels.drop_first())
    }
}

/// Concatenation distributes over appending one more level.
pub proof fn lemma_concat_all_push(levels: Seq<Seq<TaskId>>, q: Seq<TaskId>)
    ensures
        concat_all(levels.push(q)) == concat_all(levels) + q,
    decreases levels.len(),
{
    if levels.len() == 0 {
        assert(levels.push(q).drop_first() =~= Seq::<Seq<TaskId>>::empty());
        assert(levels.push(q)[0] == q);
        assert(concat_all(levels.push(q)) == q + concat_all(Seq::<Seq<TaskId>>::empty()));
        assert(concat_all(levels.push(q)) =~= concat_all(levels) + q);
    } else {
        assert(levels.push(q).drop_first() =~= levels.drop_first().push(q));
        lemma_concat_all_push(levels.drop_first(), q);
        assert(levels.push(q)[0] == levels[0]);
        assert(concat_all(levels.push(q)) == levels[0] + concat_all(levels.drop_first().push(q)));
        assert(concat_all(levels.push(q)) =~= concat_all(levels) + q);
    }
}

/// All ids in a sequence are pairwise distinct.
pub open spec fn distinct_tids(ids: Seq<TaskId>) -> bool {
    forall|i: int, j: int| 0 <= i < j < ids.len() ==> ids[i] != ids[j]
}

/// Every queue position holds a different id.
pub open spec fn queues_distinct(levels: Seq<Seq<TaskId>>) -> bool {
    forall|l: int, i: int, l2: int, i2: int|
        0 <= l < levels.len() && 0 <= i < levels[l].len() && 0 <= l2 < levels.len() && 0 <= i2
            < levels[l2].len() && (l != l2 || i != i2) ==> #[trigger] levels[l][i]
            != #[trigger] levels[l2][i2]
}

/// The id is queued at some priority level.
pub open spec fn queued_somewhere(levels: Seq<Seq<TaskId>>, id: TaskId) -> bool {
    exists|l: int| 0 <= l < levels.len() && #[trigger] levels[l].contains(id)
}

/// An id is in the concatenation of the levels exactly when some level holds
/// it.
pub proof fn lemma_concat_all_membership(levels: Seq<Seq<TaskId>>)
    ensures
        forall|id: TaskId| #[trigger] concat_all(levels).contains(id) ==> queued_somewhere(
            levels,
            id,
        ),
        forall|l: int, i: int|
            0 <= l < levels.len() && 0 <= i < levels[l].len() ==> concat_all(levels).contains(
                #[trigger] levels[l][i],
            ),
    decreases levels.len(),
{
    if levels.len() > 0 {
        lemma_concat_all_membership(levels.drop_first());
        let rest = concat_all(levels.drop_first());
        assert forall|id: TaskId| #[trigger] concat_all(levels).contains(id) implies
            queued_somewhere(levels, id) by {
            let k = choose|k: int| 0 <= k < concat_all(levels).len() && concat_all(levels)[k] == id;
            if k < levels[0].len() {
                assert(levels[0][k] == id);
                assert(levels[0].contains(id));
            } else {
                assert(rest[k - levels[0].len()] == id);
                assert(rest.contains(id));
                assert(queued_somewhere(levels.drop_first(), id));
                let l = choose|l: int|
                    0 <= l < levels.drop_first().len() && #[trigger] levels.drop_first()[
                        l
                    ].contains(id);
                assert(levels[l + 1].contains(id));
            }
        }
        assert forall|l: int, i: int|
            0 <= l < levels.len() && 0 <= i < levels[l].len() implies concat_all(levels).contains(
            #[trigger] levels[l][i],
        ) by {
            if l == 0 {
                assert(concat_all(levels)[i] == levels[0][i]);
            } else {
                assert(levels.drop_first()[l - 1][i] == levels[l][i]);
                assert(rest.contains(levels[l][i]));
                let k = choose|k: int| 0 <= k < rest.len() && rest[k] == levels[l][i];
                assert(concat_all(levels)[levels[0].len() + k] == levels[l][i]);
            }
        }
    }
}

/// Distinct queue positions give a duplicate-free concatenation.
pub proof fn lemma_concat_all_distinct(levels: Seq<Seq<TaskId>>)
    requires
        queues_distinct(levels),
    ensures
        distinct_tids(concat_all(levels)),
    decreases levels.len(),
{
    if levels.len() > 0 {
        let head = levels[0];
        let tail = levels.drop_first();
        assert(queues_distinct(tail)) by {
            assert forall|l: int, i: int, l2: int, i2: int|
                0 <= l < tail.len() && 0 <= i < tail[l].len() && 0 <= l2 < tail.len() && 0 <= i2
                    < tail[l2].len() && (l != l2 || i != i2) implies #[trigger] tail[l][i]
                != #[trigger] tail[l2][i2] by {
                assert(tail[l][i] == levels[l + 1][i]);
                assert(tail[l2][i2] == levels[l2 + 1][i2]);
            }
        }
        lemma_concat_all_distinct(tail);
        lemma_concat_all_membership(tail);
        let rest = concat_all(tail);
        assert forall|i: int, j: int|
            0 <= i < j < concat_all(levels).len() implies concat_all(levels)[i] != concat_all(
            levels,
        )[j] by {
            let hl = head.len() as int;
            if j < hl {
                assert(concat_all(levels)[i] == levels[0][i]);
                assert(concat_all(levels)[j] == levels[0][j]);
            } else if i >= hl {
                assert(concat_all(levels)[i] == rest[i - hl]);
                assert(concat_all(levels)[j] == rest[j - hl]);
            } else {
                assert(concat_all(levels)[i] == levels[0][i]);
                assert(concat_all(levels)[j] == rest[j - hl]);
                assert(rest.contains(rest[j - hl]));
                assert(queued_somewhere(tail, rest[j - hl]));
                let l = choose|l: int|
                    0 <= l < tail.len() && #[trigger] tail[l].contains(rest[j - hl]);
                let w = choose|w: int| 0 <= w < tail[l].len() && tail[l][w] == rest[j - hl];
                assert(levels[l + 1][w] == rest[j - hl]);
            }
        }
    }
}

/// The priority level at which the aging sweep re-inserts the task carrying
/// `id`: its effective priority after the penalty decay.
pub open spec fn aged_level(tasks: Seq<Task>, id: TaskId) -> int {
    eff_prio(task_of(tasks, id).base_prio, aged_penalty(task_of(tasks, id).penalty)).0 as int
}

/// The contents of level `l` after one aging sweep that processes `ids` in
/// order against the table `tasks`: exactly the ids whose aged effective
/// priority is `l`, in processing order.
pub open spec fn sweep_level(tasks: Seq<Task>, ids: Seq<TaskId>, l: int) -> Seq<TaskId>
    decreases ids.len(),
{
    if ids.len() == 0 {
        Seq::empty()
    } else {
        let rest = sweep_level(tasks, ids.drop_first(), l);
        if aged_level(tasks, ids[0]) == l {
            seq![ids[0]] + rest
        } else {
            rest
        }
    }
}

/// What one aging sweep puts at level `l`: only ids that were queued, each
/// aged to exactly this level, without duplicates.
pub proof fn lemma_sweep_level_props(tasks: Seq<Task>, ids: Seq<TaskId>, l: int)
    ensures
        forall|k: int|
            0 <= k < sweep_level(tasks, ids, l).len() ==> ids.contains(
                #[trigger] sweep_level(tasks, ids, l)[k],
            ) && aged_level(tasks, sweep_level(tasks, ids, l)[k]) == l,
        distinct_tids(ids) ==> distinct_tids(sweep_level(tasks, ids, l)),
    decreases ids.len(),
{
    if ids.len() > 0 {
        let tail = ids.drop_first();
        lemma_sweep_level_props(tasks, tail, l);
        let rest = sweep_level(tasks, tail, l);
        assert forall|k: int| 0 <= k < rest.len() implies ids.contains(rest[k]) by {
            assert(tail.contains(rest[k]));
            let w = choose|w: int| 0 <= w < tail.len() && tail[w] == rest[k];
            assert(ids[w + 1] == rest[k]);
        }
        if distinct_tids(ids) {
            assert(distinct_tids(tail)) by {
                assert forall|i: int, j: int| 0 <= i < j < tail.len() implies tail[i]
                    != tail[j] by {
                    assert(tail[i] == ids[i + 1] && tail[j] == ids[j + 1]);
                }
            }
            if aged_level(tasks, ids[0]) == l {
                assert(!rest.contains(ids[0])) by {
                    if rest.contains(ids[0]) {
                        let w = choose|w: int| 0 <= w < rest.len() && rest[w] == ids[0];
                        assert(tail.contains(ids[0]));
                        let v = choose|v: int| 0 <= v < tail.len() && tail[v] == ids[0];
                        assert(ids[v + 1] == ids[0]);
                    }
                }
            }
        }
    }
}

/// Every queued id survives the aging sweep, at its aged level.
pub proof fn lemma_sweep_level_contains(tasks: Seq<Task>, ids: Seq<TaskId>, id: TaskId)
    requires
        ids.contains(id),
    ensures
        sweep_level(tasks, ids, aged_level(tasks, id)).contains(id),
    decreases ids.len(),
{
    let l = aged_level(tasks, id);
    if ids[0] == id {
        assert(sweep_level(tasks, ids, l)[0] == id);
    } else {
        let tail = ids.drop_first();
        assert(tail.contains(id)) by {
            let w = choose|w: int| 0 <= w < ids.len() && ids[w] == id;
            assert(tail[w - 1] == id);
        }
        lemma_sweep_level_contains(tasks, tail, id);
        let rest = sweep_level(tasks, tail, l);
        let w = choose|w: int| 0 <= w < rest.len() && rest[w] == id;
        if aged_level(tasks, ids[0]) == l {
            assert(sweep_level(tasks, ids, l)[w + 1] == id);
        } else {
            assert(sweep_level(tasks, ids, l)[w] == id);
        }
    }
}

/// The sweep of one more id appends it to its aged level.
pub proof fn lemma_sweep_level_push(tasks: Seq<Task>, ids: Seq<TaskId>, x: TaskId, l: int)
    ensures
        aged_level(tasks, x) == l ==> sweep_level(tasks, ids.push(x), l) == sweep_level(
            tasks,
            ids,
            l,
        ).push(x),
        aged_level(tasks, x) != l ==> sweep_level(tasks, ids.push(x), l) == sweep_level(
            tasks,
            ids,
            l,
        ),
    decreases ids.len(),
{
    if ids.len() == 0 {
        assert(ids.push(x).drop_first() =~= Seq::<TaskId>::empty());
        assert(ids.push(x)[0] == x);
        assert(sweep_level(tasks, Seq::<TaskId>::empty(), l) == Seq::<TaskId>::empty());
        if aged_level(tasks, x) == l {
            assert(sweep_level(tasks, ids.push(x), l) == seq![x] + Seq::<TaskId>::empty());
            assert(sweep_level(tasks, ids.push(x), l) =~= sweep_level(tasks, ids, l).push(x));
        }
    } else {
        assert(ids.push(x).drop_first() =~= ids.drop_first().push(x));
        lemma_sweep_level_push(tasks, ids.drop_first(), x, l);
        assert(ids.push(x)[0] == ids[0]);
        let rest = sweep_level(tasks, ids.drop_first().push(x), l);
        if aged_level(tasks, ids[0]) == l {
            assert(sweep_level(tasks, ids.push(x), l) == seq![ids[0]] + rest);
        } else {
            assert(sweep_level(tasks, ids.push(x), l) == rest);
        }
        if aged_level(tasks, x) == l {
            assert(sweep_level(tasks, ids.push(x), l) =~= sweep_level(tasks, ids, l).push(x));
        } else {
            assert(sweep_level(tasks, ids.push(x), l) =~= sweep_level(tasks, ids, l));
        }
    }
}

impl PriorityTaskQueue {
    /// Update task priorities (multilevel feedback): one aging sweep over all
    /// levels.  Every queued task is processed exactly once: its penalty is
    /// halved, its effective priority recomputed in `tasks`, and it is
    /// re-inserted at its new level; sweep order is level by level from the
    /// highest priority, FIFO within a level.
    pub fn update_prios(&mut self, tasks: &mut Vec<Task>)
        requires
            old(self).wf(),
            distinct_ids(old(tasks)@),
            distinct_tids(concat_all(old(self)@)),
            forall|k: int|
                0 <= k < concat_all(old(self)@).len() ==> has_id(
                    old(tasks)@,
                    #[trigger] concat_all(old(self)@)[k],
                ),
        ensures
            final(self).wf(),
            final(tasks)@.len() == old(tasks)@.len(),
            forall|i: int|
                0 <= i < old(tasks)@.len() ==> #[trigger] final(tasks)@[i] == (if concat_all(
                    old(self)@,
                ).contains(old(tasks)@[i].id) {
                    age_task(old(tasks)@[i])
                } else {
                    old(tasks)@[i]
                }),
            forall|l: int|
                0 <= l < NO_PRIORITIES ==> #[trigger] final(self)@[l] == sweep_level(
                    old(tasks)@,
                    concat_all(old(self)@),
                    l,
                ),
    {
        let ghost old_levels = old(self)@;
        let ghost old_tasks = old(tasks)@;
        let ghost all_ids = concat_all(old(self)@);
        let mut drained: Vec<TaskId> = Vec::new();
        let mut l: usize = 0;
        while l < NO_PRIORITIES
            invariant
                l <= NO_PRIORITIES,
                self@.len() == NO_PRIORITIES,
                old_levels.len() == NO_PRIORITIES,
                drained@ == concat_all(old_levels.subrange(0, l as int)),
                forall|j: int| 0 <= j < l ==> #[trigger] self@[j].len() == 0,
                forall|j: int| l <= j < NO_PRIORITIES ==> #[trigger] self@[j] == old_levels[j],
            decreases NO_PRIORITIES - l,
        {
            let ghost pre = self.queues@;
            proof {
                assert forall|j: int| 0 <= j < NO_PRIORITIES implies #[trigger] pre[j]@
                    == self@[j] by {}
            }
            let q = self.queues.remove(l);
            proof {
                assert(q@ == old_levels[l as int]);
                assert(old_levels.subrange(0, l as int + 1) =~= old_levels.subrange(
                    0,
                    l as int,
                ).push(old_levels[l as int]));
                lemma_concat_all_push(old_levels.subrange(0, l as int), old_levels[l as int]);
            }
            let mut items = q.into_items();
            drained.append(&mut items);
            let nq = TaskQueue::new();
            let ghost gnq = nq;
            self.queues.insert(l, nq);
            proof {
                assert(self.queues@ =~= pre.update(l as int, gnq));
                assert(drained@ == concat_all(old_levels.subrange(0, l as int + 1)));
                assert forall|j: int| 0 <= j < NO_PRIORITIES implies #[trigger] self@[j] == (
                if j == l as int {
                    gnq@
                } else {
                    pre[j]@
                }) by {}
            }
            l = l + 1;
        }
        self.prio_bitmap = 0;
        proof {
            assert(old_levels.subrange(0, NO_PRIORITIES as int) =~= old_levels);
            assert(drained@ == all_ids);
            assert forall|j: int| 0 <= j < 64 implies !nth_bit(self.bitmap(), j) by {
                lemma_bit_zero(j as u64);
            }
            assert(self.wf());
            assert(all_ids.subrange(0, 0) =~= Seq::<TaskId>::empty());
        }
        let mut k: usize = 0;
        while k < drained.len()
            invariant
                k <= drained@.len(),
                drained@ == all_ids,
                distinct_tids(all_ids),
                distinct_ids(old_tasks),
                forall|m: int| 0 <= m < all_ids.len() ==> has_id(old_tasks, #[trigger] all_ids[m]),
                self.wf(),
                tasks@.len() == old_tasks.len(),
                forall|i: int|
                    0 <= i < tasks@.len() ==> #[trigger] tasks@[i] == (if all_ids.subrange(
                        0,
                        k as int,
                    ).contains(old_tasks[i].id) {
                        age_task(old_tasks[i])
                    } else {
                        old_tasks[i]
                    }),
                forall|ll: int|
                    0 <= ll < NO_PRIORITIES ==> #[trigger] self@[ll] == sweep_level(
                        old_tasks,
                        all_ids.subrange(0, k as int),
                        ll,
                    ),
            decreases drained@.len() - k,
        {
            let id = drained[k];
            proof {
                assert(all_ids[k as int] == id);
                assert(has_id(old_tasks, id));
                assert forall|i: int|
                    0 <= i < tasks@.len() implies #[trigger] tasks@[i].id == old_tasks[i].id by {
                    assert(age_task(old_tasks[i]).id == old_tasks[i].id);
                }
                let w = choose|i: int| 0 <= i < old_tasks.len() && old_tasks[i].id == id;
                assert(tasks@[w].id == id);
                assert(has_id(tasks@, id));
            }
            let idx = match find_task(tasks, id) {
                Some(i) => i,
                None => {
                    proof {
                        assert(false);
                    }
                    0
                },
            };
            let ghost pre_tasks = tasks@;
            let mut t = tasks.remove(idx);
            t.penalty = t.penalty / 2;
            t.prio = compute_eff_prio(t.base_prio, t.penalty);
            let lvl = t.prio;
            let ghost gt = t;
            tasks.insert(idx, t);
            proof {
                // `id` is not in the processed prefix, so slot `idx` was untouched.
                assert(!all_ids.subrange(0, k as int).contains(id)) by {
                    if all_ids.subrange(0, k as int).contains(id) {
                        let m = choose|m: int|
                            0 <= m < k && all_ids.subrange(0, k as int)[m] == id;
                        assert(all_ids[m] == all_ids[k as int]);
                    }
                }
                assert(old_tasks[idx as int].id == id);
                assert(pre_tasks[idx as int] == old_tasks[idx as int]);
                assert(gt == age_task(old_tasks[idx as int]));
                assert(tasks@ =~= pre_tasks.update(idx as int, gt));
            }
            self.push(lvl, id);
            proof {
                let ghost prefix0 = all_ids.subrange(0, k as int);
                let ghost prefix1 = all_ids.subrange(0, k as int + 1);
                assert(prefix1 =~= prefix0.push(id));
                lemma_idx_of(old_tasks, idx as int);
                assert(task_of(old_tasks, id) == old_tasks[idx as int]);
                assert(aged_level(old_tasks, id) == clamp_level(lvl));
                // table pointwise
                assert forall|i: int| 0 <= i < tasks@.len() implies #[trigger] tasks@[i] == (
                if prefix1.contains(old_tasks[i].id) {
                    age_task(old_tasks[i])
                } else {
                    old_tasks[i]
                }) by {
                    if i == idx {
                        assert(prefix1[k as int] == id);
                        assert(prefix1.contains(id));
                    } else {
                        assert(old_tasks[i].id != id);
                        assert(prefix1.contains(old_tasks[i].id) == prefix0.contains(
                            old_tasks[i].id,
                        )) by {
                            if prefix1.contains(old_tasks[i].id) {
                                let m = choose|m: int|
                                    0 <= m < prefix1.len() && prefix1[m] == old_tasks[i].id;
                                if m < k {
                                    assert(prefix0[m] == old_tasks[i].id);
                                }
                            }
                            if prefix0.contains(old_tasks[i].id) {
                                let m = choose|m: int|
                                    0 <= m < prefix0.len() && prefix0[m] == old_tasks[i].id;
                                assert(prefix1[m] == old_tasks[i].id);
                            }
                        }
                    }
                }
                // levels pointwise
                assert forall|ll: int| 0 <= ll < NO_PRIORITIES implies #[trigger] self@[ll]
                    == sweep_level(old_tasks, prefix1, ll) by {
                    lemma_sweep_level_push(old_tasks, prefix0, id, ll);
                    if ll == clamp_level(lvl) {
                        assert(self@[ll] == sweep_level(old_tasks, prefix0, ll).push(id));
                    } else {
                        assert(self@[ll] == sweep_level(old_tasks, prefix0, ll));
                    }
                }
            }
            k = k + 1;
        }
        proof {
            assert(all_ids.subrange(0, all_ids.len() as int) =~= all_ids);
        }
    }
}

/// Priority ordering: each pop serves the numerically smallest non-empty
/// level, and two successive pops serve non-decreasing levels — so repeated
/// popping drains the run queue in non-decreasing numeric priority order,
/// FIFO within each level (a pop always takes the head of its level).
pub proof fn lemma_pop_order(levels: Seq<Seq<TaskId>>)
    requires
        levels.len() == NO_PRIORITIES,
        0 <= first_busy(levels) < NO_PRIORITIES,
    ensures
        first_busy(levels) <= first_busy(
            levels.update(first_busy(levels), levels[first_busy(levels)].drop_first()),
        ),
{
    let b = first_busy(levels);
    let l2 = levels.update(b, levels[b].drop_first());
    lemma_first_busy(levels);
    lemma_first_busy(l2);
    if first_busy(l2) < b {
        assert(l2[first_busy(l2)].len() > 0);
        assert(l2[first_busy(l2)] == levels[first_busy(l2)]);
    }
}

/// If every level is empty, the concatenation of the levels is empty.
pub proof fn lemma_concat_all_empty(levels: Seq<Seq<TaskId>>)
    requires
        forall|l: int| 0 <= l < levels.len() ==> #[trigger] levels[l].len() == 0,
    ensures
        concat_all(levels).len() == 0,
    decreases levels.len(),
{
    if levels.len() > 0 {
        assert forall|l: int|
            0 <= l < levels.drop_first().len() implies #[trigger] levels.drop_first()[l].len()
            == 0 by {
            assert(levels.drop_first()[l] == levels[l + 1]);
        }
        lemma_concat_all_empty(levels.drop_first());
    }
}

/// Total number of queued ids.
pub open spec fn pq_size(levels: Seq<Seq<TaskId>>) -> nat
    decreases levels.len(),
{
    if levels.len() == 0 {
        0
    } else {
        levels[0].len() + pq_size(levels.drop_first())
    }
}

proof fn lemma_pq_size_update(levels: Seq<Seq<TaskId>>, b: int, q: Seq<TaskId>)
    requires
        0 <= b < levels.len(),
    ensures
        pq_size(levels.update(b, q)) == pq_size(levels) - levels[b].len() + q.len(),
    decreases levels.len(),
{
    if b == 0 {
        assert(levels.update(0, q).drop_first() =~= levels.drop_first());
    } else {
        assert(levels.update(b, q).drop_first() =~= levels.drop_first().update(b - 1, q));
        lemma_pq_size_update(levels.drop_first(), b - 1, q);
        assert(levels.update(b, q)[0] == levels[0]);
    }
}

/// What repeatedly popping the run queue yields until it is empty: each
/// entry is the level served and the id taken from its head.
pub open spec fn drain(levels: Seq<Seq<TaskId>>) -> Seq<(int, TaskId)>
    decreases pq_size(levels),
    via drain_decreases
{
    if levels.len() == NO_PRIORITIES && first_busy(levels) < NO_PRIORITIES {
        let b = first_busy(levels);
        seq![(b, levels[b][0])] + drain(levels.update(b, levels[b].drop_first()))
    } else {
        Seq::empty()
    }
}

#[via_fn]
proof fn drain_decreases(levels: Seq<Seq<TaskId>>) {
    if levels.len() == NO_PRIORITIES && first_busy(levels) < NO_PRIORITIES {
        let b = first_busy(levels);
        lemma_first_busy(levels);
        lemma_pq_size_update(levels, b, levels[b].drop_first());
    }
}

/// Priority ordering, first half: repeated pops drain the run queue in
/// non-decreasing numeric priority order.
pub proof fn lemma_drain_sorted(levels: Seq<Seq<TaskId>>)
    requires
        levels.len() == NO_PRIORITIES,
    ensures
        forall|k: int|
            0 <= k < drain(levels).len() - 1 ==> #[trigger] drain(levels)[k].0 <= drain(
                levels,
            )[k + 1].0,
    decreases pq_size(levels),
{
    let b = first_busy(levels);
    lemma_first_busy(levels);
    if b < NO_PRIORITIES {
        let v2 = levels.update(b, levels[b].drop_first());
        lemma_pq_size_update(levels, b, levels[b].drop_first());
        lemma_drain_sorted(v2);
        lemma_pop_order(levels);
        let d = drain(levels);
        let d2 = drain(v2);
        assert(d == seq![(b, levels[b][0])] + d2);
        assert forall|k: int| 0 <= k < d.len() - 1 implies #[trigger] d[k].0 <= d[k + 1].0 by {
            if k == 0 {
                if d2.len() > 0 {
                    assert(first_busy(v2) < NO_PRIORITIES);
                    assert(d2[0].0 == first_busy(v2));
                    assert(d[1] == d2[0]);
                }
            } else {
                assert(d[k] == d2[k - 1] && d[k + 1] == d2[k]);
            }
        }
    }
}

/// The ids a drain takes from level `l`, in order.
pub open spec fn drain_at(d: Seq<(int, TaskId)>, l: int) -> Seq<TaskId>
    decreases d.len(),
{
    if d.len() == 0 {
        Seq::empty()
    } else if d[0].0 == l {
        seq![d[0].1] + drain_at(d.drop_first(), l)
    } else {
        drain_at(d.drop_first(), l)
    }
}

/// Priority ordering, second half — FIFO among equal priorities: the pops
/// that serve level `l` yield exactly that level's queue, in its order.
pub proof fn lemma_drain_fifo(levels: Seq<Seq<TaskId>>, l: int)
    requires
        levels.len() == NO_PRIORITIES,
        0 <= l < NO_PRIORITIES,
    ensures
        drain_at(drain(levels), l) == levels[l],
    decreases pq_size(levels),
{
    let b = first_busy(levels);
    lemma_first_busy(levels);
    if b < NO_PRIORITIES {
        let v2 = levels.update(b, levels[b].drop_first());
        lemma_pq_size_update(levels, b, levels[b].drop_first());
        lemma_drain_fifo(v2, l);
        let d = drain(levels);
        let d2 = drain(v2);
        assert(d == seq![(b, levels[b][0])] + d2);
        assert(d.drop_first() =~= d2);
        if l == b {
            assert(drain_at(d, l) == seq![levels[b][0]] + v2[l]);
            assert(seq![levels[b][0]] + levels[b].drop_first() =~= levels[b]);
        } else {
            assert(drain_at(d, l) == drain_at(d2, l));
            assert(v2[l] == levels[l]);
        }
    } else {
        assert(levels[l].len() == 0);
        assert(levels[l] =~= Seq::<TaskId>::empty());
    }
}

impl PriorityTaskQueue {
    /// Bitmap consistency: bit `l` of the bitmap is set exactly when the
    /// queue of level `l` is non-empty.  Every operation of the run queue
    /// keeps this, since each one both requires and ensures `wf`.
    pub proof fn lemma_bitmap_consistent(&self, l: int)
        requires
            self.wf(),
            0 <= l < NO_PRIORITIES,
        ensures
            nth_bit(self.bitmap(), l) <==> self@[l].len() > 0,
    {
    }
}

} // verus!
