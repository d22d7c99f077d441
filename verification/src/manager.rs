//! The ready queue of the stride scheduler.
//!
//! Each task carries a stride; the scheduler runs the ready task whose stride
//! is smallest, and then advances that task's stride by `big_stride /
//! priority` (priorities below 2 count as 2). Among tasks with the same
//! smallest stride it goes round robin, from a cursor that moves past each
//! task it picks.
use vstd::prelude::*;

verus! {

/// What the scheduler reads and writes of a task in the ready queue.
#[derive(Clone, Copy)]
pub struct TaskSched {
    /// Thread id, by which the caller finds the task again.
    pub tid: usize,
    /// The task's status is `Ready`.
    pub ready: bool,
    pub stride: usize,
    pub priority: usize,
}

/// The smallest stride among the ready tasks of `q[0..k]`, or `usize::MAX`
/// when none is ready.
pub open spec fn min_ready_stride(q: Seq<TaskSched>, k: int) -> int
    decreases k,
{
    if k <= 0 {
        usize::MAX as int
    } else {
        let prev = min_ready_stride(q, k - 1);
        if q[k - 1].ready && q[k - 1].stride < prev {
            q[k - 1].stride as int
        } else {
            prev
        }
    }
}

/// Position reached `offset` steps after the cursor, going round the queue.
pub open spec fn rotated(cursor: int, offset: int, len: int) -> int {
    (cursor + offset) % len
}

/// Task `i` may be picked: it is ready and its stride is the smallest.
pub open spec fn is_candidate(q: Seq<TaskSched>, i: int) -> bool {
    q[i].ready && q[i].stride == min_ready_stride(q, q.len() as int)
}

/// `idx` is the first candidate met going round from the cursor.
pub open spec fn picked(q: Seq<TaskSched>, cursor: int, idx: int) -> bool {
    exists|o: int|
        0 <= o < q.len() && idx == rotated(cursor, o, q.len() as int) && is_candidate(q, idx) && (
        forall|o2: int|
            0 <= o2 < o ==> !#[trigger] is_candidate(q, rotated(cursor, o2, q.len() as int)))
}

/// Cursor after the task at `idx` of a queue of `len` tasks was taken out:
/// the position of the task that followed it, which comes next in the round.
pub open spec fn next_cursor(idx: int, len: int) -> int {
    if idx < len - 1 {
        idx
    } else {
        0
    }
}

/// Stride of a task after it has been picked.
pub open spec fn next_stride(t: TaskSched, big_stride: usize) -> usize {
    let step = big_stride / if t.priority >= 2 { t.priority } else { 2 };
    if t.stride + step > usize::MAX {
        usize::MAX
    } else {
        (t.stride + step) as usize
    }
}

/// A queue of tasks that may run, in the order they were added.
pub struct TaskManager {
    ready_queue: std::collections::VecDeque<TaskSched>,
    rr_cursor: usize,
    big_stride: usize,
}

impl TaskManager {
    /// The tasks in the queue, front first.
    pub closed spec fn queue(&self) -> Seq<TaskSched> {
        self.ready_queue@
    }

    /// Round-robin cursor.
    pub closed spec fn cursor(&self) -> usize {
        self.rr_cursor
    }

    /// The constant whose quotient by a priority is a task's step.
    pub closed spec fn spec_big_stride(&self) -> usize {
        self.big_stride
    }

    /// An empty queue whose steps are `big_stride / priority`.
    pub fn new(big_stride: usize) -> (m: Self)
        ensures
            m.queue() == Seq::<TaskSched>::empty(),
            m.cursor() == 0,
            m.spec_big_stride() == big_stride,
    {
        TaskManager { ready_queue: std::collections::VecDeque::new(), rr_cursor: 0, big_stride }
    }

    /// Adds a task at the back of the queue.
    pub fn add(&mut self, task: TaskSched)
        ensures
            final(self).queue() == old(self).queue().push(task),
            final(self).cursor() == old(self).cursor(),
            final(self).spec_big_stride() == old(self).spec_big_stride(),
    {
        self.ready_queue.push_back(task);
    }

    /// Number of tasks in the queue.
    pub fn len(&self) -> (r: usize)
        ensures
            r == self.queue().len(),
    {
        self.ready_queue.len()
    }

    /// Takes out the ready task with the smallest stride, the first such one
    /// going round from the cursor, and advances its stride. Returns `None`,
    /// and changes nothing, when no task of the queue is ready.
    pub fn fetch(&mut self) -> (r: Option<TaskSched>)
        ensures
            final(self).spec_big_stride() == old(self).spec_big_stride(),
            r is None <==> forall|i: int| 0 <= i < old(self).queue().len() ==> !old(self).queue()[i].ready,
            r is None ==> final(self).queue() == old(self).queue() && final(self).cursor() == old(self).cursor(),
            r is Some ==> exists|idx: int|
                0 <= idx < old(self).queue().len() && picked(old(self).queue(), old(self).cursor() as int, idx)
                    && r == Some(TaskSched { stride: next_stride(old(self).queue()[idx], old(self).spec_big_stride()), ..old(self).queue()[idx] })
                    && final(self).queue() == old(self).queue().remove(idx)
                    && final(self).cursor() == next_cursor(idx, old(self).queue().len() as int),
    {
        let len = self.ready_queue.len();
        let ghost q = self.ready_queue@;
        if len == 0 {
            return None;
        }
        let mut min_stride = usize::MAX;
        let mut k: usize = 0;
        while k < len
            invariant
                len == q.len(),
                q == self.ready_queue@,
                q == old(self).ready_queue@,
                self.rr_cursor == old(self).rr_cursor,
                self.big_stride == old(self).big_stride,
                k <= len,
                min_stride == min_ready_stride(q, k as int),
            decreases len - k,
        {
            let t = self.ready_queue[k];
            if t.ready && t.stride < min_stride {
                min_stride = t.stride;
            }
            k += 1;
        }
        let start = self.rr_cursor % len;
        proof {
            lemma_min_ready_stride(q, len as int);
            if exists|i: int| 0 <= i < len && q[i].ready {
                let i = choose|i: int|
                    0 <= i < len && q[i].ready && q[i].stride == min_ready_stride(q, len as int);
                assert(is_candidate(q, i));
            }
        }
        let mut offset: usize = 0;
        while offset < len
            invariant
                len == q.len(),
                len > 0,
                q == self.ready_queue@,
                q == old(self).ready_queue@,
                self.rr_cursor == old(self).rr_cursor,
                self.big_stride == old(self).big_stride,
                start == self.rr_cursor % len,
                offset <= len,
                min_stride == min_ready_stride(q, len as int),
                forall|o2: int|
                    0 <= o2 < offset ==> !#[trigger] is_candidate(q, rotated(self.rr_cursor as int, o2, len as int)),
                forall|i: int|
                    0 <= i < len && q[i].ready ==> min_ready_stride(q, len as int) <= q[i].stride,
                (exists|i: int| 0 <= i < len && q[i].ready) ==> exists|i: int|
                    0 <= i < len && is_candidate(q, i),
            decreases len - offset,
        {
            let idx = if offset < len - start {
                start + offset
            } else {
                offset - (len - start)
            };
            proof {
                lemma_rotated(self.rr_cursor as int, offset as int, len as int);
            }
            let t = self.ready_queue[idx];
            if t.ready && t.stride == min_stride {
                self.rr_cursor = if idx < len - 1 {
                    idx
                } else {
                    0
                };
                let removed = self.ready_queue.remove(idx);
                let mut task = removed.unwrap();
                let step = self.big_stride / if task.priority >= 2 {
                    task.priority
                } else {
                    2
                };
                task.stride = task.stride.saturating_add(step);
                assert(q[idx as int].ready);
                assert(picked(q, old(self).rr_cursor as int, idx as int));
                assert(task == TaskSched { stride: next_stride(q[idx as int], self.big_stride), ..q[idx as int] });
                assert(old(self).queue() == q);
                assert(self.queue() == q.remove(idx as int));
                assert(self.cursor() == next_cursor(idx as int, len as int));
                assert(self.spec_big_stride() == old(self).spec_big_stride());
                return Some(task);
            }
            offset += 1;
        }
        proof {
            if exists|i: int| 0 <= i < len && q[i].ready {
                let i = choose|i: int| 0 <= i < len && is_candidate(q, i);
                let a = old(self).rr_cursor as int % (len as int);
                let o = if i >= a { i - a } else { i + len - a };
                lemma_rotated(old(self).rr_cursor as int, o, len as int);
                assert(!is_candidate(q, rotated(old(self).rr_cursor as int, o, len as int)));
            }
        }
        None
    }
}

proof fn lemma_rotated(cursor: int, offset: int, len: int)
    requires
        0 <= cursor,
        0 <= offset < len,
    ensures
        rotated(cursor, offset, len) == if offset < len - cursor % len {
            cursor % len + offset
        } else {
            offset - (len - cursor % len)
        },
        0 <= rotated(cursor, offset, len) < len,
{
    vstd::arithmetic::div_mod::lemma_add_mod_noop(cursor, offset, len);
    vstd::arithmetic::div_mod::lemma_mod_bound(cursor, len);
    vstd::arithmetic::div_mod::lemma_small_mod(offset as nat, len as nat);
    let a = cursor % len;
    if offset < len - a {
        vstd::arithmetic::div_mod::lemma_small_mod((a + offset) as nat, len as nat);
    } else {
        vstd::arithmetic::div_mod::lemma_mod_add_multiples_vanish(a + offset - len, len);
        vstd::arithmetic::div_mod::lemma_small_mod((a + offset - len) as nat, len as nat);
    }
}

/// The smallest ready stride is at most every ready task's stride, and is
/// the stride of some ready task when one is ready.
proof fn lemma_min_ready_stride(q: Seq<TaskSched>, k: int)
    requires
        0 <= k <= q.len(),
    ensures
        forall|i: int| 0 <= i < k && q[i].ready ==> min_ready_stride(q, k) <= q[i].stride,
        (exists|i: int| 0 <= i < k && q[i].ready) ==> exists|i: int|
            0 <= i < k && q[i].ready && q[i].stride == min_ready_stride(q, k),
        min_ready_stride(q, k) <= usize::MAX,
        !(exists|i: int| 0 <= i < k && q[i].ready) ==> min_ready_stride(q, k) == usize::MAX,
    decreases k,
{
    if k > 0 {
        lemma_min_ready_stride(q, k - 1);
        if exists|i: int| 0 <= i < k && q[i].ready {
            if !(q[k - 1].ready && q[k - 1].stride < min_ready_stride(q, k - 1)) {
                if !q[k - 1].ready {
                    let i = choose|i: int| 0 <= i < k && q[i].ready;
                    assert(i < k - 1);
                } else {
                    if !(exists|i: int| 0 <= i < k - 1 && q[i].ready) {
                        assert(min_ready_stride(q, k - 1) == usize::MAX);
                    }
                }
            }
        }
    }
}

/// The scheduler runs a ready task whose stride is the smallest of all
/// ready tasks.
pub proof fn lemma_picked_has_min_stride(q: Seq<TaskSched>, cursor: int, idx: int)
    requires
        0 <= cursor,
        0 < q.len(),
        picked(q, cursor, idx),
    ensures
        0 <= idx < q.len(),
        q[idx].ready,
        forall|i: int| 0 <= i < q.len() && q[i].ready ==> q[idx].stride <= q[i].stride,
{
    let o = choose|o: int|
        0 <= o < q.len() && idx == rotated(cursor, o, q.len() as int) && is_candidate(q, idx) && (
        forall|o2: int|
            0 <= o2 < o ==> !#[trigger] is_candidate(q, rotated(cursor, o2, q.len() as int)));
    lemma_rotated(cursor, o, q.len() as int);
    lemma_min_ready_stride(q, q.len() as int);
}

/// The choice is determined: one queue and one cursor pick one task.
pub proof fn lemma_picked_unique(q: Seq<TaskSched>, cursor: int, a: int, b: int)
    requires
        picked(q, cursor, a),
        picked(q, cursor, b),
    ensures
        a == b,
{
    let oa = choose|o: int|
        0 <= o < q.len() && a == rotated(cursor, o, q.len() as int) && is_candidate(q, a) && (
        forall|o2: int|
            0 <= o2 < o ==> !#[trigger] is_candidate(q, rotated(cursor, o2, q.len() as int)));
    let ob = choose|o: int|
        0 <= o < q.len() && b == rotated(cursor, o, q.len() as int) && is_candidate(q, b) && (
        forall|o2: int|
            0 <= o2 < o ==> !#[trigger] is_candidate(q, rotated(cursor, o2, q.len() as int)));
    if oa < ob {
        assert(!is_candidate(q, rotated(cursor, oa, q.len() as int)));
    } else if ob < oa {
        assert(!is_candidate(q, rotated(cursor, ob, q.len() as int)));
    }
}

/// Running a task never lowers its stride, and raises it while the sum
/// stays below `usize::MAX` and `big_stride` reaches its priority.
pub proof fn lemma_stride_grows(t: TaskSched, big_stride: usize)
    ensures
        next_stride(t, big_stride) >= t.stride,
        big_stride >= (if t.priority >= 2 { t.priority } else { 2 }) && t.stride < usize::MAX
            ==> next_stride(t, big_stride) > t.stride,
{
    let p: int = if t.priority >= 2 { t.priority as int } else { 2 };
    if big_stride >= p {
        vstd::arithmetic::div_mod::lemma_div_is_ordered(p, big_stride as int, p);
        vstd::arithmetic::div_mod::lemma_div_by_self(p);
    }
    vstd::arithmetic::div_mod::lemma_div_pos_is_pos(big_stride as int, p);
}

/// Round robin: after a pick, the task that followed the picked one is
/// picked next, if it is still a candidate (ready, with the smallest
/// stride); after the last task of the queue, the search starts at the front.
pub proof fn lemma_round_robin_next(q: Seq<TaskSched>, idx: int)
    requires
        0 <= idx < q.len(),
        q.len() > 1,
        is_candidate(q.remove(idx), next_cursor(idx, q.len() as int)),
    ensures
        picked(q.remove(idx), next_cursor(idx, q.len() as int), next_cursor(idx, q.len() as int)),
{
    let q2 = q.remove(idx);
    let c = next_cursor(idx, q.len() as int);
    vstd::arithmetic::div_mod::lemma_small_mod(c as nat, q2.len());
    assert(rotated(c, 0, q2.len() as int) == c);
}

/// The step a picked task's stride goes up by is `big_stride` divided by
/// its priority, for every priority (priorities below 2 count as 2): with
/// `p` that priority and `d` the step, `d * p <= big_stride < (d + 1) * p`.
/// Only when the sum would pass `usize::MAX` does the stride stop there, and
/// then the whole quotient would not have fit.
pub proof fn lemma_stride_step_is_quotient(t: TaskSched, big_stride: usize)
    ensures
        ({
            let p: int = if t.priority >= 2 { t.priority as int } else { 2 };
            let d: int = next_stride(t, big_stride) - t.stride;
            &&& d >= 0
            &&& next_stride(t, big_stride) < usize::MAX ==> d * p <= big_stride < (d + 1) * p
            &&& next_stride(t, big_stride) == usize::MAX ==> (d * p <= big_stride)
        }),
{
    let p: int = if t.priority >= 2 { t.priority as int } else { 2 };
    let b = big_stride as int;
    let q = b / p;
    vstd::arithmetic::div_mod::lemma_fundamental_div_mod(b, p);
    vstd::arithmetic::div_mod::lemma_mod_bound(b, p);
    vstd::arithmetic::div_mod::lemma_div_pos_is_pos(b, p);
    let d: int = next_stride(t, big_stride) - t.stride;
    if t.stride + q > usize::MAX {
        assert(d <= q);
        assert(d * p <= q * p) by (nonlinear_arith)
            requires
                0 <= d <= q,
                p > 0,
        {}
    } else {
        assert(d == q);
        assert(d * p <= b < (d + 1) * p) by (nonlinear_arith)
            requires
                b == p * q + b % p,
                0 <= b % p < p,
                d == q,
        {}
    }
}

} // verus!
