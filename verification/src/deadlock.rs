//! Deadlock detection: the banker's safety check that runs before a thread
//! waits on a semaphore.
//!
//! Resources are the semaphores of a process. For thread `i` and semaphore
//! `j`, `alloc[i][j]` is how many units of `j` the thread holds and
//! `need[i][j]` how many it still waits for; `avail[j]` is what the semaphore
//! has left. A state is safe when the live threads can be put in an order in
//! which each, in turn, finds what it needs among what is available plus what
//! the threads before it gave back.
use vstd::prelude::*;
use vstd::set_lib::*;

verus! {

/// Value a system call returns when it is refused because it would deadlock.
pub const DEADLOCK_DETECTED: isize = -0xdead;

/// What the check reads of a thread slot: its exit code, if it has exited.
pub struct TaskView {
    pub exit_code: Option<i32>,
}

/// What the check reads of a semaphore: its count and the thread ids in its
/// wait queue, front first.
pub struct SemView {
    pub count: isize,
    pub waiters: Vec<usize>,
}

/// Number of times `t` occurs in `s`.
pub open spec fn count_occ(s: Seq<usize>, t: int) -> nat
    decreases s.len(),
{
    if s.len() == 0 {
        0
    } else {
        count_occ(s.drop_last(), t) + if s.last() == t { 1nat } else { 0nat }
    }
}

/// Thread `i` exists and has not exited.
pub open spec fn alive_of(tasks: Seq<Option<TaskView>>) -> Seq<bool> {
    Seq::new(tasks.len(), |i: int| tasks[i] is Some && tasks[i]->0.exit_code is None)
}

/// Units of each semaphore that are available now: its count, or 0 when the
/// count is negative or the slot is empty.
pub open spec fn avail_of(sems: Seq<Option<SemView>>) -> Seq<nat> {
    Seq::new(
        sems.len(),
        |j: int|
            match sems[j] {
                Some(s) => if s.count > 0 { s.count as nat } else { 0nat },
                None => 0nat,
            },
    )
}

/// Units held: row `i` of `allocation` for the threads it covers, 0 beyond.
pub open spec fn alloc_of(allocation: Seq<Vec<usize>>, n: nat, m: nat) -> Seq<Seq<nat>> {
    Seq::new(
        n,
        |i: int|
            Seq::new(
                m,
                |j: int|
                    if i < allocation.len() {
                        allocation[i]@[j] as nat
                    } else {
                        0nat
                    },
            ),
    )
}

/// How often thread `i` waits in the queue of semaphore `j`.
pub open spec fn waiting(sems: Seq<Option<SemView>>, i: int, j: int) -> nat {
    match sems[j] {
        Some(s) => count_occ(s.waiters@, i),
        None => 0,
    }
}

/// Units needed: the waits already queued, plus the request of thread `tid`
/// for one unit of semaphore `sem_id`.
pub open spec fn need_of(sems: Seq<Option<SemView>>, n: nat, tid: int, sem_id: int) -> Seq<
    Seq<nat>,
> {
    Seq::new(
        n,
        |i: int|
            Seq::new(
                sems.len(),
                |j: int| waiting(sems, i, j) + if i == tid && j == sem_id { 1nat } else { 0nat },
            ),
    )
}

/// Units of resource `j` that the threads of `order` give back.
pub open spec fn released(alloc: Seq<Seq<nat>>, order: Seq<int>, j: int) -> nat
    decreases order.len(),
{
    if order.len() == 0 {
        0
    } else {
        released(alloc, order.drop_last(), j) + alloc[order.last()][j]
    }
}

/// Units of each resource available once the threads of `order` are done.
pub open spec fn avail_after(avail: Seq<nat>, alloc: Seq<Seq<nat>>, order: Seq<int>) -> Seq<int> {
    Seq::new(avail.len(), |j: int| (avail[j] + released(alloc, order, j)) as int)
}

/// A need row can be met from the available units `w`.
pub open spec fn fits(need_row: Seq<nat>, w: Seq<int>) -> bool {
    forall|j: int| 0 <= j < w.len() ==> need_row[j] <= w[j]
}

/// `order` lists distinct live threads, each of which can run to completion
/// with what is available after the threads before it have finished.
pub open spec fn is_safe_sequence(
    alive: Seq<bool>,
    avail: Seq<nat>,
    alloc: Seq<Seq<nat>>,
    need: Seq<Seq<nat>>,
    order: Seq<int>,
) -> bool {
    &&& order.no_duplicates()
    &&& forall|p: int|
        #![trigger order[p]]
        0 <= p < order.len() ==> {
            &&& 0 <= order[p] < alive.len()
            &&& alive[order[p]]
            &&& fits(need[order[p]], avail_after(avail, alloc, order.take(p)))
        }
}

/// Every live thread occurs in `order`.
pub open spec fn covers_alive(alive: Seq<bool>, order: Seq<int>) -> bool {
    forall|i: int| 0 <= i < alive.len() && alive[i] ==> order.contains(i)
}

/// The banker's notion of a safe state: some safe sequence holds every live
/// thread.
pub open spec fn is_safe(
    alive: Seq<bool>,
    avail: Seq<nat>,
    alloc: Seq<Seq<nat>>,
    need: Seq<Seq<nat>>,
) -> bool {
    exists|order: Seq<int>|
        #[trigger] is_safe_sequence(alive, avail, alloc, need, order) && covers_alive(alive, order)
}

/// `sem_id` names a semaphore of the process.
pub open spec fn sem_named(sems: Seq<Option<SemView>>, sem_id: int) -> bool {
    0 <= sem_id < sems.len() && sems[sem_id] is Some
}

/// Giving back the units of the threads of any safe sequence keeps each
/// resource within `isize`, the width in which the counts are kept.
pub open spec fn safe_totals_fit(
    alive: Seq<bool>,
    avail: Seq<nat>,
    alloc: Seq<Seq<nat>>,
    need: Seq<Seq<nat>>,
) -> bool {
    forall|s: Seq<int>, j: int|
        #[trigger] is_safe_sequence(alive, avail, alloc, need, s) && 0 <= j < avail.len() ==> avail[j]
            + #[trigger] released(alloc, s, j) <= isize::MAX
}

/// What `sem_down_would_deadlock` answers: the request is refused exactly
/// when `sem_id` names a semaphore and the state with the request added is
/// not safe.
pub open spec fn would_deadlock(
    tasks: Seq<Option<TaskView>>,
    sems: Seq<Option<SemView>>,
    allocation: Seq<Vec<usize>>,
    tid: int,
    sem_id: int,
) -> bool {
    &&& sem_named(sems, sem_id)
    &&& !is_safe(
        alive_of(tasks),
        avail_of(sems),
        alloc_of(allocation, tasks.len(), sems.len()),
        need_of(sems, tasks.len(), tid, sem_id),
    )
}

proof fn lemma_count_occ_bound(s: Seq<usize>, t: int)
    ensures
        count_occ(s, t) <= s.len(),
    decreases s.len(),
{
    if s.len() > 0 {
        lemma_count_occ_bound(s.drop_last(), t);
    }
}

proof fn lemma_count_occ_step(s: Seq<usize>, k: int, t: int)
    requires
        0 <= k < s.len(),
    ensures
        count_occ(s.take(k + 1), t) == count_occ(s.take(k), t) + if s[k] == t { 1nat } else { 0nat },
{
    assert(s.take(k + 1).drop_last() =~= s.take(k));
}

proof fn lemma_released_push(alloc: Seq<Seq<nat>>, order: Seq<int>, i: int, j: int)
    ensures
        released(alloc, order.push(i), j) == released(alloc, order, j) + alloc[i][j],
{
    assert(order.push(i).drop_last() =~= order);
}

proof fn lemma_released_remove(alloc: Seq<Seq<nat>>, t: Seq<int>, k: int, j: int)
    requires
        0 <= k < t.len(),
    ensures
        released(alloc, t, j) == released(alloc, t.remove(k), j) + alloc[t[k]][j],
    decreases t.len(),
{
    if k == t.len() - 1 {
        assert(t.remove(k) =~= t.drop_last());
    } else {
        lemma_released_remove(alloc, t.drop_last(), k, j);
        assert(t.remove(k).drop_last() =~= t.drop_last().remove(k));
        assert(t.remove(k).last() == t.last());
    }
}

/// Fewer distinct threads give back no more.
proof fn lemma_released_subset(alloc: Seq<Seq<nat>>, s: Seq<int>, t: Seq<int>, j: int)
    requires
        s.no_duplicates(),
        t.no_duplicates(),
        forall|x: int| s.contains(x) ==> t.contains(x),
    ensures
        released(alloc, s, j) <= released(alloc, t, j),
    decreases s.len(),
{
    if s.len() > 0 {
        let x = s.last();
        assert(s.contains(x)) by {
            assert(s[s.len() - 1] == x);
        }
        let k = choose|k: int| 0 <= k < t.len() && t[k] == x;
        let t2 = t.remove(k);
        let s2 = s.drop_last();
        assert forall|y: int| s2.contains(y) implies t2.contains(y) by {
            let p = choose|p: int| 0 <= p < s2.len() && s2[p] == y;
            assert(s[p] == y);
            assert(y != x);
            assert(t.contains(y));
            let q = choose|q: int| 0 <= q < t.len() && t[q] == y;
            assert(q != k);
            if q < k {
                assert(t2[q] == y);
            } else {
                assert(t2[q - 1] == y);
            }
        }
        assert(t2.no_duplicates()) by {
            assert forall|a: int, b: int| 0 <= a < t2.len() && 0 <= b < t2.len() && a != b implies t2[a]
                != t2[b] by {
                let a2 = if a < k { a } else { a + 1 };
                let b2 = if b < k { b } else { b + 1 };
                assert(t2[a] == t[a2]);
                assert(t2[b] == t[b2]);
            }
        }
        lemma_released_subset(alloc, s2, t2, j);
        lemma_released_remove(alloc, t, k, j);
    }
}

/// A sequence of distinct indices below `n` is no longer than `n`.
proof fn lemma_distinct_bounded_len(s: Seq<int>, n: int)
    requires
        0 <= n,
        s.no_duplicates(),
        forall|p: int| 0 <= p < s.len() ==> 0 <= #[trigger] s[p] < n,
    ensures
        s.len() <= n,
{
    s.unique_seq_to_set();
    lemma_int_range(0, n);
    assert(s.to_set().subset_of(set_int_range(0, n)));
    lemma_len_subset(s.to_set(), set_int_range(0, n));
}

/// The greedy pass is complete: if `order` is a safe sequence and no live
/// thread outside it can run with what is available after it, then every
/// thread of any safe sequence already occurs in `order`.
proof fn lemma_safe_seq_within(
    alive: Seq<bool>,
    avail: Seq<nat>,
    alloc: Seq<Seq<nat>>,
    need: Seq<Seq<nat>>,
    order: Seq<int>,
    s: Seq<int>,
    p: int,
)
    requires
        is_safe_sequence(alive, avail, alloc, need, order),
        is_safe_sequence(alive, avail, alloc, need, s),
        forall|i: int|
            0 <= i < alive.len() && alive[i] && !order.contains(i) ==> !fits(
                #[trigger] need[i],
                avail_after(avail, alloc, order),
            ),
        0 <= p <= s.len(),
    ensures
        forall|q: int| 0 <= q < p ==> order.contains(#[trigger] s[q]),
    decreases p,
{
    if p > 0 {
        lemma_safe_seq_within(alive, avail, alloc, need, order, s, p - 1);
        let x = s[p - 1];
        let prefix = s.take(p - 1);
        assert(fits(need[x], avail_after(avail, alloc, prefix)));
        assert(prefix.no_duplicates());
        assert forall|y: int| prefix.contains(y) implies order.contains(y) by {
            let q = choose|q: int| 0 <= q < prefix.len() && prefix[q] == y;
            assert(s[q] == y);
        }
        assert forall|j: int| 0 <= j < avail.len() implies avail_after(avail, alloc, prefix)[j]
            <= avail_after(avail, alloc, order)[j] by {
            lemma_released_subset(alloc, prefix, order, j);
        }
        assert(fits(need[x], avail_after(avail, alloc, order)));
    }
}

/// Banker's safety check made before thread `tid` waits on semaphore
/// `sem_id` (the caller has seen that its count does not let it pass).
///
/// `tasks` are the thread slots of the process, `semaphores` its semaphore
/// slots and `allocation[i][j]` how many units of semaphore `j` thread `i`
/// holds. Returns `true` when granting the wait would leave the process in a
/// state that is not safe; `false` when `sem_id` names no semaphore.
pub fn sem_down_would_deadlock(
    tasks: &[Option<TaskView>],
    semaphores: &[Option<SemView>],
    allocation: &[Vec<usize>],
    tid: usize,
    sem_id: usize,
) -> (deadlock: bool)
    requires
        sem_named(semaphores@, sem_id as int) ==> forall|i: int|
            0 <= i < tasks@.len() && i < allocation@.len() ==> allocation@[i]@.len()
                >= semaphores@.len(),
        sem_named(semaphores@, sem_id as int) ==> forall|j: int|
            0 <= j < semaphores@.len() && (#[trigger] semaphores@[j]) is Some
                ==> semaphores@[j]->0.waiters@.len() < isize::MAX,
        sem_named(semaphores@, sem_id as int) ==> safe_totals_fit(
            alive_of(tasks@),
            avail_of(semaphores@),
            alloc_of(allocation@, tasks@.len(), semaphores@.len()),
            need_of(semaphores@, tasks@.len(), tid as int, sem_id as int),
        ),
    ensures
        deadlock == would_deadlock(tasks@, semaphores@, allocation@, tid as int, sem_id as int),
{
    let n = tasks.len();
    let m = semaphores.len();
    if sem_id >= m {
        return false;
    }
    if semaphores[sem_id].is_none() {
        return false;
    }
    let ghost alive = alive_of(tasks@);
    let ghost avail = avail_of(semaphores@);
    let ghost alloc = alloc_of(allocation@, n as nat, m as nat);
    let ghost need = need_of(semaphores@, n as nat, tid as int, sem_id as int);

    // Units available now.
    let mut work: Vec<usize> = Vec::new();
    for j in 0..m
        invariant
            m == semaphores@.len(),
            avail == avail_of(semaphores@),
            work@.len() == j,
            forall|k: int| 0 <= k < j ==> work@[k] == avail[k],
    {
        let w: usize = match &semaphores[j] {
            Some(sem) => if sem.count > 0 {
                sem.count as usize
            } else {
                0
            },
            None => 0,
        };
        work.push(w);
    }

    // Units needed, kept by column: `need_cols[j][i]` is what thread `i`
    // waits for of semaphore `j`.
    let mut need_cols: Vec<Vec<usize>> = Vec::new();
    for j in 0..m
        invariant
            n == tasks@.len(),
            m == semaphores@.len(),
            sem_id < m,
            need == need_of(semaphores@, n as nat, tid as int, sem_id as int),
            forall|j2: int|
                0 <= j2 < semaphores@.len() && (#[trigger] semaphores@[j2]) is Some
                    ==> semaphores@[j2]->0.waiters@.len() < isize::MAX,
            need_cols@.len() == j,
            forall|k: int| 0 <= k < j ==> (#[trigger] need_cols@[k])@.len() == n,
            forall|k: int, i: int|
                0 <= k < j && 0 <= i < n ==> need_cols@[k]@[i] == #[trigger] need[i][k],
    {
        let mut col: Vec<usize> = Vec::new();
        for i in 0..n
            invariant
                col@.len() == i,
                forall|i2: int| 0 <= i2 < i ==> col@[i2] == 0,
        {
            col.push(0);
        }
        match &semaphores[j] {
            Some(sem) => {
                let ghost ws = sem.waiters@;
                for k in 0..sem.waiters.len()
                    invariant
                        ws == sem.waiters@,
                        ws.len() < isize::MAX,
                        col@.len() == n,
                        forall|t: int| 0 <= t < n ==> col@[t] == count_occ(ws.take(k as int), t),
                {
                    let t = sem.waiters[k];
                    proof {
                        assert forall|t2: int| 0 <= t2 < n implies count_occ(ws.take(k + 1), t2)
                            == count_occ(ws.take(k as int), t2) + if ws[k as int] == t2 {
                            1nat
                        } else {
                            0nat
                        } by {
                            lemma_count_occ_step(ws, k as int, t2);
                        }
                        lemma_count_occ_bound(ws.take(k as int), t as int);
                    }
                    if t < n {
                        col.set(t, col[t] + 1);
                    }
                }
                assert(ws.take(ws.len() as int) =~= ws);
            },
            None => {},
        }
        if j == sem_id && tid < n {
            proof {
                let ws = semaphores@[j as int]->0.waiters@;
                lemma_count_occ_bound(ws, tid as int);
            }
            col.set(tid, col[tid] + 1);
        }
        assert forall|i: int| 0 <= i < n implies col@[i] == #[trigger] need[i][j as int] by {
        }
        need_cols.push(col);
    }

    // Threads that have finished or need not be considered.
    let mut finish: Vec<bool> = Vec::new();
    for i in 0..n
        invariant
            n == tasks@.len(),
            alive == alive_of(tasks@),
            finish@.len() == i,
            forall|k: int| 0 <= k < i ==> finish@[k] == !alive[k],
    {
        let done = match &tasks[i] {
            Some(task) => task.exit_code.is_some(),
            None => true,
        };
        finish.push(done);
    }

    let ghost mut order: Seq<int> = Seq::empty();
    assert(order.take(0) =~= order);
    loop
        invariant
            n == tasks@.len(),
            m == semaphores@.len(),
            alive == alive_of(tasks@),
            avail == avail_of(semaphores@),
            alloc == alloc_of(allocation@, n as nat, m as nat),
            forall|i: int|
                0 <= i < n && i < allocation@.len() ==> allocation@[i]@.len() >= m,
            safe_totals_fit(alive, avail, alloc, need),
            work@.len() == m,
            need_cols@.len() == m,
            forall|k: int| 0 <= k < m ==> (#[trigger] need_cols@[k])@.len() == n,
            forall|k: int, i: int|
                0 <= k < m && 0 <= i < n ==> need_cols@[k]@[i] == #[trigger] need[i][k],
            finish@.len() == n,
            is_safe_sequence(alive, avail, alloc, need, order),
            forall|i: int| 0 <= i < n ==> finish@[i] == (!alive[i] || order.contains(i)),
            forall|j: int|
                0 <= j < m ==> work@[j] == #[trigger] avail_after(avail, alloc, order)[j],
        ensures
            is_safe_sequence(alive, avail, alloc, need, order),
            forall|i: int| 0 <= i < n ==> finish@[i] == (!alive[i] || order.contains(i)),
            forall|i: int|
                0 <= i < n && alive[i] && !order.contains(i) ==> !fits(
                    #[trigger] need[i],
                    avail_after(avail, alloc, order),
                ),
        decreases n - order.len(),
    {
        let mut found = false;
        let ghost start = order;
        for i in 0..n
            invariant
                n == tasks@.len(),
                m == semaphores@.len(),
                alive == alive_of(tasks@),
                avail == avail_of(semaphores@),
                alloc == alloc_of(allocation@, n as nat, m as nat),
                forall|i2: int|
                    0 <= i2 < n && i2 < allocation@.len() ==> allocation@[i2]@.len() >= m,
                safe_totals_fit(alive, avail, alloc, need),
                work@.len() == m,
                need_cols@.len() == m,
                forall|k: int| 0 <= k < m ==> (#[trigger] need_cols@[k])@.len() == n,
                forall|k: int, i2: int|
                    0 <= k < m && 0 <= i2 < n ==> need_cols@[k]@[i2] == #[trigger] need[i2][k],
                finish@.len() == n,
                is_safe_sequence(alive, avail, alloc, need, order),
                forall|i2: int| 0 <= i2 < n ==> finish@[i2] == (!alive[i2] || order.contains(i2)),
                forall|j: int|
                    0 <= j < m ==> work@[j] == #[trigger] avail_after(avail, alloc, order)[j],
                found ==> order.len() > start.len(),
                !found ==> order == start,
                !found ==> forall|i2: int|
                    0 <= i2 < i && alive[i2] && !order.contains(i2) ==> !fits(
                        #[trigger] need[i2],
                        avail_after(avail, alloc, order),
                    ),
        {
            if !finish[i] && tasks[i].is_some() {
                let mut ok = true;
                let mut j: usize = 0;
                while j < m
                    invariant
                        j <= m,
                        i < n,
                        work@.len() == m,
                        need_cols@.len() == m,
                        forall|k: int| 0 <= k < m ==> (#[trigger] need_cols@[k])@.len() == n,
                        ok == forall|k: int| 0 <= k < j ==> need_cols@[k]@[i as int] <= work@[k],
                    decreases m - j,
                {
                    if need_cols[j][i] > work[j] {
                        ok = false;
                    }
                    j += 1;
                }
                proof {
                    let w = avail_after(avail, alloc, order);
                    if ok {
                        assert(fits(need[i as int], w)) by {
                            assert forall|k: int| 0 <= k < w.len() implies need[i as int][k] <= w[k] by {
                                assert(need_cols@[k]@[i as int] == need[i as int][k]);
                            }
                        }
                    } else {
                        assert(!fits(need[i as int], w)) by {
                            let k = choose|k: int|
                                0 <= k < m && !(need_cols@[k]@[i as int] <= work@[k]);
                            assert(need_cols@[k]@[i as int] == need[i as int][k]);
                        }
                    }
                }
                if ok {
                    let ghost new_order = order.push(i as int);
                    proof {
                        assert(new_order.take(order.len() as int) =~= order);
                        assert forall|p: int| 0 <= p < order.len() implies new_order.take(p) =~= order.take(p)
                            && new_order[p] == order[p] by {}
                        assert(new_order.no_duplicates()) by {
                            assert(!order.contains(i as int));
                        }
                        assert(alive[i as int] && !order.contains(i as int));
                        assert forall|p: int| #![trigger new_order[p]] 0 <= p < new_order.len() implies {
                            &&& 0 <= new_order[p] < alive.len()
                            &&& alive[new_order[p]]
                            &&& fits(need[new_order[p]], avail_after(avail, alloc, new_order.take(p)))
                        } by {
                            if p < order.len() {
                                assert(order[p] == new_order[p]);
                                assert(new_order.take(p) =~= order.take(p));
                            }
                        }
                        assert(is_safe_sequence(alive, avail, alloc, need, new_order));
                    }
                    finish.set(i, true);
                    found = true;
                    for j in 0..m
                        invariant
                            n == tasks@.len(),
                            i < n,
                            m == semaphores@.len(),
                            alive == alive_of(tasks@),
                            avail == avail_of(semaphores@),
                            alloc == alloc_of(allocation@, n as nat, m as nat),
                            forall|i2: int|
                                0 <= i2 < n && i2 < allocation@.len() ==> allocation@[i2]@.len() >= m,
                            safe_totals_fit(alive, avail, alloc, need),
                            is_safe_sequence(alive, avail, alloc, need, new_order),
                            new_order == order.push(i as int),
                            work@.len() == m,
                            forall|k: int|
                                0 <= k < j ==> work@[k] == #[trigger] avail_after(avail, alloc, new_order)[k],
                            forall|k: int|
                                j <= k < m ==> work@[k] == #[trigger] avail_after(avail, alloc, order)[k],
                    {
                        proof {
                            lemma_released_push(alloc, order, i as int, j as int);
                            assert(avail.len() == m);
                        }
                        let a: usize = if i < allocation.len() {
                            allocation[i][j]
                        } else {
                            0
                        };
                        proof {
                            assert(a == alloc[i as int][j as int]);
                            assert(work@[j as int] == avail_after(avail, alloc, order)[j as int]);
                            assert(avail[j as int] + released(alloc, new_order, j as int) <= isize::MAX);
                        }
                        work.set(j, work[j] + a);
                        assert(work@[j as int] == avail_after(avail, alloc, new_order)[j as int]);
                    }
                    proof {
                        assert forall|x: int| #[trigger] new_order.contains(x) <==> (x == i || order.contains(x)) by {
                            if new_order.contains(x) && x != i {
                                let p = choose|p: int| 0 <= p < new_order.len() && new_order[p] == x;
                                assert(order[p] == x);
                            }
                            if order.contains(x) {
                                let p = choose|p: int| 0 <= p < order.len() && order[p] == x;
                                assert(new_order[p] == x);
                            }
                            if x == i {
                                assert(new_order[order.len() as int] == x);
                            }
                        }
                        order = new_order;
                    }
                }
            }
        }
        proof {
            lemma_distinct_bounded_len(order, n as int);
        }
        if !found {
            break;
        }
    }

    for i in 0..n
        invariant
            n == tasks@.len(),
            alive == alive_of(tasks@),
            finish@.len() == n,
            forall|i2: int| 0 <= i2 < n ==> finish@[i2] == (!alive[i2] || order.contains(i2)),
            forall|i2: int| 0 <= i2 < i ==> !alive[i2] || order.contains(i2),
            m == semaphores@.len(),
            sem_id < m,
            semaphores@[sem_id as int] is Some,
            avail == avail_of(semaphores@),
            alloc == alloc_of(allocation@, n as nat, m as nat),
            need == need_of(semaphores@, n as nat, tid as int, sem_id as int),
            is_safe_sequence(alive, avail, alloc, need, order),
            forall|i2: int|
                0 <= i2 < n && alive[i2] && !order.contains(i2) ==> !fits(
                    #[trigger] need[i2],
                    avail_after(avail, alloc, order),
                ),
    {
        if let Some(task) = &tasks[i] {
            if task.exit_code.is_none() && !finish[i] {
                proof {
                    assert(alive[i as int]);
                    if is_safe(alive, avail, alloc, need) {
                        let s = choose|s: Seq<int>|
                            #[trigger] is_safe_sequence(alive, avail, alloc, need, s) && covers_alive(
                                alive,
                                s,
                            );
                        lemma_safe_seq_within(alive, avail, alloc, need, order, s, s.len() as int);
                        assert(s.contains(i as int));
                        let q = choose|q: int| 0 <= q < s.len() && s[q] == i as int;
                        assert(order.contains(s[q]));
                        assert(false);
                    }
                }
                return true;
            }
        }
    }
    assert(covers_alive(alive, order));
    assert(is_safe_sequence(alive, avail, alloc, need, order));
    false
}

proof fn lemma_released_mono(a1: Seq<Seq<nat>>, a2: Seq<Seq<nat>>, t: Seq<int>, j: int)
    requires
        forall|x: int| #![trigger t.contains(x)] t.contains(x) ==> a1[x][j] <= a2[x][j],
    ensures
        released(a1, t, j) <= released(a2, t, j),
    decreases t.len(),
{
    if t.len() > 0 {
        assert(t.contains(t.last())) by {
            assert(t[t.len() - 1] == t.last());
        }
        assert forall|x: int| #![trigger t.drop_last().contains(x)] t.drop_last().contains(x) implies a1[x][j]
            <= a2[x][j] by {
            let p = choose|p: int| 0 <= p < t.drop_last().len() && t.drop_last()[p] == x;
            assert(t[p] == x);
            assert(t.contains(x));
        }
        lemma_released_mono(a1, a2, t.drop_last(), j);
    }
}

/// More units never make a safe state unsafe: with at least as many units
/// available of each semaphore, and at least as many held by each thread
/// (held units are given back when the thread finishes), a safe sequence
/// stays safe.
pub proof fn lemma_more_units_stay_safe(
    alive: Seq<bool>,
    avail1: Seq<nat>,
    avail2: Seq<nat>,
    alloc1: Seq<Seq<nat>>,
    alloc2: Seq<Seq<nat>>,
    need: Seq<Seq<nat>>,
)
    requires
        avail1.len() == avail2.len(),
        forall|j: int| 0 <= j < avail1.len() ==> avail1[j] <= avail2[j],
        forall|i: int, j: int|
            0 <= i < alive.len() && 0 <= j < avail1.len() ==> alloc1[i][j] <= alloc2[i][j],
        is_safe(alive, avail1, alloc1, need),
    ensures
        is_safe(alive, avail2, alloc2, need),
{
    let s = choose|s: Seq<int>|
        #[trigger] is_safe_sequence(alive, avail1, alloc1, need, s) && covers_alive(alive, s);
    assert forall|p: int| #![trigger s[p]] 0 <= p < s.len() implies fits(
        need[s[p]],
        avail_after(avail2, alloc2, s.take(p)),
    ) by {
        let w1 = avail_after(avail1, alloc1, s.take(p));
        let w2 = avail_after(avail2, alloc2, s.take(p));
        assert(fits(need[s[p]], w1));
        assert forall|j: int| 0 <= j < w2.len() implies need[s[p]][j] <= w2[j] by {
            assert forall|x: int| #![trigger s.take(p).contains(x)] s.take(p).contains(x) implies alloc1[x][j]
                <= alloc2[x][j] by {
                let q = choose|q: int| 0 <= q < s.take(p).len() && s.take(p)[q] == x;
                assert(s[q] == x);
            }
            lemma_released_mono(alloc1, alloc2, s.take(p), j);
            assert(w1[j] <= w2[j]);
        }
    }
    assert(is_safe_sequence(alive, avail2, alloc2, need, s));
}

/// More units never create a deadlock: if a wait was granted, it is also
/// granted when each semaphore has at least as large a count and each
/// thread holds at least as many units, with the same threads, the same
/// wait queues and the same request.
pub proof fn lemma_more_units_no_deadlock(
    tasks: Seq<Option<TaskView>>,
    sems1: Seq<Option<SemView>>,
    sems2: Seq<Option<SemView>>,
    allocation1: Seq<Vec<usize>>,
    allocation2: Seq<Vec<usize>>,
    tid: int,
    sem_id: int,
)
    requires
        sems1.len() == sems2.len(),
        forall|j: int|
            #![trigger sems1[j], sems2[j]]
            0 <= j < sems1.len() ==> {
                &&& (sems1[j] is Some) == (sems2[j] is Some)
                &&& sems1[j] is Some ==> sems1[j]->0.waiters@ == sems2[j]->0.waiters@
                    && sems1[j]->0.count <= sems2[j]->0.count
            },
        forall|i: int, j: int|
            0 <= i < tasks.len() && 0 <= j < sems1.len() ==> alloc_of(allocation1, tasks.len(), sems1.len())[i][j]
                <= alloc_of(allocation2, tasks.len(), sems2.len())[i][j],
        !would_deadlock(tasks, sems1, allocation1, tid, sem_id),
    ensures
        !would_deadlock(tasks, sems2, allocation2, tid, sem_id),
{
    let n = tasks.len();
    let m = sems1.len();
    let need1 = need_of(sems1, n, tid, sem_id);
    let need2 = need_of(sems2, n, tid, sem_id);
    assert forall|i: int| 0 <= i < n implies #[trigger] need1[i] == need2[i] by {
        assert forall|j: int| 0 <= j < m implies need1[i][j] == need2[i][j] by {
            assert(sems1[j] is Some == sems2[j] is Some);
        }
        assert(need1[i] =~= need2[i]);
    }
    assert(need1 =~= need2);
    if sem_named(sems2, sem_id) {
        assert(sems1[sem_id] is Some == sems2[sem_id] is Some);
        let avail1 = avail_of(sems1);
        let avail2 = avail_of(sems2);
        assert forall|j: int| 0 <= j < avail1.len() implies avail1[j] <= avail2[j] by {
            assert(sems1[j] is Some == sems2[j] is Some);
        }
        lemma_more_units_stay_safe(
            alive_of(tasks),
            avail1,
            avail2,
            alloc_of(allocation1, n, m),
            alloc_of(allocation2, n, m),
            need1,
        );
    }
}

proof fn lemma_count_occ_multiset(s: Seq<usize>, t: usize)
    ensures
        count_occ(s, t as int) == s.to_multiset().count(t),
    decreases s.len(),
{
    broadcast use vstd::seq_lib::group_to_multiset_ensures;

    if s.len() == 0 {
        assert(s.to_multiset() =~= vstd::multiset::Multiset::empty());
    } else {
        lemma_count_occ_multiset(s.drop_last(), t);
        assert(s.drop_last().push(s.last()) =~= s);
    }
}

/// A thread needs a unit of a semaphore for every place it holds in that
/// semaphore's wait queue, front or not, and one more when it is the thread
/// making the request for it: a thread that waits anywhere in a queue needs
/// the semaphore.
pub proof fn lemma_need_counts_every_wait(
    sems: Seq<Option<SemView>>,
    n: nat,
    tid: int,
    sem_id: int,
    i: int,
    j: int,
)
    requires
        0 <= i < n,
        i <= usize::MAX,
        0 <= j < sems.len(),
        sems[j] is Some,
    ensures
        need_of(sems, n, tid, sem_id)[i][j] == sems[j]->0.waiters@.to_multiset().count(i as usize)
            + if i == tid && j == sem_id { 1nat } else { 0nat },
        sems[j]->0.waiters@.contains(i as usize) ==> need_of(sems, n, tid, sem_id)[i][j] >= 1,
{
    broadcast use vstd::seq_lib::group_to_multiset_ensures;

    lemma_count_occ_multiset(sems[j]->0.waiters@, i as usize);
}

/// The order of a wait queue does not matter: semaphores with the same
/// counts and the same waiting threads, each as often, in any order, give
/// the same answer.
pub proof fn lemma_deadlock_ignores_queue_order(
    tasks: Seq<Option<TaskView>>,
    sems1: Seq<Option<SemView>>,
    sems2: Seq<Option<SemView>>,
    allocation: Seq<Vec<usize>>,
    tid: int,
    sem_id: int,
)
    requires
        tasks.len() <= usize::MAX,
        sems1.len() == sems2.len(),
        forall|j: int|
            #![trigger sems1[j], sems2[j]]
            0 <= j < sems1.len() ==> {
                &&& (sems1[j] is Some) == (sems2[j] is Some)
                &&& sems1[j] is Some ==> sems1[j]->0.count == sems2[j]->0.count
                    && sems1[j]->0.waiters@.to_multiset() == sems2[j]->0.waiters@.to_multiset()
            },
    ensures
        would_deadlock(tasks, sems1, allocation, tid, sem_id) == would_deadlock(
            tasks,
            sems2,
            allocation,
            tid,
            sem_id,
        ),
{
    let n = tasks.len();
    let m = sems1.len();
    let need1 = need_of(sems1, n, tid, sem_id);
    let need2 = need_of(sems2, n, tid, sem_id);
    assert forall|i: int| 0 <= i < n implies #[trigger] need1[i] == need2[i] by {
        assert forall|j: int| 0 <= j < m implies need1[i][j] == need2[i][j] by {
            assert((sems1[j] is Some) == (sems2[j] is Some));
            if sems1[j] is Some {
                lemma_need_counts_every_wait(sems1, n, tid, sem_id, i, j);
                lemma_need_counts_every_wait(sems2, n, tid, sem_id, i, j);
            }
        }
        assert(need1[i] =~= need2[i]);
    }
    assert(need1 =~= need2);
    assert forall|j: int| 0 <= j < m implies avail_of(sems1)[j] == avail_of(sems2)[j] by {
        assert((sems1[j] is Some) == (sems2[j] is Some));
    }
    assert(avail_of(sems1) =~= avail_of(sems2));
    if sem_named(sems1, sem_id) {
        assert((sems1[sem_id] is Some) == (sems2[sem_id] is Some));
    }
    if sem_named(sems2, sem_id) {
        assert((sems1[sem_id] is Some) == (sems2[sem_id] is Some));
    }
}

} // verus!
