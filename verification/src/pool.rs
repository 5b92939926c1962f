use vstd::prelude::*;

use crate::loads::{
    lemma_sum_by_update, pooled_count, queue_count, queue_len, queue_len_squared, queues_of,
    squared_load, total_load,
};
use crate::task::Task;

verus! {

broadcast use vstd::seq_lib::group_seq_properties;

/// Work-stealing scheduler with multiple workers, each owning a queue of tasks.
pub struct WorkStealingPool {
    pub workers: Vec<Vec<Task>>,
}

impl View for WorkStealingPool {
    type V = Seq<Seq<Task>>;

    open spec fn view(&self) -> Seq<Seq<Task>> {
        queues_of(self.workers@)
    }
}

/// `b` is the last of the workers with the greatest load.
pub open spec fn is_busiest(ws: Seq<Seq<Task>>, b: int) -> bool {
    &&& 0 <= b < ws.len()
    &&& forall|k: int| 0 <= k < ws.len() ==> #[trigger] ws[k].len() <= ws[b].len()
    &&& forall|k: int| b < k < ws.len() ==> #[trigger] ws[k].len() < ws[b].len()
}

/// `i` is the first of the workers with the smallest load.
pub open spec fn is_idlest(ws: Seq<Seq<Task>>, i: int) -> bool {
    &&& 0 <= i < ws.len()
    &&& forall|k: int| 0 <= k < ws.len() ==> ws[i].len() <= #[trigger] ws[k].len()
    &&& forall|k: int| 0 <= k < i ==> ws[i].len() < #[trigger] ws[k].len()
}

/// A task may be stolen unless it is urgent.
pub open spec fn stealable(t: Task) -> bool {
    t.priority != 1
}

/// `p` is the position of the first stealable task of queue `q`.
pub open spec fn is_first_stealable(q: Seq<Task>, p: int) -> bool {
    &&& 0 <= p < q.len()
    &&& stealable(q[p])
    &&& forall|k: int| 0 <= k < p ==> !stealable(#[trigger] q[k])
}

/// Queue `q` holds at least one stealable task.
pub open spec fn has_stealable(q: Seq<Task>) -> bool {
    exists|p: int| 0 <= p < q.len() && stealable(#[trigger] q[p])
}

/// The last busiest worker.
pub open spec fn busiest(ws: Seq<Seq<Task>>) -> int {
    choose|b: int| is_busiest(ws, b)
}

/// The first idlest worker.
pub open spec fn idlest(ws: Seq<Seq<Task>>) -> int {
    choose|i: int| is_idlest(ws, i)
}

/// Position of the first stealable task of `q`.
pub open spec fn first_stealable(q: Seq<Task>) -> int {
    choose|p: int| is_first_stealable(q, p)
}

/// A steal takes place: there are at least two workers, the busiest holds at
/// least two tasks more than the idlest, and it holds a non-urgent task.
pub open spec fn can_steal(ws: Seq<Seq<Task>>) -> bool {
    &&& ws.len() >= 2
    &&& ws[busiest(ws)].len() > ws[idlest(ws)].len() + 1
    &&& has_stealable(ws[busiest(ws)])
}

/// The queues after the task at position `p` of worker `from` moves to the
/// back of worker `to`'s queue.
pub open spec fn moved_task(ws: Seq<Seq<Task>>, from: int, to: int, p: int) -> Seq<Seq<Task>> {
    ws.update(from, ws[from].remove(p)).update(to, ws[to].push(ws[from][p]))
}

/// The queues after one steal: the first non-urgent task of the busiest
/// worker moves to the back of the idlest worker's queue, or nothing changes
/// when no steal takes place.
pub open spec fn after_steal(ws: Seq<Seq<Task>>) -> Seq<Seq<Task>> {
    if can_steal(ws) {
        let b = busiest(ws);
        moved_task(ws, b, idlest(ws), first_stealable(ws[b]))
    } else {
        ws
    }
}

/// Every non-empty pool has a busiest worker.
pub proof fn lemma_busiest_exists(ws: Seq<Seq<Task>>) -> (b: int)
    requires
        ws.len() > 0,
    ensures
        is_busiest(ws, b),
    decreases ws.len(),
{
    if ws.len() == 1 {
        0
    } else {
        let prefix = ws.drop_last();
        let b0 = lemma_busiest_exists(prefix);
        assert(forall|k: int| 0 <= k < prefix.len() ==> prefix[k] == ws[k]);
        if ws.last().len() >= ws[b0].len() {
            (ws.len() - 1) as int
        } else {
            b0
        }
    }
}

/// Every non-empty pool has an idlest worker.
pub proof fn lemma_idlest_exists(ws: Seq<Seq<Task>>) -> (i: int)
    requires
        ws.len() > 0,
    ensures
        is_idlest(ws, i),
    decreases ws.len(),
{
    if ws.len() == 1 {
        0
    } else {
        let prefix = ws.drop_last();
        let i0 = lemma_idlest_exists(prefix);
        assert(forall|k: int| 0 <= k < prefix.len() ==> prefix[k] == ws[k]);
        if ws.last().len() < ws[i0].len() {
            (ws.len() - 1) as int
        } else {
            i0
        }
    }
}

/// The busiest and idlest workers are well defined, and `busiest` and
/// `idlest` name them.
pub proof fn lemma_busiest_idlest(ws: Seq<Seq<Task>>)
    requires
        ws.len() > 0,
    ensures
        is_busiest(ws, busiest(ws)),
        is_idlest(ws, idlest(ws)),
        forall|b: int| is_busiest(ws, b) ==> b == busiest(ws),
        forall|i: int| is_idlest(ws, i) ==> i == idlest(ws),
{
    let b = lemma_busiest_exists(ws);
    let i = lemma_idlest_exists(ws);
    assert forall|b2: int| is_busiest(ws, b2) implies b2 == busiest(ws) by {
        let b1 = busiest(ws);
        if b2 < b1 {
            assert(ws[b1].len() < ws[b2].len());
        } else if b1 < b2 {
            assert(ws[b2].len() < ws[b1].len());
        }
    }
    assert forall|i2: int| is_idlest(ws, i2) implies i2 == idlest(ws) by {
        let i1 = idlest(ws);
        if i2 < i1 {
            assert(ws[i2].len() < ws[i1].len());
        } else if i1 < i2 {
            assert(ws[i1].len() < ws[i2].len());
        }
    }
}

/// A stealable task at `w` implies a first stealable task at or before `w`.
proof fn lemma_first_stealable_below(q: Seq<Task>, w: int) -> (p: int)
    requires
        0 <= w < q.len(),
        stealable(q[w]),
    ensures
        is_first_stealable(q, p),
    decreases w,
{
    if exists|k: int| 0 <= k < w && stealable(#[trigger] q[k]) {
        let k = choose|k: int| 0 <= k < w && stealable(#[trigger] q[k]);
        lemma_first_stealable_below(q, k)
    } else {
        w
    }
}

/// The first stealable task of a queue is well defined whenever the queue
/// holds one.
pub proof fn lemma_first_stealable(q: Seq<Task>)
    ensures
        has_stealable(q) ==> is_first_stealable(q, first_stealable(q)),
        forall|p: int| is_first_stealable(q, p) ==> p == first_stealable(q),
{
    if has_stealable(q) {
        let w = choose|p: int| 0 <= p < q.len() && stealable(#[trigger] q[p]);
        let p = lemma_first_stealable_below(q, w);
        assert(is_first_stealable(q, p));
    }
    assert forall|p2: int| is_first_stealable(q, p2) implies p2 == first_stealable(q) by {
        let p1 = first_stealable(q);
        assert(has_stealable(q));
        if p2 < p1 {
            assert(!stealable(q[p2]));
        } else if p1 < p2 {
            assert(!stealable(q[p1]));
        }
    }
}

/// When a steal takes place, it moves a stealable task from the busiest
/// worker to a different, idlest worker.
pub proof fn lemma_steal_shape(ws: Seq<Seq<Task>>)
    requires
        can_steal(ws),
    ensures
        is_busiest(ws, busiest(ws)),
        is_idlest(ws, idlest(ws)),
        busiest(ws) != idlest(ws),
        is_first_stealable(ws[busiest(ws)], first_stealable(ws[busiest(ws)])),
{
    lemma_busiest_idlest(ws);
    lemma_first_stealable(ws[busiest(ws)]);
}

/// Moving a task between two different workers neither loses nor
/// duplicates a task.
pub proof fn lemma_move_preserves_tasks(ws: Seq<Seq<Task>>, from: int, to: int, p: int)
    requires
        0 <= from < ws.len(),
        0 <= to < ws.len(),
        from != to,
        0 <= p < ws[from].len(),
    ensures
        moved_task(ws, from, to, p).len() == ws.len(),
        total_load(moved_task(ws, from, to, p)) == total_load(ws),
        forall|t: Task| #[trigger] pooled_count(moved_task(ws, from, to, p), t) == pooled_count(ws, t),
{
    let x = ws[from][p];
    let ws1 = ws.update(from, ws[from].remove(p));
    let ws2 = ws1.update(to, ws[to].push(x));
    assert(ws1[to] == ws[to]);
    lemma_sum_by_update(ws, from, ws[from].remove(p), queue_len());
    lemma_sum_by_update(ws1, to, ws[to].push(x), queue_len());
    assert forall|t: Task| #[trigger] pooled_count(ws2, t) == pooled_count(ws, t) by {
        lemma_sum_by_update(ws, from, ws[from].remove(p), queue_count(t));
        lemma_sum_by_update(ws1, to, ws[to].push(x), queue_count(t));
        vstd::seq_lib::to_multiset_remove(ws[from], p);
        vstd::seq_lib::to_multiset_build(ws[to], x);
    }
}

/// Moving a task changes no worker's count of any other task.
pub proof fn lemma_move_keeps_others(ws: Seq<Seq<Task>>, from: int, to: int, p: int)
    requires
        0 <= from < ws.len(),
        0 <= to < ws.len(),
        from != to,
        0 <= p < ws[from].len(),
    ensures
        forall|w: int, t: Task|
            0 <= w < ws.len() && t != ws[from][p] ==> #[trigger] moved_task(ws, from, to, p)[w].to_multiset().count(
                t,
            ) == ws[w].to_multiset().count(t),
{
    vstd::seq_lib::to_multiset_remove(ws[from], p);
    vstd::seq_lib::to_multiset_build(ws[to], ws[from][p]);
}

/// Moving a task from a worker that holds at least two tasks more than the
/// receiving worker strictly lowers the sum of the squared loads.
pub proof fn lemma_move_lowers_squared_load(ws: Seq<Seq<Task>>, from: int, to: int, p: int)
    requires
        0 <= from < ws.len(),
        0 <= to < ws.len(),
        0 <= p < ws[from].len(),
        ws[from].len() > ws[to].len() + 1,
    ensures
        squared_load(moved_task(ws, from, to, p)) < squared_load(ws),
{
    let x = ws[from][p];
    let ws1 = ws.update(from, ws[from].remove(p));
    assert(ws1[to] == ws[to]);
    lemma_sum_by_update(ws, from, ws[from].remove(p), queue_len_squared());
    lemma_sum_by_update(ws1, to, ws[to].push(x), queue_len_squared());
    let lb = ws[from].len() as int;
    let li = ws[to].len() as int;
    assert((lb - 1) * (lb - 1) + (li + 1) * (li + 1) < lb * lb + li * li) by (nonlinear_arith)
        requires
            lb > li + 1,
            li >= 0,
    ;
}

/// Law: a steal neither loses nor duplicates a task: the pool keeps its
/// workers, its total load, and the number of copies of every task.
pub proof fn law_steal_preserves_tasks(ws: Seq<Seq<Task>>)
    ensures
        after_steal(ws).len() == ws.len(),
        total_load(after_steal(ws)) == total_load(ws),
        forall|t: Task| #[trigger] pooled_count(after_steal(ws), t) == pooled_count(ws, t),
{
    if can_steal(ws) {
        lemma_steal_shape(ws);
        let b = busiest(ws);
        lemma_move_preserves_tasks(ws, b, idlest(ws), first_stealable(ws[b]));
    }
}

/// Law: urgent tasks are never stolen: every worker keeps exactly its copies
/// of every urgent task.
pub proof fn law_steal_keeps_urgent(ws: Seq<Seq<Task>>)
    ensures
        forall|w: int, t: Task|
            0 <= w < ws.len() && !stealable(t) ==> #[trigger] after_steal(ws)[w].to_multiset().count(t)
                == ws[w].to_multiset().count(t),
{
    if can_steal(ws) {
        lemma_steal_shape(ws);
        let b = busiest(ws);
        lemma_move_keeps_others(ws, b, idlest(ws), first_stealable(ws[b]));
    }
}

/// Law: a steal that moves a task strictly lowers the sum of the squared
/// loads, so no sequence of successful steals can go on forever.
pub proof fn law_steal_lowers_squared_load(ws: Seq<Seq<Task>>)
    requires
        can_steal(ws),
    ensures
        squared_load(after_steal(ws)) < squared_load(ws),
{
    lemma_steal_shape(ws);
    let b = busiest(ws);
    lemma_move_lowers_squared_load(ws, b, idlest(ws), first_stealable(ws[b]));
}

/// Law: the steal rule in terms of queue lengths and priorities. Let `b` be
/// the last worker of greatest load and `i` the first worker of least load.
/// A steal takes place exactly when there are at least two workers, worker
/// `b` holds at least two tasks more than worker `i`, and `b` holds a task of
/// priority other than 1; it then moves the first such task of `b` to the back
/// of `i`'s queue. Otherwise the pool is left as it is.
pub proof fn law_steal_rule(ws: Seq<Seq<Task>>, b: int, i: int)
    requires
        0 <= b < ws.len(),
        0 <= i < ws.len(),
        forall|k: int| 0 <= k < ws.len() ==> #[trigger] ws[k].len() <= ws[b].len(),
        forall|k: int| b < k < ws.len() ==> #[trigger] ws[k].len() < ws[b].len(),
        forall|k: int| 0 <= k < ws.len() ==> ws[i].len() <= #[trigger] ws[k].len(),
        forall|k: int| 0 <= k < i ==> ws[i].len() < #[trigger] ws[k].len(),
    ensures
        can_steal(ws) <==> (ws.len() >= 2 && ws[b].len() > ws[i].len() + 1 && exists|p: int|
            0 <= p < ws[b].len() && #[trigger] ws[b][p].priority != 1),
        !can_steal(ws) ==> after_steal(ws) == ws,
        can_steal(ws) ==> exists|p: int|
            {
                &&& 0 <= p < ws[b].len()
                &&& #[trigger] ws[b][p].priority != 1
                &&& forall|q: int| 0 <= q < p ==> #[trigger] ws[b][q].priority == 1
                &&& after_steal(ws) == ws.update(b, ws[b].remove(p)).update(i, ws[i].push(ws[b][p]))
            },
{
    lemma_busiest_idlest(ws);
    assert(is_busiest(ws, b));
    assert(is_idlest(ws, i));
    assert(b == busiest(ws));
    assert(i == idlest(ws));
    lemma_first_stealable(ws[b]);
    if can_steal(ws) {
        let p = first_stealable(ws[b]);
        assert(ws[b][p].priority != 1);
    }
    if ws.len() >= 2 && ws[b].len() > ws[i].len() + 1 && exists|p: int|
        0 <= p < ws[b].len() && #[trigger] ws[b][p].priority != 1 {
        let p = choose|p: int| 0 <= p < ws[b].len() && #[trigger] ws[b][p].priority != 1;
        assert(stealable(ws[b][p]));
        assert(has_stealable(ws[b]));
    }
}

/// Position of the first non-urgent task of `queue`, if any.
pub(crate) fn first_stealable_index(queue: &Vec<Task>) -> (r: Option<usize>)
    ensures
        match r {
            Some(p) => is_first_stealable(queue@, p as int),
            None => !has_stealable(queue@),
        },
{
    let len = queue.len();
    let mut p: usize = 0;
    while p < len
        invariant
            len == queue@.len(),
            p <= len,
            forall|k: int| 0 <= k < p ==> !stealable(#[trigger] queue@[k]),
        decreases len - p,
    {
        if queue[p].priority != 1 {
            return Some(p);
        }
        p = p + 1;
    }
    None
}

/// The last busiest and the first idlest worker of a non-empty pool.
pub(crate) fn busiest_and_idlest(workers: &Vec<Vec<Task>>) -> (r: (usize, usize))
    requires
        workers@.len() > 0,
    ensures
        is_busiest(queues_of(workers@), r.0 as int),
        is_idlest(queues_of(workers@), r.1 as int),
{
    let ghost ws = queues_of(workers@);
    let n = workers.len();
    let mut busiest: usize = 0;
    let mut busiest_load = workers[0].len();
    let mut idlest: usize = 0;
    let mut idlest_load = busiest_load;
    let mut j: usize = 1;
    while j < n
        invariant
            n == workers@.len(),
            ws == queues_of(workers@),
            1 <= j <= n,
            busiest < j,
            idlest < j,
            busiest_load == ws[busiest as int].len(),
            idlest_load == ws[idlest as int].len(),
            forall|k: int| 0 <= k < j ==> #[trigger] ws[k].len() <= busiest_load,
            forall|k: int| busiest < k < j ==> #[trigger] ws[k].len() < busiest_load,
            forall|k: int| 0 <= k < j ==> idlest_load <= #[trigger] ws[k].len(),
            forall|k: int| 0 <= k < idlest ==> idlest_load < #[trigger] ws[k].len(),
        decreases n - j,
    {
        let l = workers[j].len();
        assert(l == ws[j as int].len());
        if l >= busiest_load {
            busiest = j;
            busiest_load = l;
        }
        if l < idlest_load {
            idlest = j;
            idlest_load = l;
        }
        j = j + 1;
    }
    (busiest, idlest)
}

impl WorkStealingPool {
    /// A pool of `n_workers` workers with empty queues.
    pub fn new(n_workers: usize) -> (pool: Self)
        ensures
            pool@.len() == n_workers,
            forall|k: int| 0 <= k < n_workers ==> #[trigger] pool@[k] == Seq::<Task>::empty(),
    {
        let mut workers: Vec<Vec<Task>> = Vec::new();
        let mut k: usize = 0;
        while k < n_workers
            invariant
                k <= n_workers,
                workers@.len() == k,
                forall|j: int| 0 <= j < k ==> #[trigger] workers@[j]@ == Seq::<Task>::empty(),
            decreases n_workers - k,
        {
            workers.push(Vec::new());
            k = k + 1;
        }
        WorkStealingPool { workers }
    }

    /// Appends `task` to the queue of `worker`; a worker that does not exist
    /// leaves the pool unchanged.
    pub fn assign(&mut self, worker: usize, task: Task)
        ensures
            final(self)@ == (if worker < old(self)@.len() {
                old(self)@.update(worker as int, old(self)@[worker as int].push(task))
            } else {
                old(self)@
            }),
    {
        if worker < self.workers.len() {
            self.workers[worker].push(task);
            assert(self@ =~= old(self)@.update(worker as int, old(self)@[worker as int].push(task)));
        }
    }

    /// Moves the first non-urgent task of the busiest worker (the last one
    /// among equally loaded) to the back of the idlest worker's queue (the
    /// first one among equally loaded) when the busiest holds at least two
    /// tasks more than the idlest. Returns how many tasks moved.
    pub fn steal(&mut self) -> (stolen: usize)
        ensures
            final(self)@ == after_steal(old(self)@),
            stolen == (if can_steal(old(self)@) { 1usize } else { 0usize }),
    {
        let ghost ws = self@;
        let n = self.workers.len();
        if n < 2 {
            return 0;
        }
        let (busiest, idlest) = busiest_and_idlest(&self.workers);
        proof {
            lemma_busiest_idlest(ws);
        }
        if self.workers[busiest].len() - self.workers[idlest].len() > 1 {
            match first_stealable_index(&self.workers[busiest]) {
                Some(pos) => {
                    proof {
                        lemma_first_stealable(ws[busiest as int]);
                    }
                    self.move_task(busiest, idlest, pos);
                    1
                },
                None => 0,
            }
        } else {
            0
        }
    }

    /// Moves the task at position `pos` of worker `from` to the back of
    /// worker `to`'s queue.
    pub(crate) fn move_task(&mut self, from: usize, to: usize, pos: usize)
        requires
            from < old(self)@.len(),
            to < old(self)@.len(),
            from != to,
            pos < old(self)@[from as int].len(),
        ensures
            final(self)@ == moved_task(old(self)@, from as int, to as int, pos as int),
    {
        let task = self.workers[from].remove(pos);
        self.workers[to].push(task);
        assert(self@ =~= moved_task(old(self)@, from as int, to as int, pos as int));
    }
}

} // verus!
