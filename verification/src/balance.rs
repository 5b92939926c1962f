use vstd::prelude::*;

use crate::loads::{
    lemma_prefix_load_le_total, lemma_prefix_load_step, lemma_sum_by_nonneg, pooled_count,
    queue_len_squared, queues_of, squared_load, total_load,
};
use crate::pool::{
    after_steal, busiest, busiest_and_idlest, can_steal, first_stealable, first_stealable_index,
    has_stealable, idlest, is_busiest, is_first_stealable, is_idlest, lemma_busiest_idlest,
    lemma_first_stealable, lemma_move_keeps_others, lemma_move_lowers_squared_load,
    lemma_move_preserves_tasks, moved_task, stealable, WorkStealingPool,
};
use crate::task::Task;

verus! {

/// Every worker's load is within one task of the average load: for `n`
/// workers holding `total` tasks, `|n * load - total| <= n`.
pub open spec fn balanced(ws: Seq<Seq<Task>>) -> bool {
    forall|k: int|
        0 <= k < ws.len() ==> near_average(ws.len() as int, #[trigger] ws[k].len() as int, total_load(ws))
}

/// A load `load` among `n` workers holding `total` tasks differs from the
/// average `total / n` by at most one.
pub open spec fn near_average(n: int, load: int, total: int) -> bool {
    -n <= n * load - total <= n
}

/// `d` is the last of the workers of greatest load that holds a non-urgent
/// task.
pub open spec fn is_donor(ws: Seq<Seq<Task>>, d: int) -> bool {
    &&& 0 <= d < ws.len()
    &&& ws[d].len() == ws[busiest(ws)].len()
    &&& has_stealable(ws[d])
    &&& forall|k: int|
        d < k < ws.len() && #[trigger] ws[k].len() == ws[busiest(ws)].len() ==> !has_stealable(ws[k])
}

/// No worker of greatest load holds a non-urgent task.
pub open spec fn peak_all_urgent(ws: Seq<Seq<Task>>) -> bool {
    forall|k: int|
        0 <= k < ws.len() && #[trigger] ws[k].len() == ws[busiest(ws)].len() ==> !has_stealable(ws[k])
}

/// The worker a balancing move takes its task from.
pub open spec fn donor(ws: Seq<Seq<Task>>) -> int {
    choose|d: int| is_donor(ws, d)
}

/// A balancing move takes place: there are at least two workers, the
/// busiest holds at least two tasks more than the idlest, and some worker of
/// greatest load holds a non-urgent task.
pub open spec fn can_rebalance(ws: Seq<Seq<Task>>) -> bool {
    &&& ws.len() >= 2
    &&& ws[busiest(ws)].len() > ws[idlest(ws)].len() + 1
    &&& !peak_all_urgent(ws)
}

/// The queues after one balancing move: the first non-urgent task of the
/// donor moves to the back of the idlest worker's queue, or nothing changes
/// when no move takes place.
pub open spec fn after_rebalance(ws: Seq<Seq<Task>>) -> Seq<Seq<Task>> {
    if can_rebalance(ws) {
        let d = donor(ws);
        moved_task(ws, d, idlest(ws), first_stealable(ws[d]))
    } else {
        ws
    }
}

/// Law: the balancing move in terms of queue lengths and priorities. Let `b`
/// be the last worker of greatest load and `i` the first worker of least
/// load. A move takes place exactly when there are at least two workers,
/// worker `b` holds at least two tasks more than worker `i`, and some worker
/// of the same load as `b` holds a task of priority other than 1; it then
/// moves the first such task of the last such worker to the back of `i`'s
/// queue. Otherwise the pool is left as it is.
pub proof fn law_rebalance_rule(ws: Seq<Seq<Task>>, b: int, i: int)
    requires
        0 <= b < ws.len(),
        0 <= i < ws.len(),
        forall|k: int| 0 <= k < ws.len() ==> #[trigger] ws[k].len() <= ws[b].len(),
        forall|k: int| b < k < ws.len() ==> #[trigger] ws[k].len() < ws[b].len(),
        forall|k: int| 0 <= k < ws.len() ==> ws[i].len() <= #[trigger] ws[k].len(),
        forall|k: int| 0 <= k < i ==> ws[i].len() < #[trigger] ws[k].len(),
    ensures
        can_rebalance(ws) <==> (ws.len() >= 2 && ws[b].len() > ws[i].len() + 1 && exists|k: int, p: int|
            0 <= k < ws.len() && ws[k].len() == ws[b].len() && 0 <= p < ws[k].len()
                && #[trigger] ws[k][p].priority != 1),
        !can_rebalance(ws) ==> after_rebalance(ws) == ws,
        can_rebalance(ws) ==> exists|d: int, p: int|
            {
                &&& 0 <= d < ws.len()
                &&& ws[d].len() == ws[b].len()
                &&& 0 <= p < ws[d].len()
                &&& #[trigger] ws[d][p].priority != 1
                &&& forall|q: int| 0 <= q < p ==> #[trigger] ws[d][q].priority == 1
                &&& forall|k: int, q: int|
                    d < k < ws.len() && ws[k].len() == ws[b].len() && 0 <= q < ws[k].len()
                        ==> #[trigger] ws[k][q].priority == 1
                &&& after_rebalance(ws) == ws.update(d, ws[d].remove(p)).update(i, ws[i].push(ws[d][p]))
            },
{
    lemma_busiest_idlest(ws);
    assert(is_busiest(ws, b));
    assert(is_idlest(ws, i));
    assert(b == busiest(ws));
    assert(i == idlest(ws));
    if can_rebalance(ws) {
        lemma_donor(ws);
        let d = donor(ws);
        lemma_first_stealable(ws[d]);
        let p = first_stealable(ws[d]);
        assert(ws[d][p].priority != 1);
        assert forall|k: int, q: int|
            d < k < ws.len() && ws[k].len() == ws[b].len() && 0 <= q < ws[k].len() implies #[trigger] ws[k][q].priority
                == 1 by {
            assert(!has_stealable(ws[k]));
            assert(!stealable(ws[k][q]));
        }
    }
    if ws.len() >= 2 && ws[b].len() > ws[i].len() + 1 && exists|k: int, p: int|
        0 <= k < ws.len() && ws[k].len() == ws[b].len() && 0 <= p < ws[k].len()
            && #[trigger] ws[k][p].priority != 1 {
        let (k, p) = choose|k: int, p: int|
            0 <= k < ws.len() && ws[k].len() == ws[b].len() && 0 <= p < ws[k].len()
                && #[trigger] ws[k][p].priority != 1;
        assert(stealable(ws[k][p]));
        assert(has_stealable(ws[k]));
        assert(!peak_all_urgent(ws));
    }
}

/// A worker of greatest load with a non-urgent task at index `k` or above
/// yields a donor.
proof fn lemma_donor_from(ws: Seq<Seq<Task>>, k: int) -> (d: int)
    requires
        0 <= k < ws.len(),
        ws[k].len() == ws[busiest(ws)].len(),
        has_stealable(ws[k]),
    ensures
        is_donor(ws, d),
    decreases ws.len() - k,
{
    if exists|j: int|
        k < j < ws.len() && #[trigger] ws[j].len() == ws[busiest(ws)].len() && has_stealable(ws[j]) {
        let j = choose|j: int|
            k < j < ws.len() && #[trigger] ws[j].len() == ws[busiest(ws)].len() && has_stealable(ws[j]);
        lemma_donor_from(ws, j)
    } else {
        k
    }
}

/// The donor is well defined whenever some worker of greatest load holds a
/// non-urgent task.
proof fn lemma_donor(ws: Seq<Seq<Task>>)
    requires
        !peak_all_urgent(ws),
    ensures
        is_donor(ws, donor(ws)),
        forall|d: int| is_donor(ws, d) ==> d == donor(ws),
{
    let k = choose|k: int|
        0 <= k < ws.len() && #[trigger] ws[k].len() == ws[busiest(ws)].len() && has_stealable(ws[k]);
    let _ = lemma_donor_from(ws, k);
    assert forall|d2: int| is_donor(ws, d2) implies d2 == donor(ws) by {
        let d1 = donor(ws);
        if d1 < d2 {
            assert(!has_stealable(ws[d2]));
        } else if d2 < d1 {
            assert(!has_stealable(ws[d1]));
        }
    }
}

/// When a balancing move takes place, it moves a non-urgent task from a
/// worker of greatest load to a different, idlest worker.
proof fn lemma_rebalance_shape(ws: Seq<Seq<Task>>)
    requires
        can_rebalance(ws),
    ensures
        is_busiest(ws, busiest(ws)),
        is_idlest(ws, idlest(ws)),
        is_donor(ws, donor(ws)),
        donor(ws) != idlest(ws),
        ws[donor(ws)].len() > ws[idlest(ws)].len() + 1,
        is_first_stealable(ws[donor(ws)], first_stealable(ws[donor(ws)])),
{
    lemma_busiest_idlest(ws);
    lemma_donor(ws);
    lemma_first_stealable(ws[donor(ws)]);
}

/// Law: whenever a steal moves a task, a balancing move is exactly that
/// steal; balancing differs only when the last busiest worker holds urgent
/// tasks alone and another worker of the same load holds a non-urgent one.
pub proof fn law_rebalance_extends_steal(ws: Seq<Seq<Task>>)
    ensures
        can_steal(ws) ==> can_rebalance(ws) && after_rebalance(ws) == after_steal(ws),
{
    if can_steal(ws) {
        lemma_busiest_idlest(ws);
        let b = busiest(ws);
        assert(is_donor(ws, b));
        lemma_donor(ws);
    }
}

/// Law: a balancing move keeps the workers, the total load, the number of
/// copies of every task and each worker's urgent tasks, and when it moves a
/// task it strictly lowers the sum of the squared loads.
pub proof fn law_rebalance_step(ws: Seq<Seq<Task>>)
    ensures
        after_rebalance(ws).len() == ws.len(),
        total_load(after_rebalance(ws)) == total_load(ws),
        forall|t: Task| #[trigger] pooled_count(after_rebalance(ws), t) == pooled_count(ws, t),
        forall|w: int, t: Task|
            0 <= w < ws.len() && !stealable(t) ==> #[trigger] after_rebalance(ws)[w].to_multiset().count(t)
                == ws[w].to_multiset().count(t),
        can_rebalance(ws) ==> squared_load(after_rebalance(ws)) < squared_load(ws),
{
    if can_rebalance(ws) {
        lemma_rebalance_shape(ws);
        let d = donor(ws);
        let i = idlest(ws);
        let p = first_stealable(ws[d]);
        lemma_move_preserves_tasks(ws, d, i, p);
        lemma_move_keeps_others(ws, d, i, p);
        lemma_move_lowers_squared_load(ws, d, i, p);
    }
}

/// Law: the balance criterion in terms of loads: with `n` workers holding
/// `total` tasks, the pool is balanced exactly when every load `l` satisfies
/// `|n * l - total| <= n`, i.e. lies within one task of the exact average
/// `total / n`. The total is the sum of the queue lengths.
pub proof fn law_balance_criterion(ws: Seq<Seq<Task>>)
    ensures
        balanced(ws) <==> forall|k: int|
            0 <= k < ws.len() ==> ws.len() * #[trigger] ws[k].len() - total_load(ws) <= ws.len()
                && total_load(ws) - ws.len() * ws[k].len() <= ws.len(),
        total_load(Seq::<Seq<Task>>::empty()) == 0,
        forall|q: Seq<Task>| #[trigger] total_load(ws.push(q)) == total_load(ws) + q.len(),
{
    assert forall|q: Seq<Task>| #[trigger] total_load(ws.push(q)) == total_load(ws) + q.len() by {
        assert(ws.push(q).drop_last() =~= ws);
    }
}

/// The queues and the number of moves after repeated balancing moves, until
/// the pool is balanced or no balancing move can take place.
pub open spec fn balance_outcome(ws: Seq<Seq<Task>>) -> (Seq<Seq<Task>>, nat)
    decreases squared_load(ws),
{
    if balanced(ws) || !can_rebalance(ws) {
        (ws, 0)
    } else {
        proof {
            law_rebalance_step(ws);
            lemma_sum_by_nonneg(after_rebalance(ws), queue_len_squared());
        }
        let next = balance_outcome(after_rebalance(ws));
        (next.0, next.1 + 1)
    }
}

/// Sum of the loads of the workers whose index is not in `r`.
pub open spec fn load_outside(ws: Seq<Seq<Task>>, r: Set<int>) -> int
    decreases ws.len(),
{
    if ws.len() == 0 {
        0
    } else {
        load_outside(ws.drop_last(), r) + if r.contains(ws.len() - 1) {
            0
        } else {
            ws.last().len() as int
        }
    }
}

proof fn lemma_load_outside_empty(ws: Seq<Seq<Task>>)
    ensures
        load_outside(ws, Set::empty()) == total_load(ws),
    decreases ws.len(),
{
    if ws.len() > 0 {
        lemma_load_outside_empty(ws.drop_last());
    }
}

proof fn lemma_load_outside_nonneg(ws: Seq<Seq<Task>>, r: Set<int>)
    ensures
        load_outside(ws, r) >= 0,
    decreases ws.len(),
{
    if ws.len() > 0 {
        lemma_load_outside_nonneg(ws.drop_last(), r);
    }
}

proof fn lemma_load_outside_update(ws: Seq<Seq<Task>>, r: Set<int>, j: int, s: Seq<Task>)
    requires
        0 <= j < ws.len(),
    ensures
        load_outside(ws.update(j, s), r) == load_outside(ws, r) - (if r.contains(j) {
            0
        } else {
            ws[j].len() - s.len()
        }),
    decreases ws.len(),
{
    if j == ws.len() - 1 {
        assert(ws.update(j, s).drop_last() =~= ws.drop_last());
    } else {
        lemma_load_outside_update(ws.drop_last(), r, j, s);
        assert(ws.update(j, s).drop_last() =~= ws.drop_last().update(j, s));
    }
}

proof fn lemma_load_outside_insert(ws: Seq<Seq<Task>>, r: Set<int>, i: int)
    requires
        0 <= i < ws.len(),
    ensures
        load_outside(ws, r.insert(i)) == load_outside(ws, r) - (if r.contains(i) {
            0
        } else {
            ws[i].len() as int
        }),
    decreases ws.len(),
{
    if i < ws.len() - 1 {
        lemma_load_outside_insert(ws.drop_last(), r, i);
    } else {
        assert(!r.insert(i).contains(ws.len() - 1) == false);
        lemma_load_outside_same(ws.drop_last(), r, r.insert(i));
    }
}

proof fn lemma_load_outside_same(ws: Seq<Seq<Task>>, r1: Set<int>, r2: Set<int>)
    requires
        forall|k: int| 0 <= k < ws.len() ==> (r1.contains(k) <==> r2.contains(k)),
    ensures
        load_outside(ws, r1) == load_outside(ws, r2),
    decreases ws.len(),
{
    if ws.len() > 0 {
        lemma_load_outside_same(ws.drop_last(), r1, r2);
    }
}

/// Workers in `r` hold at most one task more than any worker.
pub open spec fn near_minimum(ws: Seq<Seq<Task>>, r: Set<int>) -> bool {
    forall|k: int, j: int|
        0 <= k < ws.len() && 0 <= j < ws.len() && r.contains(k) ==> #[trigger] ws[k].len()
            <= #[trigger] ws[j].len() + 1
}

/// A worker that has received a task stays within one task of the least
/// loaded worker, so it never has the greatest load when a later move takes
/// place: every move takes its task from a worker that has never received
/// one. Hence the moves are bounded by the load of those workers.
proof fn lemma_moves_bounded_by_donors(ws: Seq<Seq<Task>>, r: Set<int>)
    requires
        near_minimum(ws, r),
    ensures
        balance_outcome(ws).1 <= load_outside(ws, r),
    decreases squared_load(ws),
{
    lemma_load_outside_nonneg(ws, r);
    if !(balanced(ws) || !can_rebalance(ws)) {
        lemma_rebalance_shape(ws);
        law_rebalance_step(ws);
        lemma_sum_by_nonneg(after_rebalance(ws), queue_len_squared());
        let b = donor(ws);
        let i = idlest(ws);
        let p = first_stealable(ws[b]);
        let x = ws[b][p];
        let ws1 = ws.update(b, ws[b].remove(p));
        let ws2 = ws1.update(i, ws[i].push(x));
        assert(ws2 == after_rebalance(ws));
        assert(ws1[i] == ws[i]);
        assert(!r.contains(b)) by {
            if r.contains(b) {
                assert(ws[b].len() <= ws[i].len() + 1);
            }
        }
        let r2 = r.insert(i);
        assert forall|k: int, j: int|
            0 <= k < ws2.len() && 0 <= j < ws2.len() && r2.contains(k) implies #[trigger] ws2[k].len()
            <= #[trigger] ws2[j].len() + 1 by {
            assert(ws[i].len() <= ws[j].len());
            assert(ws2[j].len() >= ws[i].len());
            if k != i {
                assert(ws[k].len() <= ws[i].len() + 1);
            }
        }
        lemma_moves_bounded_by_donors(ws2, r2);
        lemma_load_outside_update(ws, r, b, ws[b].remove(p));
        lemma_load_outside_update(ws1, r, i, ws[i].push(x));
        lemma_load_outside_insert(ws2, r, i);
    }
}

/// Law: balancing moves each task at most once in effect: the number of
/// moves never exceeds the number of tasks in the pool.
pub proof fn law_balance_moves_bounded(ws: Seq<Seq<Task>>)
    ensures
        balance_outcome(ws).1 <= total_load(ws),
{
    lemma_load_outside_empty(ws);
    lemma_moves_bounded_by_donors(ws, Set::empty());
}

/// Law: balancing keeps the workers, the total load, the number of copies of
/// every task, and each worker's urgent tasks; a balanced pool is left as it
/// is.
pub proof fn law_balance_conserves(ws: Seq<Seq<Task>>)
    ensures
        balanced(ws) ==> balance_outcome(ws) == (ws, 0nat),
        balance_outcome(ws).0.len() == ws.len(),
        total_load(balance_outcome(ws).0) == total_load(ws),
        forall|t: Task| #[trigger] pooled_count(balance_outcome(ws).0, t) == pooled_count(ws, t),
        forall|w: int, t: Task|
            0 <= w < ws.len() && !stealable(t) ==> #[trigger] balance_outcome(ws).0[w].to_multiset().count(t)
                == ws[w].to_multiset().count(t),
    decreases squared_load(ws),
{
    if !(balanced(ws) || !can_rebalance(ws)) {
        let next = after_rebalance(ws);
        law_rebalance_step(ws);
        lemma_sum_by_nonneg(next, queue_len_squared());
        law_balance_conserves(next);
        assert forall|t: Task| #[trigger] pooled_count(balance_outcome(ws).0, t) == pooled_count(ws, t) by {
            assert(pooled_count(balance_outcome(next).0, t) == pooled_count(next, t));
        }
        assert forall|w: int, t: Task|
            0 <= w < ws.len() && !stealable(t) implies #[trigger] balance_outcome(ws).0[w].to_multiset().count(t)
                == ws[w].to_multiset().count(t) by {
            assert(balance_outcome(next).0[w].to_multiset().count(t) == next[w].to_multiset().count(t));
            assert(next[w].to_multiset().count(t) == ws[w].to_multiset().count(t));
        }
    }
}

/// If every queue's load lies between `lo` and `hi`, the total load lies
/// between `n * lo` and `n * hi`.
proof fn lemma_total_between(ws: Seq<Seq<Task>>, lo: int, hi: int)
    requires
        forall|k: int| 0 <= k < ws.len() ==> lo <= #[trigger] ws[k].len() <= hi,
    ensures
        ws.len() * lo <= total_load(ws) <= ws.len() * hi,
    decreases ws.len(),
{
    if ws.len() > 0 {
        let prefix = ws.drop_last();
        assert forall|k: int| 0 <= k < prefix.len() implies lo <= #[trigger] prefix[k].len() <= hi by {
            assert(prefix[k] == ws[k]);
        }
        lemma_total_between(prefix, lo, hi);
        let n = ws.len() as int;
        assert((n - 1) * lo + lo == n * lo) by (nonlinear_arith);
        assert((n - 1) * hi + hi == n * hi) by (nonlinear_arith);
    }
}

/// A pool whose busiest worker holds at most one task more than its idlest
/// worker is balanced.
proof fn lemma_spread_one_is_balanced(ws: Seq<Seq<Task>>)
    requires
        ws.len() > 0,
        ws[busiest(ws)].len() <= ws[idlest(ws)].len() + 1,
    ensures
        balanced(ws),
{
    lemma_busiest_idlest(ws);
    let lo = ws[idlest(ws)].len() as int;
    let n = ws.len() as int;
    lemma_total_between(ws, lo, lo + 1);
    assert forall|k: int| 0 <= k < ws.len() implies near_average(n, #[trigger] ws[k].len() as int, total_load(ws)) by {
        let l = ws[k].len() as int;
        let t = total_load(ws);
        assert(lo <= l <= lo + 1);
        assert(n * lo <= n * l <= n * (lo + 1)) by (nonlinear_arith)
            requires
                lo <= l <= lo + 1,
                n > 0,
        ;
        assert(n * (lo + 1) == n * lo + n) by (nonlinear_arith);
    }
}

/// A pool in which no balancing move can take place is balanced, or none
/// of its workers of greatest load holds a non-urgent task.
proof fn lemma_stuck_pool(ws: Seq<Seq<Task>>)
    requires
        !can_rebalance(ws),
    ensures
        balanced(ws) || peak_all_urgent(ws),
{
    if ws.len() > 0 && !peak_all_urgent(ws) {
        lemma_busiest_idlest(ws);
        if ws.len() == 1 {
            assert(busiest(ws) == 0 && idlest(ws) == 0);
        }
        lemma_spread_one_is_balanced(ws);
    }
}

/// Law: balancing goes on until the pool is balanced or no worker of
/// greatest load holds a non-urgent task (the remaining imbalance is made of
/// urgent tasks, which never move).
pub proof fn law_balance_until_balanced(ws: Seq<Seq<Task>>)
    ensures
        balanced(balance_outcome(ws).0) || peak_all_urgent(balance_outcome(ws).0),
    decreases squared_load(ws),
{
    if balanced(ws) || !can_rebalance(ws) {
        if !balanced(ws) {
            lemma_stuck_pool(ws);
        }
    } else {
        law_rebalance_step(ws);
        lemma_sum_by_nonneg(after_rebalance(ws), queue_len_squared());
        law_balance_until_balanced(after_rebalance(ws));
    }
}

/// Load balancer over the workers of a work-stealing pool.
pub struct LoadBalancer;

impl LoadBalancer {
    /// Whether every worker's load is within one task of the average load.
    /// An empty list of workers is balanced.
    pub fn is_balanced(workers: &[Vec<Task>]) -> (b: bool)
        requires
            total_load(queues_of(workers@)) <= usize::MAX,
        ensures
            b == balanced(queues_of(workers@)),
            b <==> forall|k: int|
                0 <= k < workers@.len() ==> workers@.len() * #[trigger] workers@[k].len() - total_load(
                    queues_of(workers@),
                ) <= workers@.len() && total_load(queues_of(workers@)) - workers@.len() * workers@[k].len()
                    <= workers@.len(),
    {
        proof {
            law_balance_criterion(queues_of(workers@));
            assert forall|k: int| 0 <= k < workers@.len() implies #[trigger] workers@[k].len()
                == queues_of(workers@)[k].len() by {}
        }
        let ghost ws = queues_of(workers@);
        let n = workers.len();
        if n == 0 {
            return true;
        }
        let mut total: usize = 0;
        let mut k: usize = 0;
        while k < n
            invariant
                n == workers@.len(),
                ws == queues_of(workers@),
                k <= n,
                total == total_load(ws.take(k as int)),
                total_load(ws) <= usize::MAX,
            decreases n - k,
        {
            proof {
                lemma_prefix_load_step(ws, k as int);
                lemma_prefix_load_le_total(ws, k as int + 1);
            }
            total = total + workers[k].len();
            k = k + 1;
        }
        assert(ws.take(n as int) =~= ws);
        let nn = n as u128;
        let t = total as u128;
        let mut k: usize = 0;
        while k < n
            invariant
                n == workers@.len(),
                ws == queues_of(workers@),
                k <= n,
                nn == n,
                t == total_load(ws),
                t <= usize::MAX,
                forall|j: int|
                    0 <= j < k ==> near_average(n as int, #[trigger] ws[j].len() as int, total_load(ws)),
            decreases n - k,
        {
            let l = workers[k].len() as u128;
            assert(l == ws[k as int].len());
            assert(nn * l <= 0xffff_ffff_ffff_ffffu128 * 0xffff_ffff_ffff_ffffu128) by (nonlinear_arith)
                requires
                    nn <= 0xffff_ffff_ffff_ffffu128,
                    l <= 0xffff_ffff_ffff_ffffu128,
            ;
            let scaled = nn * l;
            if scaled > t + nn || t > scaled + nn {
                return false;
            }
            k = k + 1;
        }
        true
    }

    /// Moves tasks until the pool is balanced or no worker of greatest load
    /// holds a non-urgent task. Each move takes the first non-urgent task of
    /// the last worker of greatest load that has one (the busiest worker that
    /// `steal` would pick, whenever it has one) and appends it to the first
    /// idlest worker. Returns the number of tasks moved.
    pub fn balance(pool: &mut WorkStealingPool) -> (moves: usize)
        requires
            total_load(old(pool)@) <= usize::MAX,
        ensures
            final(pool)@ == balance_outcome(old(pool)@).0,
            moves == balance_outcome(old(pool)@).1,
            balanced(final(pool)@) || peak_all_urgent(final(pool)@),
            balanced(final(pool)@) || forall|k: int, p: int|
                0 <= k < final(pool)@.len() && (forall|j: int|
                    0 <= j < final(pool)@.len() ==> #[trigger] final(pool)@[j].len() <= final(pool)@[k].len())
                    && 0 <= p < final(pool)@[k].len() ==> #[trigger] final(pool)@[k][p].priority == 1,
            final(pool)@.len() == old(pool)@.len(),
            total_load(final(pool)@) == total_load(old(pool)@),
            forall|t: Task| #[trigger] pooled_count(final(pool)@, t) == pooled_count(old(pool)@, t),
            forall|w: int, t: Task|
                0 <= w < old(pool)@.len() && !stealable(t) ==> #[trigger] final(pool)@[w].to_multiset().count(t)
                    == old(pool)@[w].to_multiset().count(t),
            moves <= total_load(old(pool)@),
    {
        let ghost ws0 = pool@;
        proof {
            law_balance_moves_bounded(ws0);
            law_balance_conserves(ws0);
            law_balance_until_balanced(ws0);
            let res = balance_outcome(ws0).0;
            if !balanced(res) && res.len() > 0 {
                lemma_busiest_idlest(res);
                assert forall|k: int, p: int|
                    0 <= k < res.len() && (forall|j: int|
                        0 <= j < res.len() ==> #[trigger] res[j].len() <= res[k].len()) && 0 <= p
                        < res[k].len() implies #[trigger] res[k][p].priority == 1 by {
                    assert(res[busiest(res)].len() <= res[k].len());
                    assert(res[k].len() == res[busiest(res)].len());
                    assert(!has_stealable(res[k]));
                    assert(!stealable(res[k][p]));
                }
            }
        }
        let mut moves: usize = 0;
        while !LoadBalancer::is_balanced(&pool.workers)
            invariant
                balance_outcome(pool@).0 == balance_outcome(ws0).0,
                moves + balance_outcome(pool@).1 == balance_outcome(ws0).1,
                balance_outcome(ws0).1 <= total_load(ws0),
                total_load(pool@) == total_load(ws0),
                total_load(ws0) <= usize::MAX,
            ensures
                balance_outcome(pool@).0 == balance_outcome(ws0).0,
                moves + balance_outcome(pool@).1 == balance_outcome(ws0).1,
                balance_outcome(pool@) == (pool@, 0nat),
            decreases squared_load(pool@),
        {
            let ghost before = pool@;
            let moved = rebalance_step(pool);
            proof {
                law_rebalance_step(before);
            }
            if moved == 0 {
                break;
            }
            proof {
                lemma_sum_by_nonneg(pool@, queue_len_squared());
            }
            moves = moves + moved;
        }
        moves
    }
}

/// One balancing move (see `after_rebalance`). Returns how many tasks moved.
fn rebalance_step(pool: &mut WorkStealingPool) -> (moved: usize)
    ensures
        final(pool)@ == after_rebalance(old(pool)@),
        moved == (if can_rebalance(old(pool)@) { 1usize } else { 0usize }),
{
    let ghost ws = pool@;
    let n = pool.workers.len();
    if n < 2 {
        return 0;
    }
    let (busiest, idlest) = busiest_and_idlest(&pool.workers);
    proof {
        lemma_busiest_idlest(ws);
    }
    let peak = pool.workers[busiest].len();
    if peak - pool.workers[idlest].len() <= 1 {
        return 0;
    }
    let mut d = busiest + 1;
    while d > 0
        invariant
            pool@ == ws,
            ws == old(pool)@,
            n == ws.len(),
            is_busiest(ws, busiest as int),
            is_idlest(ws, idlest as int),
            busiest as int == crate::pool::busiest(ws),
            idlest as int == crate::pool::idlest(ws),
            peak == ws[busiest as int].len(),
            peak > ws[idlest as int].len() + 1,
            d <= busiest + 1,
            forall|k: int| d <= k < n && #[trigger] ws[k].len() == peak ==> !has_stealable(ws[k]),
        decreases d,
    {
        let k = d - 1;
        if pool.workers[k].len() == peak {
            match first_stealable_index(&pool.workers[k]) {
                Some(pos) => {
                    proof {
                        assert(is_donor(ws, k as int));
                        assert(ws[k as int].len() == ws[crate::pool::busiest(ws)].len());
                        assert(!peak_all_urgent(ws));
                        lemma_donor(ws);
                        lemma_first_stealable(ws[k as int]);
                        assert(donor(ws) == k);
                        assert(first_stealable(ws[k as int]) == pos);
                    }
                    pool.move_task(k, idlest, pos);
                    return 1;
                },
                None => {},
            }
        }
        d = k;
    }
    0
}

} // verus!
