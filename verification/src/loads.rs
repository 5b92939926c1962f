use vstd::prelude::*;

use crate::task::Task;

verus! {

/// The task sequences held by a list of queues.
pub open spec fn queues_of(ws: Seq<Vec<Task>>) -> Seq<Seq<Task>> {
    ws.map_values(|w: Vec<Task>| w@)
}

/// Sum of `f` over every worker queue of `ws`.
pub open spec fn sum_by(ws: Seq<Seq<Task>>, f: spec_fn(Seq<Task>) -> int) -> int
    decreases ws.len(),
{
    if ws.len() == 0 {
        0
    } else {
        sum_by(ws.drop_last(), f) + f(ws.last())
    }
}

/// The load of a queue: how many tasks it holds.
pub open spec fn queue_len() -> spec_fn(Seq<Task>) -> int {
    |w: Seq<Task>| w.len() as int
}

/// The square of a queue's load.
pub open spec fn queue_len_squared() -> spec_fn(Seq<Task>) -> int {
    |w: Seq<Task>| (w.len() * w.len()) as int
}

/// How many copies of `t` a queue holds.
pub open spec fn queue_count(t: Task) -> spec_fn(Seq<Task>) -> int {
    |w: Seq<Task>| w.to_multiset().count(t) as int
}

/// Number of tasks held by all workers together.
pub open spec fn total_load(ws: Seq<Seq<Task>>) -> int {
    sum_by(ws, queue_len())
}

/// Sum over the workers of the square of their load.
pub open spec fn squared_load(ws: Seq<Seq<Task>>) -> int {
    sum_by(ws, queue_len_squared())
}

/// How many copies of `t` the workers hold together.
pub open spec fn pooled_count(ws: Seq<Seq<Task>>, t: Task) -> int {
    sum_by(ws, queue_count(t))
}

/// Replacing one queue changes a sum by the difference of that queue's terms.
pub proof fn lemma_sum_by_update(
    ws: Seq<Seq<Task>>,
    j: int,
    s: Seq<Task>,
    f: spec_fn(Seq<Task>) -> int,
)
    requires
        0 <= j < ws.len(),
    ensures
        sum_by(ws.update(j, s), f) == sum_by(ws, f) - f(ws[j]) + f(s),
    decreases ws.len(),
{
    if j == ws.len() - 1 {
        assert(ws.update(j, s).drop_last() =~= ws.drop_last());
    } else {
        lemma_sum_by_update(ws.drop_last(), j, s, f);
        assert(ws.update(j, s).drop_last() =~= ws.drop_last().update(j, s));
    }
}

/// A sum of non-negative terms is non-negative.
pub proof fn lemma_sum_by_nonneg(ws: Seq<Seq<Task>>, f: spec_fn(Seq<Task>) -> int)
    requires
        forall|w: Seq<Task>| #[trigger] f(w) >= 0,
    ensures
        sum_by(ws, f) >= 0,
    decreases ws.len(),
{
    if ws.len() > 0 {
        lemma_sum_by_nonneg(ws.drop_last(), f);
    }
}

/// A prefix of the queues holds at most the total load.
pub proof fn lemma_prefix_load_le_total(ws: Seq<Seq<Task>>, k: int)
    requires
        0 <= k <= ws.len(),
    ensures
        0 <= total_load(ws.take(k)) <= total_load(ws),
    decreases ws.len(),
{
    lemma_sum_by_nonneg(ws.take(k), queue_len());
    if k < ws.len() {
        lemma_prefix_load_le_total(ws.drop_last(), k);
        assert(ws.drop_last().take(k) =~= ws.take(k));
        lemma_sum_by_nonneg(ws.drop_last(), queue_len());
    } else {
        assert(ws.take(k) =~= ws);
    }
}

/// Extending a prefix by one queue adds that queue's load.
pub proof fn lemma_prefix_load_step(ws: Seq<Seq<Task>>, k: int)
    requires
        0 <= k < ws.len(),
    ensures
        total_load(ws.take(k + 1)) == total_load(ws.take(k)) + ws[k].len(),
{
    assert(ws.take(k + 1).drop_last() =~= ws.take(k));
}

} // verus!
