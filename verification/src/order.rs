use vstd::prelude::*;

use crate::task::Task;

verus! {

broadcast use vstd::seq_lib::group_seq_properties;

/// The deadline used for ordering: tasks without a deadline count as due at
/// `usize::MAX`.
pub open spec fn deadline_key(t: Task) -> int {
    match t.deadline {
        Some(d) => d as int,
        None => usize::MAX as int,
    }
}

/// `a` may run before `b`: it has a higher priority, or the same priority and
/// a deadline no later than `b`'s.
pub open spec fn runs_no_later(a: Task, b: Task) -> bool {
    a.priority > b.priority || (a.priority == b.priority && deadline_key(a) <= deadline_key(b))
}

/// The tasks are in execution order: priority descending, then deadline
/// ascending.
pub open spec fn in_schedule_order(s: Seq<Task>) -> bool {
    forall|i: int, j: int| 0 <= i < j < s.len() ==> runs_no_later(#[trigger] s[i], #[trigger] s[j])
}

/// Law: in execution order a task of higher priority comes before one of
/// lower priority, and among tasks of the same priority a task with deadline
/// `x` comes before one with a later deadline `y > x`, or with no deadline at
/// all when `x < usize::MAX`, whatever their durations, ids or dependencies.
pub proof fn law_execution_order(s: Seq<Task>)
    requires
        in_schedule_order(s),
    ensures
        forall|i: int, j: int|
            0 <= i < s.len() && 0 <= j < s.len() && #[trigger] s[i].priority > #[trigger] s[j].priority
                ==> i < j,
        forall|i: int, j: int|
            0 <= i < s.len() && 0 <= j < s.len() && #[trigger] s[i].priority == #[trigger] s[j].priority
                && (s[i].deadline matches Some(x) && match s[j].deadline {
                Some(y) => x < y,
                None => x < usize::MAX,
            }) ==> i < j,
{
    assert forall|i: int, j: int|
        0 <= i < s.len() && 0 <= j < s.len() && #[trigger] s[i].priority > #[trigger] s[j].priority
            implies i < j by {
        if j < i {
            assert(runs_no_later(s[j], s[i]));
        }
    }
    assert forall|i: int, j: int|
        0 <= i < s.len() && 0 <= j < s.len() && #[trigger] s[i].priority == #[trigger] s[j].priority
            && (s[i].deadline matches Some(x) && match s[j].deadline {
            Some(y) => x < y,
            None => x < usize::MAX,
        }) implies i < j by {
        if j <= i {
            if j < i {
                assert(runs_no_later(s[j], s[i]));
            }
        }
    }
}

/// `a` and `b` tie: same priority and same deadline.
pub open spec fn ties(a: Task, b: Task) -> bool {
    a.priority == b.priority && deadline_key(a) == deadline_key(b)
}

/// Listed entries (position in a listing, id, task): `a` comes no later than
/// `b` when its task may run before `b`'s and, among tasks that tie, its
/// position is no later.
pub open spec fn listed_no_later(a: (usize, usize, &Task), b: (usize, usize, &Task)) -> bool {
    runs_no_later(*a.2, *b.2) && (ties(*a.2, *b.2) ==> a.0 <= b.0)
}

/// Listed entries in execution order, ties in order of position.
pub open spec fn entries_in_order(s: Seq<(usize, usize, &Task)>) -> bool {
    forall|i: int, j: int|
        0 <= i < j < s.len() ==> listed_no_later(#[trigger] s[i], #[trigger] s[j])
}

/// Whether entry `a` comes no later than entry `b`.
fn comes_no_later(a: &(usize, usize, &Task), b: &(usize, usize, &Task)) -> (r: bool)
    ensures
        r == listed_no_later(*a, *b),
{
    let (ta, tb) = (a.2, b.2);
    if ta.priority != tb.priority {
        ta.priority > tb.priority
    } else {
        let da = ta.deadline.unwrap_or(usize::MAX);
        let db = tb.deadline.unwrap_or(usize::MAX);
        if da != db {
            da < db
        } else {
            a.0 <= b.0
        }
    }
}

/// Merges two runs of entries in order into one.
fn merge<'a>(
    left: Vec<(usize, usize, &'a Task)>,
    right: Vec<(usize, usize, &'a Task)>,
) -> (out: Vec<(usize, usize, &'a Task)>)
    requires
        entries_in_order(left@),
        entries_in_order(right@),
        left@.len() + right@.len() <= usize::MAX,
    ensures
        entries_in_order(out@),
        out@.to_multiset() == left@.to_multiset().add(right@.to_multiset()),
{
    let nl = left.len();
    let nr = right.len();
    let mut out: Vec<(usize, usize, &'a Task)> = Vec::new();
    let mut i: usize = 0;
    let mut j: usize = 0;
    while i < nl || j < nr
        invariant
            nl == left@.len(),
            nr == right@.len(),
            nl + nr <= usize::MAX,
            i <= nl,
            j <= nr,
            out@.len() == i + j,
            entries_in_order(left@),
            entries_in_order(right@),
            entries_in_order(out@),
            out@.to_multiset() == left@.take(i as int).to_multiset().add(
                right@.take(j as int).to_multiset(),
            ),
            out@.len() > 0 && i < nl ==> listed_no_later(out@.last(), left@[i as int]),
            out@.len() > 0 && j < nr ==> listed_no_later(out@.last(), right@[j as int]),
        decreases nl + nr - i - j,
    {
        let ghost prev = out@;
        if j == nr || (i < nl && comes_no_later(&left[i], &right[j])) {
            let e = left[i];
            out.push(e);
            proof {
                assert(left@.take(i + 1) =~= left@.take(i as int).push(e));
                vstd::seq_lib::to_multiset_build(left@.take(i as int), e);
                vstd::seq_lib::to_multiset_build(prev, e);
            }
            i = i + 1;
        } else {
            let e = right[j];
            out.push(e);
            proof {
                assert(right@.take(j + 1) =~= right@.take(j as int).push(e));
                vstd::seq_lib::to_multiset_build(right@.take(j as int), e);
                vstd::seq_lib::to_multiset_build(prev, e);
            }
            j = j + 1;
        }
        assert forall|a: int, b: int| 0 <= a < b < out@.len() implies listed_no_later(
            #[trigger] out@[a],
            #[trigger] out@[b],
        ) by {
            if b == out@.len() - 1 && a < b - 1 {
                assert(listed_no_later(prev[a], prev.last()));
            }
        }
    }
    assert(left@.take(nl as int) =~= left@);
    assert(right@.take(nr as int) =~= right@);
    out
}

/// The entries in execution order, ties by position (a merge sort).
pub(crate) fn sort_by_run_order<'a>(
    entries: Vec<(usize, usize, &'a Task)>,
) -> (sorted: Vec<(usize, usize, &'a Task)>)
    ensures
        entries_in_order(sorted@),
        sorted@.to_multiset() == entries@.to_multiset(),
    decreases entries@.len(),
{
    let n = entries.len();
    if n <= 1 {
        return entries;
    }
    let mut left = entries;
    let right = left.split_off(n / 2);
    proof {
        assert(left@ + right@ =~= entries@);
        vstd::seq_lib::lemma_multiset_commutative(left@, right@);
    }
    let left = sort_by_run_order(left);
    let right = sort_by_run_order(right);
    proof {
        vstd::seq_lib::to_multiset_len(left@);
        vstd::seq_lib::to_multiset_len(right@);
        vstd::seq_lib::to_multiset_len(entries@);
    }
    merge(left, right)
}

} // verus!
