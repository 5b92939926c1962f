use vstd::prelude::*;

use std::collections::HashMap;

use crate::order::{in_schedule_order, law_execution_order, listed_no_later, runs_no_later, sort_by_run_order, ties};
use crate::task::Task;
use vstd::std_specs::iter::IteratorSpec;

verus! {

broadcast use {vstd::std_specs::hash::group_hash_axioms, vstd::seq_lib::group_seq_properties};

/// Task registry keyed by task id, with one more than the largest id ever
/// registered (0 when none was).
#[derive(Clone, Debug)]
pub struct Scheduler {
    pub tasks: HashMap<usize, Task>,
    pub next_id: usize,
}

/// `s` lists each task of `m` exactly once: it is `m`'s values taken through
/// some ordering `ks` of `m`'s keys, in which tasks that tie keep the order
/// of `listing`, a listing of `m`'s entries.
pub open spec fn lists_each_task_once(
    s: Seq<Task>,
    m: Map<usize, Task>,
    listing: Seq<(&usize, &Task)>,
) -> bool {
    exists|ks: Seq<usize>|
        {
            &&& ks.len() == s.len()
            &&& ks.no_duplicates()
            &&& ks.to_set() == m.dom()
            &&& forall|j: int| 0 <= j < s.len() ==> s[j] == m[#[trigger] ks[j]]
            &&& forall|a: int, b: int, i: int, j: int|
                #![trigger ks[a], ks[b], listing[i], listing[j]]
                0 <= a < b < s.len() && 0 <= i < listing.len() && 0 <= j < listing.len() && ties(
                    s[a],
                    s[b],
                ) && *listing[i].0 == ks[a] && *listing[j].0 == ks[b] ==> i < j
        }
}

/// The tasks that a list of references points to.
pub open spec fn pointed_tasks(s: Seq<&Task>) -> Seq<Task> {
    s.map_values(|t: &Task| *t)
}

/// Ticks left until `deadline` at `tick`, or 0 once the deadline has passed.
pub open spec fn ticks_left(deadline: usize, tick: usize) -> int {
    if deadline >= tick {
        deadline - tick
    } else {
        0
    }
}

/// A normal-priority task with a deadline escalates when at most twice its
/// duration remains before that deadline.
pub open spec fn escalates(t: Task, tick: usize) -> bool {
    match t.deadline {
        Some(d) => t.priority == 0 && ticks_left(d, tick) <= 2 * t.duration,
        None => false,
    }
}

/// The task `t` raised to urgent priority.
pub open spec fn urgent(t: Task) -> Task {
    Task { priority: 1i8, ..t }
}

/// The tasks after a rescheduling pass at `tick`: each escalating task
/// becomes urgent, the others stay as they are.
pub open spec fn rescheduled(m: Map<usize, Task>, tick: usize) -> Map<usize, Task> {
    Map::new(
        |k: usize| m.contains_key(k),
        |k: usize|
            if escalates(m[k], tick) {
                urgent(m[k])
            } else {
                m[k]
            },
    )
}

/// The ids among `ids` of the tasks of `m` that escalate at `tick`.
pub open spec fn escalating_among(ids: Set<usize>, m: Map<usize, Task>, tick: usize) -> Set<usize> {
    ids.filter(|k: usize| escalates(m[k], tick))
}

/// The ids of the tasks that escalate at `tick`.
pub open spec fn escalating_ids(m: Map<usize, Task>, tick: usize) -> Set<usize> {
    escalating_among(m.dom(), m, tick)
}

/// Adding an id not yet considered adds one escalating id exactly when that
/// task escalates.
proof fn lemma_escalating_among_insert(ids: Set<usize>, k: usize, m: Map<usize, Task>, tick: usize)
    requires
        ids.finite(),
        !ids.contains(k),
    ensures
        escalating_among(ids.insert(k), m, tick).len() == escalating_among(ids, m, tick).len() + if escalates(
            m[k],
            tick,
        ) {
            1int
        } else {
            0int
        },
{
    let before = escalating_among(ids, m, tick);
    let after = escalating_among(ids.insert(k), m, tick);
    ids.lemma_len_filter(|j: usize| escalates(m[j], tick));
    if escalates(m[k], tick) {
        assert(after =~= before.insert(k));
    } else {
        assert(after =~= before);
    }
}

/// Twice the duration of every normal-priority task with a deadline fits in
/// a `usize`.
pub open spec fn durations_fit(m: Map<usize, Task>) -> bool {
    forall|k: usize|
        m.contains_key(k) && (#[trigger] m[k]).priority == 0 && m[k].deadline is Some ==> 2
            * m[k].duration <= usize::MAX
}

/// The ticks of a history during which some task ran.
pub open spec fn busy(history: Seq<Option<usize>>) -> Seq<Option<usize>> {
    history.filter(|h: Option<usize>| h is Some)
}

/// The entries of a listing of map entries with their positions:
/// (position, id, task).
pub open spec fn entry_triples<'a>(entries: Seq<(&'a usize, &'a Task)>) -> Seq<(usize, usize, &'a Task)> {
    Seq::new(entries.len(), |i: int| (i as usize, *entries[i].0, entries[i].1))
}

/// The ids of a sequence of (position, id, task) entries.
pub open spec fn ids_of(s: Seq<(usize, usize, &Task)>) -> Seq<usize> {
    s.map_values(|e: (usize, usize, &Task)| e.1)
}

/// A rearrangement of a duplicate-free listing of the entries of `m`, with
/// positions, lists each id of `m` exactly once, each with its task and its
/// position in the listing.
proof fn lemma_rearranged_entries(
    m: Map<usize, Task>,
    entries: Seq<(&usize, &Task)>,
    s: Seq<(usize, usize, &Task)>,
)
    requires
        entries.len() <= usize::MAX,
        entries.no_duplicates(),
        forall|i: int|
            0 <= i < entries.len() ==> m.contains_key(*entries[i].0) && m[*entries[i].0] == *entries[i].1,
        forall|k: usize| m.contains_key(k) ==> entries.contains((&k, &m[k])),
        s.to_multiset() == entry_triples(entries).to_multiset(),
    ensures
        ids_of(s).len() == s.len(),
        ids_of(s).no_duplicates(),
        ids_of(s).to_set() == m.dom(),
        forall|j: int| 0 <= j < s.len() ==> *s[j].2 == m[#[trigger] ids_of(s)[j]],
        forall|j: int|
            0 <= j < s.len() ==> 0 <= #[trigger] s[j].0 < entries.len() && *entries[s[j].0 as int].0
                == ids_of(s)[j],
        forall|i1: int, i2: int|
            0 <= i1 < entries.len() && 0 <= i2 < entries.len() && *#[trigger] entries[i1].0
                == *#[trigger] entries[i2].0 ==> i1 == i2,
{
    let triples = entry_triples(entries);
    let ids = ids_of(s);
    assert forall|i1: int, i2: int|
        0 <= i1 < entries.len() && 0 <= i2 < entries.len() && *#[trigger] entries[i1].0
            == *#[trigger] entries[i2].0 implies i1 == i2 by {
        if i1 != i2 {
            assert(entries[i1] == entries[i2]);
        }
    }
    assert(triples.no_duplicates());
    assert forall|j: int| 0 <= j < s.len() implies {
        &&& 0 <= s[j].0 < entries.len()
        &&& s[j] == triples[s[j].0 as int]
        &&& m.contains_key(s[j].1)
        &&& *s[j].2 == m[s[j].1]
    } by {
        assert(s.contains(s[j]));
        vstd::seq_lib::to_multiset_contains(s, s[j]);
        vstd::seq_lib::to_multiset_contains(triples, s[j]);
        assert(triples.contains(s[j]));
        let i = choose|i: int| 0 <= i < triples.len() && triples[i] == s[j];
        assert(m.contains_key(*entries[i].0));
    }
    triples.lemma_multiset_has_no_duplicates();
    s.lemma_multiset_has_no_duplicates_conv();
    assert(ids.no_duplicates()) by {
        assert forall|a: int, b: int| 0 <= a < ids.len() && 0 <= b < ids.len() && a != b implies ids[a]
            != ids[b] by {
            if ids[a] == ids[b] {
                assert(s[a] == triples[s[a].0 as int]);
                assert(s[b] == triples[s[b].0 as int]);
                assert(s[a] == s[b]);
            }
        }
    }
    assert forall|k: usize| ids.to_set().contains(k) <==> m.dom().contains(k) by {
        if m.contains_key(k) {
            let i = choose|i: int| 0 <= i < entries.len() && entries[i] == (&k, &m[k]);
            let e = triples[i];
            assert(triples.contains(e));
            vstd::seq_lib::to_multiset_contains(s, e);
            vstd::seq_lib::to_multiset_contains(triples, e);
            assert(s.contains(e));
            let j = choose|j: int| 0 <= j < s.len() && s[j] == e;
            assert(ids[j] == k);
        }
        if ids.contains(k) {
            let j = choose|j: int| 0 <= j < ids.len() && ids[j] == k;
            assert(m.contains_key(s[j].1));
        }
    }
    assert(ids.to_set() =~= m.dom());
}

/// Law: the escalation rule in terms of the task's fields: a task of
/// priority 0 with deadline `d` and duration `u` becomes urgent at tick `c`
/// exactly when `max(d - c, 0) <= 2 * u`; every other task keeps its
/// priority, and the escalating ids are exactly those tasks.
pub proof fn law_escalation_rule(m: Map<usize, Task>, tick: usize)
    ensures
        forall|k: usize|
            m.contains_key(k) ==> #[trigger] rescheduled(m, tick)[k].priority == if m[k].priority == 0 && (
            m[k].deadline matches Some(d) && (if d >= tick {
                d - tick
            } else {
                0
            }) <= 2 * m[k].duration) {
                1i8
            } else {
                m[k].priority
            },
        forall|k: usize|
            #[trigger] escalating_ids(m, tick).contains(k) <==> m.contains_key(k) && m[k].priority == 0 && (
            m[k].deadline matches Some(d) && (if d >= tick {
                d - tick
            } else {
                0
            }) <= 2 * m[k].duration),
{
}

/// Law: the productive ticks of a history are counted tick by tick: an
/// empty history has none, a tick that ran task `x` adds one, an idle tick
/// adds none.
pub proof fn law_busy_ticks(history: Seq<Option<usize>>, x: usize)
    ensures
        busy(Seq::<Option<usize>>::empty()).len() == 0,
        busy(history.push(Some(x))).len() == busy(history).len() + 1,
        busy(history.push(None)).len() == busy(history).len(),
{
    history.lemma_filter_push(Some(x), |h: Option<usize>| h is Some);
    history.lemma_filter_push(None, |h: Option<usize>| h is Some);
    assert(busy(Seq::<Option<usize>>::empty()) =~= Seq::<Option<usize>>::empty());
}

/// Law: rescheduling is idempotent: a second pass at the same tick changes
/// nothing and escalates no task, and the first pass keeps the durations
/// within bounds for the second.
pub proof fn law_reschedule_idempotent(m: Map<usize, Task>, tick: usize)
    ensures
        rescheduled(rescheduled(m, tick), tick) == rescheduled(m, tick),
        escalating_ids(rescheduled(m, tick), tick).len() == 0,
        durations_fit(m) ==> durations_fit(rescheduled(m, tick)),
{
    let r = rescheduled(m, tick);
    assert(rescheduled(r, tick) =~= r);
    assert(escalating_ids(r, tick) =~= Set::<usize>::empty());
}

/// Law: rescheduling only raises normal tasks to urgent: every task keeps
/// its id, deadline, duration and dependencies, and a task's priority
/// changes only from 0 to +1.
pub proof fn law_reschedule_only_escalates(m: Map<usize, Task>, tick: usize)
    ensures
        rescheduled(m, tick).dom() == m.dom(),
        forall|k: usize|
            #![trigger rescheduled(m, tick)[k]]
            m.contains_key(k) ==> {
                let (before, after) = (m[k], rescheduled(m, tick)[k]);
                &&& after.id == before.id
                &&& after.deadline == before.deadline
                &&& after.duration == before.duration
                &&& after.dependencies == before.dependencies
                &&& (after.priority == before.priority || (before.priority == 0 && after.priority == 1))
            },
{
    assert(rescheduled(m, tick).dom() =~= m.dom());
}

impl View for Scheduler {
    type V = Map<usize, Task>;

    /// The registered tasks by id.
    open spec fn view(&self) -> Map<usize, Task> {
        self.tasks@
    }
}

impl Scheduler {
    /// An empty scheduler.
    pub fn new() -> (s: Self)
        ensures
            s@ == Map::<usize, Task>::empty(),
            s.next_id == 0,
    {
        Scheduler { tasks: HashMap::new(), next_id: 0 }
    }

    /// Registers `task` under its id, replacing any task with the same id.
    pub fn add_task(&mut self, task: Task)
        requires
            task.id < usize::MAX,
        ensures
            final(self)@ == old(self)@.insert(task.id, task),
            final(self).next_id == (if old(self).next_id > task.id + 1 {
                old(self).next_id
            } else {
                (task.id + 1) as usize
            }),
    {
        let next = task.id + 1;
        if next > self.next_id {
            self.next_id = next;
        }
        self.tasks.insert(task.id, task);
    }

    /// The tasks in execution order: urgent (+1) first, then normal (0), then
    /// deferred (-1); within a priority, earliest deadline first, tasks
    /// without a deadline last. Tasks that tie keep the order in which the
    /// map yields them.
    pub fn schedule(&self) -> (order: Vec<&Task>)
        ensures
            in_schedule_order(pointed_tasks(order@)),
            lists_each_task_once(
                pointed_tasks(order@),
                self@,
                vstd::std_specs::hash::spec_hash_map_iter(&self.tasks).remaining(),
            ),
            forall|i: int, j: int|
                0 <= i < order@.len() && 0 <= j < order@.len() && #[trigger] order@[i].priority
                    > #[trigger] order@[j].priority ==> i < j,
            forall|i: int, j: int|
                0 <= i < order@.len() && 0 <= j < order@.len() && #[trigger] order@[i].priority
                    == #[trigger] order@[j].priority && (order@[i].deadline matches Some(x)
                    && match order@[j].deadline {
                    Some(y) => x < y,
                    None => x < usize::MAX,
                }) ==> i < j,
    {
        let ghost m = self.tasks@;
        let ghost entries = vstd::std_specs::hash::spec_hash_map_iter(&self.tasks).remaining();
        let mut collected: Vec<(usize, usize, &Task)> = Vec::new();
        let ghost mut seen: int = 0;
        for kv in it: self.tasks.iter()
            invariant
                m == self.tasks@,
                it.seq() == entries,
                seen == it.index(),
                collected@ == entry_triples(entries.take(it.index())),
        {
            proof {
                assert(entry_triples(entries.take(it.index() + 1)) =~= entry_triples(
                    entries.take(it.index()),
                ).push((collected@.len() as usize, *kv.0, kv.1)));
                seen = seen + 1;
            }
            collected.push((collected.len(), *kv.0, kv.1));
        }
        proof {
            assert(seen == entries.len());
            assert(entries.take(seen) =~= entries);
        }
        let listed = collected.len();
        assert(listed == entries.len());
        let sorted = sort_by_run_order(collected);
        proof {
            vstd::seq_lib::to_multiset_len(sorted@);
            vstd::seq_lib::to_multiset_len(entry_triples(entries));
            lemma_rearranged_entries(m, entries, sorted@);
        }
        let n = sorted.len();
        let mut order: Vec<&Task> = Vec::new();
        let mut i: usize = 0;
        while i < n
            invariant
                n == sorted@.len(),
                i <= n,
                order@.len() == i,
                forall|j: int| 0 <= j < i ==> order@[j] == sorted@[j].2,
            decreases n - i,
        {
            order.push(sorted[i].2);
            i = i + 1;
        }
        proof {
            let ks = ids_of(sorted@);
            let s = pointed_tasks(order@);
            assert(s.len() == n);
            assert forall|j: int| 0 <= j < n implies s[j] == m[#[trigger] ks[j]] by {
                assert(s[j] == *sorted@[j].2);
            }
            assert forall|a: int, b: int| 0 <= a < b < n implies runs_no_later(
                #[trigger] s[a],
                #[trigger] s[b],
            ) by {
                assert(s[a] == *sorted@[a].2);
                assert(s[b] == *sorted@[b].2);
                assert(listed_no_later(sorted@[a], sorted@[b]));
            }
            assert forall|a: int, b: int, i1: int, i2: int|
                0 <= a < b < s.len() && 0 <= i1 < entries.len() && 0 <= i2 < entries.len() && ties(
                    s[a],
                    s[b],
                ) && *entries[i1].0 == ks[a] && *entries[i2].0 == ks[b] implies i1 < i2 by {
                assert(s[a] == *sorted@[a].2);
                assert(s[b] == *sorted@[b].2);
                assert(listed_no_later(sorted@[a], sorted@[b]));
                let pa = sorted@[a].0 as int;
                let pb = sorted@[b].0 as int;
                assert(*entries[pa].0 == ks[a]);
                assert(*entries[pb].0 == ks[b]);
                assert(i1 == pa);
                assert(i2 == pb);
                assert(ks[a] != ks[b]);
            }
            assert(lists_each_task_once(s, m, entries));
            law_execution_order(s);
            assert forall|j: int| 0 <= j < n implies #[trigger] order@[j] == s[j] by {}
        }
        order
    }

    /// Escalates to urgent (+1) every normal (0) task whose deadline is at
    /// most twice its duration away from `current_tick` (a passed deadline
    /// counts as zero ticks away). Returns how many tasks escalated.
    pub fn reschedule(&mut self, current_tick: usize) -> (escalated: usize)
        requires
            durations_fit(old(self)@),
        ensures
            final(self)@ == rescheduled(old(self)@, current_tick),
            escalated == escalating_ids(old(self)@, current_tick).len(),
            final(self)@.dom() == old(self)@.dom(),
            forall|k: usize|
                old(self)@.contains_key(k) ==> #[trigger] final(self)@[k].priority == if old(
                    self,
                )@[k].priority == 0 && (old(self)@[k].deadline matches Some(d) && (if d >= current_tick {
                    d - current_tick
                } else {
                    0
                }) <= 2 * old(self)@[k].duration) {
                    1i8
                } else {
                    old(self)@[k].priority
                },
            final(self).next_id == old(self).next_id,
    {
        let ghost m0 = self.tasks@;
        let ghost next0 = self.next_id;
        let mut ids: Vec<usize> = Vec::new();
        let ghost keys = vstd::std_specs::hash::spec_keys_iter(&self.tasks).remaining();
        for k in it: self.tasks.keys()
            invariant
                it.seq() == keys,
                ids@.len() == it.index(),
                forall|j: int| 0 <= j < it.index() ==> ids@[j] == *#[trigger] keys[j],
        {
            ids.push(*k);
        }
        assert(ids@ =~= keys.unref());
        assert(ids@.no_duplicates());
        let mut escalated: usize = 0;
        let n = ids.len();
        assert(ids@.take(0).to_set() =~= Set::<usize>::empty());
        assert(escalating_among(Set::<usize>::empty(), m0, current_tick) =~= Set::<usize>::empty());
        let mut i: usize = 0;
        while i < n
            invariant
                n == ids@.len(),
                i <= n,
                ids@.no_duplicates(),
                ids@.to_set() == m0.dom(),
                self.tasks@.dom() == m0.dom(),
                durations_fit(m0),
                forall|k: usize|
                    #![trigger self.tasks@[k]]
                    m0.contains_key(k) ==> self.tasks@[k] == if ids@.take(i as int).contains(k) {
                        rescheduled(m0, current_tick)[k]
                    } else {
                        m0[k]
                    },
                escalated == escalating_among(ids@.take(i as int).to_set(), m0, current_tick).len(),
                escalated <= i,
                self.next_id == next0,
            decreases n - i,
        {
            let id = ids[i];
            let ghost done = ids@.take(i as int);
            assert(ids@.take(i + 1) =~= done.push(id));
            assert(!done.contains(id));
            assert(m0.contains_key(id));
            proof {
                assert(done.push(id).to_set() =~= done.to_set().insert(id));
                lemma_escalating_among_insert(done.to_set(), id, m0, current_tick);
            }
            match self.tasks.remove(&id) {
                Some(task) => {
                    let mut task = task;
                    if let Some(deadline) = task.deadline {
                        let remaining = deadline.saturating_sub(current_tick);
                        if task.priority == 0 && remaining <= task.duration * 2 {
                            task.priority = 1;
                            escalated = escalated + 1;
                        }
                    }
                    self.tasks.insert(id, task);
                },
                None => {},
            }
            i = i + 1;
        }
        assert(ids@.take(n as int) =~= ids@);
        assert(self.tasks@ =~= rescheduled(m0, current_tick));
        proof {
            law_escalation_rule(m0, current_tick);
        }
        escalated
    }

    /// How many ticks of `history` were productive (ran a task); the
    /// utilization of the history is this count over its length.
    pub fn busy_ticks(history: &[Option<usize>]) -> (count: usize)
        ensures
            count == busy(history@).len(),
            count <= history@.len(),
    {
        let n = history.len();
        let mut count: usize = 0;
        let mut i: usize = 0;
        while i < n
            invariant
                n == history@.len(),
                i <= n,
                count == busy(history@.take(i as int)).len(),
                count <= i,
            decreases n - i,
        {
            proof {
                assert(history@.take(i + 1) =~= history@.take(i as int).push(history@[i as int]));
                history@.take(i as int).lemma_filter_push(
                    history@[i as int],
                    |h: Option<usize>| h is Some,
                );
            }
            if history[i].is_some() {
                count = count + 1;
            }
            i = i + 1;
        }
        assert(history@.take(n as int) =~= history@);
        count
    }

    /// Sets the task registered under `id` to deferred priority (-1). Returns
    /// whether such a task exists; when none does, nothing changes.
    pub fn defer(&mut self, id: usize, _ticks: usize) -> (found: bool)
        ensures
            found == old(self)@.contains_key(id),
            final(self)@ == (if found {
                old(self)@.insert(id, Task { priority: -1i8, ..old(self)@[id] })
            } else {
                old(self)@
            }),
            final(self).next_id == old(self).next_id,
    {
        match self.tasks.remove(&id) {
            Some(task) => {
                let mut task = task;
                task.priority = -1;
                self.tasks.insert(id, task);
                true
            },
            None => false,
        }
    }
}

impl Default for Scheduler {
    /// An empty scheduler.
    fn default() -> (s: Self)
        ensures
            s@ == Map::<usize, Task>::empty(),
            s.next_id == 0,
    {
        Self::new()
    }
}

} // verus!
