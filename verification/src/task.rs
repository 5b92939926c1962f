use vstd::prelude::*;

verus! {

/// A unit of work: its identifier, ternary priority (+1 urgent, 0 normal,
/// -1 deferred), optional deadline tick, duration in ticks, and the
/// identifiers of the tasks it depends on.
#[derive(Clone, Debug, PartialEq)]
pub struct Task {
    pub id: usize,
    pub priority: i8,
    pub deadline: Option<usize>,
    pub duration: usize,
    pub dependencies: Vec<usize>,
}

impl Task {
    /// A task with the given id and priority, no deadline, a duration of one
    /// tick and no dependencies.
    pub fn new(id: usize, priority: i8) -> (t: Self)
        ensures
            t.id == id,
            t.priority == priority,
            t.deadline is None,
            t.duration == 1,
            t.dependencies@ == Seq::<usize>::empty(),
    {
        Task { id, priority, deadline: None, duration: 1, dependencies: Vec::new() }
    }

    /// The same task with its deadline set to `d`.
    pub fn with_deadline(self, d: usize) -> (t: Self)
        ensures
            t == (Task { deadline: Some(d), ..self }),
    {
        let mut t = self;
        t.deadline = Some(d);
        t
    }

    /// The same task with its duration set to `d`.
    pub fn with_duration(self, d: usize) -> (t: Self)
        ensures
            t == (Task { duration: d, ..self }),
    {
        let mut t = self;
        t.duration = d;
        t
    }

    /// The same task whose dependencies are exactly `ids`, in order.
    pub fn depends_on(self, ids: &[usize]) -> (t: Self)
        ensures
            t.id == self.id,
            t.priority == self.priority,
            t.deadline == self.deadline,
            t.duration == self.duration,
            t.dependencies@ == ids@,
    {
        let mut t = self;
        t.dependencies = vstd::slice::slice_to_vec(ids);
        t
    }
}

} // verus!
