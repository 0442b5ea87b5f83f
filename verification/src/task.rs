use vstd::prelude::*;

verus! {

/// Progress state of a task: a closed set of exactly three variants.
#[derive(Clone, Copy, Debug, PartialEq, Eq, Structural)]
pub enum Status {
    Pending,
    InProgress,
    Completed,
}

/// Mathematical model of one task record: the description as a sequence of
/// characters, everything else as plain values.
#[verifier::ext_equal]
pub ghost struct TaskV {
    pub id: u64,
    pub description: Seq<char>,
    pub status: Status,
    pub created_at: u64,
    pub updated_at: u64,
}

/// A task was never updated before it was created.
pub open spec fn task_wf(t: TaskV) -> bool {
    t.created_at <= t.updated_at
}

/// One task record. The store assigns `id` and keeps `task_wf` of every
/// record it holds; timestamps are milliseconds since the Unix epoch.
pub struct Task {
    pub id: u64,
    pub description: String,
    pub status: Status,
    pub created_at: u64,
    pub updated_at: u64,
}

impl View for Task {
    type V = TaskV;

    open spec fn view(&self) -> TaskV {
        TaskV {
            id: self.id,
            description: self.description@,
            status: self.status,
            created_at: self.created_at,
            updated_at: self.updated_at,
        }
    }
}

impl Clone for Task {
    fn clone(&self) -> (r: Self)
        ensures
            r@ == self@,
    {
        let r = Task {
            id: self.id,
            description: self.description.clone(),
            status: self.status,
            created_at: self.created_at,
            updated_at: self.updated_at,
        };
        proof {
            assert(r@ =~= self@);
        }
        r
    }
}

} // verus!
