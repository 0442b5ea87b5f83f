use vstd::prelude::*;

verus! {

use crate::codec::{decode_tasks, p_top, views_of};
use crate::task::{task_wf, Status, Task, TaskV};
use vstd::pervasive::VecAdditionalExecFns;
use vstd::string::StrSliceExecFns;
use vstd::string::StringExecFns;

/// Why a store operation was refused.
#[derive(Debug)]
pub enum TaskError {
    /// No task carries the given identifier.
    NotFound(u64),
    /// The status filter is none of the three written names.
    InvalidFilter(String),
}

/// Model of the store: the task records in insertion order, and the
/// identifier the next added task will receive.
#[verifier::ext_equal]
pub ghost struct StoreV {
    pub tasks: Seq<TaskV>,
    pub next_id: u64,
}

/// What the store keeps at all times: identifiers strictly increase along
/// the sequence (so they are unique), every identifier is below `next_id`,
/// and every task keeps its timestamp order.
pub open spec fn store_wf(s: StoreV) -> bool {
    &&& 1 <= s.next_id
    &&& forall|i: int| 0 <= i < s.tasks.len() ==> task_wf(#[trigger] s.tasks[i])
    &&& forall|i: int| 0 <= i < s.tasks.len() ==> (#[trigger] s.tasks[i]).id < s.next_id
    &&& forall|i: int, j: int|
        0 <= i < j < s.tasks.len() ==> s.tasks[i].id < s.tasks[j].id
}

/// Index of the first task with identifier `id`; negative when there is none.
pub open spec fn find_idx(ts: Seq<TaskV>, id: u64) -> int
    decreases ts.len(),
{
    if ts.len() == 0 {
        -1
    } else if ts[0].id == id {
        0
    } else {
        let r = find_idx(ts.skip(1), id);
        if r < 0 {
            -1
        } else {
            r + 1
        }
    }
}

pub open spec fn has_task(ts: Seq<TaskV>, id: u64) -> bool {
    find_idx(ts, id) >= 0
}

pub proof fn lemma_find_idx(ts: Seq<TaskV>, id: u64)
    ensures
        has_task(ts, id) ==> {
            &&& 0 <= find_idx(ts, id) < ts.len()
            &&& ts[find_idx(ts, id)].id == id
            &&& forall|k: int| 0 <= k < find_idx(ts, id) ==> (#[trigger] ts[k]).id != id
        },
        !has_task(ts, id) ==> forall|k: int| 0 <= k < ts.len() ==> (#[trigger] ts[k]).id != id,
    decreases ts.len(),
{
    if ts.len() > 0 && ts[0].id != id {
        lemma_find_idx(ts.skip(1), id);
        assert(forall|k: int| 0 <= k < ts.skip(1).len() ==> #[trigger] ts.skip(1)[k] == ts[k + 1]);
        assert(forall|k: int| 1 <= k < ts.len() ==> #[trigger] ts[k] == ts.skip(1)[k - 1]);
    }
}

/// The first match is at `i` when nothing before `i` carries the identifier.
pub proof fn lemma_find_idx_at(ts: Seq<TaskV>, id: u64, i: int)
    requires
        0 <= i < ts.len(),
        ts[i].id == id,
        forall|k: int| 0 <= k < i ==> (#[trigger] ts[k]).id != id,
    ensures
        find_idx(ts, id) == i,
    decreases i,
{
    if i > 0 {
        lemma_find_idx_at(ts.skip(1), id, i - 1);
        assert(forall|k: int| 0 <= k < ts.skip(1).len() ==> #[trigger] ts.skip(1)[k] == ts[k + 1]);
        assert(forall|k: int| 1 <= k < ts.len() ==> #[trigger] ts[k] == ts.skip(1)[k - 1]);
    }
}

/// A fresh task as `add` creates it.
pub open spec fn new_task(id: u64, d: Seq<char>, now: u64) -> TaskV {
    TaskV { id: id, description: d, status: Status::Pending, created_at: now, updated_at: now }
}

pub open spec fn empty_spec() -> StoreV {
    StoreV { tasks: Seq::empty(), next_id: 1 }
}

/// Adding appends a fresh `Pending` task under the next identifier and
/// moves the counter up.
pub open spec fn add_spec(s: StoreV, d: Seq<char>, now: u64) -> StoreV
    recommends
        s.next_id < u64::MAX,
{
    StoreV {
        tasks: s.tasks.push(new_task(s.next_id, d, now)),
        next_id: (s.next_id + 1) as u64,
    }
}

/// The later of `now` and the task's last update: a mutation never moves
/// `updated_at` backwards, so a clock reading from the past cannot break
/// the timestamp order.
pub open spec fn bump(t: TaskV, now: u64) -> u64 {
    if now >= t.updated_at {
        now
    } else {
        t.updated_at
    }
}

pub open spec fn with_desc(t: TaskV, d: Seq<char>, now: u64) -> TaskV {
    TaskV {
        id: t.id,
        description: d,
        status: t.status,
        created_at: t.created_at,
        updated_at: bump(t, now),
    }
}

pub open spec fn with_status(t: TaskV, st: Status, now: u64) -> TaskV {
    TaskV {
        id: t.id,
        description: t.description,
        status: st,
        created_at: t.created_at,
        updated_at: bump(t, now),
    }
}

/// Replacing a description touches exactly the found task and its
/// `updated_at`; a missing identifier leaves the store as it was.
pub open spec fn update_desc_spec(s: StoreV, id: u64, d: Seq<char>, now: u64) -> StoreV {
    let i = find_idx(s.tasks, id);
    if i < 0 {
        s
    } else {
        StoreV { tasks: s.tasks.update(i, with_desc(s.tasks[i], d, now)), next_id: s.next_id }
    }
}

/// Setting a status touches exactly the found task and its `updated_at`;
/// every transition between the three states is permitted.
pub open spec fn set_status_spec(s: StoreV, id: u64, st: Status, now: u64) -> StoreV {
    let i = find_idx(s.tasks, id);
    if i < 0 {
        s
    } else {
        StoreV { tasks: s.tasks.update(i, with_status(s.tasks[i], st, now)), next_id: s.next_id }
    }
}

/// Deleting removes exactly the found task, keeps the others in order,
/// and never lowers the identifier counter, so identifiers are not reused.
pub open spec fn delete_spec(s: StoreV, id: u64) -> StoreV {
    let i = find_idx(s.tasks, id);
    if i < 0 {
        s
    } else {
        StoreV { tasks: s.tasks.remove(i), next_id: s.next_id }
    }
}

/// The subsequence of tasks a filter keeps, in the original order.
pub open spec fn filter_spec(ts: Seq<TaskV>, f: Option<Status>) -> Seq<TaskV>
    decreases ts.len(),
{
    if ts.len() == 0 {
        Seq::empty()
    } else {
        let rest = filter_spec(ts.drop_last(), f);
        if match f {
            None => true,
            Some(st) => ts.last().status == st,
        } {
            rest.push(ts.last())
        } else {
            rest
        }
    }
}

/// An absent filter keeps every task, in insertion order.
pub proof fn lemma_filter_none(ts: Seq<TaskV>)
    ensures
        filter_spec(ts, None) == ts,
    decreases ts.len(),
{
    if ts.len() > 0 {
        lemma_filter_none(ts.drop_last());
        assert(filter_spec(ts, None) =~= ts);
    }
}

/// What a status filter argument means: `None` keeps everything, the three
/// written names select a status, anything else is invalid.
pub open spec fn filter_of(arg: Option<Seq<char>>) -> Option<Option<Status>> {
    match arg {
        None => Some(None),
        Some(t) => if t == "pending"@ {
            Some(Some(Status::Pending))
        } else if t == "inprogress"@ {
            Some(Some(Status::InProgress))
        } else if t == "completed"@ {
            Some(Some(Status::Completed))
        } else {
            None
        },
    }
}

pub open spec fn arg_view(arg: Option<&str>) -> Option<Seq<char>> {
    match arg {
        None => None,
        Some(t) => Some(t@),
    }
}

/// A decoded sequence may stand as a store's contents when its identifiers
/// strictly increase, each task keeps its timestamp order, and the next
/// identifier after the last one still exists.
pub open spec fn loadable(ts: Seq<TaskV>) -> bool {
    &&& forall|i: int| 0 <= i < ts.len() ==> task_wf(#[trigger] ts[i])
    &&& forall|i: int, j: int|
        #![trigger ts[i], ts[j]]
        0 <= i && i + 1 == j && j < ts.len() ==> ts[i].id < ts[j].id
    &&& ts.len() > 0 ==> ts.last().id < u64::MAX
}

pub open spec fn next_of(ts: Seq<TaskV>) -> u64 {
    if ts.len() == 0 {
        1
    } else {
        (ts.last().id + 1) as u64
    }
}

/// What loading a persisted text yields: the tasks it encodes when they can
/// stand as a store, the empty store on anything corrupt or missing.
pub open spec fn load_spec(text: Seq<char>) -> StoreV {
    match p_top(text) {
        None => empty_spec(),
        Some(ts) => if loadable(ts) {
            StoreV { tasks: ts, next_id: next_of(ts) }
        } else {
            empty_spec()
        },
    }
}

proof fn lemma_adj_mono(ts: Seq<TaskV>, i: int, j: int)
    requires
        forall|k: int, l: int|
            #![trigger ts[k], ts[l]]
            0 <= k && k + 1 == l && l < ts.len() ==> ts[k].id < ts[l].id,
        0 <= i <= j < ts.len(),
    ensures
        ts[i].id <= ts[j].id,
    decreases j - i,
{
    if i < j {
        lemma_adj_mono(ts, i, j - 1);
        assert(ts[j - 1].id < ts[j].id);
    }
}

fn str_eq(a: &str, b: &str) -> (r: bool)
    ensures
        r == (a@ == b@),
{
    let n = a.unicode_len();
    let m = b.unicode_len();
    if n != m {
        return false;
    }
    let mut i: usize = 0;
    while i < n
        invariant
            i <= n,
            n == a@.len(),
            n == b@.len(),
            forall|k: int| 0 <= k < i ==> a@[k] == b@[k],
        decreases n - i,
    {
        if a.get_char(i) != b.get_char(i) {
            return false;
        }
        i += 1;
    }
    proof {
        assert(a@ =~= b@);
    }
    true
}

/// A whole run of adds folded over a store; `descs` and `nows` go in step.
pub open spec fn add_all(s: StoreV, descs: Seq<Seq<char>>, nows: Seq<u64>) -> StoreV
    decreases descs.len(),
{
    if descs.len() == 0 {
        s
    } else {
        add_all(add_spec(s, descs[0], nows[0]), descs.skip(1), nows.skip(1))
    }
}

proof fn lemma_add_all_ids(s: StoreV, descs: Seq<Seq<char>>, nows: Seq<u64>)
    requires
        descs.len() == nows.len(),
        s.next_id + descs.len() <= u64::MAX,
    ensures
        ({
            let r = add_all(s, descs, nows);
            &&& r.tasks.len() == s.tasks.len() + descs.len()
            &&& r.next_id == s.next_id + descs.len()
            &&& forall|i: int| 0 <= i < s.tasks.len() ==> r.tasks[i] == s.tasks[i]
            &&& forall|i: int|
                0 <= i < descs.len() ==> #[trigger] r.tasks[s.tasks.len() + i].id == s.next_id
                    + i
        }),
    decreases descs.len(),
{
    if descs.len() > 0 {
        let s1 = add_spec(s, descs[0], nows[0]);
        lemma_add_all_ids(s1, descs.skip(1), nows.skip(1));
        let r = add_all(s, descs, nows);
        assert(s1.tasks.len() == s.tasks.len() + 1);
        assert(r.tasks[s.tasks.len() as int] == s1.tasks[s.tasks.len() as int]);
        assert(s1.tasks[s.tasks.len() as int].id == s.next_id);
        assert forall|i: int|
            1 <= i < descs.len() implies #[trigger] r.tasks[s.tasks.len() + i].id == s.next_id
            + i by {
            assert(r.tasks[s1.tasks.len() + (i - 1)].id == s1.next_id + (i - 1));
        }
    }
}

/// Identifier monotonicity: any run of adds on a store loaded from the
/// empty state assigns exactly the identifiers 1, 2, 3, … in call order.
pub proof fn lemma_ids_sequential(descs: Seq<Seq<char>>, nows: Seq<u64>)
    requires
        descs.len() == nows.len(),
        descs.len() < u64::MAX,
    ensures
        ({
            let r = add_all(empty_spec(), descs, nows);
            &&& r.tasks.len() == descs.len()
            &&& r.next_id == 1 + descs.len()
            &&& forall|i: int| 0 <= i < descs.len() ==> r.tasks[i].id == i + 1
        }),
{
    lemma_add_all_ids(empty_spec(), descs, nows);
    let r = add_all(empty_spec(), descs, nows);
    assert forall|i: int| 0 <= i < descs.len() implies r.tasks[i].id == i + 1 by {
        assert(r.tasks[empty_spec().tasks.len() + i].id == empty_spec().next_id + i);
    }
}

/// No identifier reuse: after any delete, the next added task receives an
/// identifier strictly greater than every identifier the store still holds,
/// and equal to the counter the delete left untouched — never the deleted one.
pub proof fn lemma_no_reuse(s: StoreV, id: u64, d: Seq<char>, now: u64)
    requires
        store_wf(s),
        s.next_id < u64::MAX,
    ensures
        ({
            let r = add_spec(delete_spec(s, id), d, now);
            &&& delete_spec(s, id).next_id == s.next_id
            &&& r.tasks.len() > 0
            &&& r.tasks.last().id == s.next_id
            &&& forall|i: int|
                0 <= i < s.tasks.len() ==> r.tasks.last().id > (#[trigger] s.tasks[i]).id
        }),
{
}

/// Timestamp order: in a well-formed store no task was updated before it
/// was created; every operation of the store keeps well-formedness.
pub proof fn lemma_timestamps(s: StoreV)
    requires
        store_wf(s),
    ensures
        forall|i: int|
            0 <= i < s.tasks.len() ==> (#[trigger] s.tasks[i]).updated_at >= s.tasks[
                i
            ].created_at,
{
    assert forall|i: int|
        0 <= i < s.tasks.len() implies (#[trigger] s.tasks[i]).updated_at >= s.tasks[
        i
    ].created_at by {
        assert(task_wf(s.tasks[i]));
    }
}

/// Status transition freedom: a task may go `Pending` to `InProgress` to
/// `Completed` — no transition is guarded — and each step leaves
/// `updated_at` no earlier than it was before the step.
pub proof fn lemma_transition_chain(s: StoreV, id: u64, t1: u64, t2: u64)
    requires
        store_wf(s),
        has_task(s.tasks, id),
    ensures
        ({
            let i = find_idx(s.tasks, id);
            let s1 = set_status_spec(s, id, Status::InProgress, t1);
            let s2 = set_status_spec(s1, id, Status::Completed, t2);
            &&& has_task(s1.tasks, id)
            &&& s1.tasks[i].status == Status::InProgress
            &&& s2.tasks[i].status == Status::Completed
            &&& s1.tasks[i].updated_at >= s.tasks[i].updated_at
            &&& s2.tasks[i].updated_at >= s1.tasks[i].updated_at
        }),
{
    let i = find_idx(s.tasks, id);
    lemma_find_idx(s.tasks, id);
    let s1 = set_status_spec(s, id, Status::InProgress, t1);
    assert(s1.tasks[i].id == id);
    assert(forall|k: int| 0 <= k < i ==> (#[trigger] s1.tasks[k]).id != id);
    lemma_find_idx_at(s1.tasks, id, i);
}

proof fn lemma_load_refused(ts: Seq<TaskV>, text: Seq<char>)
    requires
        match crate::codec::p_top(text) {
            Some(ts2) => ts2 == ts,
            None => ts.len() == 0,
        },
        !loadable(ts),
    ensures
        load_spec(text) == empty_spec(),
{
    if p_top(text) is None {
        assert(loadable(ts));
    }
}

proof fn lemma_load_built(ts: Seq<TaskV>, text: Seq<char>, r: StoreV)
    requires
        match crate::codec::p_top(text) {
            Some(ts2) => ts2 == ts,
            None => ts.len() == 0,
        },
        loadable(ts),
        r.tasks == ts,
        r.next_id == next_of(ts),
    ensures
        r == load_spec(text),
        store_wf(r),
{
    if p_top(text) is Some {
        assert(r =~= StoreV { tasks: ts, next_id: next_of(ts) });
    } else {
        assert(r =~= empty_spec());
    }
    assert forall|a: int, b: int| 0 <= a < b < ts.len() implies ts[a].id < ts[b].id by {
        lemma_adj_mono(ts, a, b - 1);
    }
    assert forall|a: int| 0 <= a < ts.len() implies ts[a].id < r.next_id by {
        lemma_adj_mono(ts, a, ts.len() - 1);
    }
}

/// Whether a decoded vector may stand as a store's contents.
fn check_loadable(tasks: &Vec<Task>) -> (r: bool)
    ensures
        r == loadable(views_of(tasks@)),
{
    let ghost ts = views_of(tasks@);
    let n = tasks.len();
    let mut i: usize = 0;
    while i < n
        invariant
            i <= n,
            n == tasks@.len(),
            ts == views_of(tasks@),
            forall|k: int| 0 <= k < i ==> task_wf(#[trigger] ts[k]),
            forall|k: int, l: int|
                #![trigger ts[k], ts[l]]
                0 <= k < i && k + 1 == l && l < n ==> ts[k].id < ts[l].id,
        decreases n - i,
    {
        if tasks[i].updated_at < tasks[i].created_at {
            proof {
                assert(!task_wf(ts[i as int]));
            }
            return false;
        }
        if i + 1 < n {
            if tasks[i].id >= tasks[i + 1].id {
                proof {
                    assert(!(ts[i as int].id < ts[i as int + 1].id));
                }
                return false;
            }
            proof {
                assert(ts[i as int].id < ts[i as int + 1].id);
            }
        }
        i += 1;
    }
    if n > 0 {
        proof {
            assert(ts.last() == ts[n - 1]);
        }
        if tasks[n - 1].id == u64::MAX {
            return false;
        }
    }
    true
}

/// The in-memory store: the task records in insertion order, and the
/// identifier the next added task will receive. All operations keep
/// `store_wf` of the model.
pub struct TaskManager {
    pub tasks: Vec<Task>,
    pub next_id: u64,
}

impl View for TaskManager {
    type V = StoreV;

    open spec fn view(&self) -> StoreV {
        StoreV { tasks: views_of(self.tasks@), next_id: self.next_id }
    }
}

impl TaskManager {
    pub open spec fn wf(&self) -> bool {
        store_wf(self@)
    }

    /// A store with no tasks; the first task added gets identifier 1.
    pub fn empty() -> (r: Self)
        ensures
            r@ == empty_spec(),
            r.wf(),
    {
        let r = TaskManager { tasks: Vec::new(), next_id: 1 };
        proof {
            assert(r@ =~= empty_spec());
        }
        r
    }

    /// Build the store from its persisted text: the decoded tasks when they
    /// can stand as a store, else the empty store. A corrupt or missing
    /// text therefore yields a store whose next identifier is 1.
    pub fn load(text: &str) -> (r: Self)
        ensures
            r@ == load_spec(text@),
            r.wf(),
    {
        let tasks = decode_tasks(text);
        let ghost ts = views_of(tasks@);
        if !check_loadable(&tasks) {
            proof {
                lemma_load_refused(ts, text@);
            }
            return Self::empty();
        }
        let n = tasks.len();
        proof {
            if n > 0 {
                assert(ts.last() == ts[n - 1]);
            }
        }
        let next = if n == 0 {
            1
        } else {
            tasks[n - 1].id + 1
        };
        let r = TaskManager { tasks, next_id: next };
        proof {
            assert(r@.tasks =~= ts);
            lemma_load_built(ts, text@, r@);
        }
        r
    }

    /// Add a task: it receives the next identifier, `Pending` status, and
    /// both timestamps set to `now`. Identifiers strictly increase over a
    /// store's life, so a deleted identifier is never handed out again.
    pub fn add_task_at(&mut self, description: String, now: u64) -> (id: u64)
        requires
            old(self).wf(),
            old(self)@.next_id < u64::MAX,
        ensures
            final(self)@ == add_spec(old(self)@, description@, now),
            final(self).wf(),
            id == old(self)@.next_id,
    {
        let id = self.next_id;
        let t = Task {
            id,
            description,
            status: Status::Pending,
            created_at: now,
            updated_at: now,
        };
        self.tasks.push(t);
        self.next_id = self.next_id + 1;
        proof {
            assert(views_of(self.tasks@) =~= views_of(old(self).tasks@).push(t@));
            assert(self@ =~= add_spec(old(self)@, description@, now));
            let s2 = self@;
            assert(forall|k: int|
                0 <= k < s2.tasks.len() - 1 ==> s2.tasks[k] == old(self)@.tasks[k]);
        }
        id
    }

    /// Add a task timestamped with the current wall clock.
    pub fn add_task(&mut self, description: String) -> (id: u64)
        requires
            old(self).wf(),
            old(self)@.next_id < u64::MAX,
        ensures
            exists|now: u64| final(self)@ == add_spec(old(self)@, description@, now),
            final(self).wf(),
            id == old(self)@.next_id,
    {
        let now = crate::clock::now_millis();
        let ghost d = description@;
        let id = self.add_task_at(description, now);
        proof {
            assert(self@ == add_spec(old(self)@, d, now));
        }
        id
    }

    /// Replace the description of the task with identifier `id` and refresh
    /// its `updated_at`; every other task, the order, and the identifier
    /// counter stay as they were. A missing identifier changes nothing and
    /// is reported as `NotFound`.
    pub fn update_description_at(&mut self, id: u64, new_description: String, now: u64) -> (r:
        Result<(), TaskError>)
        requires
            old(self).wf(),
        ensures
            final(self)@ == update_desc_spec(old(self)@, id, new_description@, now),
            final(self).wf(),
            r is Ok <==> has_task(old(self)@.tasks, id),
            r is Err ==> r->Err_0 == TaskError::NotFound(id),
    {
        let ghost ts = self@.tasks;
        let n = self.tasks.len();
        let mut i: usize = 0;
        while i < n
            invariant
                i <= n,
                n == self.tasks@.len(),
                self == old(self),
                old(self).wf(),
                ts == self@.tasks,
                forall|k: int| 0 <= k < i ==> (#[trigger] ts[k]).id != id,
            decreases n - i,
        {
            if self.tasks[i].id == id {
                proof {
                    lemma_find_idx_at(ts, id, i as int);
                }
                let tid = self.tasks[i].id;
                let st = self.tasks[i].status;
                let created = self.tasks[i].created_at;
                let updated = self.tasks[i].updated_at;
                let nu = if now >= updated {
                    now
                } else {
                    updated
                };
                let t = Task {
                    id: tid,
                    description: new_description,
                    status: st,
                    created_at: created,
                    updated_at: nu,
                };
                self.tasks.set(i, t);
                proof {
                    assert(views_of(self.tasks@) =~= ts.update(
                        i as int,
                        with_desc(ts[i as int], new_description@, now),
                    ));
                    assert(self@ =~= update_desc_spec(old(self)@, id, new_description@, now));
                    assert(ts == old(self)@.tasks);
                    assert(store_wf(old(self)@));
                    assert(task_wf(old(self)@.tasks[i as int]));
                    assert(task_wf(ts[i as int]));
                    assert(task_wf(self@.tasks[i as int]));
                    assert(forall|k: int|
                        0 <= k < ts.len() ==> (#[trigger] self@.tasks[k]).id == ts[k].id);
                    assert(self.wf());
                }
                return Ok(());
            }
            i += 1;
        }
        proof {
            lemma_find_idx(ts, id);
            assert(!has_task(ts, id));
        }
        Err(TaskError::NotFound(id))
    }

    /// Replace a description, timestamped with the current wall clock.
    pub fn update_description(&mut self, id: u64, new_description: String) -> (r: Result<
        (),
        TaskError,
    >)
        requires
            old(self).wf(),
        ensures
            exists|now: u64|
                final(self)@ == update_desc_spec(old(self)@, id, new_description@, now),
            final(self).wf(),
            r is Ok <==> has_task(old(self)@.tasks, id),
            r is Err ==> r->Err_0 == TaskError::NotFound(id),
    {
        let now = crate::clock::now_millis();
        let ghost d = new_description@;
        let r = self.update_description_at(id, new_description, now);
        proof {
            assert(self@ == update_desc_spec(old(self)@, id, d, now));
        }
        r
    }

    /// Set the status of the task with identifier `id` and refresh its
    /// `updated_at`; any of the three states may follow any other. A missing
    /// identifier changes nothing and is reported as `NotFound`.
    pub fn set_status_at(&mut self, id: u64, status: Status, now: u64) -> (r: Result<
        (),
        TaskError,
    >)
        requires
            old(self).wf(),
        ensures
            final(self)@ == set_status_spec(old(self)@, id, status, now),
            final(self).wf(),
            r is Ok <==> has_task(old(self)@.tasks, id),
            r is Err ==> r->Err_0 == TaskError::NotFound(id),
    {
        let ghost ts = self@.tasks;
        let n = self.tasks.len();
        let mut i: usize = 0;
        while i < n
            invariant
                i <= n,
                n == self.tasks@.len(),
                self == old(self),
                old(self).wf(),
                ts == self@.tasks,
                forall|k: int| 0 <= k < i ==> (#[trigger] ts[k]).id != id,
            decreases n - i,
        {
            if self.tasks[i].id == id {
                proof {
                    lemma_find_idx_at(ts, id, i as int);
                }
                let tid = self.tasks[i].id;
                let created = self.tasks[i].created_at;
                let updated = self.tasks[i].updated_at;
                let desc = self.tasks[i].description.clone();
                let nu = if now >= updated {
                    now
                } else {
                    updated
                };
                let t = Task {
                    id: tid,
                    description: desc,
                    status,
                    created_at: created,
                    updated_at: nu,
                };
                self.tasks.set(i, t);
                proof {
                    assert(views_of(self.tasks@) =~= ts.update(
                        i as int,
                        with_status(ts[i as int], status, now),
                    ));
                    assert(self@ =~= set_status_spec(old(self)@, id, status, now));
                    assert(ts == old(self)@.tasks);
                    assert(store_wf(old(self)@));
                    assert(task_wf(old(self)@.tasks[i as int]));
                    assert(task_wf(ts[i as int]));
                    assert(task_wf(self@.tasks[i as int]));
                    assert(forall|k: int|
                        0 <= k < ts.len() ==> (#[trigger] self@.tasks[k]).id == ts[k].id);
                    assert(self.wf());
                }
                return Ok(());
            }
            i += 1;
        }
        proof {
            lemma_find_idx(ts, id);
        }
        Err(TaskError::NotFound(id))
    }

    /// Mark a task in progress, timestamped with the current wall clock.
    pub fn mark_in_progress(&mut self, id: u64) -> (r: Result<(), TaskError>)
        requires
            old(self).wf(),
        ensures
            exists|now: u64|
                final(self)@ == set_status_spec(old(self)@, id, Status::InProgress, now),
            final(self).wf(),
            r is Ok <==> has_task(old(self)@.tasks, id),
            r is Err ==> r->Err_0 == TaskError::NotFound(id),
    {
        let now = crate::clock::now_millis();
        let r = self.set_status_at(id, Status::InProgress, now);
        proof {
            assert(self@ == set_status_spec(old(self)@, id, Status::InProgress, now));
        }
        r
    }

    /// Mark a task completed, timestamped with the current wall clock.
    pub fn mark_completed(&mut self, id: u64) -> (r: Result<(), TaskError>)
        requires
            old(self).wf(),
        ensures
            exists|now: u64|
                final(self)@ == set_status_spec(old(self)@, id, Status::Completed, now),
            final(self).wf(),
            r is Ok <==> has_task(old(self)@.tasks, id),
            r is Err ==> r->Err_0 == TaskError::NotFound(id),
    {
        let now = crate::clock::now_millis();
        let r = self.set_status_at(id, Status::Completed, now);
        proof {
            assert(self@ == set_status_spec(old(self)@, id, Status::Completed, now));
        }
        r
    }

    /// Remove the task with identifier `id`, keeping the others in order;
    /// the identifier counter stays, so the identifier is never reused. A
    /// missing identifier changes nothing and is reported as `NotFound`.
    pub fn delete_task(&mut self, id: u64) -> (r: Result<(), TaskError>)
        requires
            old(self).wf(),
        ensures
            final(self)@ == delete_spec(old(self)@, id),
            final(self).wf(),
            r is Ok <==> has_task(old(self)@.tasks, id),
            r is Err ==> r->Err_0 == TaskError::NotFound(id),
    {
        let ghost ts = self@.tasks;
        let n = self.tasks.len();
        let mut i: usize = 0;
        while i < n
            invariant
                i <= n,
                n == self.tasks@.len(),
                self == old(self),
                old(self).wf(),
                ts == self@.tasks,
                forall|k: int| 0 <= k < i ==> (#[trigger] ts[k]).id != id,
            decreases n - i,
        {
            if self.tasks[i].id == id {
                proof {
                    lemma_find_idx_at(ts, id, i as int);
                }
                self.tasks.remove(i);
                proof {
                    assert(views_of(self.tasks@) =~= ts.remove(i as int));
                    assert(self@ =~= delete_spec(old(self)@, id));
                    assert(forall|k: int|
                        0 <= k < i ==> #[trigger] self@.tasks[k] == ts[k]);
                    assert(forall|k: int|
                        i <= k < self@.tasks.len() ==> #[trigger] self@.tasks[k] == ts[k + 1]);
                    assert(self.wf());
                }
                return Ok(());
            }
            i += 1;
        }
        proof {
            lemma_find_idx(ts, id);
        }
        Err(TaskError::NotFound(id))
    }

    fn filtered(&self, f: Option<Status>) -> (r: Vec<Task>)
        ensures
            views_of(r@) == filter_spec(self@.tasks, f),
    {
        let ghost ts = self@.tasks;
        let mut out: Vec<Task> = Vec::new();
        let n = self.tasks.len();
        let mut i: usize = 0;
        proof {
            assert(views_of(out@) =~= filter_spec(ts.take(0), f)) by {
                assert(ts.take(0) =~= Seq::<TaskV>::empty());
                assert(views_of(out@) =~= Seq::<TaskV>::empty());
            }
        }
        while i < n
            invariant
                i <= n,
                n == self.tasks@.len(),
                ts == self@.tasks,
                views_of(out@) == filter_spec(ts.take(i as int), f),
            decreases n - i,
        {
            let keep = match f {
                None => true,
                Some(st) => self.tasks[i].status == st,
            };
            let ghost pre = views_of(out@);
            if keep {
                out.push(self.tasks[i].clone());
                proof {
                    assert(views_of(out@) =~= pre.push(ts[i as int]));
                }
            }
            proof {
                assert(ts.take(i + 1).drop_last() =~= ts.take(i as int));
                assert(ts.take(i + 1).last() == ts[i as int]);
            }
            i += 1;
        }
        proof {
            assert(ts.take(n as int) =~= ts);
        }
        out
    }

    /// List the tasks a filter keeps, as fresh copies in insertion order.
    /// Listing takes the store by shared reference: it can change nothing,
    /// so any number of filtered listings leaves every later listing the
    /// same. An unknown filter name is reported as `InvalidFilter`.
    pub fn list_tasks(&self, status_arg: Option<&str>) -> (r: Result<Vec<Task>, TaskError>)
        ensures
            match filter_of(arg_view(status_arg)) {
                Some(f) => r is Ok && views_of(r->Ok_0@) == filter_spec(self@.tasks, f),
                None => {
                    &&& r is Err
                    &&& r->Err_0 is InvalidFilter
                    &&& r->Err_0->InvalidFilter_0@ == status_arg->Some_0@
                },
            },
    {
        match status_arg {
            None => Ok(self.filtered(None)),
            Some(t) => {
                if str_eq(t, "pending") {
                    Ok(self.filtered(Some(Status::Pending)))
                } else if str_eq(t, "inprogress") {
                    Ok(self.filtered(Some(Status::InProgress)))
                } else if str_eq(t, "completed") {
                    Ok(self.filtered(Some(Status::Completed)))
                } else {
                    Err(TaskError::InvalidFilter(String::from_str(t)))
                }
            },
        }
    }

    /// Borrow the task with identifier `id`, if it exists.
    pub fn get_task(&self, id: u64) -> (r: Option<&Task>)
        ensures
            match r {
                Some(t) => has_task(self@.tasks, id) && t@ == self@.tasks[find_idx(
                    self@.tasks,
                    id,
                )],
                None => !has_task(self@.tasks, id),
            },
    {
        let ghost ts = self@.tasks;
        let n = self.tasks.len();
        let mut i: usize = 0;
        while i < n
            invariant
                i <= n,
                n == self.tasks@.len(),
                ts == self@.tasks,
                forall|k: int| 0 <= k < i ==> (#[trigger] ts[k]).id != id,
            decreases n - i,
        {
            if self.tasks[i].id == id {
                proof {
                    lemma_find_idx_at(ts, id, i as int);
                }
                return Some(&self.tasks[i]);
            }
            i += 1;
        }
        proof {
            lemma_find_idx(ts, id);
        }
        None
    }
}

} // verus!
