//! The task store and its status state machine: keyed task records, the
//! one-active-task ("now") invariant with its demotion cascade, revision
//! counting, and the dashboard snapshot. The store itself is an
//! in-memory model; callers mirror it to durable storage and must
//! serialize access around every operation.

use vstd::prelude::*;
use crate::status::TaskStatus;
use crate::status::str_eq;
use crate::task::Task;
use crate::task::StoreError;
use crate::task::DashboardData;
use crate::task::clone_opt_string;
use crate::nlp::parse_task_input_at;
use crate::nlp::parse_title;
use crate::nlp::parse_context;
use crate::nlp::parse_sched;
use crate::sys::current_unix_time;
use crate::sys::new_task_id;

verus! {

/// The latest timestamp the review-countdown settings may hold
/// (the last instant of year 9999).
pub const MAX_SETTING_TS: i64 = 253402300799;

/// The keyed task collection plus the two review settings, with their
/// defaults standing in until real values are loaded.
pub struct TaskStore {
    pub tasks: Vec<Task>,
    pub last_review_date: i64,
    pub review_frequency_days: i64,
}

/// The first index at or after `i` whose task carries `id`, or the
/// length if there is none.
pub open spec fn id_index_from(tasks: Seq<Task>, id: Seq<char>, i: int) -> int
    decreases tasks.len() - i when 0 <= i <= tasks.len()
{
    if i >= tasks.len() {
        i
    } else if tasks[i].id@ == id {
        i
    } else {
        id_index_from(tasks, id, i + 1)
    }
}

pub open spec fn has_id(tasks: Seq<Task>, id: Seq<char>) -> bool {
    id_index_from(tasks, id, 0) < tasks.len()
}

pub open spec fn id_index(tasks: Seq<Task>, id: Seq<char>) -> int {
    id_index_from(tasks, id, 0)
}

pub proof fn lemma_id_index_from(tasks: Seq<Task>, id: Seq<char>, i: int)
    requires
        0 <= i <= tasks.len(),
    ensures
        i <= id_index_from(tasks, id, i) <= tasks.len(),
        id_index_from(tasks, id, i) < tasks.len() ==> tasks[id_index_from(tasks, id, i)].id@
            == id,
        forall|k: int|
            i <= k < id_index_from(tasks, id, i) ==> (#[trigger] tasks[k]).id@ != id,
    decreases tasks.len() - i,
{
    if i < tasks.len() && tasks[i].id@ != id {
        lemma_id_index_from(tasks, id, i + 1);
    }
}

/// The first index at or after `i` whose task holds `status`, or the
/// length if there is none.
pub open spec fn status_index_from(tasks: Seq<Task>, status: TaskStatus, i: int) -> int
    decreases tasks.len() - i when 0 <= i <= tasks.len()
{
    if i >= tasks.len() {
        i
    } else if tasks[i].status == status {
        i
    } else {
        status_index_from(tasks, status, i + 1)
    }
}

pub open spec fn has_status(tasks: Seq<Task>, status: TaskStatus) -> bool {
    status_index_from(tasks, status, 0) < tasks.len()
}

pub open spec fn status_index(tasks: Seq<Task>, status: TaskStatus) -> int {
    status_index_from(tasks, status, 0)
}

/// The target of a status update: the new status, a completion
/// timestamp exactly while done, and the revision counter bumped by 1.
pub open spec fn retargeted(t: Task, status: TaskStatus, now: i64) -> Task {
    Task {
        status,
        completed_at: if status == TaskStatus::Done {
            Some(now)
        } else {
            None
        },
        sync_version: (t.sync_version + 1) as i32,
        ..t
    }
}

/// A task pushed out of the single "now" slot: demoted to "next", its
/// own revision counter bumped by 1.
pub open spec fn demoted(t: Task) -> Task {
    Task { status: TaskStatus::Next, sync_version: (t.sync_version + 1) as i32, ..t }
}

/// The whole store after a status update of the task at index `i`: that
/// task retargeted; when the new status is "now", every other task that
/// held "now" demoted; all else untouched.
pub open spec fn apply_update(tasks: Seq<Task>, i: int, status: TaskStatus, now: i64) -> Seq<
    Task,
> {
    tasks.map(
        |j: int, t: Task|
            if j == i {
                retargeted(t, status, now)
            } else if status == TaskStatus::Now && t.status == TaskStatus::Now {
                demoted(t)
            } else {
                t
            },
    )
}

/// The tasks of `status`, newest created first (reverse insertion
/// order, as creation timestamps are assigned in insertion order), at
/// most `limit` of them.
pub open spec fn query_spec(tasks: Seq<Task>, status: TaskStatus, limit: int) -> Seq<Task>
    decreases tasks.len(),
{
    if limit <= 0 || tasks.len() == 0 {
        Seq::empty()
    } else if tasks.last().status == status {
        seq![tasks.last()] + query_spec(tasks.drop_last(), status, limit - 1)
    } else {
        query_spec(tasks.drop_last(), status, limit)
    }
}

/// The creation time a new task receives: the caller's clock reading,
/// clamped up to the newest existing creation time so that creation
/// times never decrease along insertion order (a clock stepped
/// backwards cannot break the query order).
pub open spec fn next_created_at(tasks: Seq<Task>, now: i64) -> i64 {
    if tasks.len() > 0 && tasks.last().created_at > now {
        tasks.last().created_at
    } else {
        now
    }
}

impl TaskStore {
    /// Store-level well-formedness: ids are unique, every record is
    /// well formed, creation times are non-decreasing along insertion
    /// order (so reverse insertion order is newest-created first), and
    /// the review settings are in range.
    pub open spec fn wf(self) -> bool {
        &&& forall|i: int, j: int|
            0 <= i < j < self.tasks@.len() ==> (#[trigger] self.tasks@[i]).id@ != (
            #[trigger] self.tasks@[j]).id@
        &&& forall|i: int| 0 <= i < self.tasks@.len() ==> (#[trigger] self.tasks@[i]).wf()
        &&& forall|i: int, j: int|
            0 <= i < j < self.tasks@.len() ==> (#[trigger] self.tasks@[i]).created_at <= (
            #[trigger] self.tasks@[j]).created_at
        &&& 0 <= self.last_review_date <= MAX_SETTING_TS
        &&& 1 <= self.review_frequency_days <= 36500
    }

    /// Every revision counter still has room for one bump.
    pub open spec fn versions_bounded(self) -> bool {
        forall|i: int|
            0 <= i < self.tasks@.len() ==> (#[trigger] self.tasks@[i]).sync_version < i32::MAX
    }

    /// An empty store with default review settings: no review recorded
    /// yet, a review due every 7 days.
    pub fn new() -> (r: TaskStore)
        ensures
            r.wf(),
            r.tasks@.len() == 0,
            r.last_review_date == 0,
            r.review_frequency_days == 7,
    {
        TaskStore { tasks: Vec::new(), last_review_date: 0, review_frequency_days: 7 }
    }

    /// Find the index of the task carrying `id`.
    fn find_index(&self, id: &str) -> (r: Option<usize>)
        ensures
            match r {
                Some(i) => has_id(self.tasks@, id@) && i == id_index(self.tasks@, id@),
                None => !has_id(self.tasks@, id@),
            },
    {
        let n = self.tasks.len();
        let mut i: usize = 0;
        while i < n
            invariant
                n == self.tasks@.len(),
                0 <= i <= n,
                id_index_from(self.tasks@, id@, 0) == id_index_from(self.tasks@, id@, i as int),
            decreases n - i,
        {
            if str_eq(self.tasks[i].id.as_str(), id) {
                proof {
                    assert(id_index_from(self.tasks@, id@, i as int) == i);
                }
                return Some(i);
            }
            i += 1;
        }
        None
    }

    /// Fetch a copy of the task carrying `id`; `NotFound` exactly when
    /// no task does.
    pub fn get_task(&self, id: &str) -> (r: Result<Task, StoreError>)
        ensures
            match r {
                Ok(t) => has_id(self.tasks@, id@) && t == self.tasks@[id_index(self.tasks@, id@)],
                Err(e) => e == StoreError::NotFound && !has_id(self.tasks@, id@),
            },
    {
        match self.find_index(id) {
            Some(i) => Ok(self.tasks[i].duplicate()),
            None => Err(StoreError::NotFound),
        }
    }

    /// Create a task under the given id with creation time `now`:
    /// appended with revision 1 and no completion timestamp, both
    /// bookkeeping timestamps set to `now` (clamped up to the newest
    /// existing creation time, see `next_created_at`). Succeeds if and
    /// only if the id is not already taken; on `DuplicateId` nothing
    /// changes — which can only happen in a non-empty store.
    pub fn create_task_with_id(
        &mut self,
        id: String,
        now: i64,
        title: String,
        status: TaskStatus,
        context: Option<String>,
        scheduled_for: Option<i64>,
        original_input: Option<String>,
        source: String,
        tags: Option<String>,
    ) -> (r: Result<Task, StoreError>)
        requires
            old(self).wf(),
        ensures
            final(self).wf(),
            final(self).last_review_date == old(self).last_review_date,
            final(self).review_frequency_days == old(self).review_frequency_days,
            match r {
                Ok(t) => {
                    &&& !has_id(old(self).tasks@, id@)
                    &&& t.id == id
                    &&& t.title == title
                    &&& t.status == status
                    &&& t.context == context
                    &&& t.scheduled_for == scheduled_for
                    &&& t.completed_at is None
                    &&& t.created_at == next_created_at(old(self).tasks@, now)
                    &&& t.updated_at == t.created_at
                    &&& t.original_input == original_input
                    &&& t.source == source
                    &&& t.tags == tags
                    &&& t.sync_version == 1
                    &&& final(self).tasks@ == old(self).tasks@.push(t)
                },
                Err(e) => {
                    &&& e == StoreError::DuplicateId
                    &&& has_id(old(self).tasks@, id@)
                    &&& old(self).tasks@.len() > 0
                    &&& final(self).tasks@ == old(self).tasks@
                },
            },
    {
        match self.find_index(&id) {
            Some(_) => {
                proof {
                    lemma_id_index_from(self.tasks@, id@, 0);
                }
                Err(StoreError::DuplicateId)
            },
            None => {
                let created = if self.tasks.len() > 0 {
                    let newest = self.tasks[self.tasks.len() - 1].created_at;
                    if newest > now {
                        newest
                    } else {
                        now
                    }
                } else {
                    now
                };
                let t = Task {
                    id,
                    title,
                    status,
                    context,
                    scheduled_for,
                    completed_at: None,
                    created_at: created,
                    updated_at: created,
                    original_input,
                    source,
                    tags,
                    sync_version: 1,
                };
                let ret = t.duplicate();
                proof {
                    lemma_id_index_from(self.tasks@, t.id@, 0);
                }
                self.tasks.push(t);
                proof {
                    let prev = old(self).tasks@;
                    assert(forall|k: int|
                        0 <= k < prev.len() ==> (#[trigger] prev[k]).id@ != ret.id@);
                    assert forall|k: int|
                        0 <= k < prev.len() implies (#[trigger] prev[k]).created_at
                        <= ret.created_at by {
                        if k < prev.len() - 1 {
                            assert(prev[k].created_at <= prev[prev.len() - 1].created_at);
                        }
                    }
                    assert(self.wf());
                }
                Ok(ret)
            },
        }
    }

    /// Create a task from the given fields, assigning it a fresh random
    /// id and the current time. Succeeds unless the drawn id collides
    /// with an existing one; on `DuplicateId` nothing changes.
    pub fn create_task(
        &mut self,
        title: String,
        status: TaskStatus,
        context: Option<String>,
        scheduled_for: Option<i64>,
        original_input: Option<String>,
        source: String,
        tags: Option<String>,
    ) -> (r: Result<Task, StoreError>)
        requires
            old(self).wf(),
        ensures
            final(self).wf(),
            final(self).last_review_date == old(self).last_review_date,
            final(self).review_frequency_days == old(self).review_frequency_days,
            match r {
                Ok(t) => {
                    &&& !has_id(old(self).tasks@, t.id@)
                    &&& t.title == title
                    &&& t.status == status
                    &&& t.context == context
                    &&& t.scheduled_for == scheduled_for
                    &&& t.completed_at is None
                    &&& t.created_at == t.updated_at
                    &&& t.original_input == original_input
                    &&& t.source == source
                    &&& t.tags == tags
                    &&& t.sync_version == 1
                    &&& final(self).tasks@ == old(self).tasks@.push(t)
                },
                Err(e) => {
                    &&& e == StoreError::DuplicateId
                    &&& old(self).tasks@.len() > 0
                    &&& final(self).tasks@ == old(self).tasks@
                },
            },
    {
        let id = new_task_id();
        let now = current_unix_time();
        self.create_task_with_id(
            id,
            now,
            title,
            status,
            context,
            scheduled_for,
            original_input,
            source,
            tags,
        )
    }

    /// Apply a status update at time `now` to the task carrying `id`:
    /// `NotFound` (and no change) exactly when no task does; otherwise
    /// the store becomes `apply_update` of its old state — the target
    /// retargeted, and on a promotion to "now" every other "now" holder
    /// demoted to "next", each with its revision counter bumped. The
    /// policy for the bookkeeping timestamps is that both are set at
    /// creation and left untouched by status updates; only
    /// `completed_at` tracks the transition.
    pub fn update_status_at(&mut self, id: &str, status: TaskStatus, now: i64) -> (r: Result<
        (),
        StoreError,
    >)
        requires
            old(self).wf(),
            old(self).versions_bounded(),
        ensures
            final(self).wf(),
            final(self).last_review_date == old(self).last_review_date,
            final(self).review_frequency_days == old(self).review_frequency_days,
            match r {
                Ok(u) => has_id(old(self).tasks@, id@) && final(self).tasks@ == apply_update(
                    old(self).tasks@,
                    id_index(old(self).tasks@, id@),
                    status,
                    now,
                ),
                Err(e) => {
                    &&& e == StoreError::NotFound
                    &&& !has_id(old(self).tasks@, id@)
                    &&& final(self).tasks@ == old(self).tasks@
                },
            },
    {
        let idx = match self.find_index(id) {
            Some(i) => i,
            None => {
                return Err(StoreError::NotFound);
            },
        };
        let ghost prev = self.tasks@;
        let ghost target = apply_update(prev, idx as int, status, now);
        let n = self.tasks.len();
        let mut updated: Vec<Task> = Vec::new();
        let mut j: usize = 0;
        while j < n
            invariant
                n == prev.len(),
                self.tasks@ == prev,
                forall|k: int| 0 <= k < prev.len() ==> (#[trigger] prev[k]).sync_version < i32::MAX,
                target == apply_update(prev, idx as int, status, now),
                0 <= idx < n,
                0 <= j <= n,
                updated@.len() == j,
                forall|k: int| 0 <= k < j ==> updated@[k] == target[k],
            decreases n - j,
        {
            let t = &self.tasks[j];
            if j == idx {
                let nt = Task {
                    id: t.id.clone(),
                    title: t.title.clone(),
                    status,
                    context: clone_opt_string(&t.context),
                    scheduled_for: t.scheduled_for,
                    completed_at: if matches!(status, TaskStatus::Done) {
                        Some(now)
                    } else {
                        None
                    },
                    created_at: t.created_at,
                    updated_at: t.updated_at,
                    original_input: clone_opt_string(&t.original_input),
                    source: t.source.clone(),
                    tags: clone_opt_string(&t.tags),
                    sync_version: t.sync_version + 1,
                };
                proof {
                    assert(nt == retargeted(prev[j as int], status, now));
                }
                updated.push(nt);
            } else if matches!(status, TaskStatus::Now) && matches!(
                t.status,
                TaskStatus::Now,
            ) {
                let nt = Task {
                    id: t.id.clone(),
                    title: t.title.clone(),
                    status: TaskStatus::Next,
                    context: clone_opt_string(&t.context),
                    scheduled_for: t.scheduled_for,
                    completed_at: t.completed_at,
                    created_at: t.created_at,
                    updated_at: t.updated_at,
                    original_input: clone_opt_string(&t.original_input),
                    source: t.source.clone(),
                    tags: clone_opt_string(&t.tags),
                    sync_version: t.sync_version + 1,
                };
                proof {
                    assert(nt == demoted(prev[j as int]));
                }
                updated.push(nt);
            } else {
                updated.push(t.duplicate());
            }
            j += 1;
        }
        proof {
            assert(updated@ =~= target);
        }
        self.tasks = updated;
        proof {
            assert forall|a: int, b: int| 0 <= a < b < target.len() implies (
            #[trigger] target[a]).id@ != (#[trigger] target[b]).id@ by {
                assert(target[a].id@ == prev[a].id@);
                assert(target[b].id@ == prev[b].id@);
            }
            assert forall|a: int, b: int| 0 <= a < b < target.len() implies (
            #[trigger] target[a]).created_at <= (#[trigger] target[b]).created_at by {
                assert(target[a].created_at == prev[a].created_at);
                assert(target[b].created_at == prev[b].created_at);
            }
            assert forall|a: int| 0 <= a < target.len() implies (#[trigger] target[a]).wf() by {
                assert(prev[a].wf());
            }
        }
        Ok(())
    }

    /// Apply a status update at the current time: the store becomes
    /// `apply_update` of its old state for the instant the clock
    /// returned.
    pub fn update_task_status(&mut self, id: &str, status: TaskStatus) -> (r: Result<
        (),
        StoreError,
    >)
        requires
            old(self).wf(),
            old(self).versions_bounded(),
        ensures
            final(self).wf(),
            final(self).last_review_date == old(self).last_review_date,
            final(self).review_frequency_days == old(self).review_frequency_days,
            match r {
                Ok(u) => has_id(old(self).tasks@, id@) && exists|now: i64|
                    0 <= now && final(self).tasks@ == #[trigger] apply_update(
                        old(self).tasks@,
                        id_index(old(self).tasks@, id@),
                        status,
                        now,
                    ),
                Err(e) => {
                    &&& e == StoreError::NotFound
                    &&& !has_id(old(self).tasks@, id@)
                    &&& final(self).tasks@ == old(self).tasks@
                },
            },
    {
        let now = current_unix_time();
        self.update_status_at(id, status, now)
    }

    /// Decode a status token and apply the update it names at the
    /// current time. An unrecognized token is rejected with
    /// `UnknownStatus` before anything is touched.
    pub fn update_status_from_str(&mut self, id: &str, status_str: &str) -> (r: Result<
        (),
        StoreError,
    >)
        requires
            old(self).wf(),
            old(self).versions_bounded(),
        ensures
            final(self).wf(),
            final(self).last_review_date == old(self).last_review_date,
            final(self).review_frequency_days == old(self).review_frequency_days,
            match TaskStatus::spec_from_str(status_str@) {
                Some(st) => match r {
                    Ok(u) => has_id(old(self).tasks@, id@) && exists|now: i64|
                        0 <= now && final(self).tasks@ == #[trigger] apply_update(
                            old(self).tasks@,
                            id_index(old(self).tasks@, id@),
                            st,
                            now,
                        ),
                    Err(e) => {
                        &&& e == StoreError::NotFound
                        &&& !has_id(old(self).tasks@, id@)
                        &&& final(self).tasks@ == old(self).tasks@
                    },
                },
                None => r == Err::<(), StoreError>(StoreError::UnknownStatus) && final(self).tasks@
                    == old(self).tasks@,
            },
    {
        match TaskStatus::from_str(status_str) {
            Some(st) => self.update_task_status(id, st),
            None => Err(StoreError::UnknownStatus),
        }
    }

    /// Remove the task carrying `id`. Permissive: deleting an absent id
    /// is a no-op, never an error.
    pub fn delete_task(&mut self, id: &str) -> (r: Result<(), StoreError>)
        requires
            old(self).wf(),
        ensures
            final(self).wf(),
            final(self).last_review_date == old(self).last_review_date,
            final(self).review_frequency_days == old(self).review_frequency_days,
            r is Ok,
            final(self).tasks@ == old(self).tasks@.filter(|t: Task| t.id@ != id@),
    {
        let ghost pred = |t: Task| t.id@ != id@;
        let n = self.tasks.len();
        let ghost prev = self.tasks@;
        let mut kept: Vec<Task> = Vec::new();
        let mut j: usize = 0;
        while j < n
            invariant
                n == prev.len(),
                self.tasks@ == prev,
                pred == (|t: Task| t.id@ != id@),
                0 <= j <= n,
                kept@ == prev.subrange(0, j as int).filter(pred),
            decreases n - j,
        {
            proof {
                reveal(Seq::filter);
                assert(prev.subrange(0, j + 1).drop_last() =~= prev.subrange(0, j as int));
                assert(prev.subrange(0, j + 1).last() == prev[j as int]);
            }
            if !str_eq(self.tasks[j].id.as_str(), id) {
                kept.push(self.tasks[j].duplicate());
            }
            j += 1;
        }
        proof {
            assert(prev.subrange(0, n as int) =~= prev);
        }
        self.tasks = kept;
        proof {
            let out = prev.filter(pred);
            assert forall|a: int, b: int| 0 <= a < b < out.len() implies (#[trigger] out[a]).id@
                != (#[trigger] out[b]).id@ by {
                lemma_filter_keeps_pairwise(prev, pred, |x: Task, y: Task| x.id@ != y.id@, a, b);
            }
            assert forall|a: int, b: int| 0 <= a < b < out.len() implies (
            #[trigger] out[a]).created_at <= (#[trigger] out[b]).created_at by {
                lemma_filter_keeps_pairwise(
                    prev,
                    pred,
                    |x: Task, y: Task| x.created_at <= y.created_at,
                    a,
                    b,
                );
            }
            assert forall|a: int| 0 <= a < out.len() implies (#[trigger] out[a]).wf() by {
                lemma_filter_elem_from(prev, pred, a);
                let w = choose|k: int| 0 <= k < prev.len() && prev[k] == out[a];
                assert(prev[w].wf());
            }
        }
        Ok(())
    }

    /// The tasks holding `status`, newest created first (the store
    /// invariant keeps creation times aligned with insertion order),
    /// at most `limit`.
    pub fn query_by_status(&self, status: TaskStatus, limit: usize) -> (r: Vec<Task>)
        requires
            self.wf(),
        ensures
            r@ == query_spec(self.tasks@, status, limit as int),
            forall|a: int, b: int|
                0 <= a < b < r@.len() ==> (#[trigger] r@[a]).created_at >= (
                #[trigger] r@[b]).created_at,
    {
        proof {
            lemma_query_spec_created_desc(self.tasks@, status, limit as int);
        }
        let n = self.tasks.len();
        let ghost full = self.tasks@;
        let mut r: Vec<Task> = Vec::new();
        let mut i: usize = n;
        proof {
            assert(full.subrange(0, n as int) =~= full);
        }
        while i > 0 && r.len() < limit
            invariant
                n == full.len(),
                self.tasks@ == full,
                0 <= i <= n,
                r@.len() <= limit,
                query_spec(full, status, limit as int) == r@ + query_spec(
                    full.subrange(0, i as int),
                    status,
                    limit - r@.len(),
                ),
            decreases i,
        {
            let ghost sub = full.subrange(0, i as int);
            proof {
                assert(sub.last() == full[i - 1]);
                assert(sub.drop_last() =~= full.subrange(0, i - 1));
            }
            if matches_status(&self.tasks[i - 1], status) {
                r.push(self.tasks[i - 1].duplicate());
            }
            i -= 1;
        }
        proof {
            if i == 0 {
                assert(full.subrange(0, 0) =~= Seq::<Task>::empty());
            }
            assert(r@ =~= query_spec(full, status, limit as int));
        }
        r
    }

    /// The first task, in insertion order, holding `status`.
    pub fn first_with_status(&self, status: TaskStatus) -> (r: Option<Task>)
        ensures
            match r {
                Some(t) => has_status(self.tasks@, status) && t == self.tasks@[status_index(
                    self.tasks@,
                    status,
                )],
                None => !has_status(self.tasks@, status),
            },
    {
        let n = self.tasks.len();
        let mut i: usize = 0;
        while i < n
            invariant
                n == self.tasks@.len(),
                0 <= i <= n,
                status_index_from(self.tasks@, status, 0) == status_index_from(
                    self.tasks@,
                    status,
                    i as int,
                ),
            decreases n - i,
        {
            if matches_status(&self.tasks[i], status) {
                proof {
                    assert(status_index_from(self.tasks@, status, i as int) == i);
                }
                return Some(self.tasks[i].duplicate());
            }
            i += 1;
        }
        None
    }

    /// Assemble the dashboard snapshot: the first stored task holding
    /// "now", the ten newest "next" and "waiting" tasks, and the review
    /// countdown computed from the current time and the settings.
    pub fn get_dashboard_data(&self) -> (r: DashboardData)
        requires
            self.wf(),
        ensures
            match r.now_task {
                Some(t) => has_status(self.tasks@, TaskStatus::Now) && t == self.tasks@[
                    status_index(self.tasks@, TaskStatus::Now)],
                None => !has_status(self.tasks@, TaskStatus::Now),
            },
            r.next_tasks@ == query_spec(self.tasks@, TaskStatus::Next, 10),
            r.waiting_tasks@ == query_spec(self.tasks@, TaskStatus::Waiting, 10),
            forall|a: int, b: int|
                0 <= a < b < r.next_tasks@.len() ==> (#[trigger] r.next_tasks@[a]).created_at
                    >= (#[trigger] r.next_tasks@[b]).created_at,
            forall|a: int, b: int|
                0 <= a < b < r.waiting_tasks@.len() ==> (
                #[trigger] r.waiting_tasks@[a]).created_at >= (
                #[trigger] r.waiting_tasks@[b]).created_at,
            exists|now: int|
                0 <= now && r.review_due_in_days as int == #[trigger] review_due_spec(
                    now,
                    self.last_review_date as int,
                    self.review_frequency_days as int,
                ),
    {
        let now_task = self.first_with_status(TaskStatus::Now);
        let next_tasks = self.query_by_status(TaskStatus::Next, 10);
        let waiting_tasks = self.query_by_status(TaskStatus::Waiting, 10);
        let now = current_unix_time();
        let review_due_in_days = review_due_days(
            now,
            self.last_review_date,
            self.review_frequency_days,
        );
        proof {
            assert(review_due_in_days as int == review_due_spec(
                now as int,
                self.last_review_date as int,
                self.review_frequency_days as int,
            ));
        }
        DashboardData { now_task, next_tasks, waiting_tasks, review_due_in_days }
    }

    /// Take review settings read back from storage, keeping each
    /// current value where the loaded one is out of range (the
    /// defensive fallback for missing or damaged settings).
    pub fn load_review_settings(&mut self, last_review_date: i64, review_frequency_days: i64)
        requires
            old(self).wf(),
        ensures
            final(self).wf(),
            final(self).tasks@ == old(self).tasks@,
            final(self).last_review_date == if 0 <= last_review_date <= MAX_SETTING_TS {
                last_review_date
            } else {
                old(self).last_review_date
            },
            final(self).review_frequency_days == if 1 <= review_frequency_days <= 36500 {
                review_frequency_days
            } else {
                old(self).review_frequency_days
            },
    {
        if 0 <= last_review_date && last_review_date <= MAX_SETTING_TS {
            self.last_review_date = last_review_date;
        }
        if 1 <= review_frequency_days && review_frequency_days <= 36500 {
            self.review_frequency_days = review_frequency_days;
        }
    }

    /// The parsed capture entry point: run the parser over the raw
    /// line at the current time, then create a task from its output
    /// with status "next", keeping the raw line as `original_input`.
    pub fn quick_capture(&mut self, title: String, source: String) -> (r: Result<
        Task,
        StoreError,
    >)
        requires
            old(self).wf(),
        ensures
            final(self).wf(),
            final(self).last_review_date == old(self).last_review_date,
            final(self).review_frequency_days == old(self).review_frequency_days,
            match r {
                Ok(t) => {
                    &&& exists|tm: int|
                        {
                            &&& 0 <= tm
                            &&& t.title@ == #[trigger] parse_title(title@, tm)
                            &&& match t.context {
                                Some(c) => parse_context(title@) == Some(c@),
                                None => parse_context(title@) is None,
                            }
                            &&& match t.scheduled_for {
                                Some(v) => parse_sched(title@, tm) == Some(v as int),
                                None => parse_sched(title@, tm) is None,
                            }
                        }
                    &&& t.status == TaskStatus::Next
                    &&& t.completed_at is None
                    &&& t.created_at == t.updated_at
                    &&& t.original_input == Some(title)
                    &&& t.source == source
                    &&& t.tags is None
                    &&& t.sync_version == 1
                    &&& !has_id(old(self).tasks@, t.id@)
                    &&& final(self).tasks@ == old(self).tasks@.push(t)
                },
                Err(e) => {
                    &&& e == StoreError::DuplicateId
                    &&& old(self).tasks@.len() > 0
                    &&& final(self).tasks@ == old(self).tasks@
                },
            },
    {
        let now = current_unix_time();
        let parsed = parse_task_input_at(title.as_str(), now);
        let id = new_task_id();
        self.create_task_with_id(
            id,
            now,
            parsed.title,
            TaskStatus::Next,
            parsed.context,
            parsed.scheduled_for,
            Some(title),
            source,
            None,
        )
    }

    /// The raw capture entry point: the line becomes the title as
    /// typed, with no extraction, status "next".
    pub fn raw_capture(&mut self, title: String, source: String) -> (r: Result<Task, StoreError>)
        requires
            old(self).wf(),
        ensures
            final(self).wf(),
            final(self).last_review_date == old(self).last_review_date,
            final(self).review_frequency_days == old(self).review_frequency_days,
            match r {
                Ok(t) => {
                    &&& t.title == title
                    &&& t.context is None
                    &&& t.scheduled_for is None
                    &&& t.status == TaskStatus::Next
                    &&& t.completed_at is None
                    &&& t.created_at == t.updated_at
                    &&& t.original_input == Some(title)
                    &&& t.source == source
                    &&& t.tags is None
                    &&& t.sync_version == 1
                    &&& !has_id(old(self).tasks@, t.id@)
                    &&& final(self).tasks@ == old(self).tasks@.push(t)
                },
                Err(e) => {
                    &&& e == StoreError::DuplicateId
                    &&& old(self).tasks@.len() > 0
                    &&& final(self).tasks@ == old(self).tasks@
                },
            },
    {
        let now = current_unix_time();
        let id = new_task_id();
        let raw = title.clone();
        self.create_task_with_id(
            id,
            now,
            title,
            TaskStatus::Next,
            None,
            None,
            Some(raw),
            source,
            None,
        )
    }
}

/// Whole days between `last` and `now`, truncated toward zero (negative
/// when `now` lies before `last`).
pub open spec fn days_between(last: int, now: int) -> int {
    if now >= last {
        (now - last) / 86400
    } else {
        -((last - now) / 86400)
    }
}

/// `v` forced into `i32` range.
pub open spec fn clamp_to_i32(v: int) -> int {
    if v > i32::MAX {
        i32::MAX as int
    } else if v < i32::MIN {
        i32::MIN as int
    } else {
        v
    }
}

/// Days until the next review is due: the review interval minus the
/// whole days elapsed since the last review (negative once overdue),
/// forced into `i32` range.
pub open spec fn review_due_spec(now: int, last: int, freq: int) -> int {
    clamp_to_i32(freq - days_between(last, now))
}

fn clamp32(v: i64) -> (r: i32)
    ensures
        r as int == clamp_to_i32(v as int),
{
    if v > 2147483647i64 {
        2147483647i32
    } else if v < -2147483648i64 {
        -2147483648i32
    } else {
        v as i32
    }
}

/// Compute `review_due_spec` for a clock reading `now` and in-range
/// settings.
pub fn review_due_days(now: i64, last_review: i64, freq_days: i64) -> (r: i32)
    requires
        0 <= last_review <= MAX_SETTING_TS,
        1 <= freq_days <= 36500,
    ensures
        r as int == review_due_spec(now as int, last_review as int, freq_days as int),
{
    if now >= last_review {
        let d64: u64 = ((now - last_review) as u64) / 86400;
        proof {
            assert(d64 <= 9223372036854775807u64 / 86400) by {
                assert((now - last_review) as u64 <= 9223372036854775807u64);
            }
        }
        let d: i64 = d64 as i64;
        clamp32(freq_days - d)
    } else {
        let m: u64 = if now < 0 {
            (last_review as u64) + (((-(now + 1)) as u64) + 1)
        } else {
            (last_review - now) as u64
        };
        proof {
            assert(m as int == last_review - now);
        }
        let d64: u64 = m / 86400;
        proof {
            assert(d64 <= (9223372036854775808u64 + 253402300799u64) / 86400) by {
                assert(m <= 9223372036854775808u64 + 253402300799u64);
            }
        }
        let d: i64 = d64 as i64;
        clamp32(freq_days + d)
    }
}

/// Whether a task holds the given status.
fn matches_status(t: &Task, status: TaskStatus) -> (r: bool)
    ensures
        r == (t.status == status),
{
    match (t.status, status) {
        (TaskStatus::Now, TaskStatus::Now) => true,
        (TaskStatus::Next, TaskStatus::Next) => true,
        (TaskStatus::Waiting, TaskStatus::Waiting) => true,
        (TaskStatus::Someday, TaskStatus::Someday) => true,
        (TaskStatus::Done, TaskStatus::Done) => true,
        _ => false,
    }
}

// ---------------------------------------------------------------------
// Laws of the status state machine.
// ---------------------------------------------------------------------

/// Law: promoting task B to "now" while task A holds "now" demotes A to
/// "next" and activates B, bumping each task's revision counter by
/// exactly 1; every task keeps its id, and any other task that did not
/// hold "now" is untouched.
pub proof fn lemma_promote_demotes_previous(tasks: Seq<Task>, a: int, b: int, now: i64)
    requires
        0 <= a < tasks.len(),
        0 <= b < tasks.len(),
        a != b,
        tasks[a].status == TaskStatus::Now,
        tasks[a].sync_version < i32::MAX,
        tasks[b].sync_version < i32::MAX,
    ensures
        apply_update(tasks, b, TaskStatus::Now, now).len() == tasks.len(),
        apply_update(tasks, b, TaskStatus::Now, now)[a].status == TaskStatus::Next,
        apply_update(tasks, b, TaskStatus::Now, now)[b].status == TaskStatus::Now,
        apply_update(tasks, b, TaskStatus::Now, now)[a].sync_version == tasks[a].sync_version
            + 1,
        apply_update(tasks, b, TaskStatus::Now, now)[b].sync_version == tasks[b].sync_version
            + 1,
        apply_update(tasks, b, TaskStatus::Now, now)[a].id == tasks[a].id,
        apply_update(tasks, b, TaskStatus::Now, now)[b].id == tasks[b].id,
        forall|k: int|
            0 <= k < tasks.len() && k != b && (#[trigger] tasks[k]).status != TaskStatus::Now
                ==> apply_update(tasks, b, TaskStatus::Now, now)[k] == tasks[k],
{
}

/// Law: after any promotion to "now", the promoted task is the only
/// one holding "now".
pub proof fn lemma_single_active_after_promotion(tasks: Seq<Task>, i: int, now: i64)
    requires
        0 <= i < tasks.len(),
    ensures
        apply_update(tasks, i, TaskStatus::Now, now)[i].status == TaskStatus::Now,
        forall|k: int|
            0 <= k < tasks.len() && k != i ==> #[trigger] apply_update(
                tasks,
                i,
                TaskStatus::Now,
                now,
            )[k].status != TaskStatus::Now,
{
}

/// Law: a status update touches nothing but status, completion and
/// revision: every task keeps its position, id, title, scheduling and
/// bookkeeping fields.
pub proof fn lemma_update_keeps_identity(tasks: Seq<Task>, i: int, status: TaskStatus, now: i64)
    requires
        0 <= i < tasks.len(),
    ensures
        apply_update(tasks, i, status, now).len() == tasks.len(),
        forall|k: int|
            0 <= k < tasks.len() ==> {
                let u = #[trigger] apply_update(tasks, i, status, now)[k];
                u.id == tasks[k].id && u.title == tasks[k].title && u.context == tasks[k].context
                    && u.scheduled_for == tasks[k].scheduled_for && u.created_at
                    == tasks[k].created_at && u.updated_at == tasks[k].updated_at
                    && u.original_input == tasks[k].original_input && u.source == tasks[k].source
                    && u.tags == tasks[k].tags
            },
{
}

/// Law: every task the status query yields holds the queried status,
/// and no more than the limit are yielded.
pub proof fn lemma_query_spec_status(tasks: Seq<Task>, status: TaskStatus, limit: int)
    ensures
        query_spec(tasks, status, limit).len() <= if limit >= 0 {
            limit
        } else {
            0
        },
        forall|k: int|
            0 <= k < query_spec(tasks, status, limit).len() ==> #[trigger] query_spec(
                tasks,
                status,
                limit,
            )[k].status == status,
    decreases tasks.len(),
{
    if limit > 0 && tasks.len() > 0 {
        lemma_query_spec_status(tasks.drop_last(), status, limit - 1);
        lemma_query_spec_status(tasks.drop_last(), status, limit);
    }
}

/// Law: when creation times are non-decreasing along insertion order
/// (as the store invariant holds), the status query's newest-first
/// result is ordered by creation time descending, and every yielded
/// task is one of the stored tasks.
pub proof fn lemma_query_spec_created_desc(tasks: Seq<Task>, status: TaskStatus, limit: int)
    requires
        forall|i: int, j: int|
            0 <= i < j < tasks.len() ==> (#[trigger] tasks[i]).created_at <= (
            #[trigger] tasks[j]).created_at,
    ensures
        forall|a: int|
            0 <= a < query_spec(tasks, status, limit).len() ==> exists|k: int|
                0 <= k < tasks.len() && tasks[k] == #[trigger] query_spec(tasks, status, limit)[a],
        forall|a: int, b: int|
            0 <= a < b < query_spec(tasks, status, limit).len() ==> (#[trigger] query_spec(
                tasks,
                status,
                limit,
            )[a]).created_at >= (#[trigger] query_spec(tasks, status, limit)[b]).created_at,
    decreases tasks.len(),
{
    if limit > 0 && tasks.len() > 0 {
        let dropped = tasks.drop_last();
        assert forall|i: int, j: int|
            0 <= i < j < dropped.len() implies (#[trigger] dropped[i]).created_at <= (
        #[trigger] dropped[j]).created_at by {
            assert(dropped[i] == tasks[i]);
            assert(dropped[j] == tasks[j]);
            assert(tasks[i].created_at <= tasks[j].created_at);
        }
        lemma_query_spec_created_desc(dropped, status, limit - 1);
        lemma_query_spec_created_desc(dropped, status, limit);
        let q = query_spec(tasks, status, limit);
        if tasks.last().status == status {
            let rest = query_spec(dropped, status, limit - 1);
            assert(q == seq![tasks.last()] + rest);
            assert forall|a: int| 0 <= a < q.len() implies exists|k: int|
                0 <= k < tasks.len() && tasks[k] == #[trigger] q[a] by {
                if a == 0 {
                    assert(tasks[tasks.len() - 1] == q[0]);
                } else {
                    assert(q[a] == rest[a - 1]);
                    let k = choose|k: int| 0 <= k < dropped.len() && dropped[k] == rest[a - 1];
                    assert(tasks[k] == q[a]);
                }
            }
            assert forall|a: int, b: int| 0 <= a < b < q.len() implies (
            #[trigger] q[a]).created_at >= (#[trigger] q[b]).created_at by {
                if a == 0 {
                    assert(q[b] == rest[b - 1]);
                    let k = choose|k: int| 0 <= k < dropped.len() && dropped[k] == rest[b - 1];
                    assert(tasks[k].created_at <= tasks[tasks.len() - 1].created_at);
                    assert(q[0] == tasks[tasks.len() - 1]);
                } else {
                    assert(q[a] == rest[a - 1]);
                    assert(q[b] == rest[b - 1]);
                }
            }
        } else {
            assert(q == query_spec(dropped, status, limit));
            assert forall|a: int| 0 <= a < q.len() implies exists|k: int|
                0 <= k < tasks.len() && tasks[k] == #[trigger] q[a] by {
                let k = choose|k: int| 0 <= k < dropped.len() && dropped[k] == q[a];
                assert(tasks[k] == q[a]);
            }
        }
    }
}

/// Law: a transition into "done" records the instant as the task's
/// completion timestamp; a transition to any other status clears it.
pub proof fn lemma_done_completion(tasks: Seq<Task>, i: int, status: TaskStatus, now: i64)
    requires
        0 <= i < tasks.len(),
    ensures
        status == TaskStatus::Done ==> apply_update(tasks, i, status, now)[i].completed_at
            == Some(now),
        status != TaskStatus::Done ==> apply_update(tasks, i, status, now)[i].completed_at
            is None,
{
}

proof fn lemma_filter_elem_from(s: Seq<Task>, pred: spec_fn(Task) -> bool, a: int)
    requires
        0 <= a < s.filter(pred).len(),
    ensures
        exists|k: int| 0 <= k < s.len() && s[k] == s.filter(pred)[a],
    decreases s.len(),
{
    reveal(Seq::filter);
    if s.len() > 0 {
        let rest = s.drop_last().filter(pred);
        if pred(s.last()) && a == rest.len() {
            assert(s[s.len() - 1] == s.filter(pred)[a]);
        } else {
            lemma_filter_elem_from(s.drop_last(), pred, a);
            let k = choose|k: int|
                0 <= k < s.drop_last().len() && s.drop_last()[k] == rest[a];
            assert(s[k] == s.filter(pred)[a]);
        }
    }
}

proof fn lemma_filter_keeps_pairwise(
    s: Seq<Task>,
    pred: spec_fn(Task) -> bool,
    rel: spec_fn(Task, Task) -> bool,
    a: int,
    b: int,
)
    requires
        0 <= a < b < s.filter(pred).len(),
        forall|i: int, j: int| 0 <= i < j < s.len() ==> rel(#[trigger] s[i], #[trigger] s[j]),
    ensures
        rel(s.filter(pred)[a], s.filter(pred)[b]),
    decreases s.len(),
{
    reveal(Seq::filter);
    if s.len() > 0 {
        let out = s.filter(pred);
        let rest = s.drop_last().filter(pred);
        assert(forall|i: int, j: int|
            0 <= i < j < s.drop_last().len() ==> rel(
                #[trigger] s.drop_last()[i],
                #[trigger] s.drop_last()[j],
            ));
        if pred(s.last()) {
            if b < rest.len() {
                lemma_filter_keeps_pairwise(s.drop_last(), pred, rel, a, b);
            } else {
                assert(out[b] == s.last());
                assert(out[a] == rest[a]);
                lemma_filter_elem_from(s.drop_last(), pred, a);
                let w = choose|k: int|
                    0 <= k < s.drop_last().len() && s.drop_last()[k] == rest[a];
                assert(s[w] == rest[a]);
                assert(rel(s[w], s[s.len() - 1]));
            }
        } else {
            lemma_filter_keeps_pairwise(s.drop_last(), pred, rel, a, b);
        }
    }
}

} // verus!
