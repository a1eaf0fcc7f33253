//! The persistent task record and the other stored data shapes.

use vstd::prelude::*;
use crate::status::TaskStatus;

verus! {

/// A persisted task. `sync_version` starts at 1 and is bumped by
/// exactly 1 on every status-affecting update, the demoted task's own
/// counter included; `completed_at` is held only while the task is done.
pub struct Task {
    pub id: String,
    pub title: String,
    pub status: TaskStatus,
    pub context: Option<String>,
    pub scheduled_for: Option<i64>,
    pub completed_at: Option<i64>,
    pub created_at: i64,
    pub updated_at: i64,
    pub original_input: Option<String>,
    pub source: String,
    pub tags: Option<String>,
    pub sync_version: i32,
}

impl Task {
    /// Record-level well-formedness: the revision counter has been
    /// bumped at least to its starting value, and a completion
    /// timestamp is only held while the task is done.
    pub open spec fn wf(self) -> bool {
        &&& self.sync_version >= 1
        &&& self.status != TaskStatus::Done ==> self.completed_at is None
    }

    /// A second task value equal to this one, field for field.
    pub fn duplicate(&self) -> (r: Task)
        ensures
            r == *self,
    {
        Task {
            id: self.id.clone(),
            title: self.title.clone(),
            status: self.status,
            context: clone_opt_string(&self.context),
            scheduled_for: self.scheduled_for,
            completed_at: self.completed_at,
            created_at: self.created_at,
            updated_at: self.updated_at,
            original_input: clone_opt_string(&self.original_input),
            source: self.source.clone(),
            tags: clone_opt_string(&self.tags),
            sync_version: self.sync_version,
        }
    }
}

/// Copy an optional string.
pub fn clone_opt_string(o: &Option<String>) -> (r: Option<String>)
    ensures
        r == *o,
{
    match o {
        Some(s) => Some(s.clone()),
        None => None,
    }
}

/// The failures the store surfaces: a lookup of an absent id, a status
/// token outside the closed enumeration, and a created id that is
/// already taken.
#[derive(Debug, Clone, Copy, PartialEq, Eq, Structural)]
pub enum StoreError {
    NotFound,
    UnknownStatus,
    DuplicateId,
}

/// The dashboard snapshot: the single active task, the upcoming and
/// waiting lists, and how many days remain until the next review.
pub struct DashboardData {
    pub now_task: Option<Task>,
    pub next_tasks: Vec<Task>,
    pub waiting_tasks: Vec<Task>,
    pub review_due_in_days: i32,
}

/// One recorded review session.
pub struct ReviewLog {
    pub id: String,
    pub started_at: i64,
    pub completed_at: Option<i64>,
    pub tasks_triaged: i32,
    pub tasks_completed: i32,
    pub tasks_deferred: i32,
    pub tasks_deleted: i32,
}

/// One recorded synchronization attempt.
pub struct SyncLog {
    pub id: String,
    pub timestamp: i64,
    pub operation: String,
    pub status: String,
    pub message: Option<String>,
}

} // verus!
