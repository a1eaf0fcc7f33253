//! The closed status enumeration of a task and its string encoding.

use vstd::prelude::*;

verus! {

/// The five statuses a task can hold. `Now` is the single active slot;
/// `Done` is the completed state (re-openable).
#[derive(Debug, Clone, Copy, PartialEq, Eq, Structural)]
pub enum TaskStatus {
    Now,
    Next,
    Waiting,
    Someday,
    Done,
}

impl TaskStatus {
    /// The fixed string token this status is stored under.
    pub fn as_str(&self) -> (r: &'static str)
        ensures
            r@ == self.token(),
    {
        proof {
            reveal_strlit("now");
            reveal_strlit("next");
            reveal_strlit("waiting");
            reveal_strlit("someday");
            reveal_strlit("done");
        }
        match self {
            TaskStatus::Now => "now",
            TaskStatus::Next => "next",
            TaskStatus::Waiting => "waiting",
            TaskStatus::Someday => "someday",
            TaskStatus::Done => "done",
        }
    }

    /// The token each status maps to, as a character sequence.
    pub open spec fn token(self) -> Seq<char> {
        match self {
            TaskStatus::Now => "now"@,
            TaskStatus::Next => "next"@,
            TaskStatus::Waiting => "waiting"@,
            TaskStatus::Someday => "someday"@,
            TaskStatus::Done => "done"@,
        }
    }

    /// Which status, if any, a string token decodes to: the inverse of `token`.
    pub open spec fn spec_from_str(s: Seq<char>) -> Option<TaskStatus> {
        if s == "now"@ {
            Some(TaskStatus::Now)
        } else if s == "next"@ {
            Some(TaskStatus::Next)
        } else if s == "waiting"@ {
            Some(TaskStatus::Waiting)
        } else if s == "someday"@ {
            Some(TaskStatus::Someday)
        } else if s == "done"@ {
            Some(TaskStatus::Done)
        } else {
            None
        }
    }

    /// Decode a stored token; `None` exactly on unrecognized tokens.
    pub fn from_str(s: &str) -> (r: Option<TaskStatus>)
        ensures
            r == Self::spec_from_str(s@),
    {
        if str_eq(s, "now") {
            Some(TaskStatus::Now)
        } else if str_eq(s, "next") {
            Some(TaskStatus::Next)
        } else if str_eq(s, "waiting") {
            Some(TaskStatus::Waiting)
        } else if str_eq(s, "someday") {
            Some(TaskStatus::Someday)
        } else if str_eq(s, "done") {
            Some(TaskStatus::Done)
        } else {
            None
        }
    }

    /// Decode a stored token, defensively falling back to `Next` on an
    /// unrecognized one, as stored rows are read back.
    pub fn from_str_or_next(s: &str) -> (r: TaskStatus)
        ensures
            r == match Self::spec_from_str(s@) {
                Some(st) => st,
                None => TaskStatus::Next,
            },
    {
        match Self::from_str(s) {
            Some(st) => st,
            None => TaskStatus::Next,
        }
    }
}

/// Character-for-character equality of two string slices.
pub fn str_eq(a: &str, b: &str) -> (r: bool)
    ensures
        r == (a@ == b@),
{
    let an = a.unicode_len();
    let bn = b.unicode_len();
    if an != bn {
        proof {
            assert(a@ != b@) by {
                assert(a@.len() != b@.len());
            }
        }
        return false;
    }
    let mut i: usize = 0;
    while i < an
        invariant
            an == a@.len(),
            an == b@.len(),
            i <= an,
            forall|k: int| 0 <= k < i ==> a@[k] == b@[k],
        decreases an - i,
    {
        if a.get_char(i) != b.get_char(i) {
            return false;
        }
        i += 1;
    }
    proof {
        assert(a@ =~= b@);
    }
    true
}

} // verus!
