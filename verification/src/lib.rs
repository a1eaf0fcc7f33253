//! Task capture and triage: a natural-language task parser that extracts a
//! context tag and a scheduled date from free-form input, and a task store
//! with a status state machine enforcing a single active ("now") task.

pub mod dates;
pub mod nlp;
pub mod status;
pub mod store;
mod sys;
pub mod task;
pub mod text;

pub use status::TaskStatus;

