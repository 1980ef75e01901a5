//! The task data model: status, the task record, and its mathematical view.

use vstd::prelude::*;

verus! {

/// Progress of a single task. Toggling cycles through the three variants.
#[derive(Debug, Clone, Copy, PartialEq, Eq, Structural)]
pub enum TaskStatus {
    NotStarted,
    InProgress,
    Completed,
}

/// The status reached by one application of the toggle operation:
/// NotStarted -> InProgress -> Completed -> NotStarted.
pub open spec fn spec_next_status(s: TaskStatus) -> TaskStatus {
    match s {
        TaskStatus::NotStarted => TaskStatus::InProgress,
        TaskStatus::InProgress => TaskStatus::Completed,
        TaskStatus::Completed => TaskStatus::NotStarted,
    }
}

/// Toggling a status three times closes the cycle and returns the
/// original value.
pub proof fn lemma_status_cycle(s: TaskStatus)
    ensures
        spec_next_status(spec_next_status(spec_next_status(s))) == s,
{
}

/// Advances a status one step along the toggle cycle.
pub fn next_status(s: TaskStatus) -> (r: TaskStatus)
    ensures
        r == spec_next_status(s),
{
    match s {
        TaskStatus::NotStarted => TaskStatus::InProgress,
        TaskStatus::InProgress => TaskStatus::Completed,
        TaskStatus::Completed => TaskStatus::NotStarted,
    }
}

impl Default for TaskStatus {
    /// A freshly created task has not been started.
    fn default() -> (r: Self)
        ensures
            r == TaskStatus::NotStarted,
    {
        TaskStatus::NotStarted
    }
}

/// The mathematical value of a task: its fields with strings taken as
/// character sequences.
pub ghost struct TaskView {
    pub id: nat,
    pub text: Seq<char>,
    pub status: TaskStatus,
    pub created_at: Seq<char>,
}

/// A single task. The id is assigned once at creation and never reused;
/// text and status may change over the task's life.
#[derive(Debug)]
pub struct Task {
    pub id: usize,
    pub text: String,
    pub status: TaskStatus,
    pub created_at: String,
}

impl View for Task {
    type V = TaskView;

    open spec fn view(&self) -> TaskView {
        TaskView {
            id: self.id as nat,
            text: self.text@,
            status: self.status,
            created_at: self.created_at@,
        }
    }
}

impl DeepView for Task {
    type V = TaskView;

    open spec fn deep_view(&self) -> TaskView {
        self@
    }
}

impl Clone for Task {
    /// Cloning preserves the task's view.
    fn clone(&self) -> (r: Self)
        ensures
            r@ == self@,
    {
        Task {
            id: self.id,
            text: self.text.clone(),
            status: self.status,
            created_at: self.created_at.clone(),
        }
    }
}

impl Task {
    /// Creates a task with the given id and text, status `NotStarted`, and
    /// the current time as its creation timestamp.
    pub fn new(id: usize, text: String) -> (r: Self)
        ensures
            r@.id == id as nat,
            r@.text == text@,
            r@.status == TaskStatus::NotStarted,
            r@.created_at.len() > 0,
    {
        Task { id, text, status: TaskStatus::NotStarted, created_at: crate::clock::now_rfc3339() }
    }

    /// True exactly when the task has reached `Completed`.
    pub fn is_completed(&self) -> (r: bool)
        ensures
            r == (self@.status == TaskStatus::Completed),
    {
        matches!(self.status, TaskStatus::Completed)
    }
}

} // verus!
