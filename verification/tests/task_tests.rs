use quill::task::{next_status, Task, TaskStatus};

#[test]
fn test_task_creation() {
    let task = Task::new(1, "Test task".to_string());
    assert_eq!(task.id, 1);
    assert_eq!(task.text, "Test task");
    assert_eq!(task.status, TaskStatus::NotStarted);
    assert!(!task.created_at.is_empty());
}

#[test]
fn test_task_status_default() {
    let status = TaskStatus::default();
    assert_eq!(status, TaskStatus::NotStarted);
}

#[test]
fn test_task_is_completed() {
    let mut task = Task::new(1, "Test task".to_string());
    assert!(!task.is_completed());

    task.status = TaskStatus::Completed;
    assert!(task.is_completed());
}

#[test]
fn test_task_status_variants() {
    let not_started = TaskStatus::NotStarted;
    let in_progress = TaskStatus::InProgress;
    let completed = TaskStatus::Completed;

    assert_ne!(not_started, in_progress);
    assert_ne!(in_progress, completed);
    assert_ne!(not_started, completed);
}

#[test]
fn test_status_cycle_closes() {
    let mut status = TaskStatus::NotStarted;
    status = next_status(status);
    assert_eq!(status, TaskStatus::InProgress);
    status = next_status(status);
    assert_eq!(status, TaskStatus::Completed);
    status = next_status(status);
    assert_eq!(status, TaskStatus::NotStarted);
}

#[test]
fn test_task_clone_preserves_fields() {
    let task = Task::new(7, "Original".to_string());
    let copy = task.clone();
    assert_eq!(copy.id, 7);
    assert_eq!(copy.text, "Original");
    assert_eq!(copy.status, TaskStatus::NotStarted);
    assert_eq!(copy.created_at, task.created_at);
}
