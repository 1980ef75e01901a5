use quill::local::LocalTaskStorage;
use quill::store::TaskStorage;
use quill::task::TaskStatus;

fn create_test_storage() -> LocalTaskStorage {
    LocalTaskStorage::new()
}

#[test]
fn test_add_and_get_tasks() {
    let mut storage = create_test_storage();
    let context = "test:repo:main";

    let id = storage.add_task(context, "Test task".to_string());
    assert_eq!(id, 1);

    let tasks = storage.get_tasks(context);
    assert_eq!(tasks.len(), 1);
    assert_eq!(tasks[0].text, "Test task");
    assert_eq!(tasks[0].id, 1);
}

#[test]
fn test_toggle_task_status() {
    let mut storage = create_test_storage();
    let context = "test:repo:main";

    let id = storage.add_task(context, "Test task".to_string());

    let success = storage.toggle_task(context, id);
    assert!(success);

    let tasks = storage.get_tasks(context);
    assert_eq!(tasks[0].status, TaskStatus::InProgress);

    storage.toggle_task(context, id);
    let tasks = storage.get_tasks(context);
    assert_eq!(tasks[0].status, TaskStatus::Completed);
}

#[test]
fn test_set_task_status() {
    let mut storage = create_test_storage();
    let context = "test:repo:main";

    let id = storage.add_task(context, "Test task".to_string());

    let success = storage.set_task_status(context, id, TaskStatus::Completed);
    assert!(success);

    let tasks = storage.get_tasks(context);
    assert_eq!(tasks[0].status, TaskStatus::Completed);
}

#[test]
fn test_remove_and_undo_task() {
    let mut storage = create_test_storage();
    let context = "test:repo:main";

    let id = storage.add_task(context, "Test task".to_string());

    let success = storage.remove_task(context, id);
    assert!(success);

    let tasks = storage.get_tasks(context);
    assert_eq!(tasks.len(), 0);

    let restored = storage.undo_delete(context);
    assert!(restored.is_some());
    assert_eq!(restored.unwrap().text, "Test task");

    let tasks = storage.get_tasks(context);
    assert_eq!(tasks.len(), 1);
}

#[test]
fn test_edit_task() {
    let mut storage = create_test_storage();
    let context = "test:repo:main";

    let id = storage.add_task(context, "Original task".to_string());

    let success = storage.edit_task(context, id, "Edited task".to_string());
    assert!(success);

    let tasks = storage.get_tasks(context);
    assert_eq!(tasks[0].text, "Edited task");
}

#[test]
fn test_multiple_contexts() {
    let mut storage = create_test_storage();
    let context1 = "test:repo1:main";
    let context2 = "test:repo2:main";

    storage.add_task(context1, "Task 1".to_string());
    storage.add_task(context2, "Task 2".to_string());

    let tasks1 = storage.get_tasks(context1);
    let tasks2 = storage.get_tasks(context2);

    assert_eq!(tasks1.len(), 1);
    assert_eq!(tasks2.len(), 1);
    assert_eq!(tasks1[0].text, "Task 1");
    assert_eq!(tasks2[0].text, "Task 2");
}

#[test]
fn test_deleted_tasks_limit() {
    let mut storage = create_test_storage();
    let context = "test:repo:main";

    for i in 1..=5 {
        let id = storage.add_task(context, format!("Task {}", i));
        storage.remove_task(context, id);
    }

    let mut deleted_count = 0;
    for entry in &storage.deleted_tasks {
        if entry.key == context {
            deleted_count = entry.items.len();
        }
    }
    assert_eq!(deleted_count, 3);
}

#[test]
fn test_move_task_up() {
    let mut storage = create_test_storage();
    let context = "test:repo:main";

    let _id1 = storage.add_task(context, "Task 1".to_string());
    let id2 = storage.add_task(context, "Task 2".to_string());
    let _id3 = storage.add_task(context, "Task 3".to_string());

    let success = storage.move_task_up(context, id2);
    assert!(success);

    let tasks = storage.get_tasks(context);
    assert_eq!(tasks[0].text, "Task 2");
    assert_eq!(tasks[1].text, "Task 1");
    assert_eq!(tasks[2].text, "Task 3");

    let success = storage.move_task_up(context, id2);
    assert!(!success);
}

#[test]
fn test_move_task_down() {
    let mut storage = create_test_storage();
    let context = "test:repo:main";

    let _id1 = storage.add_task(context, "Task 1".to_string());
    let id2 = storage.add_task(context, "Task 2".to_string());
    let _id3 = storage.add_task(context, "Task 3".to_string());

    let success = storage.move_task_down(context, id2);
    assert!(success);

    let tasks = storage.get_tasks(context);
    assert_eq!(tasks[0].text, "Task 1");
    assert_eq!(tasks[1].text, "Task 3");
    assert_eq!(tasks[2].text, "Task 2");

    let success = storage.move_task_down(context, id2);
    assert!(!success);
}

#[test]
fn test_move_boundaries_leave_order_unchanged() {
    let mut storage = create_test_storage();
    let context = "test:repo:main";

    let id1 = storage.add_task(context, "A".to_string());
    let _id2 = storage.add_task(context, "B".to_string());
    let id3 = storage.add_task(context, "C".to_string());

    assert!(!storage.move_task_up(context, id1));
    assert!(!storage.move_task_down(context, id3));

    let tasks = storage.get_tasks(context);
    assert_eq!(tasks[0].text, "A");
    assert_eq!(tasks[1].text, "B");
    assert_eq!(tasks[2].text, "C");
}

#[test]
fn test_ids_never_reused() {
    let mut storage = create_test_storage();
    let context = "test:repo:main";

    let id_a = storage.add_task(context, "A".to_string());
    assert_eq!(id_a, 1);
    assert!(storage.remove_task(context, id_a));
    assert!(storage.undo_delete(context).is_some());

    let id_b = storage.add_task(context, "B".to_string());
    assert_eq!(id_b, 2);
}

#[test]
fn test_unknown_context_returns_empty() {
    let storage = create_test_storage();
    let tasks = storage.get_tasks("never:seen:before");
    assert!(tasks.is_empty());
}

#[test]
fn test_missing_id_operations_return_false() {
    let mut storage = create_test_storage();
    let context = "test:repo:main";
    storage.add_task(context, "Only task".to_string());

    assert!(!storage.toggle_task(context, 99));
    assert!(!storage.set_task_status(context, 99, TaskStatus::Completed));
    assert!(!storage.edit_task(context, 99, "nope".to_string()));
    assert!(!storage.remove_task(context, 99));
    assert!(storage.undo_delete(context).is_none());
}

#[test]
fn test_toggle_cycle_closure() {
    let mut storage = create_test_storage();
    let context = "test:repo:main";
    let id = storage.add_task(context, "Cycle".to_string());

    storage.toggle_task(context, id);
    storage.toggle_task(context, id);
    storage.toggle_task(context, id);

    let tasks = storage.get_tasks(context);
    assert_eq!(tasks[0].status, TaskStatus::NotStarted);
}

#[test]
fn test_only_three_most_recent_restorable() {
    let mut storage = create_test_storage();
    let context = "test:repo:main";

    for i in 1..=4 {
        let id = storage.add_task(context, format!("Task {}", i));
        storage.remove_task(context, id);
    }

    let r1 = storage.undo_delete(context).unwrap();
    assert_eq!(r1.text, "Task 4");
    let r2 = storage.undo_delete(context).unwrap();
    assert_eq!(r2.text, "Task 3");
    let r3 = storage.undo_delete(context).unwrap();
    assert_eq!(r3.text, "Task 2");
    assert!(storage.undo_delete(context).is_none());
}

#[test]
fn test_remove_toggle_undo_scenario() {
    let mut storage = create_test_storage();
    let context = "work:repo:main";

    let id = storage.add_task(context, "Buy milk".to_string());
    assert_eq!(id, 1);
    let tasks = storage.get_tasks(context);
    assert_eq!(tasks[0].status, TaskStatus::NotStarted);

    assert!(storage.toggle_task(context, id));
    let tasks = storage.get_tasks(context);
    assert_eq!(tasks[0].status, TaskStatus::InProgress);

    assert!(storage.remove_task(context, id));
    assert!(storage.get_tasks(context).is_empty());

    let restored = storage.undo_delete(context).unwrap();
    assert_eq!(restored.id, 1);
    assert_eq!(restored.text, "Buy milk");
    assert_eq!(restored.status, TaskStatus::InProgress);

    let tasks = storage.get_tasks(context);
    assert_eq!(tasks.len(), 1);
    assert_eq!(tasks[0].id, 1);
}

#[test]
fn test_move_sequence_scenario() {
    let mut storage = create_test_storage();
    let context = "x";

    let id1 = storage.add_task(context, "A".to_string());
    let id2 = storage.add_task(context, "B".to_string());
    let id3 = storage.add_task(context, "C".to_string());
    assert_eq!((id1, id2, id3), (1, 2, 3));

    assert!(storage.move_task_down(context, 1));
    let tasks = storage.get_tasks(context);
    assert_eq!(tasks[0].text, "B");
    assert_eq!(tasks[1].text, "A");
    assert_eq!(tasks[2].text, "C");

    assert!(storage.move_task_up(context, 1));
    let tasks = storage.get_tasks(context);
    assert_eq!(tasks[0].text, "A");
    assert_eq!(tasks[1].text, "B");
    assert_eq!(tasks[2].text, "C");
    assert_eq!(tasks[0].id, 1);
    assert_eq!(tasks[1].id, 2);
    assert_eq!(tasks[2].id, 3);
}
