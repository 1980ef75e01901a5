use quill::docstore::{plan_id_swap_down, plan_id_swap_up, sort_tasks_by_id, DocumentStore};
use quill::store::TaskStorage;
use quill::task::{Task, TaskStatus};

fn task(id: usize, text: &str) -> Task {
    Task::new(id, text.to_string())
}

#[test]
fn test_sort_tasks_by_id() {
    let tasks = vec![task(3, "C"), task(1, "A"), task(2, "B")];
    let sorted = sort_tasks_by_id(tasks);
    assert_eq!(sorted.len(), 3);
    assert_eq!(sorted[0].id, 1);
    assert_eq!(sorted[0].text, "A");
    assert_eq!(sorted[1].id, 2);
    assert_eq!(sorted[1].text, "B");
    assert_eq!(sorted[2].id, 3);
    assert_eq!(sorted[2].text, "C");
}

#[test]
fn test_sort_tasks_by_id_empty() {
    let sorted = sort_tasks_by_id(Vec::new());
    assert!(sorted.is_empty());
}

#[test]
fn test_plan_id_swap_up() {
    let tasks = vec![task(1, "A"), task(2, "B"), task(3, "C")];
    assert_eq!(plan_id_swap_up(&tasks, 2), Some((2, 1)));
    assert_eq!(plan_id_swap_up(&tasks, 1), None);
    assert_eq!(plan_id_swap_up(&tasks, 9), None);
}

#[test]
fn test_plan_id_swap_down() {
    let tasks = vec![task(1, "A"), task(2, "B"), task(3, "C")];
    assert_eq!(plan_id_swap_down(&tasks, 2), Some((2, 3)));
    assert_eq!(plan_id_swap_down(&tasks, 3), None);
    assert_eq!(plan_id_swap_down(&tasks, 9), None);
}

#[test]
fn test_document_store_basic_operations() {
    let mut store = DocumentStore::new();
    let context = "org:repo:main";

    let id = store.add_task(context, "First".to_string());
    assert_eq!(id, 1);
    assert_eq!(store.add_task(context, "Second".to_string()), 2);

    let tasks = store.get_tasks(context);
    assert_eq!(tasks.len(), 2);
    assert_eq!(tasks[0].id, 1);
    assert_eq!(tasks[1].id, 2);

    assert!(store.toggle_task(context, 1));
    assert_eq!(store.get_tasks(context)[0].status, TaskStatus::InProgress);
    assert!(store.set_task_status(context, 2, TaskStatus::Completed));
    assert!(store.edit_task(context, 1, "Renamed".to_string()));
    assert_eq!(store.get_tasks(context)[0].text, "Renamed");
    assert!(store.get_tasks("elsewhere").is_empty());
}

#[test]
fn test_document_store_remove_and_undo() {
    let mut store = DocumentStore::new();
    let context = "org:repo:main";

    let id1 = store.add_task(context, "Keep".to_string());
    let id2 = store.add_task(context, "Drop".to_string());
    assert!(store.remove_task(context, id2));
    assert_eq!(store.get_tasks(context).len(), 1);

    let restored = store.undo_delete(context).unwrap();
    assert_eq!(restored.id, id2);
    assert_eq!(restored.text, "Drop");

    // The restored task reappears at its id-sorted position.
    let tasks = store.get_tasks(context);
    assert_eq!(tasks[0].id, id1);
    assert_eq!(tasks[1].id, id2);
    assert!(store.undo_delete(context).is_none());
}

#[test]
fn test_document_store_undo_restores_in_id_order() {
    let mut store = DocumentStore::new();
    let context = "org:repo:main";

    let id1 = store.add_task(context, "Early".to_string());
    let _id2 = store.add_task(context, "Middle".to_string());
    let _id3 = store.add_task(context, "Late".to_string());

    assert!(store.remove_task(context, id1));
    assert!(store.undo_delete(context).is_some());

    let tasks = store.get_tasks(context);
    assert_eq!(tasks[0].id, 1);
    assert_eq!(tasks[0].text, "Early");
    assert_eq!(tasks[1].id, 2);
    assert_eq!(tasks[2].id, 3);
}

#[test]
fn test_document_store_undo_bound() {
    let mut store = DocumentStore::new();
    let context = "org:repo:main";

    for i in 1..=4 {
        let id = store.add_task(context, format!("Task {}", i));
        assert!(store.remove_task(context, id));
    }
    assert!(store.undo_delete(context).is_some());
    assert!(store.undo_delete(context).is_some());
    assert!(store.undo_delete(context).is_some());
    assert!(store.undo_delete(context).is_none());
}

#[test]
fn test_document_store_move_exchanges_ids() {
    let mut store = DocumentStore::new();
    let context = "org:repo:main";

    store.add_task(context, "A".to_string());
    store.add_task(context, "B".to_string());
    store.add_task(context, "C".to_string());

    // Moving B up exchanges the ids of A and B: the order becomes
    // [B, A, C], but B now carries id 1 — the id-swap divergence from
    // the local backend.
    assert!(store.move_task_up(context, 2));
    let tasks = store.get_tasks(context);
    assert_eq!(tasks[0].text, "B");
    assert_eq!(tasks[0].id, 1);
    assert_eq!(tasks[1].text, "A");
    assert_eq!(tasks[1].id, 2);
    assert_eq!(tasks[2].text, "C");

    // Addressing id 2 now addresses A, which sits last-but-one; moving
    // it down swaps it with C.
    assert!(store.move_task_down(context, 2));
    let tasks = store.get_tasks(context);
    assert_eq!(tasks[1].text, "C");
    assert_eq!(tasks[2].text, "A");
    assert_eq!(tasks[2].id, 3);
}

#[test]
fn test_document_store_move_boundaries() {
    let mut store = DocumentStore::new();
    let context = "org:repo:main";

    store.add_task(context, "A".to_string());
    store.add_task(context, "B".to_string());

    assert!(!store.move_task_up(context, 1));
    assert!(!store.move_task_down(context, 2));
    assert!(!store.move_task_up(context, 9));

    let tasks = store.get_tasks(context);
    assert_eq!(tasks[0].text, "A");
    assert_eq!(tasks[1].text, "B");
}

#[test]
fn test_task_statuses_survive_sort() {
    let mut a = task(2, "second");
    a.status = TaskStatus::Completed;
    let b = task(1, "first");
    let sorted = sort_tasks_by_id(vec![a, b]);
    assert_eq!(sorted[0].id, 1);
    assert_eq!(sorted[0].status, TaskStatus::NotStarted);
    assert_eq!(sorted[1].id, 2);
    assert_eq!(sorted[1].status, TaskStatus::Completed);
}
