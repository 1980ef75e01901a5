use quill::todo::{Todo, TodoStatus, TodoStorage};

#[test]
fn test_todo_creation() {
    let todo = Todo::new(1, "First".to_string());
    assert_eq!(todo.id, 1);
    assert_eq!(todo.text, "First");
    assert_eq!(todo.status, TodoStatus::NotStarted);
    assert!(!todo.created_at.is_empty());
}

#[test]
fn test_todo_status_default() {
    assert_eq!(TodoStatus::default(), TodoStatus::NotStarted);
}

#[test]
fn test_todo_is_completed() {
    let mut todo = Todo::new(1, "First".to_string());
    assert!(!todo.is_completed());
    todo.status = TodoStatus::Completed;
    assert!(todo.is_completed());
}

#[test]
fn test_todo_add_and_get() {
    let mut storage = TodoStorage::default();
    let context = "org:repo:main";

    let id = storage.add_todo(context, "Write notes".to_string());
    assert_eq!(id, 1);

    let todos = storage.get_todos(context);
    assert_eq!(todos.len(), 1);
    assert_eq!(todos[0].text, "Write notes");
    assert_eq!(todos[0].status, TodoStatus::NotStarted);
}

#[test]
fn test_todo_toggle_cycle() {
    let mut storage = TodoStorage::default();
    let context = "org:repo:main";
    let id = storage.add_todo(context, "Cycle".to_string());

    assert!(storage.toggle_todo(context, id));
    assert_eq!(storage.get_todos(context)[0].status, TodoStatus::InProgress);
    assert!(storage.toggle_todo(context, id));
    assert_eq!(storage.get_todos(context)[0].status, TodoStatus::Completed);
    assert!(storage.toggle_todo(context, id));
    assert_eq!(storage.get_todos(context)[0].status, TodoStatus::NotStarted);
}

#[test]
fn test_todo_set_status_and_edit() {
    let mut storage = TodoStorage::default();
    let context = "org:repo:main";
    let id = storage.add_todo(context, "Draft".to_string());

    assert!(storage.set_todo_status(context, id, TodoStatus::Completed));
    assert_eq!(storage.get_todos(context)[0].status, TodoStatus::Completed);

    assert!(storage.edit_todo(context, id, "Final".to_string()));
    assert_eq!(storage.get_todos(context)[0].text, "Final");
}

#[test]
fn test_todo_remove() {
    let mut storage = TodoStorage::default();
    let context = "org:repo:main";
    let id1 = storage.add_todo(context, "Keep".to_string());
    let id2 = storage.add_todo(context, "Drop".to_string());

    assert!(storage.remove_todo(context, id2));
    let todos = storage.get_todos(context);
    assert_eq!(todos.len(), 1);
    assert_eq!(todos[0].id, id1);

    assert!(!storage.remove_todo(context, id2));
}

#[test]
fn test_todo_unknown_context_and_missing_id() {
    let mut storage = TodoStorage::default();
    assert!(storage.get_todos("unknown").is_empty());
    assert!(!storage.toggle_todo("unknown", 1));
    assert!(!storage.set_todo_status("unknown", 1, TodoStatus::Completed));
    assert!(!storage.edit_todo("unknown", 1, "x".to_string()));
    assert!(!storage.remove_todo("unknown", 1));
}

#[test]
fn test_todo_ids_monotonic() {
    let mut storage = TodoStorage::default();
    let context = "org:repo:main";
    let id1 = storage.add_todo(context, "One".to_string());
    let id2 = storage.add_todo("other:repo:main", "Two".to_string());
    let id3 = storage.add_todo(context, "Three".to_string());
    assert_eq!((id1, id2, id3), (1, 2, 3));
}
