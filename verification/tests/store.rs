use tasklist::store::TaskManager;

#[test]
fn add_assigns_sequential_ids() {
    let mut m = TaskManager::new();
    m.add_task("first".to_string());
    m.add_task("second".to_string());
    m.add_task("third".to_string());
    assert_eq!(m.task_count(), 3);
    assert_eq!(m.task_at(0).id, 1);
    assert_eq!(m.task_at(1).id, 2);
    assert_eq!(m.task_at(2).id, 3);
    assert_eq!(m.task_at(1).description, "second".to_string());
    assert!(!m.task_at(0).completed);
}

#[test]
fn complete_marks_done() {
    let mut m = TaskManager::new();
    m.add_task("a".to_string());
    m.add_task("b".to_string());
    assert!(m.complete_task(2).is_ok());
    assert!(!m.task_at(0).completed);
    assert!(m.task_at(1).completed);
}

#[test]
fn complete_twice_is_idempotent() {
    let mut m = TaskManager::new();
    m.add_task("a".to_string());
    assert!(m.complete_task(1).is_ok());
    assert!(m.task_at(0).completed);
    assert!(m.complete_task(1).is_ok());
    assert!(m.task_at(0).completed);
    assert_eq!(m.task_count(), 1);
}

#[test]
fn complete_unknown_id_errors() {
    let mut m = TaskManager::new();
    m.add_task("a".to_string());
    let r = m.complete_task(99);
    assert_eq!(r, Err("Task not found".to_string()));
    assert!(!m.task_at(0).completed);
}

#[test]
fn complete_on_empty_store_errors() {
    let mut m = TaskManager::new();
    assert_eq!(m.complete_task(0), Err("Task not found".to_string()));
    assert_eq!(m.complete_task(1), Err("Task not found".to_string()));
}

#[test]
fn complete_affects_first_match_only() {
    let mut m = TaskManager::new();
    m.load_tasks("5|one|false\n5|two|false\n");
    assert_eq!(m.task_count(), 2);
    assert!(m.complete_task(5).is_ok());
    assert!(m.task_at(0).completed);
    assert!(!m.task_at(1).completed);
}

#[test]
fn list_shows_marker_id_and_description_in_order() {
    let mut m = TaskManager::new();
    m.add_task("Buy milk".to_string());
    m.add_task("Walk dog".to_string());
    assert!(m.complete_task(1).is_ok());
    let lines = m.list_tasks();
    assert_eq!(lines.len(), 2);
    assert_eq!(lines[0], "[\u{2713}] Task 1: Buy milk".to_string());
    assert_eq!(lines[1], "[ ] Task 2: Walk dog".to_string());
}

#[test]
fn new_store_is_empty() {
    let m = TaskManager::new();
    assert_eq!(m.task_count(), 0);
    assert_eq!(m.list_tasks().len(), 0);
    assert_eq!(m.save_tasks(), String::new());
}
