use tasklist::codec::parse_record_line;
use tasklist::codec::render_record_line;
use tasklist::codec::split_str;
use tasklist::store::TaskManager;
use tasklist::task::Task;

#[test]
fn save_one_task() {
    let mut m = TaskManager::new();
    m.add_task("Buy milk".to_string());
    assert_eq!(m.save_tasks(), "1|Buy milk|false\n".to_string());
}

#[test]
fn complete_then_save() {
    let mut m = TaskManager::new();
    m.load_tasks("1|Buy milk|false\n");
    assert!(m.complete_task(1).is_ok());
    assert_eq!(m.save_tasks(), "1|Buy milk|true\n".to_string());
}

#[test]
fn failed_complete_keeps_the_text() {
    let mut m = TaskManager::new();
    m.load_tasks("1|Buy milk|true\n");
    let before = m.save_tasks();
    assert_eq!(m.complete_task(99), Err("Task not found".to_string()));
    assert_eq!(m.save_tasks(), before);
}

#[test]
fn save_then_load_round_trips() {
    let mut m = TaskManager::new();
    m.add_task("alpha".to_string());
    m.add_task("beta".to_string());
    m.add_task("gamma".to_string());
    assert!(m.complete_task(2).is_ok());
    let text = m.save_tasks();
    let mut fresh = TaskManager::new();
    fresh.load_tasks(&text);
    assert_eq!(fresh.task_count(), m.task_count());
    for i in 0..m.task_count() {
        assert_eq!(fresh.task_at(i).id, m.task_at(i).id);
        assert_eq!(fresh.task_at(i).description, m.task_at(i).description);
        assert_eq!(fresh.task_at(i).completed, m.task_at(i).completed);
    }
}

#[test]
fn load_empty_text_gives_empty_store() {
    let mut m = TaskManager::new();
    m.load_tasks("");
    assert_eq!(m.task_count(), 0);
}

#[test]
fn load_skips_malformed_lines() {
    let mut m = TaskManager::new();
    m.load_tasks("abc\n1|ok|true\nonly|two\na|b|c|d\n");
    assert_eq!(m.task_count(), 1);
    assert_eq!(m.task_at(0).id, 1);
    assert_eq!(m.task_at(0).description, "ok".to_string());
    assert!(m.task_at(0).completed);
}

#[test]
fn load_defaults_bad_id_to_zero() {
    let mut m = TaskManager::new();
    m.load_tasks("xyz|thing|true\n");
    assert_eq!(m.task_count(), 1);
    assert_eq!(m.task_at(0).id, 0);
}

#[test]
fn load_defaults_bad_flag_to_false() {
    let mut m = TaskManager::new();
    m.load_tasks("3|thing|yes\n");
    assert_eq!(m.task_count(), 1);
    assert_eq!(m.task_at(0).id, 3);
    assert!(!m.task_at(0).completed);
}

#[test]
fn load_appends_to_existing_tasks() {
    let mut m = TaskManager::new();
    m.add_task("memory".to_string());
    m.load_tasks("7|disk|true\n");
    assert_eq!(m.task_count(), 2);
    assert_eq!(m.task_at(0).description, "memory".to_string());
    assert_eq!(m.task_at(1).description, "disk".to_string());
}

#[test]
fn pipe_in_description_breaks_its_record() {
    let mut m = TaskManager::new();
    m.add_task("a|b".to_string());
    let text = m.save_tasks();
    assert_eq!(text, "1|a|b|false\n".to_string());
    let mut fresh = TaskManager::new();
    fresh.load_tasks(&text);
    assert_eq!(fresh.task_count(), 0);
}

#[test]
fn render_one_record() {
    let t = Task::new(12, "note".to_string());
    assert_eq!(render_record_line(&t), "12|note|false".to_string());
}

#[test]
fn parse_one_record() {
    let t = parse_record_line("4|walk|true").expect("three fields parse");
    assert_eq!(t.id, 4);
    assert_eq!(t.description, "walk".to_string());
    assert!(t.completed);
    assert!(parse_record_line("4|walk").is_none());
    assert!(parse_record_line("").is_none());
    let empty_fields = parse_record_line("||").expect("three empty fields parse");
    assert_eq!(empty_fields.id, 0);
    assert_eq!(empty_fields.description, String::new());
    assert!(!empty_fields.completed);
}

#[test]
fn split_keeps_empty_pieces() {
    assert_eq!(split_str("a|b|c", '|'), vec!["a".to_string(), "b".to_string(), "c".to_string()]);
    assert_eq!(split_str("", '|'), vec![String::new()]);
    assert_eq!(split_str("|", '|'), vec![String::new(), String::new()]);
    assert_eq!(split_str("ab", '|'), vec!["ab".to_string()]);
}
