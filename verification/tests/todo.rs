use rust_insight::todo::{update_actions, Task, TaskAction};

#[test]
fn delete_then_insert() {
    let actions = update_actions(Task { id: Some("old".to_string()), task: Some("new".to_string()) });
    assert_eq!(actions, vec![TaskAction::Delete("old".to_string()), TaskAction::Insert("new".to_string())]);
}

#[test]
fn empty_task_is_not_inserted() {
    assert_eq!(update_actions(Task { id: None, task: Some(String::new()) }), vec![]);
    assert_eq!(update_actions(Task { id: None, task: None }), vec![]);
    assert_eq!(
        update_actions(Task { id: Some(String::new()), task: None }),
        vec![TaskAction::Delete(String::new())]
    );
}
