//! The on-disk format and the load-and-save policy.

use rusty_todo::codec::serialize_tasks;
use rusty_todo::ops::{add_task, remove_task, toggle_task};
use rusty_todo::parse::parse_tasks;
use rusty_todo::store::{load_collection, save_collection};
use rusty_todo::task::Task;

fn bytes(s: &str) -> Vec<u8> {
    s.as_bytes().to_vec()
}

fn same_tasks(a: &[Task], b: &[Task]) -> bool {
    a.len() == b.len()
        && a.iter().zip(b.iter()).all(|(x, y)| {
            x.id == y.id
                && x.title == y.title
                && x.description == y.description
                && x.completed == y.completed
        })
}

#[test]
fn serialize_one_task_exactly() {
    let mut tasks: Vec<Task> = Vec::new();
    add_task(&mut tasks, bytes("a"), bytes("b"));
    let out = serialize_tasks(&tasks);
    assert_eq!(
        out,
        bytes(r#"[{"id":1,"title":"a","description":"b","completed":false}]"#)
    );
}

#[test]
fn serialize_empty_collection_exactly() {
    let tasks: Vec<Task> = Vec::new();
    assert_eq!(serialize_tasks(&tasks), bytes("[]"));
}

#[test]
fn serialize_escapes_quote_and_backslash() {
    let mut tasks: Vec<Task> = Vec::new();
    add_task(&mut tasks, bytes(r#"say "hi""#), bytes(r"a\b"));
    let out = serialize_tasks(&tasks);
    assert_eq!(
        out,
        bytes(r#"[{"id":1,"title":"say \"hi\"","description":"a\\b","completed":false}]"#)
    );
}

#[test]
fn round_trip_preserves_tasks_and_order() {
    let mut tasks: Vec<Task> = Vec::new();
    add_task(&mut tasks, bytes("Buy milk"), bytes("2%"));
    add_task(&mut tasks, bytes(r#"quote " and slash \"#), bytes(""));
    add_task(&mut tasks, bytes("third"), bytes("entry"));
    toggle_task(&mut tasks, 2);
    let saved = save_collection(&tasks);
    let loaded = load_collection(Some(saved));
    assert!(same_tasks(&tasks, &loaded));
}

#[test]
fn round_trip_of_large_id() {
    let tasks = vec![Task {
        id: u32::MAX,
        title: bytes("edge"),
        description: bytes(""),
        completed: true,
    }];
    let saved = save_collection(&tasks);
    let loaded = load_collection(Some(saved));
    assert!(same_tasks(&tasks, &loaded));
}

#[test]
fn parse_rejects_garbage() {
    assert!(parse_tasks(&bytes("not json at all")).is_none());
    assert!(parse_tasks(&bytes("")).is_none());
    assert!(parse_tasks(&bytes("[{")).is_none());
    assert!(parse_tasks(&bytes("[]trailing")).is_none());
    assert!(parse_tasks(&bytes(
        r#"[{"id":1,"title":"a","description":"b","completed":false}"#
    ))
    .is_none());
}

#[test]
fn parse_is_strict_about_whitespace() {
    assert!(parse_tasks(&bytes("[ ]")).is_none());
    assert!(parse_tasks(&bytes(
        r#"[{"id": 1,"title":"a","description":"b","completed":false}]"#
    ))
    .is_none());
}

#[test]
fn parse_rejects_overflowing_id() {
    let text = r#"[{"id":4294967296,"title":"a","description":"b","completed":false}]"#;
    assert!(parse_tasks(&bytes(text)).is_none());
}

#[test]
fn parse_accepts_leading_zero_digits() {
    let text = r#"[{"id":007,"title":"t","description":"d","completed":false}]"#;
    let tasks = parse_tasks(&bytes(text)).unwrap();
    assert_eq!(tasks[0].id, 7);
}

#[test]
fn parse_accepts_canonical_text() {
    let text = r#"[{"id":7,"title":"t","description":"d","completed":true}]"#;
    let tasks = parse_tasks(&bytes(text)).unwrap();
    assert_eq!(tasks.len(), 1);
    assert_eq!(tasks[0].id, 7);
    assert_eq!(tasks[0].title, bytes("t"));
    assert_eq!(tasks[0].description, bytes("d"));
    assert!(tasks[0].completed);
}

#[test]
fn load_from_absent_storage_is_empty_and_first_add_is_one() {
    let mut tasks = load_collection(None);
    assert!(tasks.is_empty());
    let id = add_task(&mut tasks, bytes("first"), bytes(""));
    assert_eq!(id, 1);
}

#[test]
fn load_from_corrupt_storage_is_empty() {
    let loaded = load_collection(Some(bytes("{{{ definitely not a collection")));
    assert!(loaded.is_empty());
    let loaded = load_collection(Some(bytes(
        r#"[{"id":1,"title":"a","description":"b","completed":maybe}]"#,
    )));
    assert!(loaded.is_empty());
}

#[test]
fn load_discards_duplicate_ids() {
    let text = r#"[{"id":1,"title":"a","description":"","completed":false},{"id":1,"title":"b","description":"","completed":false}]"#;
    assert!(parse_tasks(&bytes(text)).is_some());
    let loaded = load_collection(Some(bytes(text)));
    assert!(loaded.is_empty());
}

#[test]
fn remove_miss_keeps_stored_bytes_identical() {
    let mut tasks: Vec<Task> = Vec::new();
    add_task(&mut tasks, bytes("a"), bytes(""));
    add_task(&mut tasks, bytes("b"), bytes(""));
    let before = save_collection(&tasks);
    let found = remove_task(&mut tasks, 42);
    assert!(!found);
    let after = save_collection(&tasks);
    assert_eq!(before, after);
}

#[test]
fn stored_scenario_round_trip() {
    let mut tasks = load_collection(None);
    add_task(&mut tasks, bytes("Buy milk"), bytes("2%"));
    add_task(&mut tasks, bytes("Pay rent"), bytes(""));
    let stored = save_collection(&tasks);
    let mut tasks = load_collection(Some(stored));
    remove_task(&mut tasks, 1);
    toggle_task(&mut tasks, 2);
    let stored = save_collection(&tasks);
    let tasks = load_collection(Some(stored));
    assert_eq!(tasks.len(), 1);
    assert_eq!(tasks[0].id, 2);
    assert_eq!(tasks[0].title, bytes("Pay rent"));
    assert!(tasks[0].completed);
}
