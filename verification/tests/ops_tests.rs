//! The operations: identifier assignment, add, remove, toggle.

use rusty_todo::ops::{add_task, highest_id, remove_task, toggle_task};
use rusty_todo::store::ids_unique;
use rusty_todo::task::Task;

fn bytes(s: &str) -> Vec<u8> {
    s.as_bytes().to_vec()
}

#[test]
fn add_assigns_sequential_ids() {
    let mut tasks: Vec<Task> = Vec::new();
    let a = add_task(&mut tasks, bytes("one"), bytes("first"));
    let b = add_task(&mut tasks, bytes("two"), bytes("second"));
    let c = add_task(&mut tasks, bytes("three"), bytes("third"));
    assert_eq!(a, 1);
    assert_eq!(b, 2);
    assert_eq!(c, 3);
    assert_eq!(tasks.len(), 3);
    assert_eq!(tasks[0].id, 1);
    assert_eq!(tasks[1].id, 2);
    assert_eq!(tasks[2].id, 3);
    assert!(!tasks[0].completed);
    assert_eq!(tasks[0].title, bytes("one"));
    assert_eq!(tasks[2].description, bytes("third"));
}

#[test]
fn add_accepts_empty_text() {
    let mut tasks: Vec<Task> = Vec::new();
    let id = add_task(&mut tasks, bytes(""), bytes(""));
    assert_eq!(id, 1);
    assert_eq!(tasks[0].title, bytes(""));
    assert_eq!(tasks[0].description, bytes(""));
}

#[test]
fn add_after_remove_skips_no_live_id() {
    let mut tasks: Vec<Task> = Vec::new();
    add_task(&mut tasks, bytes("a"), bytes(""));
    add_task(&mut tasks, bytes("b"), bytes(""));
    add_task(&mut tasks, bytes("c"), bytes(""));
    assert!(remove_task(&mut tasks, 2));
    let id = add_task(&mut tasks, bytes("d"), bytes(""));
    assert_eq!(id, 4);
    let ids: Vec<u32> = tasks.iter().map(|t| t.id).collect();
    assert_eq!(ids, vec![1, 3, 4]);
}

#[test]
fn ids_stay_unique_after_churn() {
    let mut tasks: Vec<Task> = Vec::new();
    for k in 0..5 {
        add_task(&mut tasks, bytes(&format!("t{}", k)), bytes(""));
    }
    remove_task(&mut tasks, 5);
    remove_task(&mut tasks, 1);
    add_task(&mut tasks, bytes("x"), bytes(""));
    add_task(&mut tasks, bytes("y"), bytes(""));
    remove_task(&mut tasks, 3);
    add_task(&mut tasks, bytes("z"), bytes(""));
    assert!(ids_unique(&tasks));
}

#[test]
fn remove_hits_exactly_one() {
    let mut tasks: Vec<Task> = Vec::new();
    add_task(&mut tasks, bytes("a"), bytes(""));
    add_task(&mut tasks, bytes("b"), bytes(""));
    let found = remove_task(&mut tasks, 1);
    assert!(found);
    assert_eq!(tasks.len(), 1);
    assert_eq!(tasks[0].id, 2);
    assert_eq!(tasks[0].title, bytes("b"));
}

#[test]
fn remove_miss_reports_not_found_and_changes_nothing() {
    let mut tasks: Vec<Task> = Vec::new();
    add_task(&mut tasks, bytes("a"), bytes("keep"));
    add_task(&mut tasks, bytes("b"), bytes("me"));
    let found = remove_task(&mut tasks, 99);
    assert!(!found);
    assert_eq!(tasks.len(), 2);
    assert_eq!(tasks[0].id, 1);
    assert_eq!(tasks[0].title, bytes("a"));
    assert_eq!(tasks[1].id, 2);
    assert_eq!(tasks[1].description, bytes("me"));
}

#[test]
fn toggle_flips_and_reports() {
    let mut tasks: Vec<Task> = Vec::new();
    add_task(&mut tasks, bytes("a"), bytes(""));
    add_task(&mut tasks, bytes("b"), bytes(""));
    assert!(toggle_task(&mut tasks, 2));
    assert!(!tasks[0].completed);
    assert!(tasks[1].completed);
    assert!(toggle_task(&mut tasks, 2));
    assert!(!tasks[1].completed);
}

#[test]
fn toggle_miss_reports_and_changes_nothing() {
    let mut tasks: Vec<Task> = Vec::new();
    add_task(&mut tasks, bytes("a"), bytes(""));
    let found = toggle_task(&mut tasks, 7);
    assert!(!found);
    assert!(!tasks[0].completed);
    assert_eq!(tasks.len(), 1);
}

#[test]
fn highest_id_of_empty_is_zero() {
    let tasks: Vec<Task> = Vec::new();
    assert_eq!(highest_id(&tasks), 0);
}

#[test]
fn highest_id_finds_maximum() {
    let mut tasks: Vec<Task> = Vec::new();
    add_task(&mut tasks, bytes("a"), bytes(""));
    add_task(&mut tasks, bytes("b"), bytes(""));
    add_task(&mut tasks, bytes("c"), bytes(""));
    remove_task(&mut tasks, 3);
    assert_eq!(highest_id(&tasks), 2);
}

#[test]
fn ids_restart_after_collection_emptied() {
    let mut tasks: Vec<Task> = Vec::new();
    add_task(&mut tasks, bytes("a"), bytes(""));
    add_task(&mut tasks, bytes("b"), bytes(""));
    remove_task(&mut tasks, 1);
    remove_task(&mut tasks, 2);
    assert!(tasks.is_empty());
    let id = add_task(&mut tasks, bytes("c"), bytes(""));
    assert_eq!(id, 1);
}

#[test]
fn full_scenario() {
    let mut tasks: Vec<Task> = Vec::new();
    let first = add_task(&mut tasks, bytes("Buy milk"), bytes("2%"));
    assert_eq!(first, 1);
    let second = add_task(&mut tasks, bytes("Pay rent"), bytes(""));
    assert_eq!(second, 2);
    assert!(remove_task(&mut tasks, 1));
    assert_eq!(tasks.len(), 1);
    assert_eq!(tasks[0].id, 2);
    assert!(toggle_task(&mut tasks, 2));
    assert!(tasks[0].completed);
    assert_eq!(tasks[0].title, bytes("Pay rent"));
}
