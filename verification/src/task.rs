//! The task model: one todo item and the invariant of a collection of them.

use vstd::prelude::*;

verus! {

/// One todo item. Text fields are held as UTF-8 bytes; the surrounding
/// program converts to and from `String` at its edges.
pub struct Task {
    pub id: u32,
    pub title: Vec<u8>,
    pub description: Vec<u8>,
    pub completed: bool,
}

/// The mathematical image of a `Task`: plain values only.
pub ghost struct TaskView {
    pub id: u32,
    pub title: Seq<u8>,
    pub description: Seq<u8>,
    pub completed: bool,
}

impl View for Task {
    type V = TaskView;

    open spec fn view(&self) -> TaskView {
        TaskView {
            id: self.id,
            title: self.title@,
            description: self.description@,
            completed: self.completed,
        }
    }
}

/// The image of a whole collection, in stored order.
pub open spec fn views(tasks: Seq<Task>) -> Seq<TaskView> {
    tasks.map_values(|t: Task| t@)
}

/// The collection invariant: no two tasks share an id.
pub open spec fn unique_ids(ts: Seq<TaskView>) -> bool {
    forall|i: int, j: int|
        0 <= i < ts.len() && 0 <= j < ts.len() && i != j ==> ts[i].id != ts[j].id
}

} // verus!
