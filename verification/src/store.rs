//! The load-and-save policy. Loading materializes a collection from what the
//! storage held: absent storage and unreadable content both yield the empty
//! collection rather than an error; readable content yields exactly the
//! stored tasks, in stored order. Saving is the canonical serialization of
//! the whole collection.

use vstd::prelude::*;

use crate::codec::{serialize_tasks, spec_serialize};
use crate::parse::{parse_tasks, spec_parse};
use crate::task::{Task, TaskView, views, unique_ids};

verus! {

/// What loading yields from the storage's content: `None` stands for absent
/// storage. Content is readable only if it parses and keeps the collection
/// invariant (no two tasks with one id); anything else is discarded and the
/// empty collection takes its place.
pub open spec fn spec_load(content: Option<Seq<u8>>) -> Seq<TaskView> {
    match content {
        None => Seq::empty(),
        Some(bytes) => match spec_parse(bytes) {
            Some(ts) => if unique_ids(ts) {
                ts
            } else {
                Seq::empty()
            },
            None => Seq::empty(),
        },
    }
}

/// Whether no two tasks share an id.
pub fn ids_unique(tasks: &Vec<Task>) -> (r: bool)
    ensures
        r == unique_ids(views(tasks@)),
{
    let ghost ts = views(tasks@);
    let mut i: usize = 0;
    while i < tasks.len()
        invariant
            0 <= i <= ts.len(),
            ts == views(tasks@),
            forall|a: int, b: int|
                0 <= a < i && a < b < ts.len() ==> #[trigger] ts[a].id != #[trigger] ts[b].id,
        decreases ts.len() - i,
    {
        let mut j: usize = i + 1;
        while j < tasks.len()
            invariant
                0 <= i < j <= ts.len(),
                ts == views(tasks@),
                forall|b: int| i < b < j ==> ts[i as int].id != #[trigger] ts[b].id,
            decreases ts.len() - j,
        {
            if tasks[j].id == tasks[i].id {
                proof {
                    assert(ts[i as int].id == ts[j as int].id);
                    assert(!unique_ids(ts));
                }
                return false;
            }
            j = j + 1;
        }
        i = i + 1;
    }
    proof {
        assert forall|a: int, b: int|
            0 <= a < ts.len() && 0 <= b < ts.len() && a != b implies ts[a].id != ts[b].id by {
            if a < b {
                assert(ts[a].id != ts[b].id);
            } else {
                assert(ts[b].id != ts[a].id);
            }
        }
    }
    true
}

/// Materializes the collection from the storage's content: the stored tasks
/// when the content is readable, the empty collection when the storage is
/// absent or its content unreadable. Never an error. The result always
/// carries the collection invariant.
pub fn load_collection(content: Option<Vec<u8>>) -> (tasks: Vec<Task>)
    ensures
        views(tasks@) == spec_load(
            match content {
                Some(b) => Some(b@),
                None => None,
            },
        ),
        unique_ids(views(tasks@)),
{
    match content {
        None => {
            let v: Vec<Task> = Vec::new();
            proof {
                assert(views(v@) =~= Seq::<TaskView>::empty());
            }
            v
        },
        Some(bytes) => {
            match parse_tasks(&bytes) {
                Some(ts) => {
                    if ids_unique(&ts) {
                        ts
                    } else {
                        let v: Vec<Task> = Vec::new();
                        proof {
                            assert(views(v@) =~= Seq::<TaskView>::empty());
                        }
                        v
                    }
                },
                None => {
                    let v: Vec<Task> = Vec::new();
                    proof {
                        assert(views(v@) =~= Seq::<TaskView>::empty());
                    }
                    v
                },
            }
        },
    }
}

/// The bytes to store for a collection: its canonical serialization.
pub fn save_collection(tasks: &Vec<Task>) -> (out: Vec<u8>)
    ensures
        out@ == spec_serialize(views(tasks@)),
{
    serialize_tasks(tasks)
}

/// Saving and loading give back what was saved: the stored form of any
/// collection that keeps the invariant is readable and denotes exactly that
/// collection.
pub proof fn lemma_save_load(ts: Seq<TaskView>)
    requires
        unique_ids(ts),
    ensures
        spec_load(Some(spec_serialize(ts))) == ts,
{
    crate::roundtrip::lemma_round_trip(ts);
}

} // verus!
