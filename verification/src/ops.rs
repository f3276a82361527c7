//! The operations on a task collection: identifier assignment, add, remove,
//! and toggle, with the laws they obey.

use vstd::prelude::*;

use crate::task::{Task, TaskView, views, unique_ids};

verus! {

/// The largest id among the tasks, or 0 for an empty collection. The next
/// assigned id is one more than this.
pub open spec fn max_id(ts: Seq<TaskView>) -> int
    decreases ts.len(),
{
    if ts.len() == 0 {
        0
    } else {
        let m = max_id(ts.drop_last());
        if ts.last().id > m {
            ts.last().id as int
        } else {
            m
        }
    }
}

/// The collection with every task of the given id taken out, order kept.
pub open spec fn without_id(ts: Seq<TaskView>, id: u32) -> Seq<TaskView>
    decreases ts.len(),
{
    if ts.len() == 0 {
        Seq::empty()
    } else {
        let rest = without_id(ts.drop_last(), id);
        if ts.last().id == id {
            rest
        } else {
            rest.push(ts.last())
        }
    }
}

/// Whether some task in the collection carries the given id.
pub open spec fn has_id(ts: Seq<TaskView>, id: u32) -> bool {
    exists|i: int| 0 <= i < ts.len() && ts[i].id == id
}

/// Every id in the collection is at most `max_id`.
pub proof fn lemma_max_id_bounds(ts: Seq<TaskView>)
    ensures
        forall|i: int| 0 <= i < ts.len() ==> #[trigger] ts[i].id <= max_id(ts),
        max_id(ts) >= 0,
    decreases ts.len(),
{
    if ts.len() > 0 {
        lemma_max_id_bounds(ts.drop_last());
        assert forall|i: int| 0 <= i < ts.len() implies #[trigger] ts[i].id <= max_id(ts) by {
            if i < ts.len() - 1 {
                assert(ts.drop_last()[i] == ts[i]);
                assert(ts.drop_last()[i].id <= max_id(ts.drop_last()));
            }
        }
    }
}

/// The largest id currently in use, or 0 if the collection is empty.
pub fn highest_id(tasks: &Vec<Task>) -> (m: u32)
    ensures
        m as int == max_id(views(tasks@)),
{
    let mut m: u32 = 0;
    let mut i: usize = 0;
    while i < tasks.len()
        invariant
            0 <= i <= tasks@.len(),
            m as int == max_id(views(tasks@).take(i as int)),
        decreases tasks@.len() - i,
    {
        proof {
            assert(views(tasks@).take(i + 1).drop_last() =~= views(tasks@).take(i as int));
            assert(views(tasks@).take(i + 1).last() == tasks@[i as int]@);
        }
        if tasks[i].id > m {
            m = tasks[i].id;
        }
        i = i + 1;
    }
    proof {
        assert(views(tasks@).take(tasks@.len() as int) =~= views(tasks@));
    }
    m
}

/// Appends a fresh task. The new id is one more than the largest id in use,
/// so it is strictly greater than every existing id; ids are therefore never
/// reused, even after removals.
pub fn add_task(tasks: &mut Vec<Task>, title: Vec<u8>, description: Vec<u8>) -> (id: u32)
    requires
        max_id(views(old(tasks)@)) < u32::MAX,
    ensures
        id as int == max_id(views(old(tasks)@)) + 1,
        views(final(tasks)@) == views(old(tasks)@).push(
            TaskView { id, title: title@, description: description@, completed: false },
        ),
        forall|i: int|
            0 <= i < old(tasks)@.len() ==> #[trigger] views(old(tasks)@)[i].id < id,
        max_id(views(final(tasks)@)) == id,
        unique_ids(views(old(tasks)@)) ==> unique_ids(views(final(tasks)@)),
{
    proof {
        lemma_max_id_bounds(views(tasks@));
    }
    let id = highest_id(tasks) + 1;
    let t = Task { id, title, description, completed: false };
    tasks.push(t);
    proof {
        assert(views(final(tasks)@) =~= views(old(tasks)@).push(
            TaskView { id, title: title@, description: description@, completed: false },
        ));
        let nts = views(final(tasks)@);
        let ots = views(old(tasks)@);
        assert(nts.drop_last() =~= ots);
        assert(nts.last().id == id);
        assert(max_id(nts) == id);
        if unique_ids(ots) {
            assert forall|i: int, j: int|
                0 <= i < nts.len() && 0 <= j < nts.len() && i != j implies nts[i].id
                != nts[j].id by {
                if i < ots.len() && j < ots.len() {
                    assert(ots[i].id != ots[j].id);
                }
            }
        }
    }
    id
}

/// Removes every task whose id matches (at most one, when ids are unique).
/// Returns whether anything was removed; on a miss the collection is left
/// exactly as it was.
pub fn remove_task(tasks: &mut Vec<Task>, id: u32) -> (found: bool)
    ensures
        views(final(tasks)@) == without_id(views(old(tasks)@), id),
        found == has_id(views(old(tasks)@), id),
        !found ==> views(final(tasks)@) == views(old(tasks)@),
        unique_ids(views(old(tasks)@)) ==> unique_ids(views(final(tasks)@)),
{
    let ghost ots = views(tasks@);
    let mut out: Vec<Task> = Vec::new();
    let mut found = false;
    let mut i: usize = 0;
    while i < tasks.len()
        invariant
            0 <= i <= tasks@.len(),
            ots == views(tasks@),
            views(out@) == without_id(ots.take(i as int), id),
            found == has_id(ots.take(i as int), id),
        decreases tasks@.len() - i,
    {
        proof {
            assert(ots.take(i + 1).drop_last() =~= ots.take(i as int));
            assert(ots.take(i + 1).last() == tasks@[i as int]@);
        }
        if tasks[i].id == id {
            found = true;
            proof {
                assert(ots.take(i + 1)[i as int].id == id);
            }
        } else {
            let t = Task {
                id: tasks[i].id,
                title: clone_bytes(&tasks[i].title),
                description: clone_bytes(&tasks[i].description),
                completed: tasks[i].completed,
            };
            out.push(t);
            proof {
                assert(views(out@) =~= without_id(ots.take(i + 1), id));
            }
        }
        proof {
            if has_id(ots.take(i + 1), id) && !found {
                let w = choose|k: int| 0 <= k < i + 1 && #[trigger] ots.take(i + 1)[k].id == id;
                assert(ots.take(i as int)[w] == ots.take(i + 1)[w]);
                assert(has_id(ots.take(i as int), id));
            }
            if has_id(ots.take(i as int), id) {
                let w = choose|k: int| 0 <= k < i && #[trigger] ots.take(i as int)[k].id == id;
                assert(ots.take(i + 1)[w] == ots.take(i as int)[w]);
                assert(has_id(ots.take(i + 1), id));
            }
        }
        i = i + 1;
    }
    proof {
        assert(ots.take(tasks@.len() as int) =~= ots);
        lemma_without_id_unique(ots, id);
        if !found {
            lemma_without_id_miss(ots, id);
        }
    }
    *tasks = out;
    found
}

/// Removing an id that no task carries leaves the collection as it was.
proof fn lemma_without_id_miss(ts: Seq<TaskView>, id: u32)
    requires
        !has_id(ts, id),
    ensures
        without_id(ts, id) == ts,
    decreases ts.len(),
{
    if ts.len() > 0 {
        assert forall|k: int| 0 <= k < ts.drop_last().len() implies #[trigger] ts.drop_last()[k].id
            != id by {
            assert(ts[k].id != id);
        }
        lemma_without_id_miss(ts.drop_last(), id);
        assert(ts.last().id != id);
        assert(without_id(ts, id) =~= ts);
    }
}

/// `without_id` keeps ids unique and never introduces the removed id.
proof fn lemma_without_id_unique(ts: Seq<TaskView>, id: u32)
    ensures
        unique_ids(ts) ==> unique_ids(without_id(ts, id)),
        forall|k: int|
            0 <= k < without_id(ts, id).len() ==> #[trigger] without_id(ts, id)[k].id != id,
        unique_ids(ts) ==> forall|k: int|
            0 <= k < without_id(ts, id).len() ==> ts.contains(#[trigger] without_id(ts, id)[k]),
    decreases ts.len(),
{
    if ts.len() > 0 {
        lemma_without_id_unique(ts.drop_last(), id);
        assert(unique_ids(ts) ==> unique_ids(ts.drop_last()));
        assert forall|k: int| 0 <= k < without_id(ts, id).len() implies #[trigger] without_id(
            ts,
            id,
        )[k].id != id by {
            let rest = without_id(ts.drop_last(), id);
            if k < rest.len() {
                assert(without_id(ts, id)[k] == rest[k]);
            } else {
                assert(without_id(ts, id)[k] == ts.last());
            }
        }
        if unique_ids(ts) {
            assert forall|k: int|
                0 <= k < without_id(ts, id).len() implies ts.contains(
                #[trigger] without_id(ts, id)[k],
            ) by {
                let rest = without_id(ts.drop_last(), id);
                if k < rest.len() {
                    assert(ts.drop_last().contains(rest[k]));
                    let w = choose|w: int| 0 <= w < ts.drop_last().len() && #[trigger] ts.drop_last()[w]
                        == rest[k];
                    assert(ts[w] == rest[k]);
                } else {
                    assert(without_id(ts, id)[k] == ts.last());
                }
            }
            assert forall|i: int, j: int|
                0 <= i < without_id(ts, id).len() && 0 <= j < without_id(ts, id).len() && i
                != j implies without_id(ts, id)[i].id != without_id(ts, id)[j].id by {
                let rest = without_id(ts.drop_last(), id);
                if ts.last().id != id && i == rest.len() && j < rest.len() {
                    assert(ts.drop_last().contains(rest[j]));
                    let w = choose|w: int| 0 <= w < ts.drop_last().len() && #[trigger] ts.drop_last()[w]
                        == rest[j];
                    assert(ts[w].id != ts.last().id);
                } else if ts.last().id != id && j == rest.len() && i < rest.len() {
                    assert(ts.drop_last().contains(rest[i]));
                    let w = choose|w: int| 0 <= w < ts.drop_last().len() && #[trigger] ts.drop_last()[w]
                        == rest[i];
                    assert(ts[w].id != ts.last().id);
                }
            }
        }
    }
}

/// Flips the completion flag of every task whose id matches (at most one,
/// when ids are unique); everything else is untouched. Returns whether any
/// task matched.
pub fn toggle_task(tasks: &mut Vec<Task>, id: u32) -> (found: bool)
    ensures
        final(tasks)@.len() == old(tasks)@.len(),
        forall|i: int|
            0 <= i < old(tasks)@.len() ==> #[trigger] views(final(tasks)@)[i] == (
            if views(old(tasks)@)[i].id == id {
                TaskView { completed: !views(old(tasks)@)[i].completed, ..views(old(tasks)@)[i] }
            } else {
                views(old(tasks)@)[i]
            }),
        found == has_id(views(old(tasks)@), id),
        unique_ids(views(old(tasks)@)) ==> unique_ids(views(final(tasks)@)),
{
    let ghost ots = views(tasks@);
    let mut out: Vec<Task> = Vec::new();
    let mut found = false;
    let mut i: usize = 0;
    while i < tasks.len()
        invariant
            0 <= i <= tasks@.len(),
            ots == views(tasks@),
            out@.len() == i,
            forall|j: int|
                0 <= j < i ==> #[trigger] out@[j]@ == (if ots[j].id == id {
                    TaskView { completed: !ots[j].completed, ..ots[j] }
                } else {
                    ots[j]
                }),
            found == has_id(ots.take(i as int), id),
        decreases tasks@.len() - i,
    {
        proof {
            assert(ots.take(i + 1).drop_last() =~= ots.take(i as int));
            assert(ots.take(i + 1).last() == tasks@[i as int]@);
        }
        let matched = tasks[i].id == id;
        let t = Task {
            id: tasks[i].id,
            title: clone_bytes(&tasks[i].title),
            description: clone_bytes(&tasks[i].description),
            completed: if matched {
                !tasks[i].completed
            } else {
                tasks[i].completed
            },
        };
        out.push(t);
        if matched {
            found = true;
            proof {
                assert(ots.take(i + 1)[i as int].id == id);
            }
        }
        proof {
            if has_id(ots.take(i + 1), id) && !found {
                let w = choose|k: int| 0 <= k < i + 1 && #[trigger] ots.take(i + 1)[k].id == id;
                assert(ots.take(i as int)[w] == ots.take(i + 1)[w]);
                assert(has_id(ots.take(i as int), id));
            }
            if has_id(ots.take(i as int), id) {
                let w = choose|k: int| 0 <= k < i && #[trigger] ots.take(i as int)[k].id == id;
                assert(ots.take(i + 1)[w] == ots.take(i as int)[w]);
                assert(has_id(ots.take(i + 1), id));
            }
        }
        i = i + 1;
    }
    proof {
        assert(ots.take(ots.len() as int) =~= ots);
    }
    *tasks = out;
    proof {
        if unique_ids(ots) {
            assert(forall|j: int|
                0 <= j < ots.len() ==> #[trigger] views(final(tasks)@)[j].id == ots[j].id);
        }
    }
    found
}

/// Id uniqueness after churn. The empty collection has unique ids, and both
/// mutations keep them unique: adding (which assigns one more than
/// `max_id`, so an id no existing task carries) and removing any id. By
/// induction, every collection reached from empty by any sequence of adds
/// and removes contains no duplicate ids at any point.
pub proof fn lemma_unique_ids_churn(
    ts: Seq<TaskView>,
    title: Seq<u8>,
    description: Seq<u8>,
    id: u32,
)
    requires
        unique_ids(ts),
        max_id(ts) < u32::MAX,
    ensures
        unique_ids(Seq::<TaskView>::empty()),
        unique_ids(
            ts.push(
                TaskView {
                    id: (max_id(ts) + 1) as u32,
                    title,
                    description,
                    completed: false,
                },
            ),
        ),
        unique_ids(without_id(ts, id)),
{
    lemma_max_id_bounds(ts);
    let fresh = (max_id(ts) + 1) as u32;
    let grown = ts.push(TaskView { id: fresh, title, description, completed: false });
    assert forall|i: int, j: int|
        0 <= i < grown.len() && 0 <= j < grown.len() && i != j implies grown[i].id
        != grown[j].id by {
        if i < ts.len() && j < ts.len() {
            assert(ts[i].id != ts[j].id);
        } else if i < ts.len() {
            assert(ts[i].id <= max_id(ts));
        } else if j < ts.len() {
            assert(ts[j].id <= max_id(ts));
        }
    }
    lemma_without_id_unique(ts, id);
}

/// The shape a collection has after adds alone: the ids are exactly
/// 1, 2, 3, … in stored order.
pub open spec fn ids_sequential(ts: Seq<TaskView>) -> bool {
    forall|i: int| 0 <= i < ts.len() ==> #[trigger] ts[i].id == i + 1
}

/// Id monotonicity. Starting from the empty collection, a run of adds with no
/// removes assigns the ids 1, 2, 3, … in call order: on a collection whose ids
/// are sequential so far, the id that `add_task` assigns (one more than
/// `max_id`) is exactly `len + 1`, and the grown collection is sequential
/// again. The empty collection is trivially sequential, which grounds the
/// induction.
pub proof fn lemma_ids_sequential_add(ts: Seq<TaskView>, title: Seq<u8>, description: Seq<u8>)
    requires
        ids_sequential(ts),
        ts.len() < u32::MAX,
    ensures
        max_id(ts) == ts.len(),
        ids_sequential(
            ts.push(
                TaskView {
                    id: (ts.len() + 1) as u32,
                    title,
                    description,
                    completed: false,
                },
            ),
        ),
    decreases ts.len(),
{
    if ts.len() > 0 {
        assert forall|i: int| 0 <= i < ts.drop_last().len() implies #[trigger] ts.drop_last()[i].id
            == i + 1 by {
            assert(ts[i].id == i + 1);
        }
        lemma_ids_sequential_add(ts.drop_last(), title, description);
        assert(ts.last().id == ts.len());
    }
    let grown = ts.push(
        TaskView { id: (ts.len() + 1) as u32, title, description, completed: false },
    );
    assert forall|i: int| 0 <= i < grown.len() implies #[trigger] grown[i].id == i + 1 by {
        if i < ts.len() {
            assert(grown[i] == ts[i]);
        }
    }
}

/// A copy of a byte string.
pub fn clone_bytes(v: &Vec<u8>) -> (r: Vec<u8>)
    ensures
        r@ == v@,
{
    let mut r: Vec<u8> = Vec::new();
    let mut i: usize = 0;
    while i < v.len()
        invariant
            0 <= i <= v@.len(),
            r@ == v@.take(i as int),
        decreases v@.len() - i,
    {
        r.push(v[i]);
        proof {
            assert(r@ =~= v@.take(i + 1));
        }
        i = i + 1;
    }
    proof {
        assert(v@.take(v@.len() as int) =~= v@);
    }
    r
}

} // verus!
