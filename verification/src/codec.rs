//! The on-disk text format: a serialized array of task objects, each with an
//! integer `id`, strings `title` and `description`, and a boolean
//! `completed`. The serializer emits one canonical byte string per
//! collection; the parser reads it back, and the round trip is proved in
//! `roundtrip`.

use vstd::prelude::*;

use crate::task::{Task, TaskView, views};

verus! {

// ---------------------------------------------------------------------------
// The format, as spec functions.
// ---------------------------------------------------------------------------

/// Bytes that must be escaped inside a quoted string: the quote and the
/// backslash.
pub open spec fn needs_escape(b: u8) -> bool {
    b == 34 || b == 92
}

/// One byte of string content, escaped if need be.
pub open spec fn esc_byte(b: u8) -> Seq<u8> {
    if needs_escape(b) {
        seq![92u8, b]
    } else {
        seq![b]
    }
}

/// String content with every quote and backslash escaped.
pub open spec fn spec_esc(s: Seq<u8>) -> Seq<u8>
    decreases s.len(),
{
    if s.len() == 0 {
        Seq::empty()
    } else {
        esc_byte(s[0]) + spec_esc(s.skip(1))
    }
}

/// A quoted, escaped string.
pub open spec fn spec_ser_string(s: Seq<u8>) -> Seq<u8> {
    seq![34u8] + spec_esc(s) + seq![34u8]
}

/// The decimal digits of a number, most significant first, no leading zeros.
pub open spec fn spec_dec(n: nat) -> Seq<u8>
    decreases n,
{
    if n < 10 {
        seq![(n + 48) as u8]
    } else {
        spec_dec(n / 10) + seq![((n % 10) + 48) as u8]
    }
}

pub open spec fn lit_true() -> Seq<u8> {
    seq![116u8, 114u8, 117u8, 101u8]  // true
}

pub open spec fn lit_false() -> Seq<u8> {
    seq![102u8, 97u8, 108u8, 115u8, 101u8]  // false
}

pub open spec fn spec_ser_bool(b: bool) -> Seq<u8> {
    if b {
        lit_true()
    } else {
        lit_false()
    }
}

pub open spec fn lit_obj_head() -> Seq<u8> {
    seq![123u8, 34u8, 105u8, 100u8, 34u8, 58u8]  // {"id":
}

pub open spec fn lit_title_key() -> Seq<u8> {
    seq![44u8, 34u8, 116u8, 105u8, 116u8, 108u8, 101u8, 34u8, 58u8]  // ,"title":
}

pub open spec fn lit_desc_key() -> Seq<u8> {
    // ,"description":
    seq![
        44u8,
        34u8,
        100u8,
        101u8,
        115u8,
        99u8,
        114u8,
        105u8,
        112u8,
        116u8,
        105u8,
        111u8,
        110u8,
        34u8,
        58u8,
    ]
}

pub open spec fn lit_comp_key() -> Seq<u8> {
    // ,"completed":
    seq![44u8, 34u8, 99u8, 111u8, 109u8, 112u8, 108u8, 101u8, 116u8, 101u8, 100u8, 34u8, 58u8]
}

/// One task object.
pub open spec fn spec_ser_task(t: TaskView) -> Seq<u8> {
    lit_obj_head() + spec_dec(t.id as nat) + lit_title_key() + spec_ser_string(t.title)
        + lit_desc_key() + spec_ser_string(t.description) + lit_comp_key() + spec_ser_bool(
        t.completed,
    ) + seq![125u8]  // }
}

/// The comma-separated task objects.
pub open spec fn spec_ser_items(ts: Seq<TaskView>) -> Seq<u8>
    decreases ts.len(),
{
    if ts.len() == 0 {
        Seq::empty()
    } else if ts.len() == 1 {
        spec_ser_task(ts[0])
    } else {
        spec_ser_task(ts[0]) + seq![44u8] + spec_ser_items(ts.skip(1))
    }
}

/// The whole collection: a bracketed array of task objects.
pub open spec fn spec_serialize(ts: Seq<TaskView>) -> Seq<u8> {
    seq![91u8] + spec_ser_items(ts) + seq![93u8]
}

// ---------------------------------------------------------------------------
// The executable serializer.
// ---------------------------------------------------------------------------

/// Appends the decimal digits of `n`.
fn ser_u32_into(out: &mut Vec<u8>, n: u32)
    ensures
        final(out)@ == old(out)@ + spec_dec(n as nat),
    decreases n,
{
    if n < 10 {
        out.push((n as u8) + 48);
        proof {
            assert(final(out)@ =~= old(out)@ + spec_dec(n as nat));
        }
    } else {
        ser_u32_into(out, n / 10);
        out.push(((n % 10) as u8) + 48);
        proof {
            assert(final(out)@ =~= old(out)@ + spec_dec(n as nat));
        }
    }
}

/// Appends the escaped content bytes of `s`, from position `i` on.
fn esc_into(out: &mut Vec<u8>, s: &Vec<u8>, i: usize)
    requires
        i <= s@.len(),
    ensures
        final(out)@ == old(out)@ + spec_esc(s@.skip(i as int)),
    decreases s@.len() - i,
{
    if i < s.len() {
        let b = s[i];
        if b == 34 || b == 92 {
            out.push(92);
            out.push(b);
        } else {
            out.push(b);
        }
        esc_into(out, s, i + 1);
        proof {
            assert(s@.skip(i as int).skip(1) =~= s@.skip(i + 1));
            assert(s@.skip(i as int)[0] == s@[i as int]);
            assert(final(out)@ =~= old(out)@ + spec_esc(s@.skip(i as int)));
        }
    } else {
        proof {
            assert(s@.skip(i as int) =~= Seq::<u8>::empty());
            assert(final(out)@ =~= old(out)@ + spec_esc(s@.skip(i as int)));
        }
    }
}

/// Appends a quoted, escaped string.
fn ser_string_into(out: &mut Vec<u8>, s: &Vec<u8>)
    ensures
        final(out)@ == old(out)@ + spec_ser_string(s@),
{
    out.push(34);
    esc_into(out, s, 0);
    out.push(34);
    proof {
        assert(s@.skip(0) =~= s@);
        assert(final(out)@ =~= old(out)@ + spec_ser_string(s@));
    }
}

/// Appends `true` or `false`.
fn ser_bool_into(out: &mut Vec<u8>, b: bool)
    ensures
        final(out)@ == old(out)@ + spec_ser_bool(b),
{
    if b {
        out.push(116);
        out.push(114);
        out.push(117);
        out.push(101);
        proof {
            assert(final(out)@ =~= old(out)@ + lit_true());
        }
    } else {
        out.push(102);
        out.push(97);
        out.push(108);
        out.push(115);
        out.push(101);
        proof {
            assert(final(out)@ =~= old(out)@ + lit_false());
        }
    }
}

/// Appends `{"id":`.
fn obj_head_into(out: &mut Vec<u8>)
    ensures
        final(out)@ == old(out)@ + lit_obj_head(),
{
    out.push(123);
    out.push(34);
    out.push(105);
    out.push(100);
    out.push(34);
    out.push(58);
    proof {
        assert(final(out)@ =~= old(out)@ + lit_obj_head());
    }
}

/// Appends `,"title":`.
fn title_key_into(out: &mut Vec<u8>)
    ensures
        final(out)@ == old(out)@ + lit_title_key(),
{
    out.push(44);
    out.push(34);
    out.push(116);
    out.push(105);
    out.push(116);
    out.push(108);
    out.push(101);
    out.push(34);
    out.push(58);
    proof {
        assert(final(out)@ =~= old(out)@ + lit_title_key());
    }
}

/// Appends `,"description":`.
fn desc_key_into(out: &mut Vec<u8>)
    ensures
        final(out)@ == old(out)@ + lit_desc_key(),
{
    out.push(44);
    out.push(34);
    out.push(100);
    out.push(101);
    out.push(115);
    out.push(99);
    out.push(114);
    out.push(105);
    out.push(112);
    out.push(116);
    out.push(105);
    out.push(111);
    out.push(110);
    out.push(34);
    out.push(58);
    proof {
        assert(final(out)@ =~= old(out)@ + lit_desc_key());
    }
}

/// Appends `,"completed":`.
fn comp_key_into(out: &mut Vec<u8>)
    ensures
        final(out)@ == old(out)@ + lit_comp_key(),
{
    out.push(44);
    out.push(34);
    out.push(99);
    out.push(111);
    out.push(109);
    out.push(112);
    out.push(108);
    out.push(101);
    out.push(116);
    out.push(101);
    out.push(100);
    out.push(34);
    out.push(58);
    proof {
        assert(final(out)@ =~= old(out)@ + lit_comp_key());
    }
}

/// Appends one task object.
fn ser_task_into(out: &mut Vec<u8>, t: &Task)
    ensures
        final(out)@ == old(out)@ + spec_ser_task(t@),
{
    obj_head_into(out);
    ser_u32_into(out, t.id);
    title_key_into(out);
    ser_string_into(out, &t.title);
    desc_key_into(out);
    ser_string_into(out, &t.description);
    comp_key_into(out);
    ser_bool_into(out, t.completed);
    out.push(125);
    proof {
        assert(final(out)@ =~= old(out)@ + spec_ser_task(t@));
    }
}

/// Appends the task objects from position `i` on, comma-separated.
fn ser_items_into(out: &mut Vec<u8>, tasks: &Vec<Task>, i: usize)
    requires
        i <= tasks@.len(),
    ensures
        final(out)@ == old(out)@ + spec_ser_items(views(tasks@).skip(i as int)),
    decreases tasks@.len() - i,
{
    if i < tasks.len() {
        ser_task_into(out, &tasks[i]);
        proof {
            assert(views(tasks@).skip(i as int)[0] == tasks@[i as int]@);
        }
        if i + 1 < tasks.len() {
            out.push(44);
            ser_items_into(out, tasks, i + 1);
            proof {
                assert(views(tasks@).skip(i as int).skip(1) =~= views(tasks@).skip(i + 1));
                assert(views(tasks@).skip(i + 1).len() > 0);
                assert(final(out)@ =~= old(out)@ + spec_ser_items(views(tasks@).skip(i as int)));
            }
        } else {
            proof {
                assert(views(tasks@).skip(i as int).len() == 1);
                assert(final(out)@ =~= old(out)@ + spec_ser_items(views(tasks@).skip(i as int)));
            }
        }
    } else {
        proof {
            assert(views(tasks@).skip(i as int).len() == 0);
            assert(final(out)@ =~= old(out)@ + spec_ser_items(views(tasks@).skip(i as int)));
        }
    }
}

/// Serializes a whole collection into its canonical byte string.
pub fn serialize_tasks(tasks: &Vec<Task>) -> (out: Vec<u8>)
    ensures
        out@ == spec_serialize(views(tasks@)),
{
    let mut out: Vec<u8> = Vec::new();
    out.push(91);
    ser_items_into(&mut out, tasks, 0);
    out.push(93);
    proof {
        assert(views(tasks@).skip(0) =~= views(tasks@));
        assert(out@ =~= spec_serialize(views(tasks@)));
    }
    out
}

} // verus!
