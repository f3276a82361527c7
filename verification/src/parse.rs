//! The parser for the on-disk format. A spec-level parser defines exactly
//! which byte strings are readable and what they denote; the executable
//! parser is proved to agree with it on every input.

use vstd::prelude::*;

use crate::codec::{lit_obj_head, lit_title_key, lit_desc_key, lit_comp_key, lit_true, lit_false};
use crate::task::{Task, TaskView, views};

verus! {

pub open spec fn is_digit(b: u8) -> bool {
    48 <= b && b <= 57
}

/// A fixed literal at position `i`: succeeds exactly when the next bytes are
/// the literal, and yields the position after it.
pub open spec fn sp_lit(s: Seq<u8>, i: int, lit: Seq<u8>) -> Option<int> {
    if 0 <= i && i + lit.len() <= s.len() && s.subrange(i, i + lit.len()) == lit {
        Some(i + lit.len())
    } else {
        None
    }
}

/// String content after the opening quote, up to and including the closing
/// quote. Only `\"` and `\\` escapes exist; any other byte stands for
/// itself.
pub open spec fn sp_str_body(s: Seq<u8>, i: int) -> Option<(Seq<u8>, int)>
    decreases s.len() - i,
{
    if i < 0 || i >= s.len() {
        None
    } else if s[i] == 34 {
        Some((Seq::empty(), i + 1))
    } else if s[i] == 92 {
        if i + 1 < s.len() && (s[i + 1] == 34 || s[i + 1] == 92) {
            match sp_str_body(s, i + 2) {
                Some((c, j)) => Some((seq![s[i + 1]] + c, j)),
                None => None,
            }
        } else {
            None
        }
    } else {
        match sp_str_body(s, i + 1) {
            Some((c, j)) => Some((seq![s[i]] + c, j)),
            None => None,
        }
    }
}

/// A quoted string.
pub open spec fn sp_string(s: Seq<u8>, i: int) -> Option<(Seq<u8>, int)> {
    if 0 <= i && i < s.len() && s[i] == 34 {
        sp_str_body(s, i + 1)
    } else {
        None
    }
}

/// Consumes the digits from position `i` on, folding them onto `acc`.
pub open spec fn sp_digits(s: Seq<u8>, i: int, acc: nat) -> (nat, int)
    decreases s.len() - i,
{
    if 0 <= i && i < s.len() && is_digit(s[i]) {
        sp_digits(s, i + 1, (acc * 10 + (s[i] - 48)) as nat)
    } else {
        (acc, i)
    }
}

/// A decimal number that fits in a `u32`.
pub open spec fn sp_num(s: Seq<u8>, i: int) -> Option<(u32, int)> {
    if 0 <= i && i < s.len() && is_digit(s[i]) {
        let (v, j) = sp_digits(s, i, 0);
        if v <= u32::MAX {
            Some((v as u32, j))
        } else {
            None
        }
    } else {
        None
    }
}

/// `true` or `false`.
pub open spec fn sp_bool(s: Seq<u8>, i: int) -> Option<(bool, int)> {
    match sp_lit(s, i, lit_true()) {
        Some(j) => Some((true, j)),
        None => match sp_lit(s, i, lit_false()) {
            Some(j) => Some((false, j)),
            None => None,
        },
    }
}

/// One task object.
pub open spec fn sp_task(s: Seq<u8>, i: int) -> Option<(TaskView, int)> {
    match sp_lit(s, i, lit_obj_head()) {
        None => None,
        Some(j1) => match sp_num(s, j1) {
            None => None,
            Some((id, j2)) => match sp_lit(s, j2, lit_title_key()) {
                None => None,
                Some(j3) => match sp_string(s, j3) {
                    None => None,
                    Some((title, j4)) => match sp_lit(s, j4, lit_desc_key()) {
                        None => None,
                        Some(j5) => match sp_string(s, j5) {
                            None => None,
                            Some((description, j6)) => match sp_lit(s, j6, lit_comp_key()) {
                                None => None,
                                Some(j7) => match sp_bool(s, j7) {
                                    None => None,
                                    Some((completed, j8)) => match sp_lit(s, j8, seq![125u8]) {
                                        None => None,
                                        Some(j9) => Some(
                                            (TaskView { id, title, description, completed }, j9),
                                        ),
                                    },
                                },
                            },
                        },
                    },
                },
            },
        },
    }
}

/// After the first task object: either the closing bracket, or a comma and
/// another task object, repeated.
pub open spec fn sp_items_rest(s: Seq<u8>, i: int) -> Option<(Seq<TaskView>, int)>
    decreases s.len() - i,
{
    if 0 <= i && i < s.len() && s[i] == 93 {
        Some((Seq::empty(), i + 1))
    } else if 0 <= i && i < s.len() && s[i] == 44 {
        match sp_task(s, i + 1) {
            None => None,
            Some((t, j)) => if i + 1 < j && j <= s.len() {
                match sp_items_rest(s, j) {
                    Some((ts, k)) => Some((seq![t] + ts, k)),
                    None => None,
                }
            } else {
                None
            },
        }
    } else {
        None
    }
}

/// A whole bracketed array of task objects.
pub open spec fn sp_tasks(s: Seq<u8>, i: int) -> Option<(Seq<TaskView>, int)> {
    match sp_lit(s, i, seq![91u8]) {
        None => None,
        Some(j) => if j < s.len() && s[j] == 93 {
            Some((Seq::empty(), j + 1))
        } else {
            match sp_task(s, j) {
                None => None,
                Some((t, k)) => match sp_items_rest(s, k) {
                    Some((ts, m)) => Some((seq![t] + ts, m)),
                    None => None,
                },
            }
        },
    }
}

/// What a byte string denotes: a collection exactly when the whole input is
/// one well-formed array, nothing otherwise.
pub open spec fn spec_parse(s: Seq<u8>) -> Option<Seq<TaskView>> {
    match sp_tasks(s, 0) {
        Some((ts, j)) => if j == s.len() {
            Some(ts)
        } else {
            None
        },
        None => None,
    }
}

// ---------------------------------------------------------------------------
// Range facts: a successful parse advances and stays inside the input.
// ---------------------------------------------------------------------------

pub proof fn lemma_str_body_range(s: Seq<u8>, i: int)
    ensures
        sp_str_body(s, i) matches Some(r) ==> i < r.1 <= s.len(),
    decreases s.len() - i,
{
    if 0 <= i && i < s.len() {
        lemma_str_body_range(s, i + 1);
        if i + 1 < s.len() {
            lemma_str_body_range(s, i + 2);
        }
    }
}

pub proof fn lemma_digits_range(s: Seq<u8>, i: int, acc: nat)
    requires
        0 <= i <= s.len(),
    ensures
        i <= sp_digits(s, i, acc).1 <= s.len(),
    decreases s.len() - i,
{
    if i < s.len() && is_digit(s[i]) {
        lemma_digits_range(s, i + 1, (acc * 10 + (s[i] - 48)) as nat);
    }
}

/// Folding further digits onto an accumulator never shrinks it.
pub proof fn lemma_digits_monotone(s: Seq<u8>, i: int, acc: nat)
    ensures
        sp_digits(s, i, acc).0 >= acc,
    decreases s.len() - i,
{
    if 0 <= i && i < s.len() && is_digit(s[i]) {
        let nacc = (acc * 10 + (s[i] - 48)) as nat;
        assert(acc * 10 >= acc) by (nonlinear_arith);
        lemma_digits_monotone(s, i + 1, nacc);
    }
}

pub proof fn lemma_task_range(s: Seq<u8>, i: int)
    ensures
        sp_task(s, i) matches Some(r) ==> i < r.1 <= s.len(),
{
    if sp_task(s, i) is Some {
        let j1 = sp_lit(s, i, lit_obj_head())->Some_0;
        lemma_digits_range(s, j1, 0);
        let j2 = sp_num(s, j1)->Some_0.1;
        let j3 = sp_lit(s, j2, lit_title_key())->Some_0;
        lemma_str_body_range(s, j3 + 1);
        let j4 = sp_string(s, j3)->Some_0.1;
        let j5 = sp_lit(s, j4, lit_desc_key())->Some_0;
        lemma_str_body_range(s, j5 + 1);
    }
}

// ---------------------------------------------------------------------------
// The executable parser, proved to agree with the spec parser everywhere.
// ---------------------------------------------------------------------------

/// Expects the bytes of `lit` at position `i`.
fn eat_lit(bytes: &Vec<u8>, i: usize, lit: &Vec<u8>) -> (r: Option<usize>)
    ensures
        r matches Some(j) ==> sp_lit(bytes@, i as int, lit@) == Some(j as int),
        r is None ==> sp_lit(bytes@, i as int, lit@) is None,
{
    if bytes.len() < lit.len() || i > bytes.len() - lit.len() {
        return None;
    }
    let mut k: usize = 0;
    let mut p: usize = i;
    while k < lit.len()
        invariant
            i + lit@.len() <= bytes@.len(),
            bytes@.len() <= usize::MAX,
            0 <= k <= lit@.len(),
            p == i + k,
            forall|m: int| 0 <= m < k ==> bytes@[i + m] == lit@[m],
        decreases lit@.len() - k,
    {
        if bytes[p] != lit[k] {
            proof {
                let sub = bytes@.subrange(i as int, i + lit@.len());
                if sub == lit@ {
                    assert(sub[k as int] == bytes@[i + k]);
                }
            }
            return None;
        }
        k = k + 1;
        p = p + 1;
    }
    proof {
        assert(bytes@.subrange(i as int, i + lit@.len()) =~= lit@);
    }
    Some(p)
}

/// Expects the single byte `b` at position `i`.
fn eat_byte(bytes: &Vec<u8>, i: usize, b: u8) -> (r: Option<usize>)
    ensures
        r matches Some(j) ==> sp_lit(bytes@, i as int, seq![b]) == Some(j as int),
        r is None ==> sp_lit(bytes@, i as int, seq![b]) is None,
{
    if i < bytes.len() && bytes[i] == b {
        proof {
            assert(bytes@.subrange(i as int, i + 1) =~= seq![b]);
        }
        Some(i + 1)
    } else {
        proof {
            if i < bytes@.len() {
                let sub = bytes@.subrange(i as int, i + 1);
                if sub == seq![b] {
                    assert(sub[0] == bytes@[i as int]);
                }
            }
        }
        None
    }
}

/// String content up to the closing quote, unescaped.
fn parse_str_body(bytes: &Vec<u8>, i: usize) -> (r: Option<(Vec<u8>, usize)>)
    ensures
        r matches Some(p) ==> sp_str_body(bytes@, i as int) == Some((p.0@, p.1 as int)),
        r is None ==> sp_str_body(bytes@, i as int) is None,
    decreases bytes@.len() - i,
{
    if i >= bytes.len() {
        return None;
    }
    let b = bytes[i];
    if b == 34 {
        let v: Vec<u8> = Vec::new();
        proof {
            assert(v@ =~= Seq::<u8>::empty());
        }
        return Some((v, i + 1));
    }
    if b == 92 {
        if i + 1 < bytes.len() {
            let e = bytes[i + 1];
            if e == 34 || e == 92 {
                match parse_str_body(bytes, i + 2) {
                    Some((c, j)) => {
                        let mut c = c;
                        c.insert(0, e);
                        proof {
                            assert(c@ =~= seq![bytes@[i + 1]] + sp_str_body(
                                bytes@,
                                i + 2,
                            )->Some_0.0);
                        }
                        return Some((c, j));
                    },
                    None => {
                        return None;
                    },
                }
            } else {
                return None;
            }
        } else {
            return None;
        }
    }
    match parse_str_body(bytes, i + 1) {
        Some((c, j)) => {
            let mut c = c;
            c.insert(0, b);
            proof {
                assert(c@ =~= seq![bytes@[i as int]] + sp_str_body(bytes@, i + 1)->Some_0.0);
            }
            Some((c, j))
        },
        None => None,
    }
}

/// A quoted string.
fn parse_string(bytes: &Vec<u8>, i: usize) -> (r: Option<(Vec<u8>, usize)>)
    ensures
        r matches Some(p) ==> sp_string(bytes@, i as int) == Some((p.0@, p.1 as int)),
        r is None ==> sp_string(bytes@, i as int) is None,
{
    if i < bytes.len() && bytes[i] == 34 {
        parse_str_body(bytes, i + 1)
    } else {
        None
    }
}

/// A decimal number that fits in a `u32`.
fn parse_num(bytes: &Vec<u8>, i: usize) -> (r: Option<(u32, usize)>)
    ensures
        r matches Some(p) ==> sp_num(bytes@, i as int) == Some((p.0, p.1 as int)),
        r is None ==> sp_num(bytes@, i as int) is None,
{
    if i >= bytes.len() {
        return None;
    }
    if !(48 <= bytes[i] && bytes[i] <= 57) {
        return None;
    }
    let mut j: usize = i;
    let mut acc: u64 = 0;
    while j < bytes.len() && 48 <= bytes[j] && bytes[j] <= 57
        invariant
            i <= j <= bytes@.len(),
            acc <= u32::MAX as u64,
            sp_digits(bytes@, i as int, 0) == sp_digits(bytes@, j as int, acc as nat),
        decreases bytes@.len() - j,
    {
        let d = bytes[j] - 48;
        let nacc = acc * 10 + (d as u64);
        proof {
            assert(sp_digits(bytes@, j as int, acc as nat) == sp_digits(
                bytes@,
                j + 1,
                ((acc as nat) * 10 + (bytes@[j as int] - 48)) as nat,
            ));
        }
        if nacc > 0xFFFF_FFFF {
            proof {
                lemma_digits_monotone(bytes@, j + 1, nacc as nat);
            }
            return None;
        }
        acc = nacc;
        j = j + 1;
    }
    proof {
        assert(sp_digits(bytes@, j as int, acc as nat) == ((acc as nat), j as int));
    }
    Some((acc as u32, j))
}

/// `true` or `false`.
fn parse_bool(bytes: &Vec<u8>, i: usize) -> (r: Option<(bool, usize)>)
    ensures
        r matches Some(p) ==> sp_bool(bytes@, i as int) == Some((p.0, p.1 as int)),
        r is None ==> sp_bool(bytes@, i as int) is None,
{
    let mut t: Vec<u8> = Vec::new();
    t.push(116);
    t.push(114);
    t.push(117);
    t.push(101);
    proof {
        assert(t@ =~= lit_true());
    }
    match eat_lit(bytes, i, &t) {
        Some(j) => Some((true, j)),
        None => {
            let mut f: Vec<u8> = Vec::new();
            f.push(102);
            f.push(97);
            f.push(108);
            f.push(115);
            f.push(101);
            proof {
                assert(f@ =~= lit_false());
            }
            match eat_lit(bytes, i, &f) {
                Some(j) => Some((false, j)),
                None => None,
            }
        },
    }
}

/// The bytes of `{"id":`.
fn obj_head_vec() -> (v: Vec<u8>)
    ensures
        v@ == lit_obj_head(),
{
    let mut v: Vec<u8> = Vec::new();
    v.push(123);
    v.push(34);
    v.push(105);
    v.push(100);
    v.push(34);
    v.push(58);
    proof {
        assert(v@ =~= lit_obj_head());
    }
    v
}

/// The bytes of `,"title":`.
fn title_key_vec() -> (v: Vec<u8>)
    ensures
        v@ == lit_title_key(),
{
    let mut v: Vec<u8> = Vec::new();
    v.push(44);
    v.push(34);
    v.push(116);
    v.push(105);
    v.push(116);
    v.push(108);
    v.push(101);
    v.push(34);
    v.push(58);
    proof {
        assert(v@ =~= lit_title_key());
    }
    v
}

/// The bytes of `,"description":`.
fn desc_key_vec() -> (v: Vec<u8>)
    ensures
        v@ == lit_desc_key(),
{
    let mut v: Vec<u8> = Vec::new();
    v.push(44);
    v.push(34);
    v.push(100);
    v.push(101);
    v.push(115);
    v.push(99);
    v.push(114);
    v.push(105);
    v.push(112);
    v.push(116);
    v.push(105);
    v.push(111);
    v.push(110);
    v.push(34);
    v.push(58);
    proof {
        assert(v@ =~= lit_desc_key());
    }
    v
}

/// The bytes of `,"completed":`.
fn comp_key_vec() -> (v: Vec<u8>)
    ensures
        v@ == lit_comp_key(),
{
    let mut v: Vec<u8> = Vec::new();
    v.push(44);
    v.push(34);
    v.push(99);
    v.push(111);
    v.push(109);
    v.push(112);
    v.push(108);
    v.push(101);
    v.push(116);
    v.push(101);
    v.push(100);
    v.push(34);
    v.push(58);
    proof {
        assert(v@ =~= lit_comp_key());
    }
    v
}

/// One task object.
fn parse_task(bytes: &Vec<u8>, i: usize) -> (r: Option<(Task, usize)>)
    ensures
        r matches Some(p) ==> sp_task(bytes@, i as int) == Some((p.0@, p.1 as int)),
        r is None ==> sp_task(bytes@, i as int) is None,
{
    let head = obj_head_vec();
    let j1 = match eat_lit(bytes, i, &head) {
        Some(j) => j,
        None => {
            return None;
        },
    };
    let (id, j2) = match parse_num(bytes, j1) {
        Some(p) => p,
        None => {
            return None;
        },
    };
    let tkey = title_key_vec();
    let j3 = match eat_lit(bytes, j2, &tkey) {
        Some(j) => j,
        None => {
            return None;
        },
    };
    let (title, j4) = match parse_string(bytes, j3) {
        Some(p) => p,
        None => {
            return None;
        },
    };
    let dkey = desc_key_vec();
    let j5 = match eat_lit(bytes, j4, &dkey) {
        Some(j) => j,
        None => {
            return None;
        },
    };
    let (description, j6) = match parse_string(bytes, j5) {
        Some(p) => p,
        None => {
            return None;
        },
    };
    let ckey = comp_key_vec();
    let j7 = match eat_lit(bytes, j6, &ckey) {
        Some(j) => j,
        None => {
            return None;
        },
    };
    let (completed, j8) = match parse_bool(bytes, j7) {
        Some(p) => p,
        None => {
            return None;
        },
    };
    let j9 = match eat_byte(bytes, j8, 125) {
        Some(j) => j,
        None => {
            return None;
        },
    };
    Some((Task { id, title, description, completed }, j9))
}

/// The tail of the array: a closing bracket, or a comma and another task,
/// repeated.
fn parse_items_rest(bytes: &Vec<u8>, i: usize) -> (r: Option<(Vec<Task>, usize)>)
    ensures
        r matches Some(p) ==> sp_items_rest(bytes@, i as int) == Some((views(p.0@), p.1 as int)),
        r is None ==> sp_items_rest(bytes@, i as int) is None,
    decreases bytes@.len() - i,
{
    if i >= bytes.len() {
        return None;
    }
    if bytes[i] == 93 {
        let v: Vec<Task> = Vec::new();
        proof {
            assert(views(v@) =~= Seq::<TaskView>::empty());
        }
        return Some((v, i + 1));
    }
    if bytes[i] != 44 {
        return None;
    }
    match parse_task(bytes, i + 1) {
        None => None,
        Some((t, j)) => {
            proof {
                lemma_task_range(bytes@, i + 1);
            }
            match parse_items_rest(bytes, j) {
                None => None,
                Some((ts, k)) => {
                    let mut ts = ts;
                    let ghost tail = views(ts@);
                    ts.insert(0, t);
                    proof {
                        assert(views(ts@) =~= seq![t@] + tail);
                    }
                    Some((ts, k))
                },
            }
        },
    }
}

/// A whole collection. Succeeds exactly on the byte strings that
/// `spec_parse` accepts, and returns exactly the collection it denotes.
pub fn parse_tasks(bytes: &Vec<u8>) -> (r: Option<Vec<Task>>)
    ensures
        r matches Some(ts) ==> spec_parse(bytes@) == Some(views(ts@)),
        r is None ==> spec_parse(bytes@) is None,
{
    let j = match eat_byte(bytes, 0, 91) {
        Some(j) => j,
        None => {
            return None;
        },
    };
    if j < bytes.len() && bytes[j] == 93 {
        if j + 1 == bytes.len() {
            let v: Vec<Task> = Vec::new();
            proof {
                assert(views(v@) =~= Seq::<TaskView>::empty());
            }
            return Some(v);
        } else {
            return None;
        }
    }
    match parse_task(bytes, j) {
        None => None,
        Some((t, k)) => {
            match parse_items_rest(bytes, k) {
                None => None,
                Some((ts, m)) => {
                    if m == bytes.len() {
                        let mut ts = ts;
                        let ghost tail = views(ts@);
                        ts.insert(0, t);
                        proof {
                            assert(views(ts@) =~= seq![t@] + tail);
                        }
                        Some(ts)
                    } else {
                        None
                    }
                },
            }
        },
    }
}

} // verus!
