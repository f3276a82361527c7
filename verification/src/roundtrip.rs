//! The round-trip law: parsing the serialized form of any collection gives
//! back exactly that collection.

use vstd::prelude::*;
use vstd::arithmetic::div_mod::lemma_fundamental_div_mod;

use crate::codec::{
    spec_dec,
    spec_esc,
    spec_ser_bool,
    spec_ser_items,
    spec_ser_string,
    spec_ser_task,
    spec_serialize,
    esc_byte,
    needs_escape,
    lit_obj_head,
    lit_title_key,
    lit_desc_key,
    lit_comp_key,
    lit_true,
    lit_false,
};
use crate::parse::{
    is_digit,
    sp_bool,
    sp_digits,
    sp_items_rest,
    sp_lit,
    sp_num,
    sp_str_body,
    sp_string,
    sp_task,
    sp_tasks,
    spec_parse,
};
use crate::task::TaskView;

verus! {

/// Ten to the `k`.
pub open spec fn pow10(k: nat) -> nat
    decreases k,
{
    if k == 0 {
        1nat
    } else {
        10 * pow10((k - 1) as nat)
    }
}

/// A concatenation sitting at `i` splits into its two parts.
proof fn lemma_split(s: Seq<u8>, i: int, x: Seq<u8>, y: Seq<u8>)
    requires
        0 <= i,
        i + x.len() + y.len() <= s.len(),
        s.subrange(i, i + x.len() + y.len()) == x + y,
    ensures
        s.subrange(i, i + x.len()) == x,
        s.subrange(i + x.len(), i + x.len() + y.len()) == y,
{
    let whole = s.subrange(i, i + x.len() + y.len());
    assert forall|m: int| 0 <= m < x.len() implies s.subrange(i, i + x.len())[m] == x[m] by {
        assert(whole[m] == (x + y)[m]);
    }
    assert(s.subrange(i, i + x.len()) =~= x);
    assert forall|m: int| 0 <= m < y.len() implies s.subrange(
        i + x.len(),
        i + x.len() + y.len(),
    )[m] == y[m] by {
        assert(whole[x.len() + m] == (x + y)[x.len() + m]);
    }
    assert(s.subrange(i + x.len(), i + x.len() + y.len()) =~= y);
}

/// Every byte of a decimal rendering is a digit.
proof fn lemma_dec_digits(n: nat)
    ensures
        spec_dec(n).len() >= 1,
        forall|k: int| 0 <= k < spec_dec(n).len() ==> is_digit(#[trigger] spec_dec(n)[k]),
    decreases n,
{
    if n >= 10 {
        lemma_dec_digits(n / 10);
    }
}

/// Consuming the decimal rendering of `n` folds `n` onto the accumulator.
proof fn lemma_digits_consume(s: Seq<u8>, i: int, n: nat, acc: nat)
    requires
        0 <= i,
        i + spec_dec(n).len() <= s.len(),
        s.subrange(i, i + spec_dec(n).len()) == spec_dec(n),
    ensures
        sp_digits(s, i, acc) == sp_digits(
            s,
            i + spec_dec(n).len(),
            (acc * pow10(spec_dec(n).len()) + n) as nat,
        ),
    decreases n,
{
    lemma_dec_digits(n);
    if n < 10 {
        assert(s[i] == spec_dec(n)[0]);
        assert(is_digit(s[i]));
        assert(s[i] - 48 == n);
        assert(sp_digits(s, i, acc) == sp_digits(s, i + 1, (acc * 10 + n) as nat));
        assert(pow10(0) == 1);
        assert(pow10(1) == 10 * pow10(0));
    } else {
        let m = n / 10;
        let d = n % 10;
        let k = spec_dec(n).len();
        let k1 = spec_dec(m).len();
        assert(spec_dec(n) == spec_dec(m) + seq![((n % 10) + 48) as u8]);
        assert(k == k1 + 1);
        assert forall|idx: int| 0 <= idx < k1 implies s.subrange(i, i + k1)[idx] == spec_dec(m)[idx]
            by {
            assert(s.subrange(i, i + k)[idx] == spec_dec(n)[idx]);
            assert(spec_dec(n)[idx] == spec_dec(m)[idx]);
        }
        assert(s.subrange(i, i + k1) =~= spec_dec(m));
        lemma_digits_consume(s, i, m, acc);
        let a1 = (acc * pow10(k1) + m) as nat;
        assert(s[i + k1] == s.subrange(i, i + k)[k1 as int]);
        assert(s[i + k1] == spec_dec(n)[k1 as int]);
        assert(spec_dec(n)[k1 as int] == ((n % 10) + 48) as u8);
        assert(is_digit(s[i + k1]));
        assert(sp_digits(s, i + k1, a1) == sp_digits(s, i + k, (a1 * 10 + d) as nat));
        lemma_fundamental_div_mod(n as int, 10);
        assert(pow10(k) == 10 * pow10(k1));
        assert(a1 * 10 + d == acc * pow10(k) + n) by (nonlinear_arith)
            requires
                a1 == acc * pow10(k1) + m,
                pow10(k) == 10 * pow10(k1),
                n == 10 * m + d,
        ;
    }
}

/// A serialized number at `i`, followed by a non-digit, reads back as itself.
proof fn lemma_num_at(s: Seq<u8>, i: int, v: u32)
    requires
        0 <= i,
        i + spec_dec(v as nat).len() < s.len(),
        s.subrange(i, i + spec_dec(v as nat).len()) == spec_dec(v as nat),
        !is_digit(s[i + spec_dec(v as nat).len()]),
    ensures
        sp_num(s, i) == Some((v, i + spec_dec(v as nat).len())),
{
    lemma_dec_digits(v as nat);
    let k = spec_dec(v as nat).len();
    assert(s[i] == s.subrange(i, i + k)[0]);
    assert(is_digit(s[i]));
    lemma_digits_consume(s, i, v as nat, 0);
    assert(0 * pow10(k) == 0) by (nonlinear_arith);
    assert(sp_digits(s, i, 0) == sp_digits(s, i + k, v as nat));
    assert(sp_digits(s, i + k, v as nat) == (v as nat, i + k));
}

/// Escaped string content followed by the closing quote reads back as the
/// content.
proof fn lemma_str_body_at(content: Seq<u8>, s: Seq<u8>, i: int)
    requires
        0 <= i,
        i + spec_esc(content).len() + 1 <= s.len(),
        s.subrange(i, i + spec_esc(content).len() + 1) == spec_esc(content) + seq![34u8],
    ensures
        sp_str_body(s, i) == Some((content, i + spec_esc(content).len() + 1)),
    decreases content.len(),
{
    let el = spec_esc(content).len();
    if content.len() == 0 {
        assert(s[i] == s.subrange(i, i + 1)[0]);
        assert(s[i] == 34);
    } else {
        let c = content[0];
        let rest = content.skip(1);
        assert(spec_esc(content) == esc_byte(c) + spec_esc(rest));
        let rl = spec_esc(rest).len();
        if needs_escape(c) {
            assert(el == 2 + rl);
            assert(s[i] == s.subrange(i, i + el + 1)[0]);
            assert(s[i] == (esc_byte(c) + spec_esc(rest) + seq![34u8])[0]);
            assert(s[i] == 92);
            assert(s[i + 1] == s.subrange(i, i + el + 1)[1]);
            assert(s[i + 1] == c);
            assert forall|m: int| 0 <= m < rl + 1 implies s.subrange(i + 2, i + 2 + rl + 1)[m] == (
            spec_esc(rest) + seq![34u8])[m] by {
                assert(s.subrange(i, i + el + 1)[2 + m] == (spec_esc(content) + seq![34u8])[2 + m]);
            }
            assert(s.subrange(i + 2, i + 2 + rl + 1) =~= spec_esc(rest) + seq![34u8]);
            lemma_str_body_at(rest, s, i + 2);
            assert(seq![s[i + 1]] + rest =~= content);
        } else {
            assert(el == 1 + rl);
            assert(s[i] == s.subrange(i, i + el + 1)[0]);
            assert(s[i] == c);
            assert(s[i] != 34 && s[i] != 92);
            assert forall|m: int| 0 <= m < rl + 1 implies s.subrange(i + 1, i + 1 + rl + 1)[m] == (
            spec_esc(rest) + seq![34u8])[m] by {
                assert(s.subrange(i, i + el + 1)[1 + m] == (spec_esc(content) + seq![34u8])[1 + m]);
            }
            assert(s.subrange(i + 1, i + 1 + rl + 1) =~= spec_esc(rest) + seq![34u8]);
            lemma_str_body_at(rest, s, i + 1);
            assert(seq![s[i]] + rest =~= content);
        }
    }
}

/// A serialized string at `i` reads back as its content.
proof fn lemma_string_at(content: Seq<u8>, s: Seq<u8>, i: int)
    requires
        0 <= i,
        i + spec_ser_string(content).len() <= s.len(),
        s.subrange(i, i + spec_ser_string(content).len()) == spec_ser_string(content),
    ensures
        sp_string(s, i) == Some((content, i + spec_ser_string(content).len())),
{
    let el = spec_esc(content).len();
    assert(s[i] == s.subrange(i, i + el + 2)[0]);
    assert(s[i] == 34);
    assert forall|m: int| 0 <= m < el + 1 implies s.subrange(i + 1, i + 1 + el + 1)[m] == (spec_esc(
        content,
    ) + seq![34u8])[m] by {
        assert(s.subrange(i, i + el + 2)[1 + m] == spec_ser_string(content)[1 + m]);
        assert(spec_ser_string(content)[1 + m] == (spec_esc(content) + seq![34u8])[m]);
    }
    assert(s.subrange(i + 1, i + 1 + el + 1) =~= spec_esc(content) + seq![34u8]);
    lemma_str_body_at(content, s, i + 1);
}

/// A serialized boolean at `i` reads back as itself.
proof fn lemma_bool_at(b: bool, s: Seq<u8>, i: int)
    requires
        0 <= i,
        i + spec_ser_bool(b).len() <= s.len(),
        s.subrange(i, i + spec_ser_bool(b).len()) == spec_ser_bool(b),
    ensures
        sp_bool(s, i) == Some((b, i + spec_ser_bool(b).len())),
{
    if b {
        assert(sp_lit(s, i, lit_true()) == Some(i + 4));
    } else {
        if i + 4 <= s.len() && s.subrange(i, i + 4) == lit_true() {
            assert(s.subrange(i, i + 4)[0] == s[i]);
            assert(s.subrange(i, i + 5)[0] == s[i]);
            assert(false);
        }
        assert(sp_lit(s, i, lit_true()) is None);
        assert(sp_lit(s, i, lit_false()) == Some(i + 5));
    }
}

/// A serialized task object at `i` reads back as itself.
proof fn lemma_task_at(t: TaskView, s: Seq<u8>, i: int)
    requires
        0 <= i,
        i + spec_ser_task(t).len() <= s.len(),
        s.subrange(i, i + spec_ser_task(t).len()) == spec_ser_task(t),
    ensures
        sp_task(s, i) == Some((t, i + spec_ser_task(t).len())),
{
    let dec = spec_dec(t.id as nat);
    let st = spec_ser_string(t.title);
    let sd = spec_ser_string(t.description);
    let sb = spec_ser_bool(t.completed);
    let tail1 = dec + (lit_title_key() + (st + (lit_desc_key() + (sd + (lit_comp_key() + (sb
        + seq![125u8]))))));
    assert(spec_ser_task(t) =~= lit_obj_head() + tail1);
    let p1 = i + lit_obj_head().len();
    lemma_split(s, i, lit_obj_head(), tail1);
    let tail2 = lit_title_key() + (st + (lit_desc_key() + (sd + (lit_comp_key() + (sb
        + seq![125u8])))));
    lemma_split(s, p1, dec, tail2);
    let p2 = p1 + dec.len();
    let tail3 = st + (lit_desc_key() + (sd + (lit_comp_key() + (sb + seq![125u8]))));
    lemma_split(s, p2, lit_title_key(), tail3);
    let p3 = p2 + lit_title_key().len();
    let tail4 = lit_desc_key() + (sd + (lit_comp_key() + (sb + seq![125u8])));
    lemma_split(s, p3, st, tail4);
    let p4 = p3 + st.len();
    let tail5 = sd + (lit_comp_key() + (sb + seq![125u8]));
    lemma_split(s, p4, lit_desc_key(), tail5);
    let p5 = p4 + lit_desc_key().len();
    let tail6 = lit_comp_key() + (sb + seq![125u8]);
    lemma_split(s, p5, sd, tail6);
    let p6 = p5 + sd.len();
    let tail7 = sb + seq![125u8];
    lemma_split(s, p6, lit_comp_key(), tail7);
    let p7 = p6 + lit_comp_key().len();
    lemma_split(s, p7, sb, seq![125u8]);
    let p8 = p7 + sb.len();

    assert(sp_lit(s, i, lit_obj_head()) == Some(p1));
    assert(s[p2] == s.subrange(p2, p3)[0]);
    assert(s[p2] == 44);
    lemma_num_at(s, p1, t.id);
    assert(sp_num(s, p1) == Some((t.id, p2)));
    assert(sp_lit(s, p2, lit_title_key()) == Some(p3));
    lemma_string_at(t.title, s, p3);
    assert(sp_lit(s, p4, lit_desc_key()) == Some(p5));
    lemma_string_at(t.description, s, p5);
    assert(sp_lit(s, p6, lit_comp_key()) == Some(p7));
    lemma_bool_at(t.completed, s, p7);
    assert(sp_lit(s, p8, seq![125u8]) == Some(p8 + 1));
    assert(TaskView {
        id: t.id,
        title: t.title,
        description: t.description,
        completed: t.completed,
    } == t);
}

/// The tail of a serialized collection: each further task behind its comma,
/// then the closing bracket.
pub open spec fn spec_ser_rest(ts: Seq<TaskView>) -> Seq<u8>
    decreases ts.len(),
{
    if ts.len() == 0 {
        seq![93u8]
    } else {
        seq![44u8] + spec_ser_task(ts[0]) + spec_ser_rest(ts.skip(1))
    }
}

/// The bracketed form regrouped around its first task.
proof fn lemma_items_rest_concat(ts: Seq<TaskView>)
    requires
        ts.len() > 0,
    ensures
        spec_ser_items(ts) + seq![93u8] == spec_ser_task(ts[0]) + spec_ser_rest(ts.skip(1)),
    decreases ts.len(),
{
    if ts.len() == 1 {
        assert(spec_ser_items(ts) + seq![93u8] =~= spec_ser_task(ts[0]) + spec_ser_rest(
            ts.skip(1),
        ));
    } else {
        lemma_items_rest_concat(ts.skip(1));
        assert(spec_ser_items(ts) + seq![93u8] =~= spec_ser_task(ts[0]) + seq![44u8] + (
        spec_ser_items(ts.skip(1)) + seq![93u8]));
        assert(spec_ser_task(ts[0]) + seq![44u8] + (spec_ser_items(ts.skip(1)) + seq![93u8])
            == spec_ser_task(ts[0]) + seq![44u8] + (spec_ser_task(ts.skip(1)[0]) + spec_ser_rest(
            ts.skip(1).skip(1),
        )));
        assert(spec_ser_rest(ts.skip(1)) == seq![44u8] + spec_ser_task(ts.skip(1)[0])
            + spec_ser_rest(ts.skip(1).skip(1)));
        assert(spec_ser_task(ts[0]) + seq![44u8] + (spec_ser_task(ts.skip(1)[0]) + spec_ser_rest(
            ts.skip(1).skip(1),
        )) =~= spec_ser_task(ts[0]) + spec_ser_rest(ts.skip(1)));
    }
}

/// A serialized tail at `i` reads back as its tasks.
proof fn lemma_rest_at(ts: Seq<TaskView>, s: Seq<u8>, i: int)
    requires
        0 <= i,
        i + spec_ser_rest(ts).len() <= s.len(),
        s.subrange(i, i + spec_ser_rest(ts).len()) == spec_ser_rest(ts),
    ensures
        sp_items_rest(s, i) == Some((ts, i + spec_ser_rest(ts).len())),
    decreases ts.len(),
{
    if ts.len() == 0 {
        assert(s[i] == s.subrange(i, i + 1)[0]);
        assert(s[i] == 93);
        assert(Seq::<TaskView>::empty() =~= ts);
    } else {
        let tl = spec_ser_task(ts[0]).len() as int;
        let rl = spec_ser_rest(ts.skip(1)).len() as int;
        assert(spec_ser_rest(ts) =~= seq![44u8] + (spec_ser_task(ts[0]) + spec_ser_rest(
            ts.skip(1),
        )));
        lemma_split(s, i, seq![44u8], spec_ser_task(ts[0]) + spec_ser_rest(ts.skip(1)));
        lemma_split(s, i + 1, spec_ser_task(ts[0]), spec_ser_rest(ts.skip(1)));
        assert(s[i] == s.subrange(i, i + 1)[0]);
        assert(s[i] == 44);
        lemma_task_at(ts[0], s, i + 1);
        let j = i + 1 + tl;
        lemma_rest_at(ts.skip(1), s, j);
        assert(seq![ts[0]] + ts.skip(1) =~= ts);
    }
}

/// A serialized task object opens with the brace.
proof fn lemma_task_first_byte(t: TaskView)
    ensures
        spec_ser_task(t).len() >= 7,
        spec_ser_task(t)[0] == 123,
{
    assert(spec_ser_task(t)[0] == lit_obj_head()[0]);
}

/// The round trip on a collection with at least one task.
#[verifier::rlimit(60)]
proof fn lemma_round_trip_nonempty(ts: Seq<TaskView>)
    requires
        ts.len() > 0,
    ensures
        spec_parse(spec_serialize(ts)) == Some(ts),
{
    let s = spec_serialize(ts);
    assert(s.subrange(0, 1) =~= seq![91u8]);
    assert(sp_lit(s, 0, seq![91u8]) == Some(1int));
    lemma_items_rest_concat(ts);
    lemma_task_first_byte(ts[0]);
    let tl = spec_ser_task(ts[0]).len() as int;
    let rl = spec_ser_rest(ts.skip(1)).len() as int;
    assert(s =~= seq![91u8] + (spec_ser_task(ts[0]) + spec_ser_rest(ts.skip(1))));
    assert(s.len() == 1 + tl + rl);
    assert(s.subrange(0, s.len() as int) =~= s);
    lemma_split(s, 0, seq![91u8], spec_ser_task(ts[0]) + spec_ser_rest(ts.skip(1)));
    lemma_split(s, 1, spec_ser_task(ts[0]), spec_ser_rest(ts.skip(1)));
    assert(s[1] == s.subrange(1, 1 + tl)[0]);
    assert(s[1] == spec_ser_task(ts[0])[0]);
    assert(s[1] == 123);
    lemma_task_at(ts[0], s, 1);
    lemma_rest_at(ts.skip(1), s, 1 + tl);
    assert(sp_items_rest(s, 1 + tl) == Some((ts.skip(1), 1 + tl + rl)));
    assert(seq![ts[0]] + ts.skip(1) =~= ts);
}

/// The round trip: parsing the serialized form of any collection yields
/// exactly that collection, whatever its tasks hold.
pub proof fn lemma_round_trip(ts: Seq<TaskView>)
    ensures
        spec_parse(spec_serialize(ts)) == Some(ts),
{
    if ts.len() == 0 {
        let s = spec_serialize(ts);
        assert(s.subrange(0, 1) =~= seq![91u8]);
        assert(sp_lit(s, 0, seq![91u8]) == Some(1int));
        assert(s[1] == (seq![91u8] + spec_ser_items(ts) + seq![93u8])[1]);
        assert(s[1] == 93);
        assert(s.len() == 2);
        assert(sp_tasks(s, 0) == Some((Seq::<TaskView>::empty(), 2int)));
        assert(Seq::<TaskView>::empty() =~= ts);
    } else {
        lemma_round_trip_nonempty(ts);
    }
}

} // verus!
