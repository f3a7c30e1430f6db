//! The optimizer's loop peepholes do what the loops they replace do.
//!
//! An affine transfer loop `[body]` becomes one `Affine` op. Run literally,
//! the loop passes through its body once per unit of its counter; each pass
//! moves the head back where it was and adds the body's net change to every
//! cell it touches. The `Affine` op applies all the passes at once.
use crate::compiler::{
    affine_spec, body_end, compiled, displacement, highest, instructions, is_instruction,
    is_transfer, lemma_displacement_bounds, lemma_lex_literal, lemma_net_bounds,
    lemma_pattern_lengths, lex, link, literal_op, lowest, net, occurs_at, run_length, terms_upto,
    token, touches, Linked,
};
use crate::natural::bit_length;
use crate::vm::{
    affine_apply, all_fit, div_program, fits, lemma_bit_length_monotone, mul_program, op_step, run,
    target, valid, DIV, Machine, MUL, SOp, Step, VmError,
};
use vstd::prelude::*;
use vstd::string::StringSliceAdditionalSpecFns;

verus! {

/// One literal instruction `c` of `><+-` on a machine.
pub open spec fn byte_step(c: u8, m: Machine) -> (Machine, Option<VmError>) {
    match op_step(literal_op(c), 0, m, Seq::empty(), None, None) {
        Step::Jump(_, m2) => (m2, None),
        Step::Fail(e, m2) => (m2, Some(e)),
        Step::Call(_, m2) => (m2, Some(VmError::Unmatched)),
    }
}

/// Running the literal instructions `b` in turn, up to the first error.
pub open spec fn run_bytes(b: Seq<u8>, m: Machine) -> (Machine, Option<VmError>)
    decreases b.len(),
{
    if b.len() == 0 {
        (m, None)
    } else {
        let r = run_bytes(b.drop_last(), m);
        if r.1 is Some {
            r
        } else {
            byte_step(b.last(), r.0)
        }
    }
}

/// A program runs straight through literal `><+-` instructions.
proof fn lemma_straight(
    ops: Seq<SOp>,
    base: int,
    b: Seq<u8>,
    k: int,
    m: Machine,
    fuel: nat,
    input: Seq<u8>,
)
    requires
        0 <= base,
        base + b.len() <= ops.len(),
        0 <= k <= b.len(),
        forall|t: int| 0 <= t < b.len() ==> is_transfer(#[trigger] b[t]) && ops[base + t] == literal_op(b[t]),
        run(ops, base, m, fuel, input).error is None,
    ensures
        run_bytes(b.take(k), m).1 is None,
        fuel >= k,
        run(ops, base, m, fuel, input) == run(
            ops,
            base + k,
            run_bytes(b.take(k), m).0,
            (fuel - k) as nat,
            input,
        ),
    decreases k,
{
    if k > 0 {
        lemma_straight(ops, base, b, k - 1, m, fuel, input);
        let mk = run_bytes(b.take(k - 1), m).0;
        assert(b.take(k).drop_last() =~= b.take(k - 1));
        assert(b.take(k).last() == b[k - 1]);
        let pc = base + k - 1;
        let f = (fuel - (k - 1)) as nat;
        assert(is_transfer(b[k - 1]) && ops[pc] == literal_op(b[k - 1]));
        assert(f > 0);
    }
}

/// A cell a loop body touches lies between its lowest and highest offsets.
pub(crate) proof fn lemma_touch_within(b: Seq<u8>, x: int, c: u8)
    requires
        touches(b, x, c),
    ensures
        lowest(b) <= x <= highest(b),
    decreases b.len(),
{
    let b0 = b.drop_last();
    lemma_displacement_bounds(b0);
    if touches(b0, x, c) {
        lemma_touch_within(b0, x, c);
    }
}

/// What literal `><+-` instructions do when they run without error: the head
/// moves by their displacement and stays between their lowest and highest
/// offsets, every cell gains the net change at its offset, and every cell
/// they touch ends within the cell width.
pub(crate) proof fn lemma_bytes_effect(b: Seq<u8>, m: Machine)
    requires
        forall|t: int| 0 <= t < b.len() ==> is_transfer(#[trigger] b[t]),
        0 <= m.pointer < m.tape.len(),
        run_bytes(b, m).1 is None,
    ensures
        run_bytes(b, m).0.pointer == m.pointer + displacement(b),
        run_bytes(b, m).0.tape.len() == m.tape.len(),
        run_bytes(b, m).0.consumed == m.consumed,
        run_bytes(b, m).0.output == m.output,
        0 <= m.pointer + lowest(b),
        m.pointer + highest(b) < m.tape.len(),
        forall|i: int|
            0 <= i < m.tape.len() ==> #[trigger] run_bytes(b, m).0.tape[i] == m.tape[i] + net(b, i - m.pointer),
        forall|x: int|
            #![trigger touches(b, x, 43)]
            #![trigger touches(b, x, 45)]
            (touches(b, x, 43) || touches(b, x, 45)) ==> fits(run_bytes(b, m).0.tape[m.pointer + x]),
    decreases b.len(),
{
    if b.len() > 0 {
        let b0 = b.drop_last();
        assert forall|t: int| 0 <= t < b0.len() implies is_transfer(#[trigger] b0[t]) by {
            assert(b0[t] == b[t]);
        }
        assert(is_transfer(b[b.len() - 1]));
        lemma_bytes_effect(b0, m);
        let m1 = run_bytes(b0, m).0;
        let p = m.pointer;
        let q = m1.pointer;
        let c = b.last();
        let m2 = run_bytes(b, m).0;
        assert(run_bytes(b, m) == byte_step(c, m1));
        assert forall|i: int| 0 <= i < m.tape.len() implies #[trigger] m2.tape[i] == m.tape[i] + net(b, i - p) by {
            assert(m1.tape[i] == m.tape[i] + net(b0, i - p));
        }
        assert forall|x: int|
            #![trigger touches(b, x, 43)]
            #![trigger touches(b, x, 45)]
            (touches(b, x, 43) || touches(b, x, 45)) implies fits(m2.tape[p + x]) by {
            if displacement(b0) == x && (c == 43 || c == 45) {
            } else {
                assert(touches(b0, x, 43) || touches(b0, x, 45));
                if touches(b0, x, 43) {
                    lemma_touch_within(b0, x, 43);
                } else {
                    lemma_touch_within(b0, x, 45);
                }
                assert(fits(m1.tape[p + x]));
                assert(m2.tape[p + x] == m1.tape[p + x]);
            }
        }
    }
}

/// `ops` holds, from `base` on, the loop `[b]` compiled literally: `[` jumps
/// past the loop, the body takes one op per instruction, and `]` jumps back
/// to the body.
pub open spec fn is_literal_loop_at(ops: Seq<SOp>, base: int, b: Seq<u8>) -> bool {
    &&& 0 <= base
    &&& base + b.len() + 2 <= ops.len()
    &&& ops[base] == SOp::Open(base + b.len() + 2)
    &&& ops[base + b.len() + 1] == SOp::Close(base + 1)
    &&& forall|t: int|
        0 <= t < b.len() ==> is_transfer(#[trigger] b[t]) && ops[base + 1 + t] == literal_op(b[t])
}

/// `ops` is the loop `[b]` compiled literally, and nothing else.
pub open spec fn is_literal_loop(ops: Seq<SOp>, b: Seq<u8>) -> bool {
    is_literal_loop_at(ops, 0, b) && ops.len() == b.len() + 2
}

/// The machine after `n` passes through a loop body `b` that leaves the head
/// where it was: every cell has gained `n` times the net change at its offset.
pub open spec fn after_passes(m: Machine, b: Seq<u8>, n: nat) -> Machine {
    Machine { tape: Seq::new(m.tape.len(), |i: int| (m.tape[i] + n * net(b, i - m.pointer)) as nat), ..m }
}

pub(crate) proof fn lemma_scaled_sum(v: int, k: int, n: nat)
    requires
        n > 0,
    ensures
        (v + k) + (n - 1) * k == v + n * k,
{
    assert((n - 1) * k + k == n * k) by (nonlinear_arith);
}

pub(crate) proof fn lemma_pass_cost(fuel: int, len: int, c: nat)
    requires
        c > 0,
    ensures
        fuel - len - 1 - (c - 1) * (len + 1) == fuel - c * (len + 1),
{
    assert((c - 1) * (len + 1) + (len + 1) == c * (len + 1)) by (nonlinear_arith);
}

/// The passes of a literal loop `[b]` whose counter is nonzero, from the
/// start of its body to the op after the loop: each pass costs one unit of
/// fuel per instruction of the body and one for `]`.
proof fn lemma_loop_passes(ops: Seq<SOp>, base: int, b: Seq<u8>, m: Machine, fuel: nat, input: Seq<u8>)
    requires
        is_literal_loop_at(ops, base, b),
        displacement(b) == 0,
        net(b, 0) == -1,
        0 <= m.pointer < m.tape.len(),
        m.tape[m.pointer] > 0,
        run(ops, base + 1, m, fuel, input).error is None,
    ensures
        fuel >= m.tape[m.pointer] * (b.len() + 1),
        run(ops, base + 1, m, fuel, input) == run(
            ops,
            base + b.len() + 2,
            after_passes(m, b, m.tape[m.pointer]),
            (fuel - m.tape[m.pointer] * (b.len() + 1)) as nat,
            input,
        ),
        0 <= m.pointer + lowest(b),
        m.pointer + highest(b) < m.tape.len(),
        forall|i: int|
            0 <= i < m.tape.len() ==> #[trigger] m.tape[i] + m.tape[m.pointer] * net(b, i - m.pointer) >= 0,
        forall|x: int|
            #![trigger touches(b, x, 43)]
            #![trigger touches(b, x, 45)]
            (touches(b, x, 43) || touches(b, x, 45)) ==> fits(
                (m.tape[m.pointer + x] + m.tape[m.pointer] * net(b, x)) as nat,
            ),
    decreases m.tape[m.pointer],
{
    let p = m.pointer;
    let c = m.tape[p];
    let len = b.len() as int;
    lemma_straight(ops, base + 1, b, len, m, fuel, input);
    assert(b.take(len) =~= b);
    lemma_bytes_effect(b, m);
    let m1 = run_bytes(b, m).0;
    let f = (fuel - len) as nat;
    assert(run(ops, base + 1, m, fuel, input) == run(ops, base + 1 + len, m1, f, input));
    assert(f > 0);
    assert(ops[base + 1 + len] == SOp::Close(base + 1));
    assert(m1.tape[p] == c - 1);
    if m1.tape[p] != 0 {
        assert(run(ops, base + 1 + len, m1, f, input) == run(ops, base + 1, m1, (f - 1) as nat, input));
        lemma_loop_passes(ops, base, b, m1, (f - 1) as nat, input);
        lemma_pass_cost(fuel as int, len, c);
        assert forall|i: int| 0 <= i < m.tape.len() implies #[trigger] m.tape[i] + c * net(b, i - p) >= 0
            && m1.tape[i] + (c - 1) * net(b, i - p) == m.tape[i] + c * net(b, i - p) by {
            lemma_scaled_sum(m.tape[i] as int, net(b, i - p), c);
            assert(m1.tape[i] + m1.tape[p] * net(b, i - p) >= 0);
        }
        assert(after_passes(m1, b, (c - 1) as nat).tape =~= after_passes(m, b, c).tape);
        assert(after_passes(m1, b, (c - 1) as nat) == after_passes(m, b, c));
        assert((f - 1 - (c - 1) * (len + 1)) as nat == (fuel - c * (len + 1)) as nat);
        assert(fuel >= c * (len + 1));
        assert forall|x: int|
            #![trigger touches(b, x, 43)]
            #![trigger touches(b, x, 45)]
            (touches(b, x, 43) || touches(b, x, 45)) implies fits(
                (m.tape[p + x] + c * net(b, x)) as nat,
            ) by {
            if touches(b, x, 43) {
                lemma_touch_within(b, x, 43);
            } else {
                lemma_touch_within(b, x, 45);
            }
            lemma_displacement_bounds(b);
            assert(m1.tape[p + x] + (c - 1) * net(b, p + x - p) == m.tape[p + x] + c * net(b, p + x - p));
        }
    } else {
        assert(run(ops, base + 1 + len, m1, f, input) == run(ops, base + 2 + len, m1, (f - 1) as nat, input));
        assert(c == 1);
        assert forall|i: int| 0 <= i < m.tape.len() implies #[trigger] m.tape[i] + c * net(b, i - p) >= 0 by {
            assert(m1.tape[i] == m.tape[i] + net(b, i - p));
        }
        assert(after_passes(m, b, c).tape =~= m1.tape);
        assert(after_passes(m, b, c) == m1);
        assert(c * (len + 1) == len + 1) by (nonlinear_arith)
            requires
                c == 1,
        ;
        assert((f - 1) as nat == (fuel - c * (len + 1)) as nat);
        assert forall|x: int|
            #![trigger touches(b, x, 43)]
            #![trigger touches(b, x, 45)]
            (touches(b, x, 43) || touches(b, x, 45)) implies fits(
                (m.tape[p + x] + c * net(b, x)) as nat,
            ) by {
            if touches(b, x, 43) {
                lemma_touch_within(b, x, 43);
            } else {
                lemma_touch_within(b, x, 45);
            }
            lemma_displacement_bounds(b);
            assert(m1.tape[p + x] == m.tape[p + x] + net(b, p + x - p));
        }
    }
}

/// A whole literal loop `[b]`, from its `[` to the op after it.
proof fn lemma_loop_at(ops: Seq<SOp>, base: int, b: Seq<u8>, m: Machine, fuel: nat, input: Seq<u8>)
    requires
        is_literal_loop_at(ops, base, b),
        displacement(b) == 0,
        net(b, 0) == -1,
        0 <= m.pointer < m.tape.len(),
        run(ops, base, m, fuel, input).error is None,
    ensures
        fuel >= 1 + m.tape[m.pointer] * (b.len() + 1),
        run(ops, base, m, fuel, input) == run(
            ops,
            base + b.len() + 2,
            after_passes(m, b, m.tape[m.pointer]),
            (fuel - 1 - m.tape[m.pointer] * (b.len() + 1)) as nat,
            input,
        ),
        m.tape[m.pointer] > 0 ==> 0 <= m.pointer + lowest(b) && m.pointer + highest(b) < m.tape.len(),
        forall|i: int|
            0 <= i < m.tape.len() ==> #[trigger] m.tape[i] + m.tape[m.pointer] * net(b, i - m.pointer) >= 0,
        forall|x: int|
            #![trigger touches(b, x, 43)]
            #![trigger touches(b, x, 45)]
            m.tape[m.pointer] > 0 && (touches(b, x, 43) || touches(b, x, 45)) ==> fits(
                (m.tape[m.pointer + x] + m.tape[m.pointer] * net(b, x)) as nat,
            ),
{
    let p = m.pointer;
    let n = m.tape[p];
    let len = b.len() as int;
    assert(fuel > 0);
    if n == 0 {
        assert(run(ops, base, m, fuel, input) == run(ops, base + len + 2, m, (fuel - 1) as nat, input));
        assert(after_passes(m, b, 0).tape =~= m.tape);
        assert(after_passes(m, b, 0) == m);
    } else {
        assert(run(ops, base, m, fuel, input) == run(ops, base + 1, m, (fuel - 1) as nat, input));
        lemma_loop_passes(ops, base, b, m, (fuel - 1) as nat, input);
    }
}

proof fn lemma_body_end_transfers(s: Seq<u8>, i: int)
    requires
        0 <= i <= s.len(),
    ensures
        i <= body_end(s, i) <= s.len(),
        forall|t: int| i <= t < body_end(s, i) ==> is_transfer(#[trigger] s[t]),
        body_end(s, i) < s.len() ==> !is_transfer(s[body_end(s, i)]),
    decreases s.len() - i,
{
    if i < s.len() && is_transfer(s[i]) {
        lemma_body_end_transfers(s, i + 1);
    }
}

proof fn lemma_link_loop_start(w: Seq<SOp>, k: int)
    requires
        1 <= k <= w.len(),
        w[0] == SOp::Open(0),
        forall|t: int| 1 <= t < w.len() ==> (#[trigger] w[t] is Move || w[t] is Add),
    ensures
        link(w.take(k)) == (Linked { ops: w.take(k), open: seq![0int], ok: true }),
    decreases k,
{
    assert(w.take(k).drop_last() =~= w.take(k - 1));
    if k == 1 {
        assert(w.take(0) =~= Seq::<SOp>::empty());
        assert(w.take(1) =~= seq![SOp::Open(0)]);
        let e = Seq::<SOp>::empty();
        assert(link(e) == Linked { ops: e, open: Seq::<int>::empty(), ok: true });
        assert(w.take(1).drop_last() =~= e);
        assert(w.take(1).last() == SOp::Open(0));
        assert(e.push(SOp::Open(0)) =~= seq![SOp::Open(0)]);
        assert(Seq::<int>::empty().push(0) =~= seq![0int]);
        assert(link(w.take(1)).ops =~= seq![SOp::Open(0)]);
        assert(link(w.take(1)).open =~= seq![0int]);
    } else {
        lemma_link_loop_start(w, k - 1);
        assert(w.take(k).last() == w[k - 1]);
        assert(w.take(k - 1).push(w[k - 1]) =~= w.take(k));
    }
}

/// The loop an affine loop is recognized in, compiled literally: one op per
/// instruction, with `[` and `]` linked to each other.
pub open spec fn loop_program(s: Seq<u8>) -> Option<Seq<SOp>> {
    compiled(s.take(body_end(s, 1) + 1), false)
}

/// The body of the loop at the start of `s`.
pub open spec fn loop_body(s: Seq<u8>) -> Seq<u8> {
    s.subrange(1, body_end(s, 1))
}

pub(crate) proof fn lemma_loop_compiles(s: Seq<u8>)
    requires
        s.len() > 0,
        s[0] == 91,
        affine_spec(s) is Some,
    ensures
        loop_program(s) is Some,
        is_literal_loop(loop_program(s)->0, loop_body(s)),
        affine_spec(s)->0.len == body_end(s, 1) + 1,
{
    let j = body_end(s, 1);
    lemma_body_end_transfers(s, 1);
    let b = loop_body(s);
    let t = s.take(j + 1);
    lemma_lex_literal(t, 0);
    let w = lex(t, 0, false);
    assert(w.len() == j + 1);
    assert(w[0] == literal_op(t[0]));
    assert forall|k: int| 1 <= k < w.len() - 1 implies (#[trigger] w[k] is Move || w[k] is Add) by {
        assert(w[k] == literal_op(t[0 + k]));
        assert(is_transfer(s[k]));
    }
    let w0 = w.drop_last();
    assert forall|k: int| 1 <= k < w0.len() implies (#[trigger] w0[k] is Move || w0[k] is Add) by {
        assert(w0[k] == w[k]);
    }
    lemma_link_loop_start(w0, j);
    assert(w0.take(j) =~= w0);
    assert(w[j] == literal_op(t[0 + j]));
    assert(w.last() is Close);
    let ops = w0.update(0, SOp::Open(j + 1)).push(SOp::Close(1));
    assert(link(w).ops == ops);
    assert(link(w).open =~= Seq::<int>::empty());
    assert forall|k: int| 0 <= k < b.len() implies is_transfer(#[trigger] b[k]) && ops[1 + k] == literal_op(b[k]) by {
        assert(b[k] == s[1 + k]);
        assert(w[1 + k] == literal_op(t[0 + (1 + k)]));
    }
}

pub(crate) proof fn lemma_affine_apply_push(ts: Seq<(int, int)>, tm: (int, int), k: int, tape: Seq<nat>, p: int, n: nat)
    requires
        0 <= k <= ts.len(),
    ensures
        affine_apply(ts.push(tm), k, tape, p, n) == (if affine_apply(ts, k, tape, p, n).1 is Some {
            affine_apply(ts, k, tape, p, n)
        } else {
            affine_apply(seq![tm], 0, affine_apply(ts, k, tape, p, n).0, p, n)
        }),
    decreases ts.len() - k,
{
    let us = ts.push(tm);
    if k == ts.len() {
        assert(us[k] == tm);
        let one = seq![tm];
        assert(one[0] == tm);
        assert(affine_apply(ts, k, tape, p, n) == (tape, None::<VmError>));
        let offset = tm.0;
        let coefficient = tm.1;
        match target(p, offset, tape.len() as int) {
            None => {},
            Some(at) => {
                let amount = n * (if coefficient < 0 { -coefficient } else { coefficient }) as nat;
                if !(coefficient <= 0 && tape[at] < amount) {
                    let w = if coefficient > 0 { tape[at] + amount } else { (tape[at] - amount) as nat };
                    let t2 = tape.update(at, w);
                    assert(affine_apply(us, k + 1, t2, p, n) == (t2, None::<VmError>));
                    assert(affine_apply(one, 1, t2, p, n) == (t2, None::<VmError>));
                }
            },
        }
    } else {
        assert(us[k] == ts[k]);
        let offset = ts[k].0;
        let coefficient = ts[k].1;
        match target(p, offset, tape.len() as int) {
            None => {},
            Some(at) => {
                let amount = n * (if coefficient < 0 { -coefficient } else { coefficient }) as nat;
                if !(coefficient <= 0 && tape[at] < amount) {
                    let w = if coefficient > 0 { tape[at] + amount } else { (tape[at] - amount) as nat };
                    lemma_affine_apply_push(ts, tm, k + 1, tape.update(at, w), p, n);
                }
            },
        }
    }
}

/// The tape once the terms of a loop body `b` at the offsets `low .. low + k`
/// are applied `n` times from a head at `p`.
pub open spec fn applied_terms(tape: Seq<nat>, p: int, n: nat, b: Seq<u8>, low: int, k: int) -> Seq<nat> {
    Seq::new(
        tape.len(),
        |i: int|
            if i != p && low <= i - p < low + k && net(b, i - p) != 0 {
                (tape[i] + n * net(b, i - p)) as nat
            } else {
                tape[i]
            },
    )
}

proof fn lemma_affine_terms(b: Seq<u8>, low: int, k: int, tape: Seq<nat>, p: int, n: nat)
    requires
        0 <= k,
        forall|x: int|
            low <= x < low + k && x != 0 && #[trigger] net(b, x) != 0 ==> 0 <= p + x < tape.len() && tape[p + x] + n
                * net(b, x) >= 0 && fits((tape[p + x] + n * net(b, x)) as nat),
    ensures
        affine_apply(terms_upto(b, low, k), 0, tape, p, n) == (applied_terms(tape, p, n, b, low, k), None::<VmError>),
    decreases k,
{
    if k == 0 {
        assert(applied_terms(tape, p, n, b, low, k) =~= tape);
    } else {
        let x = low + k - 1;
        let prev = terms_upto(b, low, k - 1);
        lemma_affine_terms(b, low, k - 1, tape, p, n);
        let e0 = applied_terms(tape, p, n, b, low, k - 1);
        if x != 0 && net(b, x) != 0 {
            let tm = (x, net(b, x));
            lemma_affine_apply_push(prev, tm, 0, tape, p, n);
            let coefficient = net(b, x);
            let at = p + x;
            assert(e0[at] == tape[at]);
            let amount = n * (if coefficient < 0 { -coefficient } else { coefficient }) as nat;
            if coefficient < 0 {
                assert(n * (-coefficient) == -(n * coefficient)) by (nonlinear_arith);
            }
            let w = if coefficient > 0 { tape[at] + amount } else { (tape[at] - amount) as nat };
            assert(w == tape[at] + n * coefficient);
            let one = seq![tm];
            assert(one[0] == tm);
            assert(affine_apply(one, 1, e0.update(at, w), p, n) == (e0.update(at, w), None::<VmError>));
            assert(affine_apply(one, 0, e0, p, n) == (e0.update(at, w), None::<VmError>));
            assert(e0.update(at, w) =~= applied_terms(tape, p, n, b, low, k));
        } else {
            assert(e0 =~= applied_terms(tape, p, n, b, low, k));
        }
    }
}

/// The `Affine` op the optimizer makes of the loop at the start of `s`.
pub open spec fn affine_op(s: Seq<u8>) -> SOp {
    SOp::Affine { terms: affine_spec(s)->0.terms, low: affine_spec(s)->0.low, high: affine_spec(s)->0.high }
}

/// A cell outside the reach of a loop body keeps its value.
pub(crate) proof fn lemma_untouched(b: Seq<u8>, x: int)
    requires
        x < lowest(b) || x > highest(b),
    ensures
        net(b, x) == 0,
{
    if touches(b, x, 43) {
        lemma_touch_within(b, x, 43);
    }
    if touches(b, x, 45) {
        lemma_touch_within(b, x, 45);
    }
    lemma_net_bounds(b, x);
}

/// An affine loop does in one step what the loop it stands for does: where
/// the loop `[body]` at the start of the instructions `s`, compiled literally
/// and run on its own, ends without an error, the `Affine` op the optimizer
/// makes of it goes on to the next op with the same tape, head, input
/// position and output.
pub proof fn law_affine_loop_matches_literal(s: Seq<u8>, pc: int, m: Machine, fuel: nat, input: Seq<u8>)
    requires
        s.len() > 0,
        s[0] == 91,
        affine_spec(s) is Some,
        valid(m, input),
        run(loop_program(s)->0, 0, m, fuel, input).error is None,
    ensures
        loop_program(s) is Some,
        op_step(affine_op(s), pc, m, input, mul_program(), div_program()) == Step::Jump(
            pc + 1,
            run(loop_program(s)->0, 0, m, fuel, input).machine,
        ),
{
    lemma_loop_compiles(s);
    let ops = loop_program(s)->0;
    let b = loop_body(s);
    let a = affine_spec(s)->0;
    let len = b.len() as int;
    let p = m.pointer;
    let tape = m.tape;
    let n = tape[p];
    assert(a.low == lowest(b) && a.high == highest(b));
    assert(a.terms == terms_upto(b, lowest(b), highest(b) - lowest(b) + 1));
    assert(displacement(b) == 0 && net(b, 0) == -1);
    lemma_loop_at(ops, 0, b, m, fuel, input);
    assert(run(ops, len + 2, after_passes(m, b, n), (fuel - 1 - n * (len + 1)) as nat, input).machine
        == after_passes(m, b, n));
    if n == 0 {
        assert(after_passes(m, b, 0).tape =~= m.tape);
    } else {
        let fin = after_passes(m, b, n);
        let low = lowest(b);
        let high = highest(b);
        lemma_displacement_bounds(b);
        assert(target(p, low, tape.len() as int) is Some);
        assert(target(p, high, tape.len() as int) is Some);
        assert forall|x: int|
            low <= x < low + (high - low + 1) && x != 0 && #[trigger] net(b, x) != 0 implies 0 <= p + x
                < tape.len() && tape[p + x] + n * net(b, x) >= 0 && fits((tape[p + x] + n * net(b, x)) as nat) by {
            lemma_net_bounds(b, x);
            assert(tape[p + x] + n * net(b, (p + x) - p) >= 0);
        }
        lemma_affine_terms(b, low, high - low + 1, tape, p, n);
        let applied = applied_terms(tape, p, n, b, low, high - low + 1);
        assert forall|i: int| 0 <= i < tape.len() implies #[trigger] applied.update(p, 0)[i] == fin.tape[i] by {
            if i != p && !(low <= i - p <= high) {
                lemma_untouched(b, i - p);
            }
        }
        assert(applied.update(p, 0) =~= fin.tape);
    }
}

/// Repeating one instruction of `><+-`: the head moves by the count for
/// `>` (and back for `<`), and the cell under the head gains the count for
/// `+` (or loses it for `-`).
pub(crate) proof fn lemma_repeated(b: Seq<u8>, c: u8)
    requires
        is_transfer(c),
        forall|t: int| 0 <= t < b.len() ==> #[trigger] b[t] == c,
    ensures
        displacement(b) == (if c == 62 { b.len() as int } else if c == 60 { -b.len() } else { 0 }),
        lowest(b) == (if c == 60 { -b.len() } else { 0 }),
        highest(b) == (if c == 62 { b.len() as int } else { 0 }),
        forall|x: int|
            #[trigger] net(b, x) == (if x == 0 && c == 43 {
                b.len() as int
            } else if x == 0 && c == 45 {
                -b.len()
            } else {
                0
            }),
        b.len() > 0 && c == 43 ==> touches(b, 0, 43),
        b.len() > 0 && c == 45 ==> touches(b, 0, 45),
    decreases b.len(),
{
    if b.len() > 0 {
        let b0 = b.drop_last();
        assert forall|t: int| 0 <= t < b0.len() implies #[trigger] b0[t] == c by {
            assert(b0[t] == b[t]);
        }
        lemma_repeated(b0, c);
        assert(b.last() == c);
        assert forall|x: int|
            #[trigger] net(b, x) == (if x == 0 && c == 43 {
                b.len() as int
            } else if x == 0 && c == 45 {
                -b.len()
            } else {
                0
            }) by {
            assert(net(b0, x) == (if x == 0 && c == 43 {
                b0.len() as int
            } else if x == 0 && c == 45 {
                -b0.len()
            } else {
                0
            }));
        }
    }
}

/// Linking ops without brackets leaves them as they are.
pub(crate) proof fn lemma_link_plain(w: Seq<SOp>)
    requires
        forall|t: int| 0 <= t < w.len() ==> !(#[trigger] w[t] is Open) && !(w[t] is Close),
    ensures
        link(w) == (Linked { ops: w, open: Seq::<int>::empty(), ok: true }),
    decreases w.len(),
{
    if w.len() > 0 {
        let w0 = w.drop_last();
        assert forall|t: int| 0 <= t < w0.len() implies !(#[trigger] w0[t] is Open) && !(w0[t] is Close) by {
            assert(w0[t] == w[t]);
        }
        lemma_link_plain(w0);
        assert(w0.push(w.last()) =~= w);
    } else {
        assert(w =~= Seq::<SOp>::empty());
    }
}

/// Both loop patterns the optimizer recognizes start with `[`.
pub(crate) proof fn lemma_patterns_open()
    ensures
        MUL.spec_bytes()[0] == 91,
        DIV.spec_bytes()[0] == 91,
{
    reveal_strlit("[>[->+>+<<]>>[-<<+>>]<<<-]");
    reveal_strlit("[->-[>+>>]>[[-<+>]+>+>>]<<<<<]");
    vstd::string::is_ascii_spec_bytes(MUL);
    vstd::string::is_ascii_spec_bytes(DIV);
}

/// The run of equal instructions at the start of `s`.
pub open spec fn leading_run(s: Seq<u8>) -> Seq<u8> {
    s.take(run_length(s, 0, s[0]))
}

pub(crate) proof fn lemma_run_length(s: Seq<u8>, i: int, c: u8)
    requires
        0 <= i <= s.len(),
    ensures
        0 <= run_length(s, i, c) <= s.len() - i,
        forall|t: int| i <= t < i + run_length(s, i, c) ==> #[trigger] s[t] == c,
    decreases s.len() - i,
{
    if i < s.len() && s[i] == c {
        lemma_run_length(s, i + 1, c);
    }
}

/// A folded run of moves or additions does in one step what the run of
/// instructions it stands for does: where the run of equal instructions of
/// `><+-` at the start of the instructions `s`, compiled literally and run on
/// its own, ends without an error, the op the optimizer makes of it goes on
/// to the next op with the same tape, head, input position and output.
pub proof fn law_folded_run_matches_literal(s: Seq<u8>, pc: int, m: Machine, fuel: nat, input: Seq<u8>)
    requires
        s.len() > 0,
        is_transfer(s[0]),
        valid(m, input),
        run(compiled(leading_run(s), false)->0, 0, m, fuel, input).error is None,
    ensures
        compiled(leading_run(s), false) is Some,
        op_step(token(s, 0, true).0, pc, m, input, mul_program(), div_program()) == Step::Jump(
            pc + 1,
            run(compiled(leading_run(s), false)->0, 0, m, fuel, input).machine,
        ),
{
    let c = s[0];
    let k = run_length(s, 0, c);
    let b = leading_run(s);
    lemma_run_length(s, 0, c);
    lemma_run_length(s, 1, c);
    assert(k == 1 + run_length(s, 1, c));
    assert forall|t: int| 0 <= t < b.len() implies #[trigger] b[t] == c by {
        assert(b[t] == s[t]);
    }
    lemma_lex_literal(b, 0);
    let w = lex(b, 0, false);
    assert forall|t: int| 0 <= t < w.len() implies !(#[trigger] w[t] is Open) && !(w[t] is Close) by {
        assert(w[t] == literal_op(b[0 + t]));
    }
    lemma_link_plain(w);
    let ops = w;
    assert(compiled(b, false) == Some(ops));
    assert forall|t: int| 0 <= t < b.len() implies is_transfer(#[trigger] b[t]) && ops[0 + t] == literal_op(b[t]) by {
        assert(w[t] == literal_op(b[0 + t]));
    }
    lemma_straight(ops, 0, b, k, m, fuel, input);
    assert(b.take(k) =~= b);
    lemma_bytes_effect(b, m);
    lemma_repeated(b, c);
    lemma_patterns_open();
    lemma_pattern_lengths();
    assert(!occurs_at(s, 0, MUL.spec_bytes())) by {
        if occurs_at(s, 0, MUL.spec_bytes()) {
            assert(s.subrange(0, MUL.spec_bytes().len() as int)[0] == s[0]);
        }
    }
    assert(!occurs_at(s, 0, DIV.spec_bytes())) by {
        if occurs_at(s, 0, DIV.spec_bytes()) {
            assert(s.subrange(0, DIV.spec_bytes().len() as int)[0] == s[0]);
        }
    }
    let fin = run_bytes(b, m).0;
    assert(run(ops, 0, m, fuel, input).machine == fin);
    let p = m.pointer;
    if c == 62 || c == 60 {
        assert(fin.tape =~= m.tape);
    } else {
        assert(touches(b, 0, c));
        assert(fin.tape[p] == m.tape[p] + net(b, 0));
        assert(fin.tape =~= m.tape.update(p, fin.tape[p]));
    }
}

/// The multiplication loop compiled literally: an outer loop around a
/// transfer of cell 1 into cells 2 and 3 and a transfer of cell 3 back
/// into cell 1.
pub open spec fn literal_mul_ops() -> Seq<SOp> {
    seq![
        SOp::Open(26),
        SOp::Move(1),
        SOp::Open(11),
        SOp::Add(-1),
        SOp::Move(1),
        SOp::Add(1),
        SOp::Move(1),
        SOp::Add(1),
        SOp::Move(-1),
        SOp::Move(-1),
        SOp::Close(3),
        SOp::Move(1),
        SOp::Move(1),
        SOp::Open(21),
        SOp::Add(-1),
        SOp::Move(-1),
        SOp::Move(-1),
        SOp::Add(1),
        SOp::Move(1),
        SOp::Move(1),
        SOp::Close(14),
        SOp::Move(-1),
        SOp::Move(-1),
        SOp::Move(-1),
        SOp::Add(-1),
        SOp::Close(1),
    ]
}

pub open spec fn mul_bytes() -> Seq<u8> {
    seq![91u8, 62, 91, 45, 62, 43, 62, 43, 60, 60, 93, 62, 62, 91, 45, 60, 60, 43, 62, 62, 93, 60, 60, 60, 45, 93]
}

pub(crate) proof fn lemma_all_instructions(s: Seq<u8>)
    requires
        forall|t: int| 0 <= t < s.len() ==> is_instruction(#[trigger] s[t]),
    ensures
        instructions(s) == s,
    decreases s.len(),
{
    if s.len() > 0 {
        let s0 = s.drop_last();
        assert forall|t: int| 0 <= t < s0.len() implies is_instruction(#[trigger] s0[t]) by {
            assert(s0[t] == s[t]);
        }
        lemma_all_instructions(s0);
        assert(s0.push(s.last()) =~= s);
    }
}

/// Linking more ops without brackets appends them as they are.
pub(crate) proof fn lemma_link_plain_suffix(t: Seq<SOp>, w: Seq<SOp>)
    requires
        link(t).ok,
        forall|k: int| 0 <= k < w.len() ==> !(#[trigger] w[k] is Open) && !(w[k] is Close),
    ensures
        link(t + w) == (Linked { ops: link(t).ops + w, open: link(t).open, ok: true }),
    decreases w.len(),
{
    if w.len() == 0 {
        assert(t + w =~= t);
        assert(link(t).ops + w =~= link(t).ops);
    } else {
        let w0 = w.drop_last();
        assert forall|k: int| 0 <= k < w0.len() implies !(#[trigger] w0[k] is Open) && !(w0[k] is Close) by {
            assert(w0[k] == w[k]);
        }
        lemma_link_plain_suffix(t, w0);
        assert((t + w).drop_last() =~= t + w0);
        assert((t + w).last() == w.last());
        assert((link(t).ops + w0).push(w.last()) =~= link(t).ops + w);
    }
}

pub(crate) proof fn lemma_mul_program()
    ensures
        mul_program() == Some(literal_mul_ops()),
        instructions(MUL.spec_bytes()) == MUL.spec_bytes(),
{
    reveal_strlit("[>[->+>+<<]>>[-<<+>>]<<<-]");
    vstd::string::is_ascii_spec_bytes(MUL);
    let bytes = mul_bytes();
    assert(MUL.spec_bytes() =~= bytes);
    lemma_all_instructions(bytes);
    lemma_lex_literal(bytes, 0);
    let w = lex(bytes, 0, false);
    let e = Seq::<SOp>::empty();
    let t0 = e.push(SOp::Open(0));
    assert(t0.drop_last() =~= e);
    assert(link(e) == Linked { ops: e, open: Seq::<int>::empty(), ok: true });
    let l0 = link(t0);
    assert(l0.ops =~= seq![SOp::Open(0)] && l0.open =~= seq![0int] && l0.ok);
    let p1 = seq![SOp::Move(1)];
    lemma_link_plain_suffix(t0, p1);
    let t1 = t0 + p1;
    let t2 = t1.push(SOp::Open(0));
    assert(t2.drop_last() =~= t1);
    let l2 = link(t2);
    assert(l2.open =~= seq![0int, 2]);
    let p3 = seq![SOp::Add(-1), SOp::Move(1), SOp::Add(1), SOp::Move(1), SOp::Add(1), SOp::Move(-1), SOp::Move(-1)];
    lemma_link_plain_suffix(t2, p3);
    let t3 = t2 + p3;
    let t4 = t3.push(SOp::Close(0));
    assert(t4.drop_last() =~= t3);
    let l4 = link(t4);
    assert(l4.open =~= seq![0int]);
    let p5 = seq![SOp::Move(1), SOp::Move(1)];
    lemma_link_plain_suffix(t4, p5);
    let t5 = t4 + p5;
    let t6 = t5.push(SOp::Open(0));
    assert(t6.drop_last() =~= t5);
    let l6 = link(t6);
    assert(l6.open =~= seq![0int, 13]);
    let p7 = seq![SOp::Add(-1), SOp::Move(-1), SOp::Move(-1), SOp::Add(1), SOp::Move(1), SOp::Move(1)];
    lemma_link_plain_suffix(t6, p7);
    let t7 = t6 + p7;
    let t8 = t7.push(SOp::Close(0));
    assert(t8.drop_last() =~= t7);
    let l8 = link(t8);
    assert(l8.open =~= seq![0int]);
    let p9 = seq![SOp::Move(-1), SOp::Move(-1), SOp::Move(-1), SOp::Add(-1)];
    lemma_link_plain_suffix(t8, p9);
    let t9 = t8 + p9;
    let t10 = t9.push(SOp::Close(0));
    assert(t10.drop_last() =~= t9);
    assert(link(t10).ops =~= literal_mul_ops());
    assert(link(t10).open =~= Seq::<int>::empty());
    assert(w =~= t10);
}

/// The body of the multiplication's first inner loop, `->+>+<<`.
pub open spec fn mul_first_body() -> Seq<u8> {
    seq![45u8, 62, 43, 62, 43, 60, 60]
}

/// The body of the multiplication's second inner loop, `-<<+>>`.
pub open spec fn mul_second_body() -> Seq<u8> {
    seq![45u8, 60, 60, 43, 62, 62]
}

pub(crate) proof fn lemma_mul_bodies()
    ensures
        is_literal_loop_at(literal_mul_ops(), 2, mul_first_body()),
        is_literal_loop_at(literal_mul_ops(), 13, mul_second_body()),
        displacement(mul_first_body()) == 0,
        displacement(mul_second_body()) == 0,
        forall|x: int|
            #[trigger] net(mul_first_body(), x) == (if x == 0 {
                -1int
            } else if x == 1 || x == 2 {
                1int
            } else {
                0int
            }),
        forall|x: int|
            #[trigger] net(mul_second_body(), x) == (if x == 0 {
                -1int
            } else if x == -2 {
                1int
            } else {
                0int
            }),
{
    let b1 = mul_first_body();
    let b2 = mul_second_body();
    let ops = literal_mul_ops();
    assert forall|t: int| 0 <= t < b1.len() implies is_transfer(#[trigger] b1[t]) && ops[2 + 1 + t]
        == literal_op(b1[t]) by {
    }
    assert forall|t: int| 0 <= t < b2.len() implies is_transfer(#[trigger] b2[t]) && ops[13 + 1 + t]
        == literal_op(b2[t]) by {
    }
    reveal_with_fuel(displacement, 8);
    reveal_with_fuel(net, 8);
    assert(b1.drop_last().drop_last().drop_last().drop_last().drop_last().drop_last().drop_last() =~= Seq::<u8>::empty());
    assert(b2.drop_last().drop_last().drop_last().drop_last().drop_last().drop_last() =~= Seq::<u8>::empty());
}

/// The multiplication's tape once its counter `c` is spent: the counter is 0
/// and cell 2 has gained `c` times cell 1.
pub open spec fn mul_result(m: Machine) -> Machine {
    let p = m.pointer;
    Machine {
        tape: m.tape.update(p, 0).update(p + 2, m.tape[p + 2] + m.tape[p] * m.tape[p + 1]),
        ..m
    }
}

pub(crate) proof fn lemma_mul_sum(x: int, bb: int, c: nat)
    requires
        c > 0,
    ensures
        (x + bb) + (c - 1) * bb == x + c * bb,
{
    assert((c - 1) * bb + bb == c * bb) by (nonlinear_arith);
}

/// The end of the multiplication loop's body, `<<<-`.
pub open spec fn mul_body_end() -> Seq<u8> {
    seq![60u8, 60, 60, 45]
}

pub(crate) proof fn lemma_back_to_counter()
    ensures
        displacement(mul_body_end()) == -3,
        lowest(mul_body_end()) == -3,
        highest(mul_body_end()) == 0,
        forall|x: int| #[trigger] net(mul_body_end(), x) == (if x == -3 { -1int } else { 0int }),
{
    let r = mul_body_end();
    reveal_with_fuel(displacement, 5);
    reveal_with_fuel(lowest, 5);
    reveal_with_fuel(highest, 5);
    reveal_with_fuel(net, 5);
    assert(r.drop_last().drop_last().drop_last().drop_last() =~= Seq::<u8>::empty());
}

/// One pass of the literal multiplication loop with a nonzero counter and
/// an empty cell 3: the counter goes down by one and cell 2 gains cell 1,
/// and the run reaches the loop's `]`.
#[verifier::spinoff_prover]
#[verifier::rlimit(40)]
proof fn lemma_mul_pass(m: Machine, fuel: nat, input: Seq<u8>) -> (f: nat)
    requires
        0 <= m.pointer < m.tape.len(),
        m.tape[m.pointer] > 0,
        m.pointer + 3 < m.tape.len() ==> m.tape[m.pointer + 3] == 0,
        run(literal_mul_ops(), 1, m, fuel, input).error is None,
    ensures
        m.pointer + 3 < m.tape.len(),
        run(literal_mul_ops(), 1, m, fuel, input) == run(
            literal_mul_ops(),
            25,
            Machine {
                tape: m.tape.update(m.pointer, (m.tape[m.pointer] - 1) as nat).update(
                    m.pointer + 2,
                    m.tape[m.pointer + 2] + m.tape[m.pointer + 1],
                ),
                ..m
            },
            f,
            input,
        ),
        m.tape[m.pointer + 1] > 0 ==> fits(m.tape[m.pointer + 2] + m.tape[m.pointer + 1]),
{
    let ops = literal_mul_ops();
    let p = m.pointer;
    let c = m.tape[p];
    lemma_mul_bodies();
    let b1 = mul_first_body();
    let b2 = mul_second_body();
    // `>`
    let r1 = seq![62u8];
    assert forall|t: int| 0 <= t < r1.len() implies #[trigger] r1[t] == 62 by {}
    lemma_repeated(r1, 62);
    lemma_straight(ops, 1, r1, 1, m, fuel, input);
    assert(r1.take(1) =~= r1);
    lemma_bytes_effect(r1, m);
    let m1 = run_bytes(r1, m).0;
    assert(m1.pointer == p + 1);
    assert(m1.tape =~= m.tape);
    let f1 = (fuel - 1) as nat;
    // `[->+>+<<]`
    let bb = m.tape[p + 1];
    let x = m.tape[p + 2];
    lemma_loop_at(ops, 2, b1, m1, f1, input);
    let m2 = after_passes(m1, b1, bb);
    let f2 = (f1 - 1 - bb * (b1.len() + 1)) as nat;
    // `>>`
    let r2 = seq![62u8, 62];
    assert forall|t: int| 0 <= t < r2.len() implies #[trigger] r2[t] == 62 by {}
    lemma_repeated(r2, 62);
    lemma_straight(ops, 11, r2, 2, m2, f2, input);
    assert(r2.take(2) =~= r2);
    lemma_bytes_effect(r2, m2);
    let m3 = run_bytes(r2, m2).0;
    assert(m3.pointer == p + 3);
    assert(m3.tape =~= m2.tape);
    let f3 = (f2 - 2) as nat;
    assert(m2.tape[p + 3] == bb) by {
        assert(m1.tape[p + 3] + bb * net(b1, (p + 3) - (p + 1)) >= 0);
    }
    // `[-<<+>>]`
    lemma_loop_at(ops, 13, b2, m3, f3, input);
    let m4 = after_passes(m3, b2, bb);
    let f4 = (f3 - 1 - bb * (b2.len() + 1)) as nat;
    // `<<<-`
    let r3 = mul_body_end();
    lemma_back_to_counter();
    lemma_straight(ops, 21, r3, 4, m4, f4, input);
    assert(r3.take(4) =~= r3);
    lemma_bytes_effect(r3, m4);
    let m5 = run_bytes(r3, m4).0;
    let f5 = (f4 - 4) as nat;
    assert(m5.pointer == p);
    let one = m.tape.update(p, (c - 1) as nat).update(p + 2, x + bb);
    assert forall|i: int| 0 <= i < m.tape.len() implies #[trigger] m5.tape[i] == one[i] by {
        assert(m1.tape[i] + bb * net(b1, i - (p + 1)) >= 0);
        assert(m3.tape[i] + bb * net(b2, i - (p + 3)) >= 0);
        if i == p + 1 || i == p + 3 {
            assert(bb * (-1) == -bb) by (nonlinear_arith);
        }
    }
    assert(m5.tape =~= one);
    if bb > 0 {
        assert(touches(b1, 1, 43)) by {
            lemma_net_bounds(b1, 1);
        }
        assert(m1.tape[(p + 1) + 1] == x);
    }
    f5
}

/// The passes of the literal multiplication loop with a nonzero counter and
/// an empty cell 3, from the start of its body.
proof fn lemma_mul_passes(m: Machine, fuel: nat, input: Seq<u8>)
    requires
        0 <= m.pointer < m.tape.len(),
        m.tape[m.pointer] > 0,
        m.pointer + 3 < m.tape.len() ==> m.tape[m.pointer + 3] == 0,
        run(literal_mul_ops(), 1, m, fuel, input).error is None,
    ensures
        m.pointer + 3 < m.tape.len(),
        run(literal_mul_ops(), 1, m, fuel, input).machine == mul_result(m),
        m.tape[m.pointer + 1] > 0 ==> fits(m.tape[m.pointer + 2] + m.tape[m.pointer] * m.tape[m.pointer + 1]),
    decreases m.tape[m.pointer],
{
    let ops = literal_mul_ops();
    let p = m.pointer;
    let c = m.tape[p];
    let bb = m.tape[p + 1];
    let x = m.tape[p + 2];
    let f5 = lemma_mul_pass(m, fuel, input);
    let m5 = Machine { tape: m.tape.update(p, (c - 1) as nat).update(p + 2, x + bb), ..m };
    assert(ops[25] == SOp::Close(1));
    assert(f5 > 0);
    if c - 1 != 0 {
        assert(run(ops, 25, m5, f5, input) == run(ops, 1, m5, (f5 - 1) as nat, input));
        lemma_mul_passes(m5, (f5 - 1) as nat, input);
        lemma_mul_sum(x as int, bb as int, c);
        assert(mul_result(m5).tape =~= mul_result(m).tape);
    } else {
        assert(run(ops, 25, m5, f5, input) == run(ops, 26, m5, (f5 - 1) as nat, input));
        assert(c * bb == bb) by (nonlinear_arith)
            requires
                c == 1,
        ;
        assert(m5.tape =~= mul_result(m).tape);
    }
}

/// The `Mul` op does what the multiplication loop `MUL` it stands for does:
/// where that loop, compiled literally and run on its own from a machine
/// whose cells all fit, ends without an error, `Mul` goes on to the next op
/// with the same tape, head, input position and output, unless cell 3 is
/// not empty, in which case it runs the literal loop itself.
pub proof fn law_mul_matches_literal(pc: int, m: Machine, fuel: nat, input: Seq<u8>)
    requires
        valid(m, input),
        all_fit(m.tape),
        run(mul_program()->0, 0, m, fuel, input).error is None,
    ensures
        mul_program() is Some,
        op_step(SOp::Mul, pc, m, input, mul_program(), div_program()) == (if m.tape[m.pointer] != 0
            && m.tape[m.pointer + 3] != 0 {
            Step::Call(mul_program(), m)
        } else {
            Step::Jump(pc + 1, run(mul_program()->0, 0, m, fuel, input).machine)
        }),
{
    lemma_mul_program();
    let ops = literal_mul_ops();
    let p = m.pointer;
    let a = m.tape[p];
    assert(fuel > 0);
    if a == 0 {
        assert(run(ops, 0, m, fuel, input) == run(ops, 26, m, (fuel - 1) as nat, input));
    } else {
        assert(run(ops, 0, m, fuel, input) == run(ops, 1, m, (fuel - 1) as nat, input));
        if p + 3 >= m.tape.len() {
            lemma_mul_passes(m, (fuel - 1) as nat, input);
        }
        if m.tape[p + 3] == 0 {
            lemma_mul_passes(m, (fuel - 1) as nat, input);
            let bb = m.tape[p + 1];
            let x = m.tape[p + 2];
            let amount = a * bb;
            if bb > 0 {
                lemma_bit_length_monotone(amount, x + amount);
            } else {
                assert(amount == 0) by (nonlinear_arith)
                    requires
                        bb == 0,
                        amount == a * bb,
                ;
                assert(fits(x));
            }
            assert(mul_result(m).tape =~= m.tape.update(p + 2, x + amount).update(p, 0));
        }
    }
}

/// The divmod loop compiled literally.
pub open spec fn literal_div_ops() -> Seq<SOp> {
    seq![
        SOp::Open(30),
        SOp::Add(-1),
        SOp::Move(1),
        SOp::Add(-1),
        SOp::Open(10),
        SOp::Move(1),
        SOp::Add(1),
        SOp::Move(1),
        SOp::Move(1),
        SOp::Close(5),
        SOp::Move(1),
        SOp::Open(24),
        SOp::Open(18),
        SOp::Add(-1),
        SOp::Move(-1),
        SOp::Add(1),
        SOp::Move(1),
        SOp::Close(13),
        SOp::Add(1),
        SOp::Move(1),
        SOp::Add(1),
        SOp::Move(1),
        SOp::Move(1),
        SOp::Close(12),
        SOp::Move(-1),
        SOp::Move(-1),
        SOp::Move(-1),
        SOp::Move(-1),
        SOp::Move(-1),
        SOp::Close(1),
    ]
}

pub open spec fn div_bytes() -> Seq<u8> {
    seq![
        91u8, 45, 62, 45, 91, 62, 43, 62, 62, 93, 62, 91, 91, 45, 60, 43, 62, 93, 43, 62, 43, 62, 62, 93, 60,
        60, 60, 60, 60, 93,
    ]
}

pub(crate) proof fn lemma_div_program()
    ensures
        div_program() == Some(literal_div_ops()),
        instructions(DIV.spec_bytes()) == DIV.spec_bytes(),
{
    reveal_strlit("[->-[>+>>]>[[-<+>]+>+>>]<<<<<]");
    vstd::string::is_ascii_spec_bytes(DIV);
    let bytes = div_bytes();
    assert(DIV.spec_bytes() =~= bytes);
    lemma_all_instructions(bytes);
    lemma_lex_literal(bytes, 0);
    let w = lex(bytes, 0, false);
    let e = Seq::<SOp>::empty();
    assert(link(e) == Linked { ops: e, open: Seq::<int>::empty(), ok: true });
    let t0 = e.push(SOp::Open(0));
    assert(t0.drop_last() =~= e);
    let p1 = seq![SOp::Add(-1), SOp::Move(1), SOp::Add(-1)];
    lemma_link_plain_suffix(t0, p1);
    let t1 = t0 + p1;
    let t2 = t1.push(SOp::Open(0));
    assert(t2.drop_last() =~= t1);
    assert(link(t2).open =~= seq![0int, 4]);
    let p3 = seq![SOp::Move(1), SOp::Add(1), SOp::Move(1), SOp::Move(1)];
    lemma_link_plain_suffix(t2, p3);
    let t3 = t2 + p3;
    let t4 = t3.push(SOp::Close(0));
    assert(t4.drop_last() =~= t3);
    assert(link(t4).open =~= seq![0int]);
    let p5 = seq![SOp::Move(1)];
    lemma_link_plain_suffix(t4, p5);
    let t5 = t4 + p5;
    let t6 = t5.push(SOp::Open(0));
    assert(t6.drop_last() =~= t5);
    assert(link(t6).open =~= seq![0int, 11]);
    let t7 = t6.push(SOp::Open(0));
    assert(t7.drop_last() =~= t6);
    assert(link(t7).open =~= seq![0int, 11, 12]);
    let p8 = seq![SOp::Add(-1), SOp::Move(-1), SOp::Add(1), SOp::Move(1)];
    lemma_link_plain_suffix(t7, p8);
    let t8 = t7 + p8;
    let t9 = t8.push(SOp::Close(0));
    assert(t9.drop_last() =~= t8);
    assert(link(t9).open =~= seq![0int, 11]);
    let p10 = seq![SOp::Add(1), SOp::Move(1), SOp::Add(1), SOp::Move(1), SOp::Move(1)];
    lemma_link_plain_suffix(t9, p10);
    let t10 = t9 + p10;
    let t11 = t10.push(SOp::Close(0));
    assert(t11.drop_last() =~= t10);
    assert(link(t11).open =~= seq![0int]);
    let p12 = seq![SOp::Move(-1), SOp::Move(-1), SOp::Move(-1), SOp::Move(-1), SOp::Move(-1)];
    lemma_link_plain_suffix(t11, p12);
    let t12 = t11 + p12;
    let t13 = t12.push(SOp::Close(0));
    assert(t13.drop_last() =~= t12);
    assert(link(t13).ops =~= literal_div_ops());
    assert(link(t13).open =~= Seq::<int>::empty());
    assert(w =~= t13);
}

/// `->-`: the start of the divmod loop's body.
pub open spec fn div_head() -> Seq<u8> {
    seq![45u8, 62, 45]
}

/// `>+>>`: the body of the divmod loop's first inner loop.
pub open spec fn div_count() -> Seq<u8> {
    seq![62u8, 43, 62, 62]
}

/// `-<+>`: the transfer that restores the divisor.
pub open spec fn div_restore() -> Seq<u8> {
    seq![45u8, 60, 43, 62]
}

/// `+>+>>`: resets the remainder and counts one more in the quotient.
pub open spec fn div_carry() -> Seq<u8> {
    seq![43u8, 62, 43, 62, 62]
}

pub(crate) proof fn lemma_div_segments()
    ensures
        displacement(div_head()) == 1,
        lowest(div_head()) == 0,
        highest(div_head()) == 1,
        forall|x: int| #[trigger] net(div_head(), x) == (if x == 0 || x == 1 { -1int } else { 0int }),
        displacement(div_count()) == 3,
        lowest(div_count()) == 0,
        highest(div_count()) == 3,
        forall|x: int| #[trigger] net(div_count(), x) == (if x == 1 { 1int } else { 0int }),
        displacement(div_restore()) == 0,
        forall|x: int|
            #[trigger] net(div_restore(), x) == (if x == 0 { -1int } else if x == -1 { 1int } else { 0int }),
        displacement(div_carry()) == 3,
        lowest(div_carry()) == 0,
        highest(div_carry()) == 3,
        forall|x: int| #[trigger] net(div_carry(), x) == (if x == 0 || x == 1 { 1int } else { 0int }),
{
    reveal_with_fuel(displacement, 6);
    reveal_with_fuel(lowest, 6);
    reveal_with_fuel(highest, 6);
    reveal_with_fuel(net, 6);
    assert(div_head().drop_last().drop_last().drop_last() =~= Seq::<u8>::empty());
    assert(div_count().drop_last().drop_last().drop_last().drop_last() =~= Seq::<u8>::empty());
    assert(div_restore().drop_last().drop_last().drop_last().drop_last() =~= Seq::<u8>::empty());
    assert(div_carry().drop_last().drop_last().drop_last().drop_last().drop_last() =~= Seq::<u8>::empty());
}

/// `>`.
pub open spec fn one_right() -> Seq<u8> {
    seq![62u8]
}

/// `<<<<<`: back from cell 5 to the counter.
pub open spec fn five_left() -> Seq<u8> {
    seq![60u8, 60, 60, 60, 60]
}

pub(crate) proof fn lemma_div_moves()
    ensures
        displacement(one_right()) == 1,
        highest(one_right()) == 1,
        lowest(one_right()) == 0,
        forall|x: int| #[trigger] net(one_right(), x) == 0,
        displacement(five_left()) == -5,
        lowest(five_left()) == -5,
        highest(five_left()) == 0,
        forall|x: int| #[trigger] net(five_left(), x) == 0,
{
    let r = one_right();
    assert forall|t: int| 0 <= t < r.len() implies #[trigger] r[t] == 62 by {}
    lemma_repeated(r, 62);
    let l = five_left();
    assert forall|t: int| 0 <= t < l.len() implies #[trigger] l[t] == 60 by {}
    lemma_repeated(l, 60);
}

/// A pass of the literal divmod loop whose remaining divisor (cell 1) is at
/// least 2: the counter and the remaining divisor go down by one and the
/// remainder (cell 2) goes up by one.
#[verifier::spinoff_prover]
#[verifier::rlimit(40)]
proof fn lemma_div_pass_count(m: Machine, fuel: nat, input: Seq<u8>) -> (f: nat)
    requires
        0 <= m.pointer,
        m.pointer + 5 < m.tape.len(),
        m.tape[m.pointer] > 0,
        m.tape[m.pointer + 1] >= 2,
        m.tape[m.pointer + 4] == 0,
        m.tape[m.pointer + 5] == 0,
        run(literal_div_ops(), 1, m, fuel, input).error is None,
    ensures
        run(literal_div_ops(), 1, m, fuel, input) == run(
            literal_div_ops(),
            29,
            Machine {
                tape: m.tape.update(m.pointer, (m.tape[m.pointer] - 1) as nat).update(
                    m.pointer + 1,
                    (m.tape[m.pointer + 1] - 1) as nat,
                ).update(m.pointer + 2, m.tape[m.pointer + 2] + 1),
                ..m
            },
            f,
            input,
        ),
{
    let ops = literal_div_ops();
    let p = m.pointer;
    lemma_div_segments();
    lemma_div_moves();
    // `->-`
    let h = div_head();
    lemma_straight(ops, 1, h, 3, m, fuel, input);
    assert(h.take(3) =~= h);
    lemma_bytes_effect(h, m);
    let m1 = run_bytes(h, m).0;
    let f1 = (fuel - 3) as nat;
    assert(m1.pointer == p + 1);
    assert(m1.tape[p + 1] == m.tape[p + 1] - 1);
    // `[` with a nonzero cell
    assert(f1 > 0);
    assert(run(ops, 4, m1, f1, input) == run(ops, 5, m1, (f1 - 1) as nat, input));
    // `>+>>`
    let k = div_count();
    lemma_straight(ops, 5, k, 4, m1, (f1 - 1) as nat, input);
    assert(k.take(4) =~= k);
    lemma_bytes_effect(k, m1);
    let m2 = run_bytes(k, m1).0;
    let f2 = (f1 - 5) as nat;
    assert(m2.pointer == p + 4);
    assert(m2.tape[p + 4] == 0);
    // `]` with an empty cell 4
    assert(f2 > 0);
    assert(run(ops, 9, m2, f2, input) == run(ops, 10, m2, (f2 - 1) as nat, input));
    // `>`
    let r = one_right();
    lemma_straight(ops, 10, r, 1, m2, (f2 - 1) as nat, input);
    assert(r.take(1) =~= r);
    lemma_bytes_effect(r, m2);
    let m3 = run_bytes(r, m2).0;
    let f3 = (f2 - 2) as nat;
    assert(m3.pointer == p + 5);
    assert(m3.tape[p + 5] == 0);
    // `[` with an empty cell 5
    assert(f3 > 0);
    assert(run(ops, 11, m3, f3, input) == run(ops, 24, m3, (f3 - 1) as nat, input));
    // `<<<<<`
    let l = five_left();
    lemma_straight(ops, 24, l, 5, m3, (f3 - 1) as nat, input);
    assert(l.take(5) =~= l);
    lemma_bytes_effect(l, m3);
    let m4 = run_bytes(l, m3).0;
    assert(m4.pointer == p);
    let t = m.tape.update(p, (m.tape[p] - 1) as nat).update(p + 1, (m.tape[p + 1] - 1) as nat).update(
        p + 2,
        m.tape[p + 2] + 1,
    );
    assert forall|i: int| 0 <= i < m.tape.len() implies #[trigger] m4.tape[i] == t[i] by {
        assert(m1.tape[i] == m.tape[i] + net(h, i - p));
        assert(m2.tape[i] == m1.tape[i] + net(k, i - (p + 1)));
    }
    assert(m4.tape =~= t);
    (f3 - 6) as nat
}

/// A pass of the literal divmod loop whose remaining divisor (cell 1) is 1:
/// the counter goes down by one, the remainder plus one (cell 2) moves back
/// to cell 1, cell 2 becomes 1 and the quotient (cell 3) goes up by one.
#[verifier::spinoff_prover]
#[verifier::rlimit(90)]
proof fn lemma_div_pass_carry(m: Machine, fuel: nat, input: Seq<u8>) -> (f: nat)
    requires
        0 <= m.pointer,
        m.pointer + 5 < m.tape.len(),
        m.tape[m.pointer] > 0,
        m.tape[m.pointer + 1] == 1,
        m.tape[m.pointer + 2] >= 1,
        m.tape[m.pointer + 4] == 0,
        m.tape[m.pointer + 5] == 0,
        run(literal_div_ops(), 1, m, fuel, input).error is None,
    ensures
        run(literal_div_ops(), 1, m, fuel, input) == run(
            literal_div_ops(),
            29,
            Machine {
                tape: m.tape.update(m.pointer, (m.tape[m.pointer] - 1) as nat).update(
                    m.pointer + 1,
                    m.tape[m.pointer + 2],
                ).update(m.pointer + 2, 1).update(m.pointer + 3, m.tape[m.pointer + 3] + 1),
                ..m
            },
            f,
            input,
        ),
{
    let ops = literal_div_ops();
    let p = m.pointer;
    let v = m.tape[p + 2];
    lemma_div_segments();
    lemma_div_moves();
    // `->-`
    let h = div_head();
    lemma_straight(ops, 1, h, 3, m, fuel, input);
    assert(h.take(3) =~= h);
    lemma_bytes_effect(h, m);
    let m1 = run_bytes(h, m).0;
    let f1 = (fuel - 3) as nat;
    assert(m1.pointer == p + 1);
    assert(m1.tape[p + 1] == 0);
    // `[` with an empty cell 1
    assert(f1 > 0);
    assert(run(ops, 4, m1, f1, input) == run(ops, 10, m1, (f1 - 1) as nat, input));
    // `>`
    let r = one_right();
    lemma_straight(ops, 10, r, 1, m1, (f1 - 1) as nat, input);
    assert(r.take(1) =~= r);
    lemma_bytes_effect(r, m1);
    let m2 = run_bytes(r, m1).0;
    let f2 = (f1 - 2) as nat;
    assert(m2.pointer == p + 2);
    assert(m2.tape[p + 2] == v);
    // `[` with a nonzero cell 2
    assert(f2 > 0);
    assert(run(ops, 11, m2, f2, input) == run(ops, 12, m2, (f2 - 1) as nat, input));
    // `[-<+>]`
    let b = div_restore();
    assert(is_literal_loop_at(ops, 12, b)) by {
        assert forall|t: int| 0 <= t < b.len() implies is_transfer(#[trigger] b[t]) && ops[12 + 1 + t]
            == literal_op(b[t]) by {}
    }
    lemma_loop_at(ops, 12, b, m2, (f2 - 1) as nat, input);
    let m3 = after_passes(m2, b, v);
    let f3 = (f2 - 1 - 1 - v * (b.len() + 1)) as nat;
    assert(m3.tape[p + 1] == v) by {
        assert(m2.tape[p + 1] + v * net(b, (p + 1) - (p + 2)) >= 0);
    }
    assert(m3.tape[p + 2] == 0) by {
        assert(m2.tape[p + 2] + v * net(b, (p + 2) - (p + 2)) >= 0);
        assert(v * (-1) == -v) by (nonlinear_arith);
    }
    // `+>+>>`
    let c = div_carry();
    lemma_straight(ops, 18, c, 5, m3, f3, input);
    assert(c.take(5) =~= c);
    lemma_bytes_effect(c, m3);
    let m4 = run_bytes(c, m3).0;
    let f4 = (f3 - 5) as nat;
    assert(m4.pointer == p + 5);
    assert(m4.tape[p + 5] == 0) by {
        assert(m2.tape[p + 5] + v * net(b, (p + 5) - (p + 2)) >= 0);
    }
    // `]` with an empty cell 5
    assert(f4 > 0);
    assert(run(ops, 23, m4, f4, input) == run(ops, 24, m4, (f4 - 1) as nat, input));
    // `<<<<<`
    let l = five_left();
    lemma_straight(ops, 24, l, 5, m4, (f4 - 1) as nat, input);
    assert(l.take(5) =~= l);
    lemma_bytes_effect(l, m4);
    let m5 = run_bytes(l, m4).0;
    assert(m5.pointer == p);
    let t = m.tape.update(p, (m.tape[p] - 1) as nat).update(p + 1, v).update(p + 2, 1).update(
        p + 3,
        m.tape[p + 3] + 1,
    );
    assert forall|i: int| 0 <= i < m.tape.len() implies #[trigger] m5.tape[i] == t[i] by {
        assert(m1.tape[i] == m.tape[i] + net(h, i - p));
        assert(m2.tape[i] + v * net(b, i - (p + 2)) >= 0);
        assert(m4.tape[i] == m3.tape[i] + net(c, i - (p + 2)));
        if i == p + 2 {
            assert(v * (-1) == -v) by (nonlinear_arith);
        }
    }
    assert(m5.tape =~= t);
    (f4 - 6) as nat
}

pub(crate) proof fn lemma_small_divmod(x: int, d: int)
    requires
        0 <= x < d,
    ensures
        x % d == x,
        x / d == 0,
{
    assert(x == 0 * d + x);
    vstd::arithmetic::div_mod::lemma_fundamental_div_mod_converse_mod(x, d, 0, x);
    vstd::arithmetic::div_mod::lemma_fundamental_div_mod_converse_div(x, d, 0, x);
}

pub(crate) proof fn lemma_divmod_step(x: int, d: int)
    requires
        0 <= x,
        0 < d,
    ensures
        (x + d) % d == x % d,
        (x + d) / d == x / d + 1,
{
    let q = x / d;
    let r = x % d;
    vstd::arithmetic::div_mod::lemma_fundamental_div_mod(x, d);
    vstd::arithmetic::div_mod::lemma_mod_bound(x, d);
    assert((q + 1) * d == d * q + d) by (nonlinear_arith);
    assert(x + d == (q + 1) * d + r);
    vstd::arithmetic::div_mod::lemma_fundamental_div_mod_converse_mod(x + d, d, q + 1, r);
    vstd::arithmetic::div_mod::lemma_fundamental_div_mod_converse_div(x + d, d, q + 1, r);
}

/// Where the divmod loop ends from a pass with remaining divisor `u` (cell 1)
/// and remainder plus one `v` (cell 2): with divisor `d = u + v - 1`, the
/// units left in the counter join the `v - 1` already counted, and the total
/// is split into a quotient added to cell 3 and a remainder.
pub open spec fn div_result(m: Machine) -> Machine {
    let p = m.pointer;
    let t = m.tape;
    let d = t[p + 1] + t[p + 2] - 1;
    let total = t[p + 2] - 1 + t[p];
    Machine {
        tape: t.update(p, 0).update(p + 1, (d - total % d) as nat).update(p + 2, (total % d + 1) as nat).update(
            p + 3,
            (t[p + 3] + total / d) as nat,
        ),
        ..m
    }
}

/// The passes of the literal divmod loop with a nonzero counter, from the
/// start of its body.
proof fn lemma_div_passes(m: Machine, fuel: nat, input: Seq<u8>)
    requires
        0 <= m.pointer,
        m.pointer + 5 < m.tape.len(),
        m.tape[m.pointer] > 0,
        m.tape[m.pointer + 1] >= 1,
        m.tape[m.pointer + 2] >= 1,
        m.tape[m.pointer + 4] == 0,
        m.tape[m.pointer + 5] == 0,
        run(literal_div_ops(), 1, m, fuel, input).error is None,
    ensures
        run(literal_div_ops(), 1, m, fuel, input).machine == div_result(m),
    decreases m.tape[m.pointer],
{
    let ops = literal_div_ops();
    let p = m.pointer;
    let c = m.tape[p];
    let u = m.tape[p + 1];
    let v = m.tape[p + 2];
    let q = m.tape[p + 3];
    let d = u + v - 1;
    let total = v - 1 + c;
    assert(ops[29] == SOp::Close(1));
    if u >= 2 {
        let f = lemma_div_pass_count(m, fuel, input);
        let m1 = Machine { tape: m.tape.update(p, (c - 1) as nat).update(p + 1, (u - 1) as nat).update(p + 2, v + 1), ..m };
        assert(f > 0);
        if c - 1 != 0 {
            assert(run(ops, 29, m1, f, input) == run(ops, 1, m1, (f - 1) as nat, input));
            lemma_div_passes(m1, (f - 1) as nat, input);
            assert(div_result(m1).tape =~= div_result(m).tape);
        } else {
            assert(run(ops, 29, m1, f, input) == run(ops, 30, m1, (f - 1) as nat, input));
            lemma_small_divmod(total, d);
            assert(m1.tape =~= div_result(m).tape);
        }
    } else {
        let f = lemma_div_pass_carry(m, fuel, input);
        let m1 = Machine { tape: m.tape.update(p, (c - 1) as nat).update(p + 1, v).update(p + 2, 1).update(p + 3, q + 1), ..m };
        assert(f > 0);
        lemma_divmod_step(c - 1, d);
        if c - 1 != 0 {
            assert(run(ops, 29, m1, f, input) == run(ops, 1, m1, (f - 1) as nat, input));
            lemma_div_passes(m1, (f - 1) as nat, input);
            assert(div_result(m1).tape =~= div_result(m).tape);
        } else {
            assert(run(ops, 29, m1, f, input) == run(ops, 30, m1, (f - 1) as nat, input));
            lemma_small_divmod(0, d);
            assert(m1.tape =~= div_result(m).tape);
        }
    }
}

/// The `Div` op does what the divmod loop `DIV` it stands for does: where
/// that loop, compiled literally and run on its own, ends without an error,
/// `Div` goes on to the next op with the same tape, head, input position and
/// output when the counter is 0 or the tape meets its precondition (five
/// cells of tape right of the head, a nonzero divisor in cell 1, 1 in cell
/// 2, cells 3 to 5 empty), and otherwise runs the literal loop itself.
pub proof fn law_div_matches_literal(pc: int, m: Machine, fuel: nat, input: Seq<u8>)
    requires
        valid(m, input),
        run(div_program()->0, 0, m, fuel, input).error is None,
    ensures
        div_program() is Some,
        op_step(SOp::Div, pc, m, input, mul_program(), div_program()) == (if m.tape[m.pointer] == 0 || (
        m.pointer + 5 < m.tape.len() && m.tape[m.pointer + 1] != 0 && m.tape[m.pointer + 2] == 1 && m.tape[
            m.pointer + 3] == 0 && m.tape[m.pointer + 4] == 0 && m.tape[m.pointer + 5] == 0) {
            Step::Jump(pc + 1, run(div_program()->0, 0, m, fuel, input).machine)
        } else {
            Step::Call(div_program(), m)
        }),
{
    lemma_div_program();
    let ops = literal_div_ops();
    let p = m.pointer;
    let n = m.tape[p];
    assert(fuel > 0);
    if n == 0 {
        assert(run(ops, 0, m, fuel, input) == run(ops, 30, m, (fuel - 1) as nat, input));
    } else if p + 5 < m.tape.len() && m.tape[p + 1] != 0 && m.tape[p + 2] == 1 && m.tape[p + 3] == 0
        && m.tape[p + 4] == 0 && m.tape[p + 5] == 0 {
        assert(run(ops, 0, m, fuel, input) == run(ops, 1, m, (fuel - 1) as nat, input));
        lemma_div_passes(m, (fuel - 1) as nat, input);
        let d = m.tape[p + 1];
        vstd::arithmetic::div_mod::lemma_mod_bound(n as int, d as int);
        assert(div_result(m).tape =~= m.tape.update(p, 0).update(p + 1, (d - n % d) as nat).update(
            p + 2,
            n % d + 1,
        ).update(p + 3, n / d));
    }
}

} // verus!
