//! The optimizer adds no successes: what an optimized op does without an
//! error, from a machine whose cells all fit, the literal code it stands for
//! does too, given the fuel it needs.
use crate::compiler::{
    compiled, lemma_lex_literal, lemma_pattern_lengths, lex, occurs_at, run_length, token,
    affine_spec, terms_upto,
    displacement, highest, is_transfer, lemma_displacement_bounds, lemma_net_bounds,
    lemma_prefix_within, literal_op, lowest, mixed, net, touches,
};
use crate::natural::bit_length;
use crate::peephole::{
    div_carry, div_count, div_head, div_restore, five_left, lemma_div_moves, lemma_div_segments,
    literal_div_ops, one_right, div_result, lemma_div_program, lemma_divmod_step, lemma_small_divmod,
    lemma_mul_program, mul_result,
    lemma_back_to_counter, lemma_mul_bodies, literal_mul_ops, mul_body_end, mul_first_body, mul_second_body,
    leading_run, lemma_link_plain, lemma_patterns_open, lemma_repeated, lemma_run_length,
    affine_op, applied_terms, lemma_affine_apply_push, lemma_loop_compiles, lemma_untouched, loop_body,
    loop_program,
    after_passes, byte_step, is_literal_loop_at, lemma_bytes_effect, lemma_pass_cost, lemma_scaled_sum,
    lemma_touch_within, run_bytes,
};
use crate::vm::{
    affine_apply, all_fit, div_program, fits, lemma_bit_length_monotone, mul_program, op_step, run,
    target, valid, Machine, SOp, Step, VmError, DIV, MUL,
};
use vstd::prelude::*;
use vstd::string::StringSliceAdditionalSpecFns;

verus! {

/// A program runs straight through literal `><+-` instructions that run
/// without an error, given fuel for each.
pub proof fn lemma_straight_forward(
    ops: Seq<SOp>,
    base: int,
    b: Seq<u8>,
    k: int,
    m: Machine,
    fuel: nat,
    input: Seq<u8>,
)
    requires
        0 <= base,
        base + b.len() <= ops.len(),
        0 <= k <= b.len(),
        forall|t: int| 0 <= t < b.len() ==> is_transfer(#[trigger] b[t]) && ops[base + t] == literal_op(b[t]),
        run_bytes(b.take(k), m).1 is None,
        fuel >= k,
    ensures
        run(ops, base, m, fuel, input) == run(
            ops,
            base + k,
            run_bytes(b.take(k), m).0,
            (fuel - k) as nat,
            input,
        ),
    decreases k,
{
    if k > 0 {
        assert(b.take(k).drop_last() =~= b.take(k - 1));
        assert(b.take(k).last() == b[k - 1]);
        lemma_straight_forward(ops, base, b, k - 1, m, fuel, input);
        assert(is_transfer(b[k - 1]) && ops[base + k - 1] == literal_op(b[k - 1]));
    }
}

/// A cell changed by a loop body that never both adds to and subtracts from
/// a cell moves in one direction: after any part of the body it lies
/// between its start and its end value.
proof fn lemma_net_prefix(b: Seq<u8>, j: int, x: int)
    requires
        0 <= j <= b.len(),
        !(touches(b, x, 43) && touches(b, x, 45)),
    ensures
        !touches(b, x, 45) ==> 0 <= net(b.take(j), x) <= net(b, x),
        !touches(b, x, 43) ==> net(b, x) <= net(b.take(j), x) <= 0,
    decreases b.len(),
{
    lemma_net_bounds(b, x);
    if j < b.len() {
        let b0 = b.drop_last();
        assert(b.take(j) =~= b0.take(j));
        if touches(b0, x, 43) {
            assert(touches(b, x, 43));
        }
        if touches(b0, x, 45) {
            assert(touches(b, x, 45));
        }
        lemma_net_prefix(b0, j, x);
        lemma_net_bounds(b0, x);
    } else {
        assert(b.take(j) =~= b);
    }
}

/// Literal `><+-` instructions that never both add to and subtract from a
/// cell run without an error from a machine whose cells all fit, when the
/// head stays on the tape and every cell they touch ends at a value that
/// fits.
pub proof fn lemma_bytes_succeed(b: Seq<u8>, m: Machine)
    requires
        forall|t: int| 0 <= t < b.len() ==> is_transfer(#[trigger] b[t]),
        0 <= m.pointer + lowest(b),
        m.pointer + highest(b) < m.tape.len(),
        !mixed(b),
        all_fit(m.tape),
        forall|x: int|
            #![trigger touches(b, x, 43)]
            #![trigger touches(b, x, 45)]
            touches(b, x, 43) || touches(b, x, 45) ==> m.tape[m.pointer + x] + net(b, x) >= 0 && fits(
                (m.tape[m.pointer + x] + net(b, x)) as nat,
            ),
    ensures
        run_bytes(b, m).1 is None,
    decreases b.len(),
{
    lemma_displacement_bounds(b);
    if b.len() > 0 {
        let b0 = b.drop_last();
        let c = b.last();
        let p = m.pointer;
        assert forall|t: int| 0 <= t < b0.len() implies is_transfer(#[trigger] b0[t]) by {
            assert(b0[t] == b[t]);
        }
        lemma_displacement_bounds(b0);
        assert(!mixed(b0)) by {
            if mixed(b0) {
                let x = choose|x: int| touches(b0, x, 43) && touches(b0, x, 45);
                assert(touches(b, x, 43) && touches(b, x, 45));
            }
        }
        assert forall|x: int|
            #![trigger touches(b0, x, 43)]
            #![trigger touches(b0, x, 45)]
            touches(b0, x, 43) || touches(b0, x, 45) implies m.tape[p + x] + net(b0, x) >= 0 && fits(
                (m.tape[p + x] + net(b0, x)) as nat,
            ) by {
            assert(touches(b, x, 43) || touches(b, x, 45));
            assert(!(touches(b, x, 43) && touches(b, x, 45)));
            lemma_net_prefix(b, b0.len() as int, x);
            assert(b.take(b0.len() as int) =~= b0);
            if touches(b0, x, 43) {
                lemma_touch_within(b0, x, 43);
            } else {
                lemma_touch_within(b0, x, 45);
            }
            if !touches(b, x, 45) {
                lemma_bit_length_monotone(
                    (m.tape[p + x] + net(b0, x)) as nat,
                    (m.tape[p + x] + net(b, x)) as nat,
                );
            } else {
                lemma_bit_length_monotone((m.tape[p + x] + net(b0, x)) as nat, m.tape[p + x]);
            }
        }
        lemma_bytes_succeed(b0, m);
        lemma_bytes_effect(b0, m);
        let m1 = run_bytes(b0, m).0;
        let q = p + displacement(b0);
        assert(run_bytes(b, m) == byte_step(c, m1));
        if c == 43 || c == 45 {
            let x = displacement(b0);
            assert(touches(b, x, c));
            assert(m1.tape[q] == m.tape[q] + net(b0, x));
            if c == 45 {
                lemma_net_prefix(b, b0.len() as int, x);
                assert(b.take(b0.len() as int) =~= b0);
                assert(!touches(b, x, 43));
                lemma_bit_length_monotone((m.tape[q] + net(b, x)) as nat, m.tape[q]);
            }
        }
    }
}

/// The passes of a literal loop `[b]` whose counter is nonzero, run forward.
proof fn lemma_passes_forward(ops: Seq<SOp>, base: int, b: Seq<u8>, m: Machine, fuel: nat, input: Seq<u8>)
    requires
        is_literal_loop_at(ops, base, b),
        displacement(b) == 0,
        net(b, 0) == -1,
        !mixed(b),
        0 <= m.pointer + lowest(b),
        m.pointer + highest(b) < m.tape.len(),
        all_fit(m.tape),
        m.tape[m.pointer] > 0,
        forall|x: int|
            #![trigger touches(b, x, 43)]
            #![trigger touches(b, x, 45)]
            touches(b, x, 43) || touches(b, x, 45) ==> m.tape[m.pointer + x] + m.tape[m.pointer] * net(b, x) >= 0
                && fits((m.tape[m.pointer + x] + m.tape[m.pointer] * net(b, x)) as nat),
        fuel >= m.tape[m.pointer] * (b.len() + 1),
    ensures
        run(ops, base + 1, m, fuel, input) == run(
            ops,
            base + b.len() + 2,
            after_passes(m, b, m.tape[m.pointer]),
            (fuel - m.tape[m.pointer] * (b.len() + 1)) as nat,
            input,
        ),
    decreases m.tape[m.pointer],
{
    let p = m.pointer;
    let c = m.tape[p];
    let len = b.len() as int;
    lemma_displacement_bounds(b);
    assert forall|t: int| 0 <= t < b.len() implies is_transfer(#[trigger] b[t]) by {}
    assert forall|x: int|
        #![trigger touches(b, x, 43)]
        #![trigger touches(b, x, 45)]
        touches(b, x, 43) || touches(b, x, 45) implies m.tape[p + x] + net(b, x) >= 0 && fits(
            (m.tape[p + x] + net(b, x)) as nat,
        ) by {
        if touches(b, x, 43) {
            lemma_touch_within(b, x, 43);
        } else {
            lemma_touch_within(b, x, 45);
        }
        lemma_net_bounds(b, x);
        lemma_scaled_sum(m.tape[p + x] as int, net(b, x), c);
        if net(b, x) > 0 {
            assert(c * net(b, x) >= net(b, x)) by (nonlinear_arith)
                requires
                    c >= 1,
                    net(b, x) > 0,
            ;
            lemma_bit_length_monotone(
                (m.tape[p + x] + net(b, x)) as nat,
                (m.tape[p + x] + c * net(b, x)) as nat,
            );
        } else {
            assert(c * net(b, x) <= net(b, x)) by (nonlinear_arith)
                requires
                    c >= 1,
                    net(b, x) <= 0,
            ;
            lemma_bit_length_monotone((m.tape[p + x] + net(b, x)) as nat, m.tape[p + x]);
        }
    }
    lemma_bytes_succeed(b, m);
    assert(b.take(len) =~= b);
    assert(c * (len + 1) >= len + 1) by (nonlinear_arith)
        requires
            c >= 1,
            len >= 0,
    ;
    lemma_straight_forward(ops, base + 1, b, len, m, fuel, input);
    lemma_bytes_effect(b, m);
    let m1 = run_bytes(b, m).0;
    let f = (fuel - len) as nat;
    assert(ops[base + 1 + len] == SOp::Close(base + 1));
    assert(m1.tape[p] == c - 1);
    assert(all_fit(m1.tape)) by {
        assert forall|i: int| 0 <= i < m1.tape.len() implies fits(#[trigger] m1.tape[i]) by {
            let x = i - p;
            if touches(b, x, 43) || touches(b, x, 45) {
                assert(m.tape[p + x] + net(b, x) >= 0);
            } else {
                lemma_net_bounds(b, x);
                assert(m1.tape[i] == m.tape[i]);
            }
        }
    }
    if c - 1 != 0 {
        assert(run(ops, base + 1 + len, m1, f, input) == run(ops, base + 1, m1, (f - 1) as nat, input));
        lemma_pass_cost(fuel as int, len, c);
        assert forall|x: int|
            #![trigger touches(b, x, 43)]
            #![trigger touches(b, x, 45)]
            touches(b, x, 43) || touches(b, x, 45) implies m1.tape[p + x] + m1.tape[p] * net(b, x) >= 0 && fits(
                (m1.tape[p + x] + m1.tape[p] * net(b, x)) as nat,
            ) by {
            if touches(b, x, 43) {
                lemma_touch_within(b, x, 43);
            } else {
                lemma_touch_within(b, x, 45);
            }
            lemma_scaled_sum(m.tape[p + x] as int, net(b, x), c);
            assert(m1.tape[p + x] == m.tape[p + x] + net(b, (p + x) - p));
        }
        lemma_passes_forward(ops, base, b, m1, (f - 1) as nat, input);
        assert forall|i: int| 0 <= i < m.tape.len() implies m1.tape[i] + (c - 1) * net(b, i - p) == m.tape[i] + c
            * net(b, i - p) by {
            lemma_scaled_sum(m.tape[i] as int, net(b, i - p), c);
        }
        assert(after_passes(m1, b, (c - 1) as nat).tape =~= after_passes(m, b, c).tape);
        assert(after_passes(m1, b, (c - 1) as nat) == after_passes(m, b, c));
    } else {
        assert(run(ops, base + 1 + len, m1, f, input) == run(ops, base + 2 + len, m1, (f - 1) as nat, input));
        assert(c * (len + 1) == len + 1) by (nonlinear_arith)
            requires
                c == 1,
        ;
        assert(after_passes(m, b, c).tape =~= m1.tape);
    }
}

/// A literal loop `[b]` whose body never both adds to and subtracts from a
/// cell runs forward from its `[` to the op after it, from a machine whose
/// cells all fit, when the body's reach stays on the tape and every cell it
/// touches ends at a value that fits.
pub proof fn lemma_loop_forward(ops: Seq<SOp>, base: int, b: Seq<u8>, m: Machine, fuel: nat, input: Seq<u8>)
    requires
        is_literal_loop_at(ops, base, b),
        displacement(b) == 0,
        net(b, 0) == -1,
        !mixed(b),
        0 <= m.pointer < m.tape.len(),
        all_fit(m.tape),
        m.tape[m.pointer] > 0 ==> 0 <= m.pointer + lowest(b) && m.pointer + highest(b) < m.tape.len(),
        forall|x: int|
            #![trigger touches(b, x, 43)]
            #![trigger touches(b, x, 45)]
            m.tape[m.pointer] > 0 && (touches(b, x, 43) || touches(b, x, 45)) ==> m.tape[m.pointer + x]
                + m.tape[m.pointer] * net(b, x) >= 0 && fits(
                (m.tape[m.pointer + x] + m.tape[m.pointer] * net(b, x)) as nat,
            ),
        fuel >= 1 + m.tape[m.pointer] * (b.len() + 1),
    ensures
        run(ops, base, m, fuel, input) == run(
            ops,
            base + b.len() + 2,
            after_passes(m, b, m.tape[m.pointer]),
            (fuel - 1 - m.tape[m.pointer] * (b.len() + 1)) as nat,
            input,
        ),
{
    let n = m.tape[m.pointer];
    let len = b.len() as int;
    if n == 0 {
        assert(run(ops, base, m, fuel, input) == run(ops, base + len + 2, m, (fuel - 1) as nat, input));
        assert(after_passes(m, b, 0).tape =~= m.tape);
        assert(after_passes(m, b, 0) == m);
    } else {
        assert(run(ops, base, m, fuel, input) == run(ops, base + 1, m, (fuel - 1) as nat, input));
        lemma_passes_forward(ops, base, b, m, (fuel - 1) as nat, input);
    }
}

/// Applying the terms of a loop body without an error means each term's
/// cell lies on the tape and ends at a value that fits.
proof fn lemma_affine_terms_converse(b: Seq<u8>, low: int, k: int, tape: Seq<nat>, p: int, n: nat)
    requires
        0 <= k,
        affine_apply(terms_upto(b, low, k), 0, tape, p, n).1 is None,
    ensures
        forall|x: int|
            low <= x < low + k && x != 0 && #[trigger] net(b, x) != 0 ==> 0 <= p + x < tape.len() && tape[p + x] + n
                * net(b, x) >= 0 && fits((tape[p + x] + n * net(b, x)) as nat),
        affine_apply(terms_upto(b, low, k), 0, tape, p, n).0 == applied_terms(tape, p, n, b, low, k),
    decreases k,
{
    if k == 0 {
        assert(applied_terms(tape, p, n, b, low, k) =~= tape);
    } else {
        let x = low + k - 1;
        let prev = terms_upto(b, low, k - 1);
        if x != 0 && net(b, x) != 0 {
            let tm = (x, net(b, x));
            lemma_affine_apply_push(prev, tm, 0, tape, p, n);
            lemma_affine_terms_converse(b, low, k - 1, tape, p, n);
            let e0 = applied_terms(tape, p, n, b, low, k - 1);
            let coefficient = net(b, x);
            let one = seq![tm];
            assert(one[0] == tm);
            let at = p + x;
            assert(target(p, x, e0.len() as int) is Some);
            assert(e0[at] == tape[at]);
            let amount = n * (if coefficient < 0 { -coefficient } else { coefficient }) as nat;
            if coefficient < 0 {
                assert(n * (-coefficient) == -(n * coefficient)) by (nonlinear_arith);
            }
            let w = if coefficient > 0 { tape[at] + amount } else { (tape[at] - amount) as nat };
            assert(!(coefficient <= 0 && tape[at] < amount));
            assert(w == tape[at] + n * coefficient);
            assert(affine_apply(one, 1, e0.update(at, w), p, n) == (e0.update(at, w), None::<VmError>));
            assert(fits(w));
            assert(e0.update(at, w) =~= applied_terms(tape, p, n, b, low, k));
        } else {
            lemma_affine_terms_converse(b, low, k - 1, tape, p, n);
            assert(applied_terms(tape, p, n, b, low, k - 1) =~= applied_terms(tape, p, n, b, low, k));
        }
    }
}

/// Conversely, an affine loop's op adds no success: where the `Affine` op
/// the optimizer makes of the loop `[body]` at the start of the
/// instructions `s` goes on without an error from a machine whose cells all
/// fit, that loop, compiled literally and run on its own, ends without an
/// error in the same machine, given a unit of fuel for its `[` and, for each
/// pass, one per instruction of the body and one for its `]`.
pub proof fn law_affine_loop_has_literal_run(s: Seq<u8>, pc: int, m: Machine, fuel: nat, input: Seq<u8>)
    requires
        s.len() > 0,
        s[0] == 91,
        affine_spec(s) is Some,
        valid(m, input),
        all_fit(m.tape),
        op_step(affine_op(s), pc, m, input, mul_program(), div_program()) is Jump,
        fuel >= 1 + m.tape[m.pointer] * (loop_body(s).len() + 1),
    ensures
        loop_program(s) is Some,
        run(loop_program(s)->0, 0, m, fuel, input).error is None,
        op_step(affine_op(s), pc, m, input, mul_program(), div_program()) == Step::Jump(
            pc + 1,
            run(loop_program(s)->0, 0, m, fuel, input).machine,
        ),
{
    lemma_loop_compiles(s);
    let ops = loop_program(s)->0;
    let b = loop_body(s);
    let a = affine_spec(s)->0;
    let len = b.len() as int;
    let p = m.pointer;
    let tape = m.tape;
    let n = tape[p];
    let low = lowest(b);
    let high = highest(b);
    assert(a.low == low && a.high == high);
    assert(a.terms == terms_upto(b, low, high - low + 1));
    assert(displacement(b) == 0 && net(b, 0) == -1 && !mixed(b));
    lemma_displacement_bounds(b);
    if n > 0 {
        assert(target(p, low, tape.len() as int) is Some && target(p, high, tape.len() as int) is Some);
        assert(affine_apply(a.terms, 0, tape, p, n).1 is None);
        lemma_affine_terms_converse(b, low, high - low + 1, tape, p, n);
        assert forall|x: int|
            #![trigger touches(b, x, 43)]
            #![trigger touches(b, x, 45)]
            n > 0 && (touches(b, x, 43) || touches(b, x, 45)) implies tape[p + x] + n * net(b, x) >= 0 && fits(
                (tape[p + x] + n * net(b, x)) as nat,
            ) by {
            if touches(b, x, 43) {
                lemma_touch_within(b, x, 43);
            } else {
                lemma_touch_within(b, x, 45);
            }
            lemma_net_bounds(b, x);
            if x == 0 {
                assert(n * (-1) == -n) by (nonlinear_arith);
                assert(bit_length(0) == 0);
            }
        }
    }
    lemma_loop_forward(ops, 0, b, m, fuel, input);
    let fin = after_passes(m, b, n);
    assert(run(ops, len + 2, fin, (fuel - 1 - n * (len + 1)) as nat, input).machine == fin);
    if n == 0 {
        assert(fin.tape =~= m.tape);
    } else {
        let applied = applied_terms(tape, p, n, b, low, high - low + 1);
        assert forall|i: int| 0 <= i < tape.len() implies #[trigger] applied.update(p, 0)[i] == fin.tape[i] by {
            if i != p && !(low <= i - p <= high) {
                lemma_untouched(b, i - p);
            }
            if i != p && low <= i - p <= high && net(b, i - p) != 0 {
                assert(tape[i] + n * net(b, i - p) >= 0);
            }
            if i == p {
                assert(n * (-1) == -n) by (nonlinear_arith);
            }
        }
        assert(applied.update(p, 0) =~= fin.tape);
    }
}

proof fn lemma_no_touch(b: Seq<u8>, x: int, c: u8)
    requires
        forall|t: int| 0 <= t < b.len() ==> #[trigger] b[t] != c,
    ensures
        !touches(b, x, c),
    decreases b.len(),
{
    if b.len() > 0 {
        let b0 = b.drop_last();
        assert forall|t: int| 0 <= t < b0.len() implies #[trigger] b0[t] != c by {
            assert(b0[t] == b[t]);
        }
        lemma_no_touch(b0, x, c);
        assert(b.last() == b[b.len() - 1]);
    }
}

/// Conversely, a folded run adds no success: where the op the optimizer
/// makes of the run of equal instructions of `><+-` at the start of the
/// instructions `s` goes on without an error from a machine whose cells all
/// fit, that run, compiled literally and run on its own, ends without an
/// error in the same machine, given a unit of fuel per instruction.
pub proof fn law_folded_run_has_literal_run(s: Seq<u8>, pc: int, m: Machine, fuel: nat, input: Seq<u8>)
    requires
        s.len() > 0,
        is_transfer(s[0]),
        valid(m, input),
        all_fit(m.tape),
        op_step(token(s, 0, true).0, pc, m, input, mul_program(), div_program()) is Jump,
        fuel >= leading_run(s).len(),
    ensures
        compiled(leading_run(s), false) is Some,
        run(compiled(leading_run(s), false)->0, 0, m, fuel, input).error is None,
        op_step(token(s, 0, true).0, pc, m, input, mul_program(), div_program()) == Step::Jump(
            pc + 1,
            run(compiled(leading_run(s), false)->0, 0, m, fuel, input).machine,
        ),
{
    let c = s[0];
    let k = run_length(s, 0, c);
    let b = leading_run(s);
    lemma_run_length(s, 0, c);
    lemma_run_length(s, 1, c);
    assert(k == 1 + run_length(s, 1, c));
    assert forall|t: int| 0 <= t < b.len() implies #[trigger] b[t] == c by {
        assert(b[t] == s[t]);
    }
    lemma_lex_literal(b, 0);
    let w = lex(b, 0, false);
    assert forall|t: int| 0 <= t < w.len() implies !(#[trigger] w[t] is Open) && !(w[t] is Close) by {
        assert(w[t] == literal_op(b[0 + t]));
    }
    lemma_link_plain(w);
    let ops = w;
    assert(compiled(b, false) == Some(ops));
    assert forall|t: int| 0 <= t < b.len() implies is_transfer(#[trigger] b[t]) && ops[0 + t] == literal_op(b[t]) by {
        assert(w[t] == literal_op(b[0 + t]));
    }
    lemma_repeated(b, c);
    lemma_patterns_open();
    lemma_pattern_lengths();
    assert(!occurs_at(s, 0, MUL.spec_bytes())) by {
        if occurs_at(s, 0, MUL.spec_bytes()) {
            assert(s.subrange(0, MUL.spec_bytes().len() as int)[0] == s[0]);
        }
    }
    assert(!occurs_at(s, 0, DIV.spec_bytes())) by {
        if occurs_at(s, 0, DIV.spec_bytes()) {
            assert(s.subrange(0, DIV.spec_bytes().len() as int)[0] == s[0]);
        }
    }
    let p = m.pointer;
    assert(!mixed(b)) by {
        if mixed(b) {
            let x = choose|x: int| touches(b, x, 43) && touches(b, x, 45);
            if c == 43 {
                lemma_no_touch(b, x, 45);
            } else {
                lemma_no_touch(b, x, 43);
            }
        }
    }
    assert forall|x: int|
        #![trigger touches(b, x, 43)]
        #![trigger touches(b, x, 45)]
        touches(b, x, 43) || touches(b, x, 45) implies m.tape[p + x] + net(b, x) >= 0 && fits(
            (m.tape[p + x] + net(b, x)) as nat,
        ) by {
        if c != 43 {
            lemma_no_touch(b, x, 43);
        }
        if c != 45 {
            lemma_no_touch(b, x, 45);
        }
        if touches(b, x, c) {
            lemma_touch_within(b, x, c);
        }
    }
    lemma_bytes_succeed(b, m);
    assert(b.take(k) =~= b);
    lemma_straight_forward(ops, 0, b, k, m, fuel, input);
    lemma_bytes_effect(b, m);
    let fin = run_bytes(b, m).0;
    assert(run(ops, 0, m, fuel, input).machine == fin);
    if c == 62 || c == 60 {
        assert(fin.tape =~= m.tape);
    } else {
        assert(touches(b, 0, c));
        assert(fin.tape[p] == m.tape[p] + net(b, 0));
        assert(fin.tape =~= m.tape.update(p, fin.tape[p]));
    }
}

proof fn lemma_mul_bodies_reach()
    ensures
        lowest(mul_first_body()) == 0,
        highest(mul_first_body()) == 2,
        lowest(mul_second_body()) == -2,
        highest(mul_second_body()) == 0,
        !mixed(mul_first_body()),
        !mixed(mul_second_body()),
        forall|x: int| #[trigger] touches(mul_first_body(), x, 45) ==> x == 0,
        forall|x: int| #[trigger] touches(mul_first_body(), x, 43) ==> x == 1 || x == 2,
        forall|x: int| #[trigger] touches(mul_second_body(), x, 45) ==> x == 0,
        forall|x: int| #[trigger] touches(mul_second_body(), x, 43) ==> x == -2,
{
    let b1 = mul_first_body();
    let b2 = mul_second_body();
    reveal_with_fuel(displacement, 8);
    reveal_with_fuel(lowest, 8);
    reveal_with_fuel(highest, 8);
    reveal_with_fuel(touches, 8);
    assert(b1.drop_last().drop_last().drop_last().drop_last().drop_last().drop_last().drop_last() =~= Seq::<u8>::empty());
    assert(b2.drop_last().drop_last().drop_last().drop_last().drop_last().drop_last() =~= Seq::<u8>::empty());
}

/// One pass of the literal multiplication loop, run forward from a machine
/// whose cells all fit, with a nonzero counter, an empty cell 3 and room
/// for cell 2 to grow by cell 1.
#[verifier::spinoff_prover]
#[verifier::rlimit(40)]
proof fn lemma_mul_pass_forward(m: Machine, fuel: nat, input: Seq<u8>)
    requires
        0 <= m.pointer,
        m.pointer + 3 < m.tape.len(),
        m.tape[m.pointer] > 0,
        m.tape[m.pointer + 3] == 0,
        all_fit(m.tape),
        fits(m.tape[m.pointer + 2] + m.tape[m.pointer + 1]),
        fuel >= 9 + 15 * m.tape[m.pointer + 1],
    ensures
        run(literal_mul_ops(), 1, m, fuel, input) == run(
            literal_mul_ops(),
            25,
            Machine {
                tape: m.tape.update(m.pointer, (m.tape[m.pointer] - 1) as nat).update(
                    m.pointer + 2,
                    m.tape[m.pointer + 2] + m.tape[m.pointer + 1],
                ),
                ..m
            },
            (fuel - 9 - 15 * m.tape[m.pointer + 1]) as nat,
            input,
        ),
{
    let ops = literal_mul_ops();
    let p = m.pointer;
    let c = m.tape[p];
    let bb = m.tape[p + 1];
    let x = m.tape[p + 2];
    lemma_mul_bodies();
    lemma_mul_bodies_reach();
    let b1 = mul_first_body();
    let b2 = mul_second_body();
    assert(fits(bb) && fits(x) && fits(c));
    // `>`
    let r1 = seq![62u8];
    assert forall|t: int| 0 <= t < r1.len() implies #[trigger] r1[t] == 62 by {}
    lemma_repeated(r1, 62);
    assert(!mixed(r1)) by {
        if mixed(r1) {
            let y = choose|y: int| touches(r1, y, 43) && touches(r1, y, 45);
            lemma_no_touch(r1, y, 43);
        }
    }
    assert forall|y: int|
        #![trigger touches(r1, y, 43)]
        #![trigger touches(r1, y, 45)]
        touches(r1, y, 43) || touches(r1, y, 45) implies m.tape[p + y] + net(r1, y) >= 0 && fits(
            (m.tape[p + y] + net(r1, y)) as nat,
        ) by {
        lemma_no_touch(r1, y, 43);
        lemma_no_touch(r1, y, 45);
    }
    lemma_bytes_succeed(r1, m);
    assert(r1.take(1) =~= r1);
    lemma_straight_forward(ops, 1, r1, 1, m, fuel, input);
    lemma_bytes_effect(r1, m);
    let m1 = run_bytes(r1, m).0;
    assert(m1.pointer == p + 1);
    assert(m1.tape =~= m.tape);
    let f1 = (fuel - 1) as nat;
    // `[->+>+<<]`
    assert forall|y: int|
        #![trigger touches(b1, y, 43)]
        #![trigger touches(b1, y, 45)]
        m1.tape[m1.pointer] > 0 && (touches(b1, y, 43) || touches(b1, y, 45)) implies m1.tape[m1.pointer + y]
            + m1.tape[m1.pointer] * net(b1, y) >= 0 && fits(
            (m1.tape[m1.pointer + y] + m1.tape[m1.pointer] * net(b1, y)) as nat,
        ) by {
        if y == 0 {
            assert(bb * (-1) == -bb) by (nonlinear_arith);
            assert(bit_length(0) == 0);
        } else if y == 1 {
            assert(bb * 1 == bb) by (nonlinear_arith);
        } else {
            assert(bb * 1 == bb) by (nonlinear_arith);
        }
    }
    assert(bb * (b1.len() + 1) == 8 * bb) by (nonlinear_arith)
        requires
            b1.len() == 7,
    ;
    lemma_loop_forward(ops, 2, b1, m1, f1, input);
    let m2 = after_passes(m1, b1, bb);
    let f2 = (f1 - 1 - bb * (b1.len() + 1)) as nat;
    assert(m2.tape[p + 3] == bb) by {
        assert(bb * 1 == bb) by (nonlinear_arith);
    }
    assert(m2.tape[p + 1] == 0) by {
        assert(bb * (-1) == -bb) by (nonlinear_arith);
    }
    assert(m2.tape[p + 2] == x + bb) by {
        assert(bb * 1 == bb) by (nonlinear_arith);
    }
    assert forall|i: int| 0 <= i < m2.tape.len() && i != p + 1 && i != p + 2 && i != p + 3 implies #[trigger] m2.tape[i]
        == m.tape[i] by {
        assert(bb * 0 == 0) by (nonlinear_arith);
    }
    assert(all_fit(m2.tape)) by {
        assert forall|i: int| 0 <= i < m2.tape.len() implies fits(#[trigger] m2.tape[i]) by {
            if i == p + 1 {
                assert(bit_length(0) == 0);
            }
        }
    }
    // `>>`
    let r2 = seq![62u8, 62];
    assert forall|t: int| 0 <= t < r2.len() implies #[trigger] r2[t] == 62 by {}
    lemma_repeated(r2, 62);
    assert(!mixed(r2)) by {
        if mixed(r2) {
            let y = choose|y: int| touches(r2, y, 43) && touches(r2, y, 45);
            lemma_no_touch(r2, y, 43);
        }
    }
    assert forall|y: int|
        #![trigger touches(r2, y, 43)]
        #![trigger touches(r2, y, 45)]
        touches(r2, y, 43) || touches(r2, y, 45) implies m2.tape[m2.pointer + y] + net(r2, y) >= 0 && fits(
            (m2.tape[m2.pointer + y] + net(r2, y)) as nat,
        ) by {
        lemma_no_touch(r2, y, 43);
        lemma_no_touch(r2, y, 45);
    }
    lemma_bytes_succeed(r2, m2);
    assert(r2.take(2) =~= r2);
    lemma_straight_forward(ops, 11, r2, 2, m2, f2, input);
    lemma_bytes_effect(r2, m2);
    let m3 = run_bytes(r2, m2).0;
    assert(m3.pointer == p + 3);
    assert(m3.tape =~= m2.tape);
    let f3 = (f2 - 2) as nat;
    // `[-<<+>>]`
    assert forall|y: int|
        #![trigger touches(b2, y, 43)]
        #![trigger touches(b2, y, 45)]
        m3.tape[m3.pointer] > 0 && (touches(b2, y, 43) || touches(b2, y, 45)) implies m3.tape[m3.pointer + y]
            + m3.tape[m3.pointer] * net(b2, y) >= 0 && fits(
            (m3.tape[m3.pointer + y] + m3.tape[m3.pointer] * net(b2, y)) as nat,
        ) by {
        if y == 0 {
            assert(bb * (-1) == -bb) by (nonlinear_arith);
            assert(bit_length(0) == 0);
        } else {
            assert(bb * 1 == bb) by (nonlinear_arith);
        }
    }
    assert(bb * (b2.len() + 1) == 7 * bb) by (nonlinear_arith)
        requires
            b2.len() == 6,
    ;
    lemma_loop_forward(ops, 13, b2, m3, f3, input);
    let m4 = after_passes(m3, b2, bb);
    let f4 = (f3 - 1 - bb * (b2.len() + 1)) as nat;
    assert(m4.tape[p + 3] == 0 && m4.tape[p + 1] == bb) by {
        assert(bb * (-1) == -bb) by (nonlinear_arith);
        assert(bb * 1 == bb) by (nonlinear_arith);
    }
    assert forall|i: int| 0 <= i < m4.tape.len() && i != p + 1 && i != p + 3 implies #[trigger] m4.tape[i]
        == m3.tape[i] by {
        assert(bb * 0 == 0) by (nonlinear_arith);
    }
    assert(all_fit(m4.tape)) by {
        assert forall|i: int| 0 <= i < m4.tape.len() implies fits(#[trigger] m4.tape[i]) by {
            if i == p + 3 {
                assert(bit_length(0) == 0);
            }
        }
    }
    // `<<<-`
    let r3 = mul_body_end();
    lemma_back_to_counter();
    assert forall|t: int| 0 <= t < r3.len() implies is_transfer(#[trigger] r3[t]) by {}
    assert(!mixed(r3)) by {
        if mixed(r3) {
            let y = choose|y: int| touches(r3, y, 43) && touches(r3, y, 45);
            assert(forall|t: int| 0 <= t < r3.len() ==> #[trigger] r3[t] != 43);
            lemma_no_touch(r3, y, 43);
        }
    }
    assert forall|y: int|
        #![trigger touches(r3, y, 43)]
        #![trigger touches(r3, y, 45)]
        touches(r3, y, 43) || touches(r3, y, 45) implies m4.tape[m4.pointer + y] + net(r3, y) >= 0 && fits(
            (m4.tape[m4.pointer + y] + net(r3, y)) as nat,
        ) by {
        assert(forall|t: int| 0 <= t < r3.len() ==> #[trigger] r3[t] != 43);
        lemma_no_touch(r3, y, 43);
        lemma_net_bounds(r3, y);
        if touches(r3, y, 45) {
            lemma_touch_within(r3, y, 45);
            assert(y == -3);
            lemma_bit_length_monotone((c - 1) as nat, c);
        }
    }
    lemma_bytes_succeed(r3, m4);
    assert(r3.take(4) =~= r3);
    lemma_straight_forward(ops, 21, r3, 4, m4, f4, input);
    lemma_bytes_effect(r3, m4);
    let m5 = run_bytes(r3, m4).0;
    assert(m5.pointer == p);
    let one = m.tape.update(p, (c - 1) as nat).update(p + 2, x + bb);
    assert forall|i: int| 0 <= i < m.tape.len() implies #[trigger] m5.tape[i] == one[i] by {
        assert(m5.tape[i] == m4.tape[i] + net(r3, i - (p + 3)));
    }
    assert(m5.tape =~= one);
}

/// The passes of the literal multiplication loop, run forward.
proof fn lemma_mul_passes_forward(m: Machine, fuel: nat, input: Seq<u8>)
    requires
        0 <= m.pointer,
        m.pointer + 3 < m.tape.len(),
        m.tape[m.pointer] > 0,
        m.tape[m.pointer + 3] == 0,
        all_fit(m.tape),
        fits(m.tape[m.pointer + 2] + m.tape[m.pointer] * m.tape[m.pointer + 1]),
        fuel >= m.tape[m.pointer] * (10 + 15 * m.tape[m.pointer + 1]),
    ensures
        run(literal_mul_ops(), 1, m, fuel, input).error is None,
        run(literal_mul_ops(), 1, m, fuel, input).machine == mul_result(m),
    decreases m.tape[m.pointer],
{
    let ops = literal_mul_ops();
    let p = m.pointer;
    let c = m.tape[p];
    let bb = m.tape[p + 1];
    let x = m.tape[p + 2];
    let k = 10 + 15 * bb;
    assert(c * k >= k) by (nonlinear_arith)
        requires
            c >= 1,
            k >= 10,
    ;
    assert(c * bb >= bb) by (nonlinear_arith)
        requires
            c >= 1,
    ;
    lemma_bit_length_monotone(x + bb, x + c * bb);
    lemma_mul_pass_forward(m, fuel, input);
    let m5 = Machine { tape: m.tape.update(p, (c - 1) as nat).update(p + 2, x + bb), ..m };
    let f5 = (fuel - 9 - 15 * bb) as nat;
    assert(ops[25] == SOp::Close(1));
    lemma_sum_step(x as int, bb as int, c);
    if c - 1 != 0 {
        assert(run(ops, 25, m5, f5, input) == run(ops, 1, m5, (f5 - 1) as nat, input));
        assert((c - 1) * k == c * k - k) by (nonlinear_arith);
        assert(all_fit(m5.tape)) by {
            lemma_bit_length_monotone((c - 1) as nat, c);
        }
        lemma_mul_passes_forward(m5, (f5 - 1) as nat, input);
        assert(mul_result(m5).tape =~= mul_result(m).tape);
    } else {
        assert(run(ops, 25, m5, f5, input) == run(ops, 26, m5, (f5 - 1) as nat, input));
        assert(c * bb == bb) by (nonlinear_arith)
            requires
                c == 1,
        ;
        assert(m5.tape =~= mul_result(m).tape);
    }
}

proof fn lemma_sum_step(x: int, bb: int, c: nat)
    requires
        c > 0,
    ensures
        (x + bb) + (c - 1) * bb == x + c * bb,
{
    assert((c - 1) * bb + bb == c * bb) by (nonlinear_arith);
}

/// Conversely, `Mul` adds no success: where it goes on to the next op
/// without an error from a machine whose cells all fit, the multiplication
/// loop `MUL`, compiled literally and run on its own, ends without an error
/// in the same machine, given a unit of fuel for its `[` and fuel for each
/// pass (ten units, and fifteen per unit of cell 1).
pub proof fn law_mul_has_literal_run(pc: int, m: Machine, fuel: nat, input: Seq<u8>)
    requires
        valid(m, input),
        all_fit(m.tape),
        op_step(SOp::Mul, pc, m, input, mul_program(), div_program()) is Jump,
        fuel >= 1 + m.tape[m.pointer] * (10 + 15 * m.tape[m.pointer + 1]),
    ensures
        mul_program() is Some,
        run(mul_program()->0, 0, m, fuel, input).error is None,
        op_step(SOp::Mul, pc, m, input, mul_program(), div_program()) == Step::Jump(
            pc + 1,
            run(mul_program()->0, 0, m, fuel, input).machine,
        ),
{
    lemma_mul_program();
    let ops = literal_mul_ops();
    let p = m.pointer;
    let a = m.tape[p];
    if a == 0 {
        assert(run(ops, 0, m, fuel, input) == run(ops, 26, m, (fuel - 1) as nat, input));
    } else {
        assert(run(ops, 0, m, fuel, input) == run(ops, 1, m, (fuel - 1) as nat, input));
        lemma_mul_passes_forward(m, (fuel - 1) as nat, input);
        let bb = m.tape[p + 1];
        let x = m.tape[p + 2];
        assert(mul_result(m).tape =~= m.tape.update(p + 2, x + a * bb).update(p, 0));
    }
}

proof fn lemma_div_restore_reach()
    ensures
        lowest(div_restore()) == -1,
        highest(div_restore()) == 0,
        !mixed(div_restore()),
{
    let b = div_restore();
    reveal_with_fuel(displacement, 6);
    reveal_with_fuel(lowest, 6);
    reveal_with_fuel(highest, 6);
    reveal_with_fuel(touches, 6);
    assert(b.drop_last().drop_last().drop_last().drop_last() =~= Seq::<u8>::empty());
}

/// Transfer instructions without `+` or without `-` never both add to and
/// subtract from a cell.
proof fn lemma_one_sign(b: Seq<u8>)
    requires
        (forall|t: int| 0 <= t < b.len() ==> #[trigger] b[t] != 43) || (forall|t: int|
            0 <= t < b.len() ==> #[trigger] b[t] != 45),
    ensures
        !mixed(b),
{
    if mixed(b) {
        let y = choose|y: int| touches(b, y, 43) && touches(b, y, 45);
        if forall|t: int| 0 <= t < b.len() ==> #[trigger] b[t] != 43 {
            lemma_no_touch(b, y, 43);
        } else {
            lemma_no_touch(b, y, 45);
        }
    }
}

/// A forward pass of the literal divmod loop whose remaining divisor is at
/// least 2.
#[verifier::spinoff_prover]
#[verifier::rlimit(40)]
proof fn lemma_div_pass_count_forward(m: Machine, fuel: nat, input: Seq<u8>)
    requires
        0 <= m.pointer,
        m.pointer + 5 < m.tape.len(),
        m.tape[m.pointer] > 0,
        m.tape[m.pointer + 1] >= 2,
        m.tape[m.pointer + 4] == 0,
        m.tape[m.pointer + 5] == 0,
        all_fit(m.tape),
        fits(m.tape[m.pointer + 2] + 1),
        fuel >= 16,
    ensures
        run(literal_div_ops(), 1, m, fuel, input) == run(
            literal_div_ops(),
            29,
            Machine {
                tape: m.tape.update(m.pointer, (m.tape[m.pointer] - 1) as nat).update(
                    m.pointer + 1,
                    (m.tape[m.pointer + 1] - 1) as nat,
                ).update(m.pointer + 2, m.tape[m.pointer + 2] + 1),
                ..m
            },
            (fuel - 16) as nat,
            input,
        ),
{
    let ops = literal_div_ops();
    let p = m.pointer;
    lemma_div_segments();
    lemma_div_moves();
    let c = m.tape[p];
    let u = m.tape[p + 1];
    // `->-`
    let h = div_head();
    assert forall|t: int| 0 <= t < h.len() implies is_transfer(#[trigger] h[t]) && #[trigger] h[t] != 43 by {}
    lemma_one_sign(h);
    assert forall|y: int|
        #![trigger touches(h, y, 43)]
        #![trigger touches(h, y, 45)]
        touches(h, y, 43) || touches(h, y, 45) implies m.tape[p + y] + net(h, y) >= 0 && fits(
            (m.tape[p + y] + net(h, y)) as nat,
        ) by {
        lemma_no_touch(h, y, 43);
        lemma_touch_within(h, y, 45);
        lemma_net_bounds(h, y);
        lemma_bit_length_monotone((m.tape[p + y] - 1) as nat, m.tape[p + y]);
    }
    lemma_bytes_succeed(h, m);
    assert(h.take(3) =~= h);
    lemma_straight_forward(ops, 1, h, 3, m, fuel, input);
    lemma_bytes_effect(h, m);
    let m1 = run_bytes(h, m).0;
    assert(m1.pointer == p + 1);
    assert(m1.tape[p + 1] == u - 1);
    assert(run(ops, 4, m1, (fuel - 3) as nat, input) == run(ops, 5, m1, (fuel - 4) as nat, input));
    assert(all_fit(m1.tape)) by {
        assert forall|i: int| 0 <= i < m1.tape.len() implies fits(#[trigger] m1.tape[i]) by {
            if i == p || i == p + 1 {
                lemma_bit_length_monotone(m1.tape[i], m.tape[i]);
            }
        }
    }
    // `>+>>`
    let k = div_count();
    assert forall|t: int| 0 <= t < k.len() implies is_transfer(#[trigger] k[t]) && #[trigger] k[t] != 45 by {}
    lemma_one_sign(k);
    assert forall|y: int|
        #![trigger touches(k, y, 43)]
        #![trigger touches(k, y, 45)]
        touches(k, y, 43) || touches(k, y, 45) implies m1.tape[m1.pointer + y] + net(k, y) >= 0 && fits(
            (m1.tape[m1.pointer + y] + net(k, y)) as nat,
        ) by {
        lemma_no_touch(k, y, 45);
        lemma_touch_within(k, y, 43);
        lemma_net_bounds(k, y);
    }
    lemma_bytes_succeed(k, m1);
    assert(k.take(4) =~= k);
    lemma_straight_forward(ops, 5, k, 4, m1, (fuel - 4) as nat, input);
    lemma_bytes_effect(k, m1);
    let m2 = run_bytes(k, m1).0;
    assert(m2.pointer == p + 4);
    assert(m2.tape[p + 4] == 0);
    assert(run(ops, 9, m2, (fuel - 8) as nat, input) == run(ops, 10, m2, (fuel - 9) as nat, input));
    // `>`
    let r = one_right();
    assert forall|t: int| 0 <= t < r.len() implies is_transfer(#[trigger] r[t]) && #[trigger] r[t] != 45 by {}
    lemma_one_sign(r);
    assert forall|y: int|
        #![trigger touches(r, y, 43)]
        #![trigger touches(r, y, 45)]
        touches(r, y, 43) || touches(r, y, 45) implies m2.tape[m2.pointer + y] + net(r, y) >= 0 && fits(
            (m2.tape[m2.pointer + y] + net(r, y)) as nat,
        ) by {
        assert forall|t: int| 0 <= t < r.len() implies #[trigger] r[t] != 43 by {}
        lemma_no_touch(r, y, 43);
        lemma_no_touch(r, y, 45);
    }
    lemma_bytes_succeed(r, m2);
    assert(r.take(1) =~= r);
    lemma_straight_forward(ops, 10, r, 1, m2, (fuel - 9) as nat, input);
    lemma_bytes_effect(r, m2);
    let m3 = run_bytes(r, m2).0;
    assert(m3.pointer == p + 5);
    assert(m3.tape[p + 5] == 0);
    assert(run(ops, 11, m3, (fuel - 10) as nat, input) == run(ops, 24, m3, (fuel - 11) as nat, input));
    // `<<<<<`
    let l = five_left();
    assert forall|t: int| 0 <= t < l.len() implies is_transfer(#[trigger] l[t]) && #[trigger] l[t] != 45 by {}
    lemma_one_sign(l);
    assert forall|y: int|
        #![trigger touches(l, y, 43)]
        #![trigger touches(l, y, 45)]
        touches(l, y, 43) || touches(l, y, 45) implies m3.tape[m3.pointer + y] + net(l, y) >= 0 && fits(
            (m3.tape[m3.pointer + y] + net(l, y)) as nat,
        ) by {
        assert forall|t: int| 0 <= t < l.len() implies #[trigger] l[t] != 43 by {}
        lemma_no_touch(l, y, 43);
        lemma_no_touch(l, y, 45);
    }
    lemma_bytes_succeed(l, m3);
    assert(l.take(5) =~= l);
    lemma_straight_forward(ops, 24, l, 5, m3, (fuel - 11) as nat, input);
    lemma_bytes_effect(l, m3);
    let m4 = run_bytes(l, m3).0;
    assert(m4.pointer == p);
    let t = m.tape.update(p, (c - 1) as nat).update(p + 1, (u - 1) as nat).update(p + 2, m.tape[p + 2] + 1);
    assert forall|i: int| 0 <= i < m.tape.len() implies #[trigger] m4.tape[i] == t[i] by {
        assert(m1.tape[i] == m.tape[i] + net(h, i - p));
        assert(m2.tape[i] == m1.tape[i] + net(k, i - (p + 1)));
    }
    assert(m4.tape =~= t);
}

/// A forward pass of the literal divmod loop whose remaining divisor is 1.
#[verifier::spinoff_prover]
#[verifier::rlimit(40)]
proof fn lemma_div_pass_carry_forward(m: Machine, fuel: nat, input: Seq<u8>)
    requires
        0 <= m.pointer,
        m.pointer + 5 < m.tape.len(),
        m.tape[m.pointer] > 0,
        m.tape[m.pointer + 1] == 1,
        m.tape[m.pointer + 2] >= 1,
        m.tape[m.pointer + 4] == 0,
        m.tape[m.pointer + 5] == 0,
        all_fit(m.tape),
        fits(m.tape[m.pointer + 3] + 1),
        fuel >= 18 + 5 * m.tape[m.pointer + 2],
    ensures
        run(literal_div_ops(), 1, m, fuel, input) == run(
            literal_div_ops(),
            29,
            Machine {
                tape: m.tape.update(m.pointer, (m.tape[m.pointer] - 1) as nat).update(
                    m.pointer + 1,
                    m.tape[m.pointer + 2],
                ).update(m.pointer + 2, 1).update(m.pointer + 3, m.tape[m.pointer + 3] + 1),
                ..m
            },
            (fuel - 18 - 5 * m.tape[m.pointer + 2]) as nat,
            input,
        ),
{
    let ops = literal_div_ops();
    let p = m.pointer;
    let v = m.tape[p + 2];
    let c = m.tape[p];
    lemma_div_segments();
    lemma_div_moves();
    lemma_div_restore_reach();
    // `->-`
    let h = div_head();
    assert forall|t: int| 0 <= t < h.len() implies is_transfer(#[trigger] h[t]) && #[trigger] h[t] != 43 by {}
    lemma_one_sign(h);
    assert forall|y: int|
        #![trigger touches(h, y, 43)]
        #![trigger touches(h, y, 45)]
        touches(h, y, 43) || touches(h, y, 45) implies m.tape[p + y] + net(h, y) >= 0 && fits(
            (m.tape[p + y] + net(h, y)) as nat,
        ) by {
        lemma_no_touch(h, y, 43);
        lemma_touch_within(h, y, 45);
        lemma_net_bounds(h, y);
        lemma_bit_length_monotone((m.tape[p + y] - 1) as nat, m.tape[p + y]);
    }
    lemma_bytes_succeed(h, m);
    assert(h.take(3) =~= h);
    lemma_straight_forward(ops, 1, h, 3, m, fuel, input);
    lemma_bytes_effect(h, m);
    let m1 = run_bytes(h, m).0;
    assert(m1.pointer == p + 1);
    assert(m1.tape[p + 1] == 0);
    assert(run(ops, 4, m1, (fuel - 3) as nat, input) == run(ops, 10, m1, (fuel - 4) as nat, input));
    assert(all_fit(m1.tape)) by {
        assert forall|i: int| 0 <= i < m1.tape.len() implies fits(#[trigger] m1.tape[i]) by {
            if i == p || i == p + 1 {
                lemma_bit_length_monotone(m1.tape[i], m.tape[i]);
            }
        }
    }
    // `>`
    let r = one_right();
    assert forall|t: int| 0 <= t < r.len() implies is_transfer(#[trigger] r[t]) && #[trigger] r[t] != 45 by {}
    lemma_one_sign(r);
    assert forall|y: int|
        #![trigger touches(r, y, 43)]
        #![trigger touches(r, y, 45)]
        touches(r, y, 43) || touches(r, y, 45) implies m1.tape[m1.pointer + y] + net(r, y) >= 0 && fits(
            (m1.tape[m1.pointer + y] + net(r, y)) as nat,
        ) by {
        assert forall|t: int| 0 <= t < r.len() implies #[trigger] r[t] != 43 by {}
        lemma_no_touch(r, y, 43);
        lemma_no_touch(r, y, 45);
    }
    lemma_bytes_succeed(r, m1);
    assert(r.take(1) =~= r);
    lemma_straight_forward(ops, 10, r, 1, m1, (fuel - 4) as nat, input);
    lemma_bytes_effect(r, m1);
    let m2 = run_bytes(r, m1).0;
    assert(m2.pointer == p + 2);
    assert(m2.tape =~= m1.tape);
    assert(m2.tape[p + 2] == v);
    assert(run(ops, 11, m2, (fuel - 5) as nat, input) == run(ops, 12, m2, (fuel - 6) as nat, input));
    // `[-<+>]`
    let b = div_restore();
    assert(is_literal_loop_at(ops, 12, b)) by {
        assert forall|t: int| 0 <= t < b.len() implies is_transfer(#[trigger] b[t]) && ops[12 + 1 + t]
            == literal_op(b[t]) by {}
    }
    assert forall|y: int|
        #![trigger touches(b, y, 43)]
        #![trigger touches(b, y, 45)]
        m2.tape[m2.pointer] > 0 && (touches(b, y, 43) || touches(b, y, 45)) implies m2.tape[m2.pointer + y]
            + m2.tape[m2.pointer] * net(b, y) >= 0 && fits(
            (m2.tape[m2.pointer + y] + m2.tape[m2.pointer] * net(b, y)) as nat,
        ) by {
        if touches(b, y, 43) {
            lemma_touch_within(b, y, 43);
        } else {
            lemma_touch_within(b, y, 45);
        }
        if y == 0 {
            assert(v * (-1) == -v) by (nonlinear_arith);
            assert(bit_length(0) == 0);
        } else {
            assert(y == -1);
            assert(v * 1 == v) by (nonlinear_arith);
        }
    }
    assert(v * (b.len() + 1) == 5 * v) by (nonlinear_arith)
        requires
            b.len() == 4,
    ;
    lemma_loop_forward(ops, 12, b, m2, (fuel - 6) as nat, input);
    let m3 = after_passes(m2, b, v);
    let f3 = (fuel - 6 - 1 - 5 * v) as nat;
    assert(m3.tape[p + 1] == v) by {
        assert(v * 1 == v) by (nonlinear_arith);
    }
    assert(m3.tape[p + 2] == 0) by {
        assert(v * (-1) == -v) by (nonlinear_arith);
    }
    assert forall|i: int| 0 <= i < m3.tape.len() && i != p + 1 && i != p + 2 implies #[trigger] m3.tape[i]
        == m2.tape[i] by {
        assert(v * 0 == 0) by (nonlinear_arith);
    }
    assert(all_fit(m3.tape)) by {
        assert forall|i: int| 0 <= i < m3.tape.len() implies fits(#[trigger] m3.tape[i]) by {
            if i == p + 2 {
                assert(bit_length(0) == 0);
            }
        }
    }
    // `+>+>>`
    let k = div_carry();
    assert forall|t: int| 0 <= t < k.len() implies is_transfer(#[trigger] k[t]) && #[trigger] k[t] != 45 by {}
    lemma_one_sign(k);
    assert forall|y: int|
        #![trigger touches(k, y, 43)]
        #![trigger touches(k, y, 45)]
        touches(k, y, 43) || touches(k, y, 45) implies m3.tape[m3.pointer + y] + net(k, y) >= 0 && fits(
            (m3.tape[m3.pointer + y] + net(k, y)) as nat,
        ) by {
        lemma_no_touch(k, y, 45);
        lemma_touch_within(k, y, 43);
        lemma_net_bounds(k, y);
        if y == 0 {
            lemma_bit_length_monotone(1, 255);
            assert(bit_length(255) <= 4096) by {
                reveal_with_fuel(bit_length, 10);
            }
        }
    }
    lemma_bytes_succeed(k, m3);
    assert(k.take(5) =~= k);
    lemma_straight_forward(ops, 18, k, 5, m3, f3, input);
    lemma_bytes_effect(k, m3);
    let m4 = run_bytes(k, m3).0;
    assert(m4.pointer == p + 5);
    assert(m4.tape[p + 5] == 0);
    assert(run(ops, 23, m4, (f3 - 5) as nat, input) == run(ops, 24, m4, (f3 - 6) as nat, input));
    // `<<<<<`
    let l = five_left();
    assert forall|t: int| 0 <= t < l.len() implies is_transfer(#[trigger] l[t]) && #[trigger] l[t] != 45 by {}
    lemma_one_sign(l);
    assert forall|y: int|
        #![trigger touches(l, y, 43)]
        #![trigger touches(l, y, 45)]
        touches(l, y, 43) || touches(l, y, 45) implies m4.tape[m4.pointer + y] + net(l, y) >= 0 && fits(
            (m4.tape[m4.pointer + y] + net(l, y)) as nat,
        ) by {
        assert forall|t: int| 0 <= t < l.len() implies #[trigger] l[t] != 43 by {}
        lemma_no_touch(l, y, 43);
        lemma_no_touch(l, y, 45);
    }
    lemma_bytes_succeed(l, m4);
    assert(l.take(5) =~= l);
    lemma_straight_forward(ops, 24, l, 5, m4, (f3 - 6) as nat, input);
    lemma_bytes_effect(l, m4);
    let m5 = run_bytes(l, m4).0;
    assert(m5.pointer == p);
    let t = m.tape.update(p, (c - 1) as nat).update(p + 1, v).update(p + 2, 1).update(p + 3, m.tape[p + 3] + 1);
    assert forall|i: int| 0 <= i < m.tape.len() implies #[trigger] m5.tape[i] == t[i] by {
        assert(m1.tape[i] == m.tape[i] + net(h, i - p));
        assert(m4.tape[i] == m3.tape[i] + net(k, i - (p + 2)));
    }
    assert(m5.tape =~= t);
}

/// The passes of the literal divmod loop, run forward: each costs at most
/// nineteen units of fuel and five per unit of the divisor.
#[verifier::rlimit(40)]
proof fn lemma_div_passes_forward(m: Machine, fuel: nat, input: Seq<u8>)
    requires
        0 <= m.pointer,
        m.pointer + 5 < m.tape.len(),
        m.tape[m.pointer] > 0,
        m.tape[m.pointer + 1] >= 1,
        m.tape[m.pointer + 2] >= 1,
        m.tape[m.pointer + 4] == 0,
        m.tape[m.pointer + 5] == 0,
        all_fit(m.tape),
        fits((m.tape[m.pointer + 1] + m.tape[m.pointer + 2] - 1) as nat),
        fits(
            (m.tape[m.pointer + 3] + (m.tape[m.pointer + 2] - 1 + m.tape[m.pointer]) / (m.tape[m.pointer + 1]
                + m.tape[m.pointer + 2] - 1)) as nat,
        ),
        fuel >= m.tape[m.pointer] * (19 + 5 * (m.tape[m.pointer + 1] + m.tape[m.pointer + 2] - 1)),
    ensures
        run(literal_div_ops(), 1, m, fuel, input).error is None,
        run(literal_div_ops(), 1, m, fuel, input).machine == div_result(m),
    decreases m.tape[m.pointer],
{
    let ops = literal_div_ops();
    let p = m.pointer;
    let c = m.tape[p];
    let u = m.tape[p + 1];
    let v = m.tape[p + 2];
    let q = m.tape[p + 3];
    let d = u + v - 1;
    let total = v - 1 + c;
    let k = 19 + 5 * d;
    assert(ops[29] == SOp::Close(1)) by {
        lemma_div_program();
    }
    assert(c * k >= k) by (nonlinear_arith)
        requires
            c >= 1,
            k >= 19,
    ;
    assert((c - 1) * k == c * k - k) by (nonlinear_arith);
    assert(all_fit(m.tape.update(p, (c - 1) as nat))) by {
        lemma_bit_length_monotone((c - 1) as nat, c);
    }
    if u >= 2 {
        lemma_bit_length_monotone(v + 1, d as nat);
        lemma_div_pass_count_forward(m, fuel, input);
        let m1 = Machine {
            tape: m.tape.update(p, (c - 1) as nat).update(p + 1, (u - 1) as nat).update(p + 2, v + 1),
            ..m
        };
        let f = (fuel - 16) as nat;
        assert(all_fit(m1.tape)) by {
            lemma_bit_length_monotone((u - 1) as nat, u);
            lemma_bit_length_monotone((c - 1) as nat, c);
        }
        if c - 1 != 0 {
            assert(run(ops, 29, m1, f, input) == run(ops, 1, m1, (f - 1) as nat, input));
            lemma_div_passes_forward(m1, (f - 1) as nat, input);
            assert(div_result(m1).tape =~= div_result(m).tape);
        } else {
            assert(run(ops, 29, m1, f, input) == run(ops, 30, m1, (f - 1) as nat, input));
            lemma_small_divmod(total, d);
            assert(m1.tape =~= div_result(m).tape);
        }
    } else {
        lemma_divmod_step(c - 1, d);
        assert(total / d >= 1) by {
            lemma_small_divmod(0, d);
        }
        lemma_bit_length_monotone(q + 1, (q + total / d) as nat);
        lemma_div_pass_carry_forward(m, fuel, input);
        let m1 = Machine {
            tape: m.tape.update(p, (c - 1) as nat).update(p + 1, v).update(p + 2, 1).update(p + 3, q + 1),
            ..m
        };
        let f = (fuel - 18 - 5 * v) as nat;
        assert(all_fit(m1.tape)) by {
            lemma_bit_length_monotone((c - 1) as nat, c);
            assert(bit_length(1) <= 4096) by {
                reveal_with_fuel(bit_length, 3);
            }
        }
        if c - 1 != 0 {
            assert(run(ops, 29, m1, f, input) == run(ops, 1, m1, (f - 1) as nat, input));
            lemma_div_passes_forward(m1, (f - 1) as nat, input);
            assert(div_result(m1).tape =~= div_result(m).tape);
        } else {
            assert(run(ops, 29, m1, f, input) == run(ops, 30, m1, (f - 1) as nat, input));
            lemma_small_divmod(0, d);
            assert(m1.tape =~= div_result(m).tape);
        }
    }
}

/// Conversely, `Div` adds no success: where it goes on to the next op
/// without an error from a machine whose cells all fit, the divmod loop
/// `DIV`, compiled literally and run on its own, ends without an error in
/// the same machine, given a unit of fuel for its `[` and fuel for each
/// pass (nineteen units, and five per unit of the divisor in cell 1).
pub proof fn law_div_has_literal_run(pc: int, m: Machine, fuel: nat, input: Seq<u8>)
    requires
        valid(m, input),
        all_fit(m.tape),
        op_step(SOp::Div, pc, m, input, mul_program(), div_program()) is Jump,
        fuel >= 1 + m.tape[m.pointer] * (19 + 5 * m.tape[m.pointer + 1]),
    ensures
        div_program() is Some,
        run(div_program()->0, 0, m, fuel, input).error is None,
        op_step(SOp::Div, pc, m, input, mul_program(), div_program()) == Step::Jump(
            pc + 1,
            run(div_program()->0, 0, m, fuel, input).machine,
        ),
{
    lemma_div_program();
    let ops = literal_div_ops();
    let p = m.pointer;
    let n = m.tape[p];
    if n == 0 {
        assert(run(ops, 0, m, fuel, input) == run(ops, 30, m, (fuel - 1) as nat, input));
    } else {
        let d = m.tape[p + 1];
        assert(run(ops, 0, m, fuel, input) == run(ops, 1, m, (fuel - 1) as nat, input));
        assert(n / d <= n) by {
            vstd::arithmetic::div_mod::lemma_div_is_ordered_by_denominator(n as int, 1, d as int);
        }
        lemma_bit_length_monotone(n / d, n);
        lemma_div_passes_forward(m, (fuel - 1) as nat, input);
        vstd::arithmetic::div_mod::lemma_mod_bound(n as int, d as int);
        assert(div_result(m).tape =~= m.tape.update(p, 0).update(p + 1, (d - n % d) as nat).update(
            p + 2,
            n % d + 1,
        ).update(p + 3, n / d));
    }
}

} // verus!
