//! Optimizing a program keeps what it does.
//!
//! The optimizer's tokens line up with the literal instructions: every
//! bracket token is one bracket byte, and every other token stands for a run
//! of bytes whose literal ops, linked on their own, sit unchanged inside the
//! literal program. So the two compilations succeed together, and the
//! optimized program runs token by token as the literal one runs byte by
//! byte, each op doing in one step what its bytes do.
use crate::compiler::{
    is_one_loop, lemma_one_loop_links, affine_spec, body_end, brackets_match, lemma_instructions_brackets, lemma_literal_compiles, compile_spec, compiled, instructions, is_instruction, is_transfer,
    lemma_body_end_range, lemma_lex_literal, lemma_link_failure_sticks, lemma_link_shape,
    lemma_pattern_lengths, lex, link, literal_op, occurs_at, run_length, same_kind, token, Linked,
};
use crate::converse::{
    law_affine_loop_has_literal_run, law_div_has_literal_run, law_folded_run_has_literal_run,
    law_mul_has_literal_run,
};
use crate::peephole::{
    literal_div_ops, literal_mul_ops, affine_op, loop_body, law_affine_loop_matches_literal, law_div_matches_literal,
    law_folded_run_matches_literal, law_mul_matches_literal, leading_run, lemma_div_program,
    lemma_link_plain, lemma_loop_compiles, lemma_mul_program, lemma_run_length, loop_program,
};
use crate::vm::{
    law_only_out_writes, all_fit, div_program, lemma_run_keeps_cells_within_limit, lemma_run_valid, lemma_step_fits,
    lemma_step_valid, mul_program,
    op_step, run, valid, DIV, Machine, MUL, Outcome, SOp, Step, VmError,
};
use vstd::prelude::*;
use vstd::string::StringSliceAdditionalSpecFns;

verus! {

/// A run never ends with more fuel than it started with.
pub proof fn lemma_run_fuel_bound(ops: Seq<SOp>, pc: int, m: Machine, f: nat, input: Seq<u8>)
    ensures
        run(ops, pc, m, f, input).fuel <= f,
    decreases f,
{
    if 0 <= pc < ops.len() && f > 0 {
        match op_step(ops[pc], pc, m, input, mul_program(), div_program()) {
            Step::Jump(next, m2) => {
                lemma_run_fuel_bound(ops, next, m2, (f - 1) as nat, input);
            },
            Step::Fail(e, m2) => {},
            Step::Call(None, m2) => {},
            Step::Call(Some(literal), m2) => {
                let inner = run(literal, 0, m2, (f - 1) as nat, input);
                lemma_run_fuel_bound(literal, 0, m2, (f - 1) as nat, input);
                if !(inner.error is Some || inner.fuel >= f) {
                    lemma_run_fuel_bound(ops, pc + 1, inner.machine, inner.fuel, input);
                }
            },
        }
    }
}

/// A run that succeeds needs no more fuel than it spends: given any fuel
/// that covers what it spent, it ends the same way, with the rest left.
pub proof fn lemma_run_fuel_shift(ops: Seq<SOp>, pc: int, m: Machine, f: nat, f2: nat, input: Seq<u8>)
    requires
        run(ops, pc, m, f, input).error is None,
        f2 + run(ops, pc, m, f, input).fuel >= f,
    ensures
        run(ops, pc, m, f2, input) == (Outcome {
            fuel: (f2 + run(ops, pc, m, f, input).fuel - f) as nat,
            ..run(ops, pc, m, f, input)
        }),
    decreases f,
{
    lemma_run_fuel_bound(ops, pc, m, f, input);
    if 0 <= pc < ops.len() {
        assert(f > 0);
        match op_step(ops[pc], pc, m, input, mul_program(), div_program()) {
            Step::Jump(next, m2) => {
                lemma_run_fuel_bound(ops, next, m2, (f - 1) as nat, input);
                lemma_run_fuel_shift(ops, next, m2, (f - 1) as nat, (f2 - 1) as nat, input);
            },
            Step::Fail(e, m2) => {},
            Step::Call(None, m2) => {},
            Step::Call(Some(literal), m2) => {
                let inner = run(literal, 0, m2, (f - 1) as nat, input);
                lemma_run_fuel_bound(literal, 0, m2, (f - 1) as nat, input);
                assert(inner.error is None);
                assert(inner.fuel < f);
                lemma_run_fuel_bound(ops, pc + 1, inner.machine, inner.fuel, input);
                lemma_run_fuel_shift(literal, 0, m2, (f - 1) as nat, (f2 - 1) as nat, input);
                let f3 = (f2 - 1 + inner.fuel - (f - 1)) as nat;
                lemma_run_fuel_shift(ops, pc + 1, inner.machine, inner.fuel, f3, input);
            },
        }
    }
}

/// A run that stops with an error other than running out of fuel stops, with
/// any other fuel, with that error or for want of fuel: more fuel never turns
/// such an error into a success.
pub proof fn lemma_error_persists(ops: Seq<SOp>, pc: int, m: Machine, f: nat, f2: nat, input: Seq<u8>)
    requires
        run(ops, pc, m, f, input).error is Some,
        run(ops, pc, m, f, input).error != Some(VmError::Fuel),
    ensures
        run(ops, pc, m, f2, input).error == run(ops, pc, m, f, input).error || run(ops, pc, m, f2, input).error
            == Some(VmError::Fuel),
    decreases f + f2,
{
    if 0 <= pc < ops.len() && f2 > 0 {
        assert(f > 0);
        match op_step(ops[pc], pc, m, input, mul_program(), div_program()) {
            Step::Jump(next, m2) => {
                lemma_error_persists(ops, next, m2, (f - 1) as nat, (f2 - 1) as nat, input);
            },
            Step::Fail(e, m2) => {},
            Step::Call(None, m2) => {},
            Step::Call(Some(literal), m2) => {
                let inner = run(literal, 0, m2, (f - 1) as nat, input);
                let inner2 = run(literal, 0, m2, (f2 - 1) as nat, input);
                lemma_run_fuel_bound(literal, 0, m2, (f - 1) as nat, input);
                lemma_run_fuel_bound(literal, 0, m2, (f2 - 1) as nat, input);
                if inner.error is Some {
                    lemma_error_persists(literal, 0, m2, (f - 1) as nat, (f2 - 1) as nat, input);
                } else if inner2.error is None {
                    // Both inner runs succeed: they end in the same machine.
                    if f2 - 1 + inner.fuel >= f - 1 {
                        lemma_run_fuel_shift(literal, 0, m2, (f - 1) as nat, (f2 - 1) as nat, input);
                    } else {
                        lemma_run_fuel_shift(literal, 0, m2, (f2 - 1) as nat, (f - 1) as nat, input);
                    }
                    assert(inner2.machine == inner.machine);
                    lemma_error_persists(ops, pc + 1, inner.machine, inner.fuel, inner2.fuel, input);
                } else if inner2.error != Some(VmError::Fuel) {
                    // A success with one fuel and an error other than
                    // running out of fuel with another cannot both happen.
                    lemma_error_persists(literal, 0, m2, (f2 - 1) as nat, (f - 1) as nat, input);
                }
            },
        }
    }
}

/// An op of a program placed at `base` of another: its jumps move along.
pub open spec fn shift_op(op: SOp, base: int) -> SOp {
    match op {
        SOp::Open(x) => SOp::Open(x + base),
        SOp::Close(x) => SOp::Close(x + base),
        _ => op,
    }
}

/// `ops` holds the program `q` from `base` on.
pub open spec fn embeds(ops: Seq<SOp>, base: int, q: Seq<SOp>) -> bool {
    &&& 0 <= base
    &&& base + q.len() <= ops.len()
    &&& forall|i: int| 0 <= i < q.len() ==> ops[base + i] == #[trigger] shift_op(q[i], base)
}

/// Every jump of `q` lands within it or just past its end.
pub open spec fn closed(q: Seq<SOp>) -> bool {
    forall|i: int|
        0 <= i < q.len() ==> match #[trigger] q[i] {
            SOp::Open(x) => 0 <= x <= q.len(),
            SOp::Close(x) => 0 <= x <= q.len(),
            _ => true,
        }
}

proof fn lemma_shifted_step(op: SOp, pc: int, base: int, m: Machine, input: Seq<u8>)
    ensures
        op_step(shift_op(op, base), pc + base, m, input, mul_program(), div_program()) == match op_step(
            op,
            pc,
            m,
            input,
            mul_program(),
            div_program(),
        ) {
            Step::Jump(x, m2) => Step::Jump(x + base, m2),
            other => other,
        },
{
}

/// A program placed inside another runs there as it runs on its own, and
/// the run then goes on after it.
pub proof fn lemma_embedded_run(ops: Seq<SOp>, base: int, q: Seq<SOp>, i: int, m: Machine, f: nat, input: Seq<u8>)
    requires
        embeds(ops, base, q),
        closed(q),
        0 <= i <= q.len(),
    ensures
        run(ops, base + i, m, f, input) == (if run(q, i, m, f, input).error is Some {
            run(q, i, m, f, input)
        } else {
            run(ops, base + q.len(), run(q, i, m, f, input).machine, run(q, i, m, f, input).fuel, input)
        }),
    decreases f,
{
    if i < q.len() && f > 0 {
        let op = q[i];
        assert(ops[base + i] == shift_op(op, base));
        lemma_shifted_step(op, i, base, m, input);
        match op_step(op, i, m, input, mul_program(), div_program()) {
            Step::Jump(x, m2) => {
                assert(0 <= x <= q.len());
                lemma_embedded_run(ops, base, q, x, m2, (f - 1) as nat, input);
            },
            Step::Fail(e, m2) => {},
            Step::Call(None, m2) => {},
            Step::Call(Some(literal), m2) => {
                let inner = run(literal, 0, m2, (f - 1) as nat, input);
                lemma_run_fuel_bound(literal, 0, m2, (f - 1) as nat, input);
                if !(inner.error is Some || inner.fuel >= f) {
                    lemma_embedded_run(ops, base, q, i + 1, inner.machine, inner.fuel, input);
                }
            },
        }
    }
}

/// An op linked within a segment, seen from `n` ops further on: jumps move
/// along, and a `[` still waiting for its `]` stays unlinked.
pub open spec fn shift_linked(op: SOp, n: int) -> SOp {
    match op {
        SOp::Open(x) => if x == 0 {
            op
        } else {
            SOp::Open(x + n)
        },
        SOp::Close(x) => SOp::Close(x + n),
        _ => op,
    }
}

pub open spec fn shift_all(ops: Seq<SOp>, n: int) -> Seq<SOp> {
    ops.map_values(|op: SOp| shift_linked(op, n))
}

pub open spec fn shift_positions(open: Seq<int>, n: int) -> Seq<int> {
    open.map_values(|x: int| x + n)
}

/// Linking a segment after others links it as it links on its own, moved
/// along, as long as every `]` in it finds its `[` in it.
pub proof fn lemma_link_append(t: Seq<SOp>, g: Seq<SOp>)
    requires
        link(t).ok,
        link(g).ok,
    ensures
        link(t + g) == (Linked {
            ops: link(t).ops + shift_all(link(g).ops, t.len() as int),
            open: link(t).open + shift_positions(link(g).open, t.len() as int),
            ok: true,
        }),
    decreases g.len(),
{
    let n = t.len() as int;
    lemma_link_shape(t);
    if g.len() == 0 {
        assert(t + g =~= t);
        assert(link(g).ops =~= Seq::<SOp>::empty());
        assert(link(t).ops + shift_all(link(g).ops, n) =~= link(t).ops);
        assert(link(t).open + shift_positions(link(g).open, n) =~= link(t).open);
    } else {
        let g0 = g.drop_last();
        let x = g.last();
        assert(link(g0).ok);
        lemma_link_append(t, g0);
        lemma_link_shape(g0);
        assert((t + g).drop_last() =~= t + g0);
        assert((t + g).last() == x);
        let l0 = link(g0);
        let c0 = link(t + g0);
        assert(c0.ops.len() == n + g0.len());
        match x {
            SOp::Open(_) => {
                assert(c0.ops.push(SOp::Open(0)) =~= link(t).ops + shift_all(link(g).ops, n));
                assert(c0.open.push(c0.ops.len() as int) =~= link(t).open + shift_positions(link(g).open, n));
            },
            SOp::Close(_) => {
                let j = l0.open.last();
                assert(c0.open.last() == j + n);
                assert(c0.ops.update(j + n, SOp::Open(c0.ops.len() + 1int)).push(SOp::Close(j + n + 1))
                    =~= link(t).ops + shift_all(link(g).ops, n));
                assert(c0.open.drop_last() =~= link(t).open + shift_positions(link(g).open, n));
            },
            _ => {
                assert(c0.ops.push(x) =~= link(t).ops + shift_all(link(g).ops, n));
            },
        }
    }
}

/// Where the optimizer's next token starts after the one at `i`.
pub open spec fn next_token(s: Seq<u8>, i: int) -> int {
    i + token(s, i, true).1
}

/// Where the `k`-th optimized token from `i` starts.
pub open spec fn tok_pos(s: Seq<u8>, i: int, k: int) -> int
    decreases k,
{
    if k <= 0 {
        i
    } else {
        tok_pos(s, next_token(s, i), k - 1)
    }
}

proof fn lemma_run_length_bounds(s: Seq<u8>, i: int, c: u8)
    requires
        0 <= i <= s.len(),
    ensures
        0 <= run_length(s, i, c) <= s.len() - i,
    decreases s.len() - i,
{
    if i < s.len() && s[i] == c {
        lemma_run_length_bounds(s, i + 1, c);
    }
}

/// Every optimized token takes at least one byte, and no more than are left.
pub proof fn lemma_token_len(s: Seq<u8>, i: int)
    requires
        0 <= i < s.len(),
    ensures
        1 <= token(s, i, true).1,
        i + token(s, i, true).1 <= s.len(),
        token(s, i, true).0 is Open ==> s[i] == 91 && token(s, i, true).1 == 1,
        token(s, i, true).0 is Close ==> s[i] == 93 && token(s, i, true).1 == 1,
{
    lemma_pattern_lengths();
    let c = s[i];
    if c == 91 && affine_spec(s.skip(i)) is Some {
        lemma_body_end_range(s.skip(i), 1);
    }
    lemma_run_length_bounds(s, i + 1, c);
}

/// The optimized tokens of `s` from `i` on, one by one.
pub proof fn lemma_lex_positions(s: Seq<u8>, i: int)
    requires
        0 <= i <= s.len(),
    ensures
        forall|k: int|
            0 <= k < lex(s, i, true).len() ==> lex(s, i, true)[k] == token(s, #[trigger] tok_pos(s, i, k), true).0
                && i <= tok_pos(s, i, k) < s.len(),
        tok_pos(s, i, lex(s, i, true).len() as int) == s.len(),
    decreases s.len() - i,
{
    if i < s.len() {
        lemma_token_len(s, i);
        let j = next_token(s, i);
        lemma_lex_positions(s, j);
        let t = lex(s, i, true);
        assert(t == seq![token(s, i, true).0] + lex(s, j, true));
        assert forall|k: int| 0 <= k < t.len() implies t[k] == token(s, #[trigger] tok_pos(s, i, k), true).0
            && i <= tok_pos(s, i, k) < s.len() by {
            if k > 0 {
                assert(tok_pos(s, i, k) == tok_pos(s, j, k - 1));
                assert(t[k] == lex(s, j, true)[k - 1]);
            }
        }
        assert(tok_pos(s, i, t.len() as int) == tok_pos(s, j, lex(s, j, true).len() as int));
    }
}

/// The token after the `k`-th starts where the `k`-th ends.
pub proof fn lemma_tok_pos_step(s: Seq<u8>, i: int, k: int)
    requires
        0 <= k,
    ensures
        tok_pos(s, i, k + 1) == next_token(s, tok_pos(s, i, k)),
    decreases k,
{
    let j = next_token(s, i);
    assert(tok_pos(s, i, k + 1) == tok_pos(s, j, k));
    if k > 0 {
        lemma_tok_pos_step(s, j, k - 1);
        assert(tok_pos(s, i, k) == tok_pos(s, j, k - 1));
    } else {
        assert(tok_pos(s, j, 0) == j);
    }
}

/// Tokens follow one another: the `x`-th ends no later than the `y`-th
/// starts.
pub proof fn lemma_tok_pos_order(s: Seq<u8>, x: int, y: int)
    requires
        0 <= x < y <= lex(s, 0, true).len(),
    ensures
        tok_pos(s, 0, x) < tok_pos(s, 0, x + 1) <= tok_pos(s, 0, y),
    decreases y - x,
{
    lemma_lex_positions(s, 0);
    lemma_tok_pos_step(s, 0, x);
    lemma_token_len(s, tok_pos(s, 0, x));
    if x + 1 < y {
        lemma_tok_pos_order(s, x + 1, y);
    }
}

/// The jumps that linking sets: every jump lands within the ops or just past
/// them, and a `[` is left unlinked only while it waits for its `]`.
pub proof fn lemma_link_targets(t: Seq<SOp>)
    requires
        link(t).ok,
    ensures
        link(t).ops.len() == t.len(),
        forall|j: int| 0 <= j < link(t).open.len() ==> 0 <= #[trigger] link(t).open[j] < t.len(),
        forall|j: int| 0 <= j < link(t).open.len() ==> link(t).ops[#[trigger] link(t).open[j]] == SOp::Open(0),
        forall|a: int, b: int| 0 <= a < b < link(t).open.len() ==> #[trigger] link(t).open[a] < #[trigger] link(t).open[b],
        forall|j: int|
            0 <= j < t.len() ==> match #[trigger] link(t).ops[j] {
                SOp::Open(x) => 0 <= x <= t.len() && (x == 0 ==> link(t).open.contains(j)),
                SOp::Close(x) => 0 <= x <= t.len(),
                _ => true,
            },
    decreases t.len(),
{
    lemma_link_shape(t);
    if t.len() > 0 {
        let t0 = t.drop_last();
        lemma_link_targets(t0);
        let l0 = link(t0);
        let l = link(t);
        assert forall|j: int| 0 <= j < l.open.len() implies l.ops[#[trigger] l.open[j]] == SOp::Open(0) by {
            match t.last() {
                SOp::Open(_) => {
                    if j < l0.open.len() {
                        assert(l.open[j] == l0.open[j]);
                    }
                },
                SOp::Close(_) => {
                    assert(l.open[j] == l0.open[j]);
                    assert(l0.open[j] < l0.open[l0.open.len() - 1]);
                },
                _ => {
                    assert(l.open[j] == l0.open[j]);
                },
            }
        }
        assert forall|a: int, b: int| 0 <= a < b < l.open.len() implies #[trigger] l.open[a] < #[trigger] l.open[b] by {
            match t.last() {
                SOp::Open(_) => {
                    if b < l0.open.len() {
                        assert(l.open[a] == l0.open[a]);
                        assert(l.open[b] == l0.open[b]);
                    } else {
                        assert(l.open[a] == l0.open[a]);
                    }
                },
                SOp::Close(_) => {
                    assert(l.open[a] == l0.open[a]);
                    assert(l.open[b] == l0.open[b]);
                },
                _ => {
                    assert(l.open[a] == l0.open[a]);
                    assert(l.open[b] == l0.open[b]);
                },
            }
        }
        assert forall|j: int| 0 <= j < l.open.len() implies 0 <= #[trigger] l.open[j] < t.len() by {
            match t.last() {
                SOp::Open(_) => {
                    if j < l0.open.len() {
                        assert(l.open[j] == l0.open[j]);
                    }
                },
                SOp::Close(_) => {
                    assert(l.open[j] == l0.open[j]);
                },
                _ => {
                    assert(l.open[j] == l0.open[j]);
                },
            }
        }
        assert forall|j: int|
            0 <= j < t.len() implies match #[trigger] l.ops[j] {
                SOp::Open(x) => 0 <= x <= t.len() && (x == 0 ==> l.open.contains(j)),
                SOp::Close(x) => 0 <= x <= t.len(),
                _ => true,
            } by {
            match t.last() {
                SOp::Open(_) => {
                    if j < t0.len() {
                        assert(l.ops[j] == l0.ops[j]);
                        if l0.ops[j] == SOp::Open(0) {
                            let w = choose|w: int| 0 <= w < l0.open.len() && l0.open[w] == j;
                            assert(l.open[w] == j);
                        }
                    } else {
                        assert(l.open[l.open.len() - 1] == j);
                    }
                },
                SOp::Close(_) => {
                    let top = l0.open.last();
                    if j < t0.len() && j != top {
                        assert(l.ops[j] == l0.ops[j]);
                        if l0.ops[j] == SOp::Open(0) {
                            let w = choose|w: int| 0 <= w < l0.open.len() && l0.open[w] == j;
                            assert(w != l0.open.len() - 1);
                            assert(l.open[w] == j);
                        }
                    }
                },
                _ => {
                    if j < t0.len() {
                        assert(l.ops[j] == l0.ops[j]);
                        if l0.ops[j] == SOp::Open(0) {
                            let w = choose|w: int| 0 <= w < l0.open.len() && l0.open[w] == j;
                            assert(l.open[w] == j);
                        }
                    }
                },
            }
        }
    }
}

/// The bytes of the optimized token at `p`.
pub open spec fn token_bytes(s: Seq<u8>, p: int) -> Seq<u8> {
    s.subrange(p, next_token(s, p))
}

pub open spec fn all_instructions(s: Seq<u8>) -> bool {
    forall|t: int| 0 <= t < s.len() ==> is_instruction(#[trigger] s[t])
}

/// A compiled program jumps only within itself and leaves no `[` unlinked.
pub proof fn lemma_compiled_closed(g: Seq<u8>, optimize: bool)
    requires
        compiled(g, optimize) is Some,
    ensures
        closed(compiled(g, optimize)->0),
        forall|j: int|
            0 <= j < compiled(g, optimize)->0.len() ==> #[trigger] compiled(g, optimize)->0[j] != SOp::Open(0),
{
    let t = lex(g, 0, optimize);
    lemma_link_targets(t);
    let q = link(t).ops;
    assert forall|j: int| 0 <= j < q.len() implies #[trigger] q[j] != SOp::Open(0) by {
        if q[j] == SOp::Open(0) {
            assert(link(t).open.contains(j));
        }
    }
    assert forall|i: int|
        0 <= i < q.len() implies match #[trigger] q[i] {
            SOp::Open(x) => 0 <= x <= q.len(),
            SOp::Close(x) => 0 <= x <= q.len(),
            _ => true,
        } by {
        assert(q.len() == t.len());
    }
}

/// What the bytes of an optimized token other than a bracket compile to
/// without optimization: the literal multiplication or divmod loop, the
/// affine loop, or one literal op per byte.
pub proof fn lemma_token_program(s: Seq<u8>, p: int)
    requires
        0 <= p < s.len(),
        all_instructions(s),
        !(token(s, p, true).0 is Open),
        !(token(s, p, true).0 is Close),
    ensures
        compiled(token_bytes(s, p), false) is Some,
        token(s, p, true).0 is Mul ==> compiled(token_bytes(s, p), false) == mul_program(),
        token(s, p, true).0 is Div ==> compiled(token_bytes(s, p), false) == div_program(),
        token(s, p, true).0 is Affine ==> compiled(token_bytes(s, p), false) == loop_program(s.skip(p))
            && token(s, p, true).0 == affine_op(s.skip(p)) && s.skip(p)[0] == 91 && affine_spec(s.skip(p)) is Some,
        !(token(s, p, true).0 is Mul) && !(token(s, p, true).0 is Div) && !(token(s, p, true).0 is Affine) ==> {
            &&& compiled(token_bytes(s, p), false) == Some(lex(token_bytes(s, p), 0, false))
            &&& forall|t: int|
                0 <= t < token_bytes(s, p).len() ==> #[trigger] lex(token_bytes(s, p), 0, false)[t] == literal_op(
                    s[p],
                ) && is_transfer(s[p]) == (s[p] != 44 && s[p] != 46) && s[p + t] == s[p]
        },
{
    lemma_token_len(s, p);
    lemma_pattern_lengths();
    lemma_mul_program();
    lemma_div_program();
    let c = s[p];
    let g = token_bytes(s, p);
    let tk = token(s, p, true);
    if occurs_at(s, p, MUL.spec_bytes()) {
        assert(g =~= MUL.spec_bytes());
    } else if occurs_at(s, p, DIV.spec_bytes()) {
        assert(g =~= DIV.spec_bytes());
    } else if c == 91 && affine_spec(s.skip(p)) is Some {
        lemma_loop_compiles(s.skip(p));
        assert(g =~= s.skip(p).take(body_end(s.skip(p), 1) + 1));
    } else {
        assert(is_instruction(c));
        assert(c != 91 && c != 93);
        lemma_run_length(s, p, c);
        assert forall|t: int| 0 <= t < g.len() implies #[trigger] g[t] == c by {
            assert(g[t] == s[p + t]);
        }
        lemma_lex_literal(g, 0);
        let w = lex(g, 0, false);
        assert forall|t: int| 0 <= t < w.len() implies !(#[trigger] w[t] is Open) && !(w[t] is Close) by {
            assert(w[t] == literal_op(g[0 + t]));
        }
        lemma_link_plain(w);
        assert forall|t: int|
            0 <= t < g.len() implies #[trigger] lex(g, 0, false)[t] == literal_op(c) && is_transfer(c) == (c
                != 44 && c != 46) && s[p + t] == c by {
            assert(w[t] == literal_op(g[0 + t]));
            assert(g[t] == s[p + t]);
        }
    }
}

/// A bracket of the optimized program, seen in the literal one: its jump
/// lands at the start of the token it lands at in the optimized program.
pub open spec fn bracket_image(s: Seq<u8>, o: SOp) -> SOp {
    match o {
        SOp::Open(y) => SOp::Open(if y == 0 { 0 } else { tok_pos(s, 0, y) }),
        SOp::Close(y) => SOp::Close(tok_pos(s, 0, y)),
        _ => o,
    }
}

pub open spec fn is_bracket(o: SOp) -> bool {
    o is Open || o is Close
}

/// Linking the first `k` optimized tokens and linking the literal ops of
/// their bytes agree: both fail or neither does; the open brackets are the
/// same; every bracket token jumps to the start of the token its literal
/// bracket jumps to; and the bytes of every other token hold, in the literal
/// ops, their own literal program.
pub open spec fn corresponds(s: Seq<u8>, k: int) -> bool {
    let lo = link(lex(s, 0, true).take(k));
    let ll = link(lex(s, 0, false).take(tok_pos(s, 0, k)));
    &&& lo.ok == ll.ok
    &&& lo.ok ==> {
        &&& ll.open == lo.open.map_values(|x: int| tok_pos(s, 0, x))
        &&& forall|x: int|
            0 <= x < k && is_bracket(#[trigger] lo.ops[x]) ==> ll.ops[tok_pos(s, 0, x)] == bracket_image(s, lo.ops[x])
        &&& forall|x: int|
            0 <= x < k && !is_bracket(#[trigger] lo.ops[x]) ==> embeds(
                ll.ops,
                tok_pos(s, 0, x),
                compiled(token_bytes(s, tok_pos(s, 0, x)), false)->0,
            )
    }
}

proof fn lemma_literal_split(s: Seq<u8>, a: int, b: int)
    requires
        0 <= a <= b <= s.len(),
    ensures
        lex(s, 0, false).take(b) == lex(s, 0, false).take(a) + lex(s.subrange(a, b), 0, false),
{
    lemma_lex_literal(s, 0);
    lemma_lex_literal(s.subrange(a, b), 0);
    assert(lex(s, 0, false).take(b) =~= lex(s, 0, false).take(a) + lex(s.subrange(a, b), 0, false));
}

/// What the literal ops of the first `k` tokens keep when linking goes on:
/// the ops before the `k`-th token's start, but for the one at `z`.
proof fn lemma_corresponds_kept(s: Seq<u8>, k: int, z: int, zp: int, lo1: Linked, ll1: Linked)
    requires
        all_instructions(s),
        0 <= k < lex(s, 0, true).len(),
        corresponds(s, k),
        link(lex(s, 0, true).take(k)).ok,
        lo1.ops.len() >= k,
        forall|x: int| 0 <= x < k && x != z ==> lo1.ops[x] == link(lex(s, 0, true).take(k)).ops[x],
        ll1.ops.len() >= tok_pos(s, 0, k),
        forall|i: int|
            0 <= i < tok_pos(s, 0, k) && i != zp ==> #[trigger] ll1.ops[i] == link(
                lex(s, 0, false).take(tok_pos(s, 0, k)),
            ).ops[i],
        0 <= z < k ==> is_bracket(link(lex(s, 0, true).take(k)).ops[z]) && zp == tok_pos(s, 0, z),
        !(0 <= z < k) ==> zp == -1,
    ensures
        forall|x: int|
            0 <= x < k && x != z && is_bracket(#[trigger] lo1.ops[x]) ==> ll1.ops[tok_pos(s, 0, x)] == bracket_image(
                s,
                lo1.ops[x],
            ),
        forall|x: int|
            0 <= x < k && x != z && !is_bracket(#[trigger] lo1.ops[x]) ==> embeds(
                ll1.ops,
                tok_pos(s, 0, x),
                compiled(token_bytes(s, tok_pos(s, 0, x)), false)->0,
            ),
{
    let lo = link(lex(s, 0, true).take(k));
    let ll = link(lex(s, 0, false).take(tok_pos(s, 0, k)));
    lemma_lex_positions(s, 0);
    lemma_link_shape(lex(s, 0, true).take(k));
    assert forall|x: int| 0 <= x < k && x != z && is_bracket(#[trigger] lo1.ops[x]) implies ll1.ops[tok_pos(s, 0, x)]
        == bracket_image(s, lo1.ops[x]) by {
        assert(lo1.ops[x] == lo.ops[x]);
        lemma_tok_pos_order(s, x, k);
        if 0 <= z < k {
            if x < z {
                lemma_tok_pos_order(s, x, z);
            } else {
                lemma_tok_pos_order(s, z, x);
            }
        }
    }
    assert forall|x: int| 0 <= x < k && x != z && !is_bracket(#[trigger] lo1.ops[x]) implies embeds(
        ll1.ops,
        tok_pos(s, 0, x),
        compiled(token_bytes(s, tok_pos(s, 0, x)), false)->0,
    ) by {
        assert(lo1.ops[x] == lo.ops[x]);
        assert(same_kind(lex(s, 0, true).take(k)[x], lo.ops[x]));
        assert(lex(s, 0, true).take(k)[x] == lex(s, 0, true)[x]);
        let q = compiled(token_bytes(s, tok_pos(s, 0, x)), false)->0;
        let px = tok_pos(s, 0, x);
        lemma_tok_pos_order(s, x, k);
        lemma_tok_pos_step(s, 0, x);
        lemma_token_len(s, px);
        lemma_token_program(s, px);
        assert(embeds(ll.ops, px, q));
        assert(q.len() == token_bytes(s, px).len()) by {
            lemma_link_shape(lex(token_bytes(s, px), 0, false));
            lemma_lex_literal(token_bytes(s, px), 0);
        }
        if 0 <= z < k {
            if x < z {
                lemma_tok_pos_order(s, x, z);
            } else {
                lemma_tok_pos_order(s, z, x);
            }
        }
        assert forall|i: int| 0 <= i < q.len() implies ll1.ops[px + i] == #[trigger] shift_op(q[i], px) by {
            assert(ll.ops[px + i] == shift_op(q[i], px));
        }
    }
}

/// Linking one more token keeps the two linkings in step.
proof fn lemma_corresponds_step(s: Seq<u8>, k: int)
    requires
        all_instructions(s),
        0 <= k < lex(s, 0, true).len(),
        corresponds(s, k),
    ensures
        corresponds(s, k + 1),
{
    let t_o = lex(s, 0, true);
    let t_l = lex(s, 0, false);
    lemma_lex_positions(s, 0);
    let p = tok_pos(s, 0, k);
    lemma_tok_pos_step(s, 0, k);
    let p1 = tok_pos(s, 0, k + 1);
    lemma_token_len(s, p);
    let tk = t_o[k];
    let lo = link(t_o.take(k));
    let g = token_bytes(s, p);
    lemma_literal_split(s, p, p1);
    assert(t_o.take(k + 1).drop_last() =~= t_o.take(k));
    if !lo.ok {
        lemma_link_failure_sticks(t_l.take(p), lex(g, 0, false));
    } else if tk is Open {
        lemma_corresponds_open(s, k);
    } else if tk is Close {
        lemma_corresponds_close(s, k);
    } else {
        lemma_corresponds_plain(s, k);
    }
}

#[verifier::spinoff_prover]
proof fn lemma_corresponds_open(s: Seq<u8>, k: int)
    requires
        all_instructions(s),
        0 <= k < lex(s, 0, true).len(),
        corresponds(s, k),
        link(lex(s, 0, true).take(k)).ok,
        lex(s, 0, true)[k] is Open,
    ensures
        corresponds(s, k + 1),
{
    let t_o = lex(s, 0, true);
    let t_l = lex(s, 0, false);
    lemma_lex_positions(s, 0);
    lemma_lex_literal(s, 0);
    let p = tok_pos(s, 0, k);
    lemma_tok_pos_step(s, 0, k);
    let p1 = tok_pos(s, 0, k + 1);
    lemma_token_len(s, p);
    assert(p1 == p + 1);
    let lo = link(t_o.take(k));
    let ll = link(t_l.take(p));
    lemma_link_shape(t_o.take(k));
    lemma_link_shape(t_l.take(p));
    assert(t_o.take(k + 1).drop_last() =~= t_o.take(k));
    assert(t_o.take(k + 1).last() == t_o[k]);
    assert(t_l.take(p1) =~= t_l.take(p).push(t_l[p]));
    assert(t_l.take(p1).drop_last() =~= t_l.take(p));
    assert(t_l[p] == SOp::Open(0));
    let lo1 = link(t_o.take(k + 1));
    let ll1 = link(t_l.take(p1));
    assert(lo1.ops == lo.ops.push(SOp::Open(0)));
    assert(ll1.ops == ll.ops.push(SOp::Open(0)));
    assert(lo1.open =~= lo.open.push(k));
    assert(ll1.open =~= ll.open.push(p));
    assert(ll1.open =~= lo1.open.map_values(|x: int| tok_pos(s, 0, x)));
    lemma_corresponds_kept(s, k, -1, -1, lo1, ll1);
}

#[verifier::spinoff_prover]
proof fn lemma_corresponds_close(s: Seq<u8>, k: int)
    requires
        all_instructions(s),
        0 <= k < lex(s, 0, true).len(),
        corresponds(s, k),
        link(lex(s, 0, true).take(k)).ok,
        lex(s, 0, true)[k] is Close,
    ensures
        corresponds(s, k + 1),
{
    let t_o = lex(s, 0, true);
    let t_l = lex(s, 0, false);
    lemma_lex_positions(s, 0);
    lemma_lex_literal(s, 0);
    let p = tok_pos(s, 0, k);
    lemma_tok_pos_step(s, 0, k);
    let p1 = tok_pos(s, 0, k + 1);
    lemma_token_len(s, p);
    assert(p1 == p + 1);
    let lo = link(t_o.take(k));
    let ll = link(t_l.take(p));
    lemma_link_shape(t_o.take(k));
    lemma_link_shape(t_l.take(p));
    assert(t_o.take(k + 1).drop_last() =~= t_o.take(k));
    assert(t_o.take(k + 1).last() == t_o[k]);
    assert(t_l.take(p1) =~= t_l.take(p).push(t_l[p]));
    assert(t_l.take(p1).drop_last() =~= t_l.take(p));
    assert(t_l[p] == SOp::Close(0));
    let lo1 = link(t_o.take(k + 1));
    let ll1 = link(t_l.take(p1));
    if lo.open.len() > 0 {
        let jo = lo.open.last();
        let jl = ll.open.last();
        assert(jl == tok_pos(s, 0, jo));
        assert(t_o.take(k)[jo] is Open);
        assert(t_o[jo] is Open);
        lemma_token_len(s, tok_pos(s, 0, jo));
        lemma_tok_pos_step(s, 0, jo);
        lemma_tok_pos_order(s, jo, k);
        assert(tok_pos(s, 0, jo + 1) == jl + 1);
        assert(lo1.ops == lo.ops.update(jo, SOp::Open(k + 1)).push(SOp::Close(jo + 1)));
        assert(ll1.ops == ll.ops.update(jl, SOp::Open(p + 1)).push(SOp::Close(jl + 1)));
        assert(lo1.open =~= lo.open.drop_last());
        assert(ll1.open =~= ll.open.drop_last());
        assert(ll1.open =~= lo1.open.map_values(|x: int| tok_pos(s, 0, x)));
        assert(lo.ops[jo] == SOp::Open(0)) by {
            lemma_link_targets(t_o.take(k));
            assert(lo.open[lo.open.len() - 1] == jo);
        }
        lemma_corresponds_kept(s, k, jo, jl, lo1, ll1);
        assert(ll1.ops[tok_pos(s, 0, jo)] == bracket_image(s, lo1.ops[jo]));
        assert(ll1.ops[p] == bracket_image(s, lo1.ops[k]));
    }
}

#[verifier::spinoff_prover]
proof fn lemma_corresponds_plain(s: Seq<u8>, k: int)
    requires
        all_instructions(s),
        0 <= k < lex(s, 0, true).len(),
        corresponds(s, k),
        link(lex(s, 0, true).take(k)).ok,
        !is_bracket(lex(s, 0, true)[k]),
    ensures
        corresponds(s, k + 1),
{
    let t_o = lex(s, 0, true);
    let t_l = lex(s, 0, false);
    lemma_lex_positions(s, 0);
    let p = tok_pos(s, 0, k);
    lemma_tok_pos_step(s, 0, k);
    let p1 = tok_pos(s, 0, k + 1);
    lemma_token_len(s, p);
    let tk = t_o[k];
    let lo = link(t_o.take(k));
    let ll = link(t_l.take(p));
    lemma_link_shape(t_o.take(k));
    lemma_link_shape(t_l.take(p));
    assert(t_o.take(k + 1).drop_last() =~= t_o.take(k));
    assert(t_o.take(k + 1).last() == tk);
    let g = token_bytes(s, p);
    lemma_literal_split(s, p, p1);
    lemma_lex_literal(s, 0);
    assert(t_l.take(p).len() == p);
    assert(t_l.take(p1) == t_l.take(p) + lex(g, 0, false));
    lemma_token_program(s, p);
    let q = compiled(g, false)->0;
    lemma_compiled_closed(g, false);
    lemma_link_append(t_l.take(p), lex(g, 0, false));
    let lo1 = link(t_o.take(k + 1));
    let ll1 = link(t_l.take(p1));
    assert(ll1.open =~= ll.open);
    assert(lo1.ops == lo.ops.push(tk));
    assert(lo1.open == lo.open);
    assert(ll1.ops == ll.ops + shift_all(q, p));
    lemma_corresponds_kept(s, k, -1, -1, lo1, ll1);
    assert(embeds(ll1.ops, p, q)) by {
        assert forall|i: int| 0 <= i < q.len() implies ll1.ops[p + i] == #[trigger] shift_op(q[i], p) by {
            assert(q[i] != SOp::Open(0));
        }
    }
}

proof fn lemma_corresponds_all(s: Seq<u8>, k: int)
    requires
        all_instructions(s),
        0 <= k <= lex(s, 0, true).len(),
    ensures
        corresponds(s, k),
    decreases k,
{
    if k > 0 {
        lemma_corresponds_all(s, k - 1);
        lemma_corresponds_step(s, k - 1);
    } else {
        assert(lex(s, 0, true).take(0) =~= Seq::<SOp>::empty());
        assert(lex(s, 0, false).take(0) =~= Seq::<SOp>::empty());
        let e = Seq::<SOp>::empty();
        assert(link(e).open.map_values(|x: int| tok_pos(s, 0, x)) =~= link(e).open);
    }
}

proof fn lemma_instructions_only(b: Seq<u8>)
    ensures
        all_instructions(instructions(b)),
    decreases b.len(),
{
    if b.len() > 0 {
        lemma_instructions_only(b.drop_last());
        let p = instructions(b.drop_last());
        assert forall|t: int| 0 <= t < instructions(b).len() implies is_instruction(#[trigger] instructions(b)[t]) by {
            if t < p.len() {
                assert(instructions(b)[t] == p[t]);
            }
        }
    }
}

/// Both compilations of the instructions `s`, and how they line up.
proof fn lemma_compilations(s: Seq<u8>)
    requires
        all_instructions(s),
    ensures
        corresponds(s, lex(s, 0, true).len() as int),
        tok_pos(s, 0, lex(s, 0, true).len() as int) == s.len(),
        lex(s, 0, false).take(s.len() as int) == lex(s, 0, false),
        lex(s, 0, true).take(lex(s, 0, true).len() as int) == lex(s, 0, true),
{
    lemma_lex_positions(s, 0);
    lemma_corresponds_all(s, lex(s, 0, true).len() as int);
    lemma_lex_literal(s, 0);
    assert(lex(s, 0, false).take(s.len() as int) =~= lex(s, 0, false));
    assert(lex(s, 0, true).take(lex(s, 0, true).len() as int) =~= lex(s, 0, true));
}

/// Optimizing never changes whether a program compiles: the source compiles
/// with optimization exactly when it compiles without, which is when its
/// brackets match.
pub proof fn law_optimization_keeps_compilation(source: &str)
    ensures
        compile_spec(source, true) is Some <==> compile_spec(source, false) is Some,
        compile_spec(source, false) is Some <==> brackets_match(source.spec_bytes()),
{
    let s = instructions(source.spec_bytes());
    lemma_literal_compiles(s);
    lemma_instructions_brackets(source.spec_bytes());
    lemma_instructions_only(source.spec_bytes());
    lemma_compilations(s);
    let n = lex(s, 0, true).len() as int;
    let lo = link(lex(s, 0, true));
    let ll = link(lex(s, 0, false));
    if lo.ok {
        assert(ll.open.len() == lo.open.len());
    }
}

proof fn lemma_run_length_skip(s: Seq<u8>, p: int, i: int, c: u8)
    requires
        0 <= p <= s.len(),
        0 <= i,
    ensures
        run_length(s, p + i, c) == run_length(s.skip(p), i, c),
    decreases s.len() - p - i,
{
    if p + i < s.len() && s[p + i] == c {
        assert(s.skip(p)[i] == s[p + i]);
        lemma_run_length_skip(s, p, i + 1, c);
    } else if p + i < s.len() {
        assert(s.skip(p)[i] == s[p + i]);
    }
}

/// The token at `p` is the first token of the bytes from `p` on.
proof fn lemma_token_skip(s: Seq<u8>, p: int)
    requires
        0 <= p < s.len(),
    ensures
        token(s, p, true) == token(s.skip(p), 0, true),
{
    let r = s.skip(p);
    assert(r.skip(0) =~= r);
    assert(r[0] == s[p]);
    lemma_run_length_skip(s, p, 0, s[p]);
    lemma_pattern_lengths();
    if p + MUL.spec_bytes().len() <= s.len() {
        assert(s.subrange(p, p + MUL.spec_bytes().len()) =~= r.subrange(0, MUL.spec_bytes().len() as int));
    }
    if p + DIV.spec_bytes().len() <= s.len() {
        assert(s.subrange(p, p + DIV.spec_bytes().len()) =~= r.subrange(0, DIV.spec_bytes().len() as int));
    }
}

/// What the op of a token other than a bracket does, against what the bytes
/// it stands for do when compiled literally and run on their own without an
/// error: it goes on to the next op with the same machine, or runs that
/// literal program itself.
proof fn lemma_token_step(s: Seq<u8>, p: int, pc: int, m: Machine, f: nat, input: Seq<u8>)
    requires
        all_instructions(s),
        0 <= p < s.len(),
        !is_bracket(token(s, p, true).0),
        valid(m, input),
        all_fit(m.tape),
        run(compiled(token_bytes(s, p), false)->0, 0, m, f, input).error is None,
    ensures
        compiled(token_bytes(s, p), false) is Some,
        op_step(token(s, p, true).0, pc, m, input, mul_program(), div_program()) == Step::Jump(
            pc + 1,
            run(compiled(token_bytes(s, p), false)->0, 0, m, f, input).machine,
        ) || op_step(token(s, p, true).0, pc, m, input, mul_program(), div_program()) == Step::Call(
            compiled(token_bytes(s, p), false),
            m,
        ),
{
    lemma_token_program(s, p);
    lemma_token_len(s, p);
    let tk = token(s, p, true).0;
    let q = compiled(token_bytes(s, p), false)->0;
    if tk is Mul {
        law_mul_matches_literal(pc, m, f, input);
    } else if tk is Div {
        lemma_div_program();
        law_div_matches_literal(pc, m, f, input);
    } else if tk is Affine {
        law_affine_loop_matches_literal(s.skip(p), pc, m, f, input);
    } else {
        let c = s[p];
        if is_transfer(c) {
            lemma_token_skip(s, p);
            lemma_run_length_skip(s, p, 0, c);
            assert(s.skip(p)[0] == c);
            assert(leading_run(s.skip(p)) =~= token_bytes(s, p));
            law_folded_run_matches_literal(s.skip(p), pc, m, f, input);
        } else {
            let g = token_bytes(s, p);
            assert(g.len() == 1);
            lemma_lex_literal(g, 0);
            assert(q == lex(g, 0, false));
            assert(q.len() == 1);
            assert(g[0] == c);
            assert(q[0] == literal_op(c));
            assert(c == 44 || c == 46);
            assert(tk == q[0]);
            assert(f > 0);
            match op_step(q[0], 0, m, input, mul_program(), div_program()) {
                Step::Jump(next, m2) => {
                    assert(next == 1);
                    assert(run(q, 0, m, f, input) == run(q, 1, m2, (f - 1) as nat, input));
                },
                _ => {},
            }
        }
    }
}

/// How the `j`-th op of the optimized program stands against the literal
/// program.
proof fn lemma_program_facts(s: Seq<u8>, j: int)
    requires
        all_instructions(s),
        compiled(s, false) is Some,
        0 <= j < lex(s, 0, true).len(),
    ensures
        compiled(s, true) is Some,
        compiled(s, true)->0.len() == lex(s, 0, true).len(),
        compiled(s, false)->0.len() == s.len(),
        0 <= tok_pos(s, 0, j) < s.len(),
        tok_pos(s, 0, j + 1) == next_token(s, tok_pos(s, 0, j)),
        is_bracket(compiled(s, true)->0[j]) ==> {
            &&& compiled(s, false)->0[tok_pos(s, 0, j)] == bracket_image(s, compiled(s, true)->0[j])
            &&& compiled(s, true)->0[j] != SOp::Open(0)
            &&& tok_pos(s, 0, j + 1) == tok_pos(s, 0, j) + 1
            &&& match compiled(s, true)->0[j] {
                SOp::Open(y) => 0 <= y <= lex(s, 0, true).len(),
                SOp::Close(y) => 0 <= y <= lex(s, 0, true).len(),
                _ => true,
            }
        },
        !is_bracket(compiled(s, true)->0[j]) ==> {
            &&& compiled(s, true)->0[j] == token(s, tok_pos(s, 0, j), true).0
            &&& embeds(
                compiled(s, false)->0,
                tok_pos(s, 0, j),
                compiled(token_bytes(s, tok_pos(s, 0, j)), false)->0,
            )
            &&& compiled(token_bytes(s, tok_pos(s, 0, j)), false) is Some
            &&& closed(compiled(token_bytes(s, tok_pos(s, 0, j)), false)->0)
            &&& tok_pos(s, 0, j) + compiled(token_bytes(s, tok_pos(s, 0, j)), false)->0.len() == tok_pos(s, 0, j + 1)
        },
{
    lemma_compilations(s);
    lemma_lex_positions(s, 0);
    lemma_lex_literal(s, 0);
    let t_o = lex(s, 0, true);
    let lo = link(t_o);
    let ll = link(lex(s, 0, false));
    assert(lo.ok);
    assert(ll.open.len() == lo.open.len());
    lemma_link_shape(t_o);
    lemma_link_shape(lex(s, 0, false));
    let p = tok_pos(s, 0, j);
    lemma_tok_pos_step(s, 0, j);
    lemma_token_len(s, p);
    assert(same_kind(t_o[j], lo.ops[j]));
    assert(t_o[j] == token(s, p, true).0);
    lemma_compiled_closed(s, true);
    if is_bracket(lo.ops[j]) {
        assert(ll.ops[p] == bracket_image(s, lo.ops[j]));
    } else {
        lemma_token_program(s, p);
        let g = token_bytes(s, p);
        lemma_compiled_closed(g, false);
        lemma_link_shape(lex(g, 0, false));
        lemma_lex_literal(g, 0);
    }
}

#[verifier::spinoff_prover]
#[verifier::rlimit(40)]
proof fn lemma_simulation(s: Seq<u8>, j: int, m: Machine, fl: nat, fo: nat, input: Seq<u8>)
    requires
        all_instructions(s),
        compiled(s, false) is Some,
        0 <= j <= lex(s, 0, true).len(),
        valid(m, input),
        all_fit(m.tape),
        run(compiled(s, false)->0, tok_pos(s, 0, j), m, fl, input).error is None,
        fo >= 2 * (fl - run(compiled(s, false)->0, tok_pos(s, 0, j), m, fl, input).fuel),
    ensures
        compiled(s, true) is Some,
        run(compiled(s, true)->0, j, m, fo, input).error is None,
        run(compiled(s, true)->0, j, m, fo, input).machine == run(
            compiled(s, false)->0,
            tok_pos(s, 0, j),
            m,
            fl,
            input,
        ).machine,
    decreases fl,
{
    lemma_compilations(s);
    lemma_lex_positions(s, 0);
    let n = lex(s, 0, true).len() as int;
    let o = compiled(s, true)->0;
    let l = compiled(s, false)->0;
    lemma_link_shape(lex(s, 0, true));
    lemma_link_shape(lex(s, 0, false));
    lemma_lex_literal(s, 0);
    assert(o.len() == n);
    assert(l.len() == s.len());
    let p = tok_pos(s, 0, j);
    let lr = run(l, p, m, fl, input);
    lemma_run_fuel_bound(l, p, m, fl, input);
    if j < n {
        lemma_program_facts(s, j);
        assert(fl > 0);
        let op = o[j];
        if is_bracket(op) {
            let next_o = match op_step(op, j, m, input, mul_program(), div_program()) {
                Step::Jump(x, _) => x,
                _ => j,
            };
            assert(op_step(op, j, m, input, mul_program(), div_program()) == Step::Jump(next_o, m));
            assert(op_step(l[p], p, m, input, mul_program(), div_program()) == Step::Jump(tok_pos(s, 0, next_o), m));
            assert(run(l, p, m, fl, input) == run(l, tok_pos(s, 0, next_o), m, (fl - 1) as nat, input));
            lemma_run_fuel_bound(l, tok_pos(s, 0, next_o), m, (fl - 1) as nat, input);
            assert(fo > 0);
            assert(run(o, j, m, fo, input) == run(o, next_o, m, (fo - 1) as nat, input));
            lemma_simulation(s, next_o, m, (fl - 1) as nat, (fo - 1) as nat, input);
        } else {
            let q = compiled(token_bytes(s, p), false)->0;
            lemma_embedded_run(l, p, q, 0, m, fl, input);
            let r = run(q, 0, m, fl, input);
            assert(r.error is None);
            lemma_token_len(s, p);
            lemma_run_fuel_bound(q, 0, m, fl, input);
            assert(q.len() > 0);
            assert(r.fuel < fl) by {
                match op_step(q[0], 0, m, input, mul_program(), div_program()) {
                    Step::Jump(x, m2) => {
                        lemma_run_fuel_bound(q, x, m2, (fl - 1) as nat, input);
                    },
                    Step::Call(Some(lit), m2) => {
                        let inner = run(lit, 0, m2, (fl - 1) as nat, input);
                        lemma_run_fuel_bound(lit, 0, m2, (fl - 1) as nat, input);
                        lemma_run_fuel_bound(q, 1, inner.machine, inner.fuel, input);
                    },
                    _ => {},
                }
            }
            assert(lr == run(l, tok_pos(s, 0, j + 1), r.machine, r.fuel, input));
            lemma_run_valid(q, 0, m, fl, input);
            lemma_run_keeps_cells_within_limit(q, 0, m, fl, input);
            lemma_run_fuel_bound(l, tok_pos(s, 0, j + 1), r.machine, r.fuel, input);
            lemma_token_step(s, p, j, m, fl, input);
            assert(fo > 0);
            let st = op_step(op, j, m, input, mul_program(), div_program());
            if st == Step::Jump(j + 1, r.machine) {
                assert(run(o, j, m, fo, input) == run(o, j + 1, r.machine, (fo - 1) as nat, input));
                lemma_simulation(s, j + 1, r.machine, r.fuel, (fo - 1) as nat, input);
            } else {
                assert(st == Step::Call(Some(q), m));
                lemma_run_fuel_shift(q, 0, m, fl, (fo - 1) as nat, input);
                let inner = run(q, 0, m, (fo - 1) as nat, input);
                assert(inner.machine == r.machine && inner.error is None);
                assert(inner.fuel == fo - 1 - (fl - r.fuel));
                assert(run(o, j, m, fo, input) == run(o, j + 1, r.machine, inner.fuel, input));
                lemma_simulation(s, j + 1, r.machine, r.fuel, inner.fuel, input);
            }
        }
    } else {
        assert(p == s.len());
    }
}

/// Optimizing keeps what a program does: where the program, compiled
/// without optimization, runs from a machine whose cells all fit to its end
/// without an error, the optimized program, given twice the fuel that run
/// spent, ends without an error too, with the same tape, head, input
/// position and output.
pub proof fn law_optimization_keeps_runs(source: &str, m: Machine, fuel: nat, fuel2: nat, input: Seq<u8>)
    requires
        compile_spec(source, false) is Some,
        valid(m, input),
        all_fit(m.tape),
        run(compile_spec(source, false)->0, 0, m, fuel, input).error is None,
        fuel2 >= 2 * (fuel - run(compile_spec(source, false)->0, 0, m, fuel, input).fuel),
    ensures
        compile_spec(source, true) is Some,
        run(compile_spec(source, true)->0, 0, m, fuel2, input).error is None,
        run(compile_spec(source, true)->0, 0, m, fuel2, input).machine == run(
            compile_spec(source, false)->0,
            0,
            m,
            fuel,
            input,
        ).machine,
{
    let s = instructions(source.spec_bytes());
    lemma_instructions_only(source.spec_bytes());
    assert(tok_pos(s, 0, 0) == 0);
    lemma_simulation(s, 0, m, fuel, fuel2, input);
}

/// Where the op of a token other than a bracket goes on to the next op
/// without an error, the bytes it stands for, compiled literally and run on
/// their own with the fuel this returns, end without an error in the same
/// machine.
proof fn lemma_token_step_back(s: Seq<u8>, p: int, pc: int, m: Machine, input: Seq<u8>) -> (f: nat)
    requires
        all_instructions(s),
        0 <= p < s.len(),
        !is_bracket(token(s, p, true).0),
        valid(m, input),
        all_fit(m.tape),
        op_step(token(s, p, true).0, pc, m, input, mul_program(), div_program()) is Jump,
    ensures
        compiled(token_bytes(s, p), false) is Some,
        run(compiled(token_bytes(s, p), false)->0, 0, m, f, input).error is None,
        op_step(token(s, p, true).0, pc, m, input, mul_program(), div_program()) == Step::Jump(
            pc + 1,
            run(compiled(token_bytes(s, p), false)->0, 0, m, f, input).machine,
        ),
{
    lemma_token_program(s, p);
    lemma_token_len(s, p);
    let tk = token(s, p, true).0;
    let q = compiled(token_bytes(s, p), false)->0;
    let n = m.tape[m.pointer];
    if tk is Mul {
        let f = (1 + n * (10 + 15 * m.tape[m.pointer + 1])) as nat;
        law_mul_has_literal_run(pc, m, f, input);
        f
    } else if tk is Div {
        let f = (1 + n * (19 + 5 * m.tape[m.pointer + 1])) as nat;
        law_div_has_literal_run(pc, m, f, input);
        f
    } else if tk is Affine {
        let f = (1 + n * (loop_body(s.skip(p)).len() + 1)) as nat;
        law_affine_loop_has_literal_run(s.skip(p), pc, m, f, input);
        f
    } else {
        let c = s[p];
        if is_transfer(c) {
            lemma_token_skip(s, p);
            lemma_run_length_skip(s, p, 0, c);
            assert(s.skip(p)[0] == c);
            assert(leading_run(s.skip(p)) =~= token_bytes(s, p));
            let f = leading_run(s.skip(p)).len();
            law_folded_run_has_literal_run(s.skip(p), pc, m, f, input);
            f
        } else {
            let g = token_bytes(s, p);
            assert(g.len() == 1);
            lemma_lex_literal(g, 0);
            assert(q == lex(g, 0, false));
            assert(q.len() == 1);
            assert(g[0] == c);
            assert(q[0] == literal_op(c));
            assert(c == 44 || c == 46);
            assert(tk == q[0]);
            let m2 = op_step(q[0], 0, m, input, mul_program(), div_program())->Jump_1;
            assert(run(q, 0, m, 1, input) == run(q, 1, m2, 0, input));
            1
        }
    }
}

#[verifier::spinoff_prover]
#[verifier::rlimit(40)]
proof fn lemma_simulation_back(s: Seq<u8>, j: int, m: Machine, fo: nat, input: Seq<u8>) -> (fl: nat)
    requires
        all_instructions(s),
        compiled(s, false) is Some,
        0 <= j <= lex(s, 0, true).len(),
        valid(m, input),
        all_fit(m.tape),
        compiled(s, true) is Some,
        run(compiled(s, true)->0, j, m, fo, input).error is None,
    ensures
        run(compiled(s, false)->0, tok_pos(s, 0, j), m, fl, input).error is None,
        run(compiled(s, false)->0, tok_pos(s, 0, j), m, fl, input).machine == run(
            compiled(s, true)->0,
            j,
            m,
            fo,
            input,
        ).machine,
    decreases fo,
{
    lemma_compilations(s);
    lemma_lex_positions(s, 0);
    let n = lex(s, 0, true).len() as int;
    let o = compiled(s, true)->0;
    let l = compiled(s, false)->0;
    lemma_link_shape(lex(s, 0, true));
    lemma_link_shape(lex(s, 0, false));
    lemma_lex_literal(s, 0);
    assert(o.len() == n);
    assert(l.len() == s.len());
    let p = tok_pos(s, 0, j);
    if j < n {
        lemma_program_facts(s, j);
        assert(fo > 0);
        let op = o[j];
        lemma_step_valid(op, j, m, input, mul_program(), div_program());
        lemma_step_fits(op, j, m, input, mul_program(), div_program());
        if is_bracket(op) {
            let next_o = match op_step(op, j, m, input, mul_program(), div_program()) {
                Step::Jump(x, _) => x,
                _ => j,
            };
            assert(op_step(op, j, m, input, mul_program(), div_program()) == Step::Jump(next_o, m));
            assert(op_step(l[p], p, m, input, mul_program(), div_program()) == Step::Jump(tok_pos(s, 0, next_o), m));
            assert(run(o, j, m, fo, input) == run(o, next_o, m, (fo - 1) as nat, input));
            let fl1 = lemma_simulation_back(s, next_o, m, (fo - 1) as nat, input);
            assert(run(l, p, m, fl1 + 1, input) == run(l, tok_pos(s, 0, next_o), m, fl1, input));
            fl1 + 1
        } else {
            let q = compiled(token_bytes(s, p), false)->0;
            lemma_token_program(s, p);
            let st = op_step(op, j, m, input, mul_program(), div_program());
            // The literal bytes of the token, and what the optimized run
            // goes on with after them.
            let (fq, m2, rest) = if st is Jump {
                let fq = lemma_token_step_back(s, p, j, m, input);
                assert(run(o, j, m, fo, input) == run(o, j + 1, st->Jump_1, (fo - 1) as nat, input));
                (fq, st->Jump_1, (fo - 1) as nat)
            } else {
                assert(st is Call);
                assert(op is Mul || op is Div);
                assert(st == Step::Call(Some(q), m));
                let inner = run(q, 0, m, (fo - 1) as nat, input);
                lemma_run_fuel_bound(q, 0, m, (fo - 1) as nat, input);
                assert(inner.error is None);
                assert(run(o, j, m, fo, input) == run(o, j + 1, inner.machine, inner.fuel, input));
                lemma_run_valid(q, 0, m, (fo - 1) as nat, input);
                lemma_run_keeps_cells_within_limit(q, 0, m, (fo - 1) as nat, input);
                ((fo - 1) as nat, inner.machine, inner.fuel)
            };
            let r = run(q, 0, m, fq, input);
            assert(r.error is None && r.machine == m2);
            assert(valid(m2, input) && all_fit(m2.tape)) by {
                lemma_run_valid(q, 0, m, fq, input);
                lemma_run_keeps_cells_within_limit(q, 0, m, fq, input);
            }
            assert(run(o, j, m, fo, input) == run(o, j + 1, m2, rest, input));
            let fl1 = lemma_simulation_back(s, j + 1, m2, rest, input);
            // Give the token's bytes their fuel and the rest of the program its own.
            lemma_run_fuel_bound(q, 0, m, fq, input);
            lemma_run_fuel_shift(q, 0, m, fq, fq + fl1, input);
            let r2 = run(q, 0, m, fq + fl1, input);
            assert(r2.machine == m2 && r2.error is None && r2.fuel == fl1 + r.fuel);
            lemma_embedded_run(l, p, q, 0, m, fq + fl1, input);
            assert(run(l, p, m, fq + fl1, input) == run(l, tok_pos(s, 0, j + 1), m2, r2.fuel, input));
            lemma_run_fuel_shift(l, tok_pos(s, 0, j + 1), m2, fl1, r2.fuel, input);
            fq + fl1
        }
    } else {
        assert(p == s.len());
        0
    }
}

/// Optimizing adds no success: where the optimized program runs from a
/// machine whose cells all fit to its end without an error, the program
/// compiled without optimization, given the fuel this returns, ends without
/// an error with the same tape, head, input position and output.
pub proof fn law_optimization_adds_no_success(source: &str, m: Machine, fuel: nat, input: Seq<u8>) -> (literal_fuel:
    nat)
    requires
        compile_spec(source, true) is Some,
        valid(m, input),
        all_fit(m.tape),
        run(compile_spec(source, true)->0, 0, m, fuel, input).error is None,
    ensures
        compile_spec(source, false) is Some,
        run(compile_spec(source, false)->0, 0, m, literal_fuel, input).error is None,
        run(compile_spec(source, false)->0, 0, m, literal_fuel, input).machine == run(
            compile_spec(source, true)->0,
            0,
            m,
            fuel,
            input,
        ).machine,
{
    law_optimization_keeps_compilation(source);
    let s = instructions(source.spec_bytes());
    lemma_instructions_only(source.spec_bytes());
    assert(tok_pos(s, 0, 0) == 0);
    lemma_simulation_back(s, 0, m, fuel, input)
}

/// Optimizing takes no error away: where the program, compiled without
/// optimization, stops from a machine whose cells all fit with an error
/// other than running out of fuel, the optimized program, with any fuel,
/// stops with an error too.
pub proof fn law_errors_not_optimized_away(source: &str, m: Machine, fuel: nat, fuel2: nat, input: Seq<u8>)
    requires
        compile_spec(source, false) is Some,
        valid(m, input),
        all_fit(m.tape),
        run(compile_spec(source, false)->0, 0, m, fuel, input).error is Some,
        run(compile_spec(source, false)->0, 0, m, fuel, input).error != Some(VmError::Fuel),
    ensures
        compile_spec(source, true) is Some,
        run(compile_spec(source, true)->0, 0, m, fuel2, input).error is Some,
{
    law_optimization_keeps_compilation(source);
    if run(compile_spec(source, true)->0, 0, m, fuel2, input).error is None {
        let fl = law_optimization_adds_no_success(source, m, fuel2, input);
        lemma_error_persists(compile_spec(source, false)->0, 0, m, fuel, fl, input);
    }
}

/// A loop reached on an empty cell is skipped: where the instructions of
/// `source` are one loop, its program, compiled with or without
/// optimization and run from a machine whose cell under the head is 0, ends
/// after one op without an error and with the machine unchanged.
#[verifier::rlimit(40)]
pub proof fn law_zero_loop_is_skipped(source: &str, optimize: bool, m: Machine, fuel: nat, input: Seq<u8>)
    requires
        is_one_loop(instructions(source.spec_bytes())),
        valid(m, input),
        m.tape[m.pointer] == 0,
        fuel >= 1,
    ensures
        compile_spec(source, optimize) is Some,
        run(compile_spec(source, optimize)->0, 0, m, fuel, input) == (Outcome {
            machine: m,
            fuel: (fuel - 1) as nat,
            error: None,
        }),
{
    let s = instructions(source.spec_bytes());
    lemma_instructions_only(source.spec_bytes());
    lemma_one_loop_links(s);
    let l = compiled(s, false)->0;
    let f = (fuel - 1) as nat;
    assert(run(l, 0, m, fuel, input) == run(l, s.len() as int, m, f, input));
    if optimize {
        law_optimization_keeps_compilation(source);
        lemma_compilations(s);
        lemma_lex_positions(s, 0);
        let n = lex(s, 0, true).len() as int;
        let o = compiled(s, true)->0;
        lemma_link_shape(lex(s, 0, true));
        assert(o.len() == n);
        assert(n > 0) by {
            if n == 0 {
                assert(tok_pos(s, 0, 0) == 0);
            }
        }
        lemma_program_facts(s, 0);
        assert(tok_pos(s, 0, 0) == 0);
        if is_bracket(o[0]) {
            if let SOp::Open(y) = o[0] {
                assert(tok_pos(s, 0, y) == s.len());
                if y < n {
                    lemma_program_facts(s, y);
                }
                assert(y == n);
                assert(run(o, 0, m, fuel, input) == run(o, n, m, f, input));
            }
        } else {
            let q = compiled(token_bytes(s, 0), false)->0;
            assert(l[0int + 0int] == shift_op(q[0], 0));
            assert(q[0] == SOp::Open(s.len() as int));
            assert(s.len() <= q.len());
            if n > 1 {
                lemma_program_facts(s, 1);
            }
            assert(n == 1);
            lemma_token_program(s, 0);
            let tk = token(s, 0, true).0;
            assert(tk is Mul || tk is Div || tk is Affine) by {
                if !(tk is Mul) && !(tk is Div) && !(tk is Affine) {
                    assert(lex(token_bytes(s, 0), 0, false)[0] == literal_op(s[0]));
                }
            }
            assert(run(o, 0, m, fuel, input) == run(o, 1, m, f, input));
        }
    }
}

/// Only `.` writes: a program without a `.` op leaves the output as it
/// was, however its run ends (the literal loops that `Mul` and `Div` fall
/// back to hold no `.` either). With `law_only_out_writes`, every byte a
/// run appends is the cell under the head, modulo 256, at one of its `.`s.
pub proof fn law_no_out_no_output(ops: Seq<SOp>, pc: int, m: Machine, fuel: nat, input: Seq<u8>)
    requires
        forall|i: int| 0 <= i < ops.len() ==> !(#[trigger] ops[i] is Out),
    ensures
        run(ops, pc, m, fuel, input).machine.output == m.output,
    decreases fuel,
{
    if 0 <= pc < ops.len() && fuel > 0 {
        let f = (fuel - 1) as nat;
        law_only_out_writes(ops[pc], pc, m, input, mul_program(), div_program());
        match op_step(ops[pc], pc, m, input, mul_program(), div_program()) {
            Step::Jump(next, m2) => {
                law_no_out_no_output(ops, next, m2, f, input);
            },
            Step::Fail(e, m2) => {},
            Step::Call(None, m2) => {},
            Step::Call(Some(literal), m2) => {
                lemma_mul_program();
                lemma_div_program();
                let lm = literal_mul_ops();
                let ld = literal_div_ops();
                assert(literal == lm || literal == ld);
                assert forall|i: int| 0 <= i < literal.len() implies !(#[trigger] literal[i] is Out) by {
                    if literal == lm {
                        assert(lm[i] == literal[i]);
                    } else {
                        assert(ld[i] == literal[i]);
                    }
                }
                law_no_out_no_output(literal, 0, m2, f, input);
                let inner = run(literal, 0, m2, f, input);
                if !(inner.error is Some || inner.fuel >= fuel) {
                    law_no_out_no_output(ops, pc + 1, inner.machine, inner.fuel, input);
                }
            },
        }
    }
}

} // verus!
