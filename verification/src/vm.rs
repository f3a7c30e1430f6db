//! A Brainfuck virtual machine over a tape of natural numbers.
//!
//! Cells are arbitrary-width natural numbers: decrementing below zero and
//! moving off the tape are errors, and no cell may grow past `LIMIT` bits.
//! Programs are compiled to `Op`s; with optimization on, runs of moves and
//! additions are folded, affine transfer loops become one `Affine` op, and
//! the exact multiplication and divmod loops `MUL` and `DIV` become `Mul` and
//! `Div`, which fall back to literal execution when the tape does not meet
//! their preconditions.
use crate::natural::{
    bit_length, nat_add, nat_bits, nat_div, nat_eq, nat_is_zero, nat_lt, nat_mul, nat_rem,
    nat_sub, nat_to_u8, Natural,
};
use crate::compiler::{compile, compile_spec, lemma_pattern_lengths};
use vstd::prelude::*;
use vstd::string::StringSliceAdditionalSpecFns;

verus! {

/// The repeated-addition multiplication loop.
pub const MUL: &'static str = "[>[->+>+<<]>>[-<<+>>]<<<-]";

/// The divmod loop (the fixed version from the Esolang algorithm list).
pub const DIV: &'static str = "[->-[>+>>]>[[-<+>]+>+>>]<<<<<]";

/// The largest number of bits a cell may hold.
pub const LIMIT: u64 = 4096;

/// A compiled instruction.
#[derive(Debug)]
pub enum Op {
    Move(isize),
    Add(i32),
    Affine { terms: Vec<(isize, i32)>, low: isize, high: isize },
    Mul,
    Div,
    In,
    Out,
    Open(usize),
    Close(usize),
}

/// The mathematical form of an `Op`.
pub ghost enum SOp {
    Move(int),
    Add(int),
    Affine { terms: Seq<(int, int)>, low: int, high: int },
    Mul,
    Div,
    In,
    Out,
    Open(int),
    Close(int),
}

pub open spec fn term_view(t: (isize, i32)) -> (int, int) {
    (t.0 as int, t.1 as int)
}

impl View for Op {
    type V = SOp;

    open spec fn view(&self) -> SOp {
        match self {
            Op::Move(n) => SOp::Move(*n as int),
            Op::Add(n) => SOp::Add(*n as int),
            Op::Affine { terms, low, high } => SOp::Affine {
                terms: terms@.map_values(|t: (isize, i32)| term_view(t)),
                low: *low as int,
                high: *high as int,
            },
            Op::Mul => SOp::Mul,
            Op::Div => SOp::Div,
            Op::In => SOp::In,
            Op::Out => SOp::Out,
            Op::Open(n) => SOp::Open(*n as int),
            Op::Close(n) => SOp::Close(*n as int),
        }
    }
}

pub open spec fn ops_view(ops: Seq<Op>) -> Seq<SOp> {
    ops.map_values(|o: Op| o@)
}

pub open spec fn tape_view(tape: Seq<Natural>) -> Seq<nat> {
    tape.map_values(|c: Natural| c@)
}

/// The ways a compilation or a run can fail.
#[derive(Debug, Clone, Copy, PartialEq, Eq)]
pub enum VmError {
    Boundary,
    Underflow,
    Range,
    Fuel,
    Unmatched,
}

pub open spec fn message(e: VmError) -> Seq<char> {
    match e {
        VmError::Boundary => "Brainfuck tape boundary"@,
        VmError::Underflow => "Brainfuck cell underflow"@,
        VmError::Range => "Result outside supported range"@,
        VmError::Fuel => "Calculation exceeded Brainfuck execution limit"@,
        VmError::Unmatched => "Unmatched Brainfuck bracket"@,
    }
}

/// The text of an error.
pub fn error_message(e: VmError) -> (r: String)
    ensures
        r@ == message(e),
{
    match e {
        VmError::Boundary => "Brainfuck tape boundary".to_owned(),
        VmError::Underflow => "Brainfuck cell underflow".to_owned(),
        VmError::Range => "Result outside supported range".to_owned(),
        VmError::Fuel => "Calculation exceeded Brainfuck execution limit".to_owned(),
        VmError::Unmatched => "Unmatched Brainfuck bracket".to_owned(),
    }
}

/// Whether a value fits in a cell.
pub open spec fn fits(v: nat) -> bool {
    bit_length(v) <= LIMIT
}

/// The cell that `offset` designates from `p` on a tape of `len` cells.
pub open spec fn target(p: int, offset: int, len: int) -> Option<int> {
    if 0 <= p + offset < len {
        Some(p + offset)
    } else {
        None
    }
}

/// A cell after a change, and the error the change raised, if any.
pub ghost struct CellChange {
    pub value: nat,
    pub error: Option<VmError>,
}

/// Adding `delta` to a cell holding `v`: an underflow leaves the cell as it
/// was; a result too wide for a cell stays in the cell and raises `Range`.
pub open spec fn change_spec(v: nat, delta: int) -> CellChange {
    if delta < 0 && v < -delta {
        CellChange { value: v, error: Some(VmError::Underflow) }
    } else {
        let w = (v + delta) as nat;
        CellChange { value: w, error: if fits(w) { None } else { Some(VmError::Range) } }
    }
}

/// The tape, head, input position and output of a machine.
pub ghost struct Machine {
    pub tape: Seq<nat>,
    pub pointer: int,
    pub consumed: int,
    pub output: Seq<u8>,
}

/// Where a run ends: the machine, the fuel left, and the error, if any.
pub ghost struct Outcome {
    pub machine: Machine,
    pub fuel: nat,
    pub error: Option<VmError>,
}

/// What one instruction does: go on at an instruction, fail, or run a
/// literal program (when one is at hand) and then go on with the next one.
pub ghost enum Step {
    Jump(int, Machine),
    Fail(VmError, Machine),
    Call(Option<Seq<SOp>>, Machine),
}

/// Applying the terms of an affine loop, from the `k`-th on, for a loop
/// counter `n` at `p`; the tape where it stops, and the error, if any.
pub open spec fn affine_apply(terms: Seq<(int, int)>, k: int, tape: Seq<nat>, p: int, n: nat) -> (
    Seq<nat>,
    Option<VmError>,
)
    decreases terms.len() - k,
{
    if k < 0 || k >= terms.len() {
        (tape, None)
    } else {
        let offset = terms[k].0;
        let coefficient = terms[k].1;
        match target(p, offset, tape.len() as int) {
            None => (tape, Some(VmError::Boundary)),
            Some(at) => {
                let amount = n * (if coefficient < 0 { -coefficient } else { coefficient }) as nat;
                if coefficient <= 0 && tape[at] < amount {
                    (tape, Some(VmError::Underflow))
                } else {
                    let w = if coefficient > 0 { tape[at] + amount } else { (tape[at] - amount) as nat };
                    let t2 = tape.update(at, w);
                    if !fits(w) {
                        (t2, Some(VmError::Range))
                    } else {
                        affine_apply(terms, k + 1, t2, p, n)
                    }
                }
            }
        }
    }
}

pub open spec fn with_tape(m: Machine, tape: Seq<nat>) -> Machine {
    Machine { tape, ..m }
}

/// One instruction at `pc`, with `mul` and `div` the literal multiplication
/// and divmod programs.
pub open spec fn op_step(
    op: SOp,
    pc: int,
    m: Machine,
    input: Seq<u8>,
    mul: Option<Seq<SOp>>,
    div: Option<Seq<SOp>>,
) -> Step {
    let p = m.pointer;
    let tape = m.tape;
    let len = tape.len() as int;
    match op {
        SOp::Move(n) => match target(p, n, len) {
            None => Step::Fail(VmError::Boundary, m),
            Some(q) => Step::Jump(pc + 1, Machine { pointer: q, ..m }),
        },
        SOp::Add(n) => {
            let c = change_spec(tape[p], n);
            let m2 = with_tape(m, tape.update(p, c.value));
            match c.error {
                Some(e) => Step::Fail(e, m2),
                None => Step::Jump(pc + 1, m2),
            }
        },
        SOp::Affine { terms, low, high } => {
            let n = tape[p];
            if n == 0 {
                Step::Jump(pc + 1, m)
            } else if target(p, low, len) is None || target(p, high, len) is None {
                Step::Fail(VmError::Boundary, m)
            } else {
                let (t2, e) = affine_apply(terms, 0, tape, p, n);
                match e {
                    Some(e) => Step::Fail(e, with_tape(m, t2)),
                    None => Step::Jump(pc + 1, with_tape(m, t2.update(p, 0))),
                }
            }
        },
        SOp::Mul => {
            if tape[p] == 0 {
                Step::Jump(pc + 1, m)
            } else if p + 3 >= len {
                Step::Call(mul, m)
            } else if tape[p + 3] == 0 {
                let amount = tape[p] * tape[p + 1];
                let w = tape[p + 2] + amount;
                if !fits(amount) {
                    Step::Fail(VmError::Range, m)
                } else if !fits(w) {
                    Step::Fail(VmError::Range, with_tape(m, tape.update(p + 2, w)))
                } else {
                    Step::Jump(pc + 1, with_tape(m, tape.update(p + 2, w).update(p, 0)))
                }
            } else {
                Step::Call(mul, m)
            }
        },
        SOp::Div => {
            if tape[p] == 0 {
                Step::Jump(pc + 1, m)
            } else if p + 5 >= len {
                Step::Call(div, m)
            } else if tape[p + 1] != 0 && tape[p + 2] == 1 && tape[p + 3] == 0 && tape[p + 4] == 0
                && tape[p + 5] == 0 {
                let n = tape[p];
                let d = tape[p + 1];
                let q = n / d;
                let r = n % d;
                Step::Jump(
                    pc + 1,
                    with_tape(
                        m,
                        tape.update(p, 0).update(p + 1, (d - r) as nat).update(p + 2, r + 1).update(
                            p + 3,
                            q,
                        ),
                    ),
                )
            } else {
                Step::Call(div, m)
            }
        },
        SOp::In => {
            if m.consumed < input.len() {
                Step::Jump(
                    pc + 1,
                    Machine {
                        tape: tape.update(p, input[m.consumed] as nat),
                        consumed: m.consumed + 1,
                        ..m
                    },
                )
            } else {
                Step::Jump(pc + 1, with_tape(m, tape.update(p, 0)))
            }
        },
        SOp::Out => Step::Jump(pc + 1, Machine { output: m.output.push((tape[p] % 256) as u8), ..m }),
        SOp::Open(end) => if tape[p] == 0 {
            Step::Jump(end, m)
        } else {
            Step::Jump(pc + 1, m)
        },
        SOp::Close(start) => if tape[p] != 0 {
            Step::Jump(start, m)
        } else {
            Step::Jump(pc + 1, m)
        },
    }
}


/// The literal multiplication program that `Mul` falls back to.
pub open spec fn mul_program() -> Option<Seq<SOp>> {
    compile_spec(MUL, false)
}

/// The literal divmod program that `Div` falls back to.
pub open spec fn div_program() -> Option<Seq<SOp>> {
    compile_spec(DIV, false)
}

/// Running `ops` from instruction `pc` with `fuel` instructions to spend:
/// each instruction costs one unit, and a run with no fuel left before an
/// instruction fails. A `Mul` or `Div` that falls back runs the literal
/// program on the same machine and fuel, then goes on with the next op.
pub open spec fn run(ops: Seq<SOp>, pc: int, m: Machine, fuel: nat, input: Seq<u8>) -> Outcome
    decreases fuel,
{
    if pc < 0 || pc >= ops.len() {
        Outcome { machine: m, fuel, error: None }
    } else if fuel == 0 {
        Outcome { machine: m, fuel: 0, error: Some(VmError::Fuel) }
    } else {
        let f = (fuel - 1) as nat;
        match op_step(ops[pc], pc, m, input, mul_program(), div_program()) {
            Step::Jump(next, m2) => run(ops, next, m2, f, input),
            Step::Fail(e, m2) => Outcome { machine: m2, fuel: f, error: Some(e) },
            Step::Call(None, m2) => Outcome { machine: m2, fuel: f, error: Some(VmError::Unmatched) },
            Step::Call(Some(literal), m2) => {
                let inner = run(literal, 0, m2, f, input);
                if inner.error is Some || inner.fuel >= fuel {
                    inner
                } else {
                    run(ops, pc + 1, inner.machine, inner.fuel, input)
                }
            },
        }
    }
}

/// A machine whose head is on the tape and whose input position is within
/// the input.
pub open spec fn valid(m: Machine, input: Seq<u8>) -> bool {
    0 <= m.pointer < m.tape.len() && 0 <= m.consumed <= input.len()
}

pub open spec fn machine_of(tape: Seq<Natural>, pointer: usize, consumed: usize, output: Seq<u8>) -> Machine {
    Machine { tape: tape_view(tape), pointer: pointer as int, consumed: consumed as int, output }
}

proof fn lemma_tape_set(t: Seq<Natural>, i: int, v: Natural)
    requires
        0 <= i < t.len(),
    ensures
        tape_view(t.update(i, v)) == tape_view(t).update(i, v@),
{
    assert(tape_view(t.update(i, v)) =~= tape_view(t).update(i, v@));
}

proof fn lemma_affine_apply_len(terms: Seq<(int, int)>, k: int, tape: Seq<nat>, p: int, n: nat)
    ensures
        affine_apply(terms, k, tape, p, n).0.len() == tape.len(),
    decreases terms.len() - k,
{
    if 0 <= k < terms.len() {
        let offset = terms[k].0;
        match target(p, offset, tape.len() as int) {
            None => {},
            Some(at) => {
                let coefficient = terms[k].1;
                let amount = n * (if coefficient < 0 { -coefficient } else { coefficient }) as nat;
                let w = if coefficient > 0 { tape[at] + amount } else { (tape[at] - amount) as nat };
                lemma_affine_apply_len(terms, k + 1, tape.update(at, w), p, n);
            },
        }
    }
}

pub(crate) proof fn lemma_step_valid(op: SOp, pc: int, m: Machine, input: Seq<u8>, mul: Option<Seq<SOp>>, div: Option<Seq<SOp>>)
    requires
        valid(m, input),
    ensures
        match op_step(op, pc, m, input, mul, div) {
            Step::Jump(_, m2) => valid(m2, input) && m2.tape.len() == m.tape.len(),
            Step::Fail(_, m2) => valid(m2, input) && m2.tape.len() == m.tape.len(),
            Step::Call(_, m2) => m2 == m,
        },
{
    if let SOp::Affine { terms, low, high } = op {
        lemma_affine_apply_len(terms, 0, m.tape, m.pointer, m.tape[m.pointer]);
    }
}

/// A run keeps the machine valid and never spends more fuel than it has.
pub proof fn lemma_run_valid(ops: Seq<SOp>, pc: int, m: Machine, fuel: nat, input: Seq<u8>)
    requires
        valid(m, input),
    ensures
        valid(run(ops, pc, m, fuel, input).machine, input),
        run(ops, pc, m, fuel, input).machine.tape.len() == m.tape.len(),
        run(ops, pc, m, fuel, input).fuel <= fuel,
    decreases fuel,
{
    if 0 <= pc < ops.len() && fuel > 0 {
        let f = (fuel - 1) as nat;
        lemma_step_valid(ops[pc], pc, m, input, mul_program(), div_program());
        match op_step(ops[pc], pc, m, input, mul_program(), div_program()) {
            Step::Jump(next, m2) => lemma_run_valid(ops, next, m2, f, input),
            Step::Fail(e, m2) => {},
            Step::Call(None, m2) => {},
            Step::Call(Some(literal), m2) => {
                lemma_run_valid(literal, 0, m2, f, input);
                let inner = run(literal, 0, m2, f, input);
                if !(inner.error is Some || inner.fuel >= fuel) {
                    lemma_run_valid(ops, pc + 1, inner.machine, inner.fuel, input);
                }
            },
        }
    }
}

/// Only `.` writes: an op that goes on or fails leaves the output as it was,
/// except `.`, which appends the cell under the head modulo 256; an op that
/// runs a literal program hands it the machine unchanged.
pub proof fn law_only_out_writes(op: SOp, pc: int, m: Machine, input: Seq<u8>, mul: Option<Seq<SOp>>, div: Option<Seq<SOp>>)
    ensures
        match op_step(op, pc, m, input, mul, div) {
            Step::Jump(_, m2) => m2.output == (if op is Out {
                m.output.push((m.tape[m.pointer] % 256) as u8)
            } else {
                m.output
            }),
            Step::Fail(_, m2) => m2.output == m.output,
            Step::Call(_, m2) => m2 == m,
        },
{
}

/// A run keeps what was already output and only appends to it, whether it
/// ends without an error or not.
pub proof fn law_output_only_grows(ops: Seq<SOp>, pc: int, m: Machine, fuel: nat, input: Seq<u8>)
    ensures
        m.output.len() <= run(ops, pc, m, fuel, input).machine.output.len(),
        run(ops, pc, m, fuel, input).machine.output.take(m.output.len() as int) == m.output,
    decreases fuel,
{
    let r = run(ops, pc, m, fuel, input);
    if 0 <= pc < ops.len() && fuel > 0 {
        let f = (fuel - 1) as nat;
        law_only_out_writes(ops[pc], pc, m, input, mul_program(), div_program());
        match op_step(ops[pc], pc, m, input, mul_program(), div_program()) {
            Step::Jump(next, m2) => {
                law_output_only_grows(ops, next, m2, f, input);
                assert(m2.output.take(m.output.len() as int) =~= m.output);
                assert(r.machine.output.take(m.output.len() as int) =~= r.machine.output.take(
                    m2.output.len() as int,
                ).take(m.output.len() as int));
            },
            Step::Fail(e, m2) => {
                assert(m2.output.take(m.output.len() as int) =~= m.output);
            },
            Step::Call(None, m2) => {
                assert(m2.output.take(m.output.len() as int) =~= m.output);
            },
            Step::Call(Some(literal), m2) => {
                law_output_only_grows(literal, 0, m2, f, input);
                let inner = run(literal, 0, m2, f, input);
                if !(inner.error is Some || inner.fuel >= fuel) {
                    law_output_only_grows(ops, pc + 1, inner.machine, inner.fuel, input);
                    assert(r.machine.output.take(m.output.len() as int) =~= r.machine.output.take(
                        inner.machine.output.len() as int,
                    ).take(m.output.len() as int));
                }
            },
        }
    } else {
        assert(m.output.take(m.output.len() as int) =~= m.output);
    }
}

/// The cell that `offset` designates from cell `p` on a tape of `len`
/// cells, or a boundary error when it falls off the tape.
pub fn index(p: usize, offset: isize, len: usize) -> (r: Result<usize, String>)
    ensures
        match target(p as int, offset as int, len as int) {
            Some(q) => r == Ok::<usize, String>(q as usize),
            None => r matches Err(m) && m@ == message(VmError::Boundary),
        },
{
    let n: i128 = p as i128 + offset as i128;
    if n < 0 || n >= len as i128 {
        Err(error_message(VmError::Boundary))
    } else {
        Ok(n as usize)
    }
}

/// Adds `delta` to a cell; see `change_spec`.
pub fn change(value: &mut Natural, delta: i32) -> (r: Result<(), String>)
    ensures
        final(value)@ == change_spec(old(value)@, delta as int).value,
        r is Ok <==> change_spec(old(value)@, delta as int).error is None,
        r matches Err(m) ==> m@ == message(change_spec(old(value)@, delta as int).error->0),
{
    if delta >= 0 {
        *value = nat_add(value, &Natural::from_u32(delta as u32));
    } else {
        let n = Natural::from_u32((0i64 - delta as i64) as u32);
        if nat_lt(value, &n) {
            return Err(error_message(VmError::Underflow));
        }
        *value = nat_sub(value, &n);
    }
    if nat_bits(value) > LIMIT {
        return Err(error_message(VmError::Range));
    }
    Ok(())
}

fn magnitude(k: i32) -> (r: u32)
    ensures
        r as int == (if k < 0 { -(k as int) } else { k as int }),
{
    if k < 0 {
        (0i64 - k as i64) as u32
    } else {
        k as u32
    }
}

/// An `Affine` op at instruction `pc`, with the head at `p`.
fn exec_affine(terms: &Vec<(isize, i32)>, low: isize, high: isize, pc: usize, tape: &mut Vec<Natural>, p: usize) -> (r: Result<Option<usize>, String>)
    requires
        pc < usize::MAX,
        p < old(tape)@.len(),
    ensures
        final(tape)@.len() == old(tape)@.len(),
        ({
            let tv = terms@.map_values(|t: (isize, i32)| term_view(t));
            let m = tape_view(old(tape)@);
            let n = m[p as int];
            let len = m.len() as int;
            if n == 0 {
                r matches Ok(Some(next)) && next == pc + 1 && final(tape)@ == old(tape)@
            } else if target(p as int, low as int, len) is None || target(p as int, high as int, len) is None {
                r matches Err(msg) && msg@ == message(VmError::Boundary) && final(tape)@ == old(tape)@
            } else {
                let (t2, e) = affine_apply(tv, 0, m, p as int, n);
                match e {
                    Some(e) => r matches Err(msg) && msg@ == message(e) && tape_view(final(tape)@) == t2,
                    None => r matches Ok(Some(next)) && next == pc + 1 && tape_view(final(tape)@) == t2.update(p as int, 0),
                }
            }
        }),
{
    let ghost m = tape_view(tape@);
    let len = tape.len();
    let n = tape[p].clone();
    if nat_is_zero(&n) {
        return Ok(Some(pc + 1));
    }
    match index(p, low, len) {
        Ok(_) => {},
        Err(e) => return Err(e),
    }
    match index(p, high, len) {
        Ok(_) => {},
        Err(e) => return Err(e),
    }
    let ghost tv = terms@.map_values(|t: (isize, i32)| term_view(t));
    let mut k: usize = 0;
    while k < terms.len()
        invariant
            tape@.len() == len,
            len == old(tape)@.len(),
            m == tape_view(old(tape)@),
            m.len() == len,
            p < len,
            n@ == m[p as int],
            n@ != 0,
            target(p as int, low as int, len as int) is Some,
            target(p as int, high as int, len as int) is Some,
            tv == terms@.map_values(|t: (isize, i32)| term_view(t)),
            k <= terms@.len(),
            affine_apply(tv, 0, m, p as int, n@) == affine_apply(tv, k as int, tape_view(tape@), p as int, n@),
        decreases terms.len() - k,
    {
        let ghost before = tape_view(tape@);
        let (offset, coefficient) = terms[k];
        assert(tv[k as int] == (offset as int, coefficient as int));
        let at = match index(p, offset, len) {
            Ok(at) => at,
            Err(e) => {
                assert(target(p as int, offset as int, len as int) is None);
                assert(before.len() == len);
                assert(affine_apply(tv, k as int, before, p as int, n@) == (before, Some(VmError::Boundary)));
                return Err(e);
            },
        };
        let amount = nat_mul(&n, &Natural::from_u32(magnitude(coefficient)));
        if coefficient > 0 {
            let w = nat_add(&tape[at], &amount);
            tape.set(at, w);
        } else {
            if nat_lt(&tape[at], &amount) {
                return Err(error_message(VmError::Underflow));
            }
            let w = nat_sub(&tape[at], &amount);
            tape.set(at, w);
        }
        assert(tape_view(tape@) =~= before.update(at as int, tape@[at as int]@));
        if nat_bits(&tape[at]) > LIMIT {
            assert(affine_apply(tv, k as int, before, p as int, n@) == (tape_view(tape@), Some(VmError::Range)));
            return Err(error_message(VmError::Range));
        }
        k = k + 1;
    }
    let ghost before = tape_view(tape@);
    tape.set(p, Natural::from_u32(0));
    assert(tape_view(tape@) =~= before.update(p as int, 0));
    Ok(Some(pc + 1))
}

/// One instruction other than the literal fallback of `Mul` and `Div`:
/// `Ok(Some(next))` goes on at `next`, `Ok(None)` asks for the fallback.
fn exec_op(
    op: &Op,
    pc: usize,
    tape: &mut Vec<Natural>,
    pointer: &mut usize,
    input: &[u8],
    consumed: &mut usize,
    output: &mut Vec<u8>,
) -> (r: Result<Option<usize>, String>)
    requires
        pc < usize::MAX,
        *old(pointer) < old(tape)@.len(),
        *old(consumed) <= input@.len(),
    ensures
        final(tape)@.len() == old(tape)@.len(),
        *final(pointer) < final(tape)@.len(),
        *final(consumed) <= input@.len(),
        ({
            let m = machine_of(old(tape)@, *old(pointer), *old(consumed), old(output)@);
            let m2 = machine_of(final(tape)@, *final(pointer), *final(consumed), final(output)@);
            match op_step(op@, pc as int, m, input@, mul_program(), div_program()) {
                Step::Jump(next, after) => r matches Ok(Some(n)) && n == next && m2 == after,
                Step::Fail(e, after) => r matches Err(msg) && msg@ == message(e) && m2 == after,
                Step::Call(_, after) => r matches Ok(None) && m2 == after && (op@ is Mul || op@ is Div),
            }
        }),
{
    let ghost m = machine_of(tape@, *pointer, *consumed, output@);
    let p = *pointer;
    let len = tape.len();
    proof {
        lemma_step_valid(op@, pc as int, m, input@, mul_program(), div_program());
    }
    match op {
        Op::Move(n) => {
            match index(p, *n, len) {
                Ok(q) => {
                    *pointer = q;
                    Ok(Some(pc + 1))
                },
                Err(e) => Err(e),
            }
        },
        Op::Add(n) => {
            let result = change(&mut tape[p], *n);
            proof {
                assert(tape_view(tape@) =~= m.tape.update(p as int, change_spec(m.tape[p as int], *n as int).value));
            }
            match result {
                Ok(()) => Ok(Some(pc + 1)),
                Err(e) => Err(e),
            }
        },
        Op::Affine { terms, low, high } => exec_affine(terms, *low, *high, pc, tape, p),
        Op::Mul => {
            if nat_is_zero(&tape[p]) {
                return Ok(Some(pc + 1));
            }
            match index(p, 3, len) {
                Ok(_) => {},
                Err(_) => return Ok(None),
            }
            if nat_is_zero(&tape[p + 3]) {
                let amount = nat_mul(&tape[p], &tape[p + 1]);
                if nat_bits(&amount) > LIMIT {
                    return Err(error_message(VmError::Range));
                }
                let w = nat_add(&tape[p + 2], &amount);
                let ghost t0 = tape@;
                tape.set(p + 2, w);
                proof {
                    lemma_tape_set(t0, p + 2, w);
                }
                if nat_bits(&tape[p + 2]) > LIMIT {
                    return Err(error_message(VmError::Range));
                }
                let ghost t1 = tape@;
                let zero = Natural::from_u32(0);
                tape.set(p, zero);
                proof {
                    lemma_tape_set(t1, p as int, zero);
                }
                Ok(Some(pc + 1))
            } else {
                Ok(None)
            }
        },
        Op::Div => {
            if nat_is_zero(&tape[p]) {
                return Ok(Some(pc + 1));
            }
            match index(p, 5, len) {
                Ok(_) => {},
                Err(_) => return Ok(None),
            }
            if !nat_is_zero(&tape[p + 1]) && nat_eq(&tape[p + 2], &Natural::from_u32(1))
                && nat_is_zero(&tape[p + 3]) && nat_is_zero(&tape[p + 4]) && nat_is_zero(&tape[p + 5]) {
                let n = tape[p].clone();
                let d = tape[p + 1].clone();
                let q = nat_div(&n, &d);
                let r = nat_rem(&n, &d);
                let zero = Natural::from_u32(0);
                let rest = nat_sub(&d, &r);
                let next = nat_add(&r, &Natural::from_u32(1));
                let ghost t0 = tape@;
                tape.set(p, zero);
                let ghost t1 = tape@;
                tape.set(p + 1, rest);
                let ghost t2 = tape@;
                tape.set(p + 2, next);
                let ghost t3 = tape@;
                tape.set(p + 3, q);
                proof {
                    lemma_tape_set(t0, p as int, zero);
                    lemma_tape_set(t1, p + 1, rest);
                    lemma_tape_set(t2, p + 2, next);
                    lemma_tape_set(t3, p + 3, q);
                }
                Ok(Some(pc + 1))
            } else {
                Ok(None)
            }
        },
        Op::In => {
            let ghost t0 = tape@;
            let value = if *consumed < input.len() {
                let v = input[*consumed];
                *consumed = *consumed + 1;
                Natural::from_u32(v as u32)
            } else {
                Natural::from_u32(0)
            };
            tape.set(p, value);
            proof {
                lemma_tape_set(t0, p as int, value);
            }
            Ok(Some(pc + 1))
        },
        Op::Out => {
            let low = nat_rem(&tape[p], &Natural::from_u32(256));
            let byte = match nat_to_u8(&low) {
                Some(b) => b,
                None => 0,
            };
            output.push(byte);
            Ok(Some(pc + 1))
        },
        Op::Open(end) => {
            if nat_is_zero(&tape[p]) {
                Ok(Some(*end))
            } else {
                Ok(Some(pc + 1))
            }
        },
        Op::Close(start) => {
            if !nat_is_zero(&tape[p]) {
                Ok(Some(*start))
            } else {
                Ok(Some(pc + 1))
            }
        },
    }
}


/// Runs `ops` on `tape` with the head at `*pointer`, reading the bytes of
/// `input` from position `*consumed` on (0 once it is exhausted), appending
/// to `output`, and spending one unit of `*fuel` per instruction. The machine
/// ends as `run` says, also when the run fails.
pub fn exec(
    ops: &[Op],
    tape: &mut Vec<Natural>,
    pointer: &mut usize,
    input: &[u8],
    consumed: &mut usize,
    output: &mut Vec<u8>,
    fuel: &mut usize,
) -> (r: Result<(), String>)
    requires
        *old(pointer) < old(tape)@.len(),
        *old(consumed) <= input@.len(),
    ensures
        ({
            let o = run(
                ops_view(ops@),
                0,
                machine_of(old(tape)@, *old(pointer), *old(consumed), old(output)@),
                *old(fuel) as nat,
                input@,
            );
            &&& machine_of(final(tape)@, *final(pointer), *final(consumed), final(output)@) == o.machine
            &&& *final(fuel) == o.fuel
            &&& (r is Ok <==> o.error is None)
            &&& (r matches Err(m) ==> m@ == message(o.error->0))
        }),
        final(tape)@.len() == old(tape)@.len(),
        *final(pointer) < final(tape)@.len(),
        *final(consumed) <= input@.len(),
        *final(fuel) <= *old(fuel),
    decreases *old(fuel),
{
    let ghost opsv = ops_view(ops@);
    let ghost m0 = machine_of(tape@, *pointer, *consumed, output@);
    let ghost fuel0 = *fuel as nat;
    let mut pc: usize = 0;
    while pc < ops.len()
        invariant
            opsv == ops_view(ops@),
            *pointer < tape@.len(),
            tape@.len() == m0.tape.len(),
            *consumed <= input@.len(),
            *fuel <= fuel0,
            fuel0 == *old(fuel),
            m0 == machine_of(old(tape)@, *old(pointer), *old(consumed), old(output)@),
            run(opsv, pc as int, machine_of(tape@, *pointer, *consumed, output@), *fuel as nat, input@)
                == run(opsv, 0, m0, fuel0, input@),
        ensures
            run(opsv, 0, m0, fuel0, input@) == (Outcome {
                machine: machine_of(tape@, *pointer, *consumed, output@),
                fuel: *fuel as nat,
                error: None,
            }),
            *pointer < tape@.len(),
            tape@.len() == m0.tape.len(),
            *consumed <= input@.len(),
            *fuel <= fuel0,
        decreases *fuel,
    {
        let ghost m = machine_of(tape@, *pointer, *consumed, output@);
        if *fuel == 0 {
            return Err(error_message(VmError::Fuel));
        }
        *fuel = *fuel - 1;
        match exec_op(&ops[pc], pc, tape, pointer, input, consumed, output) {
            Err(e) => {
                return Err(e);
            },
            Ok(Some(next)) => {
                pc = next;
            },
            Ok(None) => {
                proof {
                    lemma_pattern_lengths();
                }
                let literal = match &ops[pc] {
                    Op::Mul => compile(MUL, false),
                    _ => compile(DIV, false),
                };
                match literal {
                    Err(e) => {
                        return Err(e);
                    },
                    Ok(program) => {
                        let ghost m2 = machine_of(tape@, *pointer, *consumed, output@);
                        let ghost f = *fuel as nat;
                        match exec(program.as_slice(), tape, pointer, input, consumed, output, fuel) {
                            Err(e) => {
                                return Err(e);
                            },
                            Ok(()) => {
                                pc = pc + 1;
                            },
                        }
                    },
                }
            },
        }
    }
    Ok(())
}


/// Whether every cell of a tape fits in `LIMIT` bits.
pub open spec fn all_fit(tape: Seq<nat>) -> bool {
    forall|i: int| 0 <= i < tape.len() ==> fits(#[trigger] tape[i])
}

pub(crate) proof fn lemma_bit_length_monotone(a: nat, b: nat)
    requires
        a <= b,
    ensures
        bit_length(a) <= bit_length(b),
    decreases b,
{
    if a > 0 {
        lemma_bit_length_monotone(a / 2, b / 2);
    }
}

proof fn lemma_byte_fits(v: nat)
    requires
        v < 256,
    ensures
        fits(v),
{
    lemma_bit_length_monotone(v, 255);
    reveal_with_fuel(bit_length, 9);
    assert(bit_length(255) == 8);
}

proof fn lemma_affine_apply_fits(terms: Seq<(int, int)>, k: int, tape: Seq<nat>, p: int, n: nat)
    requires
        all_fit(tape),
        affine_apply(terms, k, tape, p, n).1 is None,
    ensures
        all_fit(affine_apply(terms, k, tape, p, n).0),
    decreases terms.len() - k,
{
    if 0 <= k < terms.len() {
        let offset = terms[k].0;
        match target(p, offset, tape.len() as int) {
            None => {},
            Some(at) => {
                let coefficient = terms[k].1;
                let amount = n * (if coefficient < 0 { -coefficient } else { coefficient }) as nat;
                let w = if coefficient > 0 { tape[at] + amount } else { (tape[at] - amount) as nat };
                lemma_affine_apply_fits(terms, k + 1, tape.update(at, w), p, n);
            },
        }
    }
}

pub(crate) proof fn lemma_step_fits(op: SOp, pc: int, m: Machine, input: Seq<u8>, mul: Option<Seq<SOp>>, div: Option<Seq<SOp>>)
    requires
        valid(m, input),
        all_fit(m.tape),
    ensures
        op_step(op, pc, m, input, mul, div) matches Step::Jump(_, m2) ==> all_fit(m2.tape),
{
    let p = m.pointer;
    let tape = m.tape;
    reveal_with_fuel(bit_length, 1);
    assert(fits(0));
    match op {
        SOp::Affine { terms, low, high } => {
            if tape[p] != 0 && target(p, low, tape.len() as int) is Some && target(p, high, tape.len() as int) is Some
                && affine_apply(terms, 0, tape, p, tape[p]).1 is None {
                lemma_affine_apply_fits(terms, 0, tape, p, tape[p]);
                lemma_affine_apply_len(terms, 0, tape, p, tape[p]);
                let t2 = affine_apply(terms, 0, tape, p, tape[p]).0;
                assert(all_fit(t2.update(p, 0)));
            }
        },
        SOp::Div => {
            if tape[p] != 0 && p + 5 < tape.len() && tape[p + 1] != 0 {
                let n = tape[p];
                let d = tape[p + 1];
                assert(fits(n) && fits(d));
                lemma_bit_length_monotone(n / d, n);
                lemma_bit_length_monotone((d - n % d) as nat, d);
                lemma_bit_length_monotone(n % d + 1, d);
            }
        },
        SOp::In => {
            if m.consumed < input.len() {
                lemma_byte_fits(input[m.consumed] as nat);
            }
        },
        _ => {},
    }
}

/// A run that succeeds leaves every cell within `LIMIT` bits when it
/// started so: no intermediate value outgrows a cell unnoticed.
pub proof fn lemma_run_keeps_cells_within_limit(ops: Seq<SOp>, pc: int, m: Machine, fuel: nat, input: Seq<u8>)
    requires
        valid(m, input),
        all_fit(m.tape),
    ensures
        run(ops, pc, m, fuel, input).error is None ==> all_fit(run(ops, pc, m, fuel, input).machine.tape),
    decreases fuel,
{
    if 0 <= pc < ops.len() && fuel > 0 {
        let f = (fuel - 1) as nat;
        lemma_step_valid(ops[pc], pc, m, input, mul_program(), div_program());
        lemma_step_fits(ops[pc], pc, m, input, mul_program(), div_program());
        match op_step(ops[pc], pc, m, input, mul_program(), div_program()) {
            Step::Jump(next, m2) => lemma_run_keeps_cells_within_limit(ops, next, m2, f, input),
            Step::Fail(e, m2) => {},
            Step::Call(None, m2) => {},
            Step::Call(Some(literal), m2) => {
                lemma_run_valid(literal, 0, m2, f, input);
                lemma_run_keeps_cells_within_limit(literal, 0, m2, f, input);
                let inner = run(literal, 0, m2, f, input);
                if !(inner.error is Some || inner.fuel >= fuel) {
                    lemma_run_keeps_cells_within_limit(ops, pc + 1, inner.machine, inner.fuel, input);
                }
            },
        }
    }
}

} // verus!
