//! Running an expression's program, one request at a time.
//!
//! The numbers of an expression are kept as the bits of `f64`s, which this
//! module only moves around: reading a number, running a routine and
//! checking the result are asked of the caller, which answers with `give`.
//! What is decided here is which values each step takes, and in what order.
use crate::calculator::copy_chars;
use crate::expression::{expression_program, expression_spec, program_view, Instr, SInstr};
use crate::routine::Routine;
use crate::stack::height_after;
use vstd::prelude::*;
use vstd::string::StringSliceAdditionalSpecFns;

verus! {

/// What running a program asks for next.
#[derive(Debug)]
pub enum Request {
    /// Read the number these characters write, and give it.
    Number(Vec<char>),
    /// Give the value of a constant routine.
    Constant(Routine),
    /// Give `routine(v, 0)`.
    Unary(Routine, u64),
    /// Give `routine(a, b)`.
    Binary(Routine, u64, u64),
    /// Give `div(v, 100)`.
    Percent(u64),
    /// The program has run: this is the expression's value.
    Done(u64),
    /// The program stops with this error.
    Fail(String),
}

pub ghost enum SRequest {
    Number(Seq<char>),
    Constant(Routine),
    Unary(Routine, u64),
    Binary(Routine, u64, u64),
    Percent(u64),
    Done(u64),
    Fail(Seq<char>),
}

impl View for Request {
    type V = SRequest;

    open spec fn view(&self) -> SRequest {
        match self {
            Request::Number(t) => SRequest::Number(t@),
            Request::Constant(r) => SRequest::Constant(*r),
            Request::Unary(r, v) => SRequest::Unary(*r, *v),
            Request::Binary(r, a, b) => SRequest::Binary(*r, *a, *b),
            Request::Percent(v) => SRequest::Percent(*v),
            Request::Done(v) => SRequest::Done(*v),
            Request::Fail(m) => SRequest::Fail(m@),
        }
    }
}

/// Whether a request asks for a value to be given.
pub open spec fn asks_value(r: SRequest) -> bool {
    r is Number || r is Constant || r is Unary || r is Binary || r is Percent
}

/// The request for the step at `next` of `prog` with the values `stack`,
/// and the position and values after it: a step takes its operands from the
/// top of the stack, the lower one first; `Relative` takes the top value `b`
/// and asks for `mul(b, a)` with `a`, below it, left in place. A step short
/// of an operand, or the end of a program that left no value, fails with
/// "Invalid expression"; the end of the program gives the top value.
pub open spec fn request_spec(prog: Seq<SInstr>, next: int, stack: Seq<u64>) -> (int, Seq<u64>, SRequest) {
    let k = stack.len();
    let invalid = SRequest::Fail("Invalid expression"@);
    if next < 0 || next >= prog.len() {
        if k >= 1 {
            (next, stack, SRequest::Done(stack[k - 1]))
        } else {
            (next, stack, invalid)
        }
    } else {
        match prog[next] {
            SInstr::Number(t) => (next + 1, stack, SRequest::Number(t)),
            SInstr::Constant(r) => (next + 1, stack, SRequest::Constant(r)),
            SInstr::Unary(r) => if k >= 1 {
                (next + 1, stack.drop_last(), SRequest::Unary(r, stack[k - 1]))
            } else {
                (next + 1, stack, invalid)
            },
            SInstr::Binary(r) => if k >= 2 {
                (next + 1, stack.take(k - 2), SRequest::Binary(r, stack[k - 2], stack[k - 1]))
            } else {
                (next + 1, stack, invalid)
            },
            SInstr::Percent => if k >= 1 {
                (next + 1, stack.drop_last(), SRequest::Percent(stack[k - 1]))
            } else {
                (next + 1, stack, invalid)
            },
            SInstr::Relative => if k >= 2 {
                (next + 1, stack.drop_last(), SRequest::Binary(Routine::Mul, stack[k - 1], stack[k - 2]))
            } else {
                (next + 1, stack, invalid)
            },
            SInstr::Fail(m) => (next + 1, stack, SRequest::Fail(m)),
        }
    }
}

/// A program being run: the step it is at and the values computed so far.
pub struct Evaluation {
    program: Vec<Instr>,
    next: usize,
    stack: Vec<u64>,
}

impl Evaluation {
    pub closed spec fn program_spec(&self) -> Seq<SInstr> {
        program_view(self.program@)
    }

    pub closed spec fn next_spec(&self) -> int {
        self.next as int
    }

    pub closed spec fn stack_spec(&self) -> Seq<u64> {
        self.stack@
    }

    /// Starts running `program` at its first step, with no values.
    pub fn new(program: Vec<Instr>) -> (e: Evaluation)
        ensures
            e.program_spec() == program_view(program@),
            e.next_spec() == 0,
            e.stack_spec() == Seq::<u64>::empty(),
    {
        Evaluation { program, next: 0, stack: Vec::new() }
    }

    /// Starts running the program of the expression `s`.
    pub fn of_expression(s: &str) -> (e: Evaluation)
        requires
            s.spec_bytes().len() <= usize::MAX,
        ensures
            e.program_spec() == expression_spec(s@, s.spec_bytes().len() as int),
            e.next_spec() == 0,
            e.stack_spec() == Seq::<u64>::empty(),
    {
        Evaluation::new(expression_program(s))
    }

    /// The request of the next step; see `request_spec`.
    pub fn request(&mut self) -> (r: Request)
        ensures
            final(self).program_spec() == old(self).program_spec(),
            (final(self).next_spec(), final(self).stack_spec(), r@) == request_spec(
                old(self).program_spec(),
                old(self).next_spec(),
                old(self).stack_spec(),
            ),
    {
        let k = self.stack.len();
        let ghost prog = program_view(self.program@);
        if self.next >= self.program.len() {
            if k >= 1 {
                return Request::Done(self.stack[k - 1]);
            } else {
                return Request::Fail("Invalid expression".to_owned());
            }
        }
        let i = self.next;
        assert(prog[i as int] == self.program@[i as int]@);
        self.next = i + 1;
        match &self.program[i] {
            Instr::Number(t) => Request::Number(copy_chars(t)),
            Instr::Constant(r) => Request::Constant(*r),
            Instr::Unary(r) => {
                match self.stack.pop() {
                    Some(v) => Request::Unary(*r, v),
                    None => Request::Fail("Invalid expression".to_owned()),
                }
            },
            Instr::Binary(r) => {
                if k >= 2 {
                    let b = self.stack.pop().unwrap();
                    let a = self.stack.pop().unwrap();
                    assert(self.stack@ =~= old(self).stack@.take(k - 2));
                    Request::Binary(*r, a, b)
                } else {
                    Request::Fail("Invalid expression".to_owned())
                }
            },
            Instr::Percent => {
                match self.stack.pop() {
                    Some(v) => Request::Percent(v),
                    None => Request::Fail("Invalid expression".to_owned()),
                }
            },
            Instr::Relative => {
                if k >= 2 {
                    let b = self.stack.pop().unwrap();
                    let a = self.stack[k - 2];
                    Request::Binary(Routine::Mul, b, a)
                } else {
                    Request::Fail("Invalid expression".to_owned())
                }
            },
            Instr::Fail(m) => Request::Fail(m.clone()),
        }
    }

    /// Gives the value a request asked for.
    pub fn give(&mut self, v: u64)
        ensures
            final(self).program_spec() == old(self).program_spec(),
            final(self).next_spec() == old(self).next_spec(),
            final(self).stack_spec() == old(self).stack_spec().push(v),
    {
        self.stack.push(v);
    }
}

/// Run with every value it asks for given, a program keeps as many values
/// as its steps leave: where the steps before `next` leave `stack.len()`
/// values and the step at `next` has its operands, that step's request does
/// not fail unless the step is a failure, and the values left after it,
/// with the one it asks for, are as many as the steps up to it leave. With
/// `law_programs_run`, no step of the parser's programs lacks an operand.
pub proof fn law_requests_have_operands(prog: Seq<SInstr>, next: int, stack: Seq<u64>)
    requires
        0 <= next < prog.len(),
        height_after(prog.take(next), 0) == Some(stack.len() as int),
        height_after(prog.take(next + 1), 0) is Some,
    ensures
        request_spec(prog, next, stack).2 is Fail ==> prog[next] is Fail,
        request_spec(prog, next, stack).0 == next + 1,
        height_after(prog.take(next + 1), 0) == Some(
            request_spec(prog, next, stack).1.len() + if asks_value(request_spec(prog, next, stack).2) {
                1int
            } else {
                0int
            },
        ),
{
    assert(prog.take(next + 1).drop_last() =~= prog.take(next));
    assert(prog.take(next + 1).last() == prog[next]);
}

/// At the end of a program whose steps leave one value, the request gives
/// that value.
pub proof fn law_end_gives_value(prog: Seq<SInstr>, stack: Seq<u64>)
    requires
        stack.len() == 1,
    ensures
        request_spec(prog, prog.len() as int, stack).2 == SRequest::Done(stack[0]),
{
}

/// A step takes its operands off the top of the stack, and only those: a
/// step of one operand takes the top value; a binary step takes the two top
/// values, the lower one as the left operand, and calls its own routine; a
/// relative percentage takes the top value `b` and asks for `mul(b, a)` with
/// `a` the value right below it, its left subtotal, which stays on the
/// stack; a number, a constant or a failure takes nothing.
pub proof fn law_requests_take_operands_from_top(prog: Seq<SInstr>, next: int, s: Seq<u64>)
    requires
        0 <= next < prog.len(),
    ensures
        request_spec(prog, next, s).0 == next + 1,
        request_spec(prog, next, s).2 matches SRequest::Unary(r, v) ==> s == request_spec(prog, next, s).1.push(v)
            && prog[next] == SInstr::Unary(r),
        request_spec(prog, next, s).2 matches SRequest::Percent(v) ==> s == request_spec(prog, next, s).1.push(v)
            && prog[next] is Percent,
        prog[next] is Relative ==> (request_spec(prog, next, s).2 matches SRequest::Binary(r, b, a) ==> r
            == Routine::Mul && s == request_spec(prog, next, s).1.push(b) && request_spec(prog, next, s).1.len()
            >= 1 && request_spec(prog, next, s).1.last() == a),
        !(prog[next] is Relative) ==> (request_spec(prog, next, s).2 matches SRequest::Binary(r, a, b) ==> s
            == request_spec(prog, next, s).1.push(a).push(b) && prog[next] == SInstr::Binary(r)),
        request_spec(prog, next, s).2 matches SRequest::Number(t) ==> request_spec(prog, next, s).1 == s
            && prog[next] == SInstr::Number(t),
        request_spec(prog, next, s).2 matches SRequest::Constant(r) ==> request_spec(prog, next, s).1 == s
            && prog[next] == SInstr::Constant(r),
        request_spec(prog, next, s).2 is Fail ==> request_spec(prog, next, s).1 == s,
        !(request_spec(prog, next, s).2 is Done),
{
    let k = s.len();
    if k >= 2 {
        assert(s.take(k - 2).push(s[k - 2]).push(s[k - 1]) =~= s);
    }
    if k >= 1 {
        assert(s.drop_last().push(s[k - 1]) =~= s);
    }
    let s2 = request_spec(prog, next, s).1;
    let r = request_spec(prog, next, s).2;
    match prog[next] {
        SInstr::Relative => {
            if k >= 2 {
                assert(s2 == s.drop_last());
                assert(s2[s2.len() - 1] == s[k - 2]);
                assert(r == SRequest::Binary(Routine::Mul, s[k - 1], s[k - 2]));
                assert(s == s2.push(s[k - 1]));
            } else {
                assert(r is Fail && s2 == s);
            }
        },
        SInstr::Binary(x) => {
            if k >= 2 {
                assert(s2 == s.take(k - 2));
                assert(s == s2.push(s[k - 2]).push(s[k - 1]));
            } else {
                assert(r is Fail && s2 == s);
            }
        },
        SInstr::Unary(x) => {
            if k >= 1 {
                assert(s == s2.push(s[k - 1]));
            }
        },
        SInstr::Percent => {
            if k >= 1 {
                assert(s == s2.push(s[k - 1]));
            }
        },
        _ => {},
    }
}

} // verus!
