//! Running an expression's program on a stack of values: no step the parser
//! emits lacks an operand, and a program with no failure in it leaves
//! exactly one value, the expression's.
use crate::expression::{
    digits_end, expression_spec, failed, function_routine, is_digit, is_letter, lemma_letters_end,
    letters_end, mantissa_end, number_end, p_atom, p_closed, p_expr, p_expr_rest, p_postfix,
    p_postfix_rest, p_power, p_term, p_term_rest, p_unary, peek_at, MAX_DEPTH, Parsed, SInstr,
};
use vstd::prelude::*;

verus! {

/// The number of values on the stack after the step `i` from `k` values, or
/// `None` when the step lacks an operand.
pub open spec fn step_height(i: SInstr, k: int) -> Option<int> {
    match i {
        SInstr::Number(_) => Some(k + 1),
        SInstr::Constant(_) => Some(k + 1),
        SInstr::Unary(_) => if k >= 1 {
            Some(k)
        } else {
            None
        },
        SInstr::Percent => if k >= 1 {
            Some(k)
        } else {
            None
        },
        SInstr::Binary(_) => if k >= 2 {
            Some(k - 1)
        } else {
            None
        },
        SInstr::Relative => if k >= 2 {
            Some(k)
        } else {
            None
        },
        SInstr::Fail(_) => Some(k),
    }
}

/// The number of values on the stack after running `prog` from `h` values,
/// or `None` when some step lacks an operand.
pub open spec fn height_after(prog: Seq<SInstr>, h: int) -> Option<int>
    decreases prog.len(),
{
    if prog.len() == 0 {
        Some(h)
    } else {
        match height_after(prog.drop_last(), h) {
            Some(k) => step_height(prog.last(), k),
            None => None,
        }
    }
}

/// Whether a program holds a failure.
pub open spec fn has_fail(prog: Seq<SInstr>) -> bool
    decreases prog.len(),
{
    prog.len() > 0 && (has_fail(prog.drop_last()) || prog.last() is Fail)
}

proof fn lemma_concat(a: Seq<SInstr>, b: Seq<SInstr>, h: int)
    ensures
        height_after(a + b, h) == (match height_after(a, h) {
            Some(k) => height_after(b, k),
            None => None,
        }),
        has_fail(a + b) == (has_fail(a) || has_fail(b)),
    decreases b.len(),
{
    if b.len() == 0 {
        assert(a + b =~= a);
    } else {
        lemma_concat(a, b.drop_last(), h);
        assert((a + b).drop_last() =~= a + b.drop_last());
        assert((a + b).last() == b.last());
    }
}

proof fn lemma_raise(b: Seq<SInstr>, h: int, d: int)
    requires
        d >= 0,
        height_after(b, h) is Some,
    ensures
        height_after(b, h + d) == Some(height_after(b, h)->0 + d),
    decreases b.len(),
{
    if b.len() > 0 {
        lemma_raise(b.drop_last(), h, d);
    }
}

proof fn lemma_single(i: SInstr, h: int)
    ensures
        height_after(seq![i], h) == step_height(i, h),
        has_fail(seq![i]) == (i is Fail),
{
    let e = Seq::<SInstr>::empty();
    assert(seq![i].drop_last() =~= e);
    assert(seq![i].last() == i);
    assert(height_after(e, h) == Some(h));
    assert(!has_fail(e));
}

/// A parse that stands alone: its program runs from an empty stack; if it
/// went on, it moved forward from `pos`, holds no failure and leaves one
/// value; if it stopped, its program holds the failure.
pub open spec fn sound(r: Parsed, pos: int, c: Seq<char>) -> bool {
    &&& height_after(r.prog, 0) is Some
    &&& r.ok ==> pos <= r.pos <= c.len() && height_after(r.prog, 0) == Some(1int) && !has_fail(r.prog)
    &&& !r.ok ==> has_fail(r.prog)
}

proof fn lemma_failed(prog: Seq<SInstr>, pos: int, m: Seq<char>)
    requires
        height_after(prog, 0) is Some,
    ensures
        height_after(failed(prog, pos, m).prog, 0) is Some,
        has_fail(failed(prog, pos, m).prog),
        !failed(prog, pos, m).ok,
{
    assert(failed(prog, pos, m).prog.drop_last() =~= prog);
}

/// An operand `b` after a value: the two leave two values.
proof fn lemma_after_value(a: Seq<SInstr>, b: Seq<SInstr>)
    requires
        height_after(a, 0) == Some(1int),
        height_after(b, 0) is Some,
    ensures
        height_after(a + b, 0) == Some(height_after(b, 0)->0 + 1),
        has_fail(a + b) == (has_fail(a) || has_fail(b)),
{
    lemma_concat(a, b, 0);
    lemma_raise(b, 0, 1);
}

proof fn lemma_push(p: Seq<SInstr>, i: SInstr, h: int)
    ensures
        height_after(p.push(i), h) == (match height_after(p, h) {
            Some(k) => step_height(i, k),
            None => None,
        }),
        has_fail(p.push(i)) == (has_fail(p) || i is Fail),
{
    assert(p.push(i).drop_last() =~= p);
}

proof fn lemma_mantissa_end(c: Seq<char>, i: int)
    requires
        0 <= i <= c.len(),
    ensures
        i <= mantissa_end(c, i) <= c.len(),
    decreases c.len() - i,
{
    if i < c.len() && (is_digit(c[i]) || c[i] == '.') {
        lemma_mantissa_end(c, i + 1);
    }
}

proof fn lemma_digits_end(c: Seq<char>, i: int)
    requires
        0 <= i,
    ensures
        i <= digits_end(c, i),
        i <= c.len() ==> digits_end(c, i) <= c.len(),
    decreases c.len() - i,
{
    if 0 <= i < c.len() && is_digit(c[i]) {
        lemma_digits_end(c, i + 1);
    }
}

proof fn lemma_number_end(c: Seq<char>, pos: int)
    requires
        0 <= pos <= c.len(),
    ensures
        pos <= number_end(c, pos) <= c.len(),
{
    let m = mantissa_end(c, pos);
    lemma_mantissa_end(c, pos);
    if peek_at(c, m) == 'e' || peek_at(c, m) == 'E' {
        let j = if peek_at(c, m + 1) == '+' || peek_at(c, m + 1) == '-' {
            m + 2
        } else {
            m + 1
        };
        lemma_digits_end(c, j);
    }
}

proof fn lemma_expr(c: Seq<char>, pos: int, depth: int)
    ensures
        sound(p_expr(c, pos, depth), pos, c),
    decreases c.len() - pos, 10int,
{
    if pos < 0 || pos > c.len() {
        lemma_failed(Seq::empty(), pos, "Invalid expression"@);
    } else {
        lemma_term(c, pos, depth);
        let t = p_term(c, pos, depth);
        if t.ok {
            lemma_expr_rest(c, t, depth);
        }
    }
}

proof fn lemma_expr_rest(c: Seq<char>, acc: Parsed, depth: int)
    requires
        acc.ok,
        0 <= acc.pos <= c.len(),
        height_after(acc.prog, 0) == Some(1int),
        !has_fail(acc.prog),
    ensures
        sound(p_expr_rest(c, acc, depth), acc.pos, c),
    decreases c.len() - acc.pos, 9int,
{
    let op = peek_at(c, acc.pos);
    if op == '+' || op == '-' {
        let start = acc.pos + 1;
        lemma_term(c, start, depth);
        let t = p_term(c, start, depth);
        lemma_after_value(acc.prog, t.prog);
        if t.ok {
            let relative = if crate::expression::relative_summand(c.subrange(start, t.pos)) {
                seq![SInstr::Relative]
            } else {
                Seq::empty()
            };
            let routine = if op == '+' {
                crate::routine::Routine::Add
            } else {
                crate::routine::Routine::Sub
            };
            let two = acc.prog + t.prog;
            lemma_concat(two, relative, 0);
            if relative.len() > 0 {
                lemma_single(SInstr::Relative, 2);
            } else {
                assert(height_after(relative, 2) == Some(2int));
                assert(!has_fail(relative));
            }
            lemma_concat(two + relative, seq![SInstr::Binary(routine)], 0);
            lemma_single(SInstr::Binary(routine), 2);
            let next = Parsed { prog: two + relative + seq![SInstr::Binary(routine)], pos: t.pos, ok: true };
            lemma_expr_rest(c, next, depth);
        }
    }
}

proof fn lemma_term(c: Seq<char>, pos: int, depth: int)
    ensures
        sound(p_term(c, pos, depth), pos, c),
    decreases c.len() - pos, 8int,
{
    if pos < 0 || pos > c.len() {
        lemma_failed(Seq::empty(), pos, "Invalid expression"@);
    } else {
        lemma_unary(c, pos, depth);
        let u = p_unary(c, pos, depth);
        if u.ok {
            lemma_term_rest(c, u, depth);
        }
    }
}

proof fn lemma_term_rest(c: Seq<char>, acc: Parsed, depth: int)
    requires
        acc.ok,
        0 <= acc.pos <= c.len(),
        height_after(acc.prog, 0) == Some(1int),
        !has_fail(acc.prog),
    ensures
        sound(p_term_rest(c, acc, depth), acc.pos, c),
    decreases c.len() - acc.pos, 7int,
{
    let op = peek_at(c, acc.pos);
    if op == '*' || op == '/' {
        let start = acc.pos + 1;
        lemma_unary(c, start, depth);
        let u = p_unary(c, start, depth);
        lemma_after_value(acc.prog, u.prog);
        if u.ok {
            let routine = if op == '*' {
                crate::routine::Routine::Mul
            } else {
                crate::routine::Routine::Div
            };
            lemma_concat(acc.prog + u.prog, seq![SInstr::Binary(routine)], 0);
            lemma_single(SInstr::Binary(routine), 2);
            let next = Parsed { prog: acc.prog + u.prog + seq![SInstr::Binary(routine)], pos: u.pos, ok: true };
            lemma_term_rest(c, next, depth);
        }
    }
}

proof fn lemma_unary(c: Seq<char>, pos: int, depth: int)
    ensures
        sound(p_unary(c, pos, depth), pos, c),
    decreases c.len() - pos, 6int,
{
    if pos < 0 || pos > c.len() {
        lemma_failed(Seq::empty(), pos, "Invalid expression"@);
    } else if depth + 1 > MAX_DEPTH {
        lemma_failed(Seq::empty(), pos, "Expression too complex"@);
    } else if peek_at(c, pos) == '-' {
        lemma_unary(c, pos + 1, depth + 1);
        let u = p_unary(c, pos + 1, depth + 1);
        lemma_push(u.prog, SInstr::Unary(crate::routine::Routine::Neg), 0);
    } else if peek_at(c, pos) == '+' {
        lemma_unary(c, pos + 1, depth + 1);
    } else {
        lemma_power(c, pos, depth + 1);
    }
}

proof fn lemma_power(c: Seq<char>, pos: int, depth: int)
    ensures
        sound(p_power(c, pos, depth), pos, c),
    decreases c.len() - pos, 5int,
{
    if pos < 0 || pos > c.len() {
        lemma_failed(Seq::empty(), pos, "Invalid expression"@);
    } else {
        lemma_postfix(c, pos, depth);
        let a = p_postfix(c, pos, depth);
        if a.ok && peek_at(c, a.pos) == '^' {
            lemma_unary(c, a.pos + 1, depth);
            let b = p_unary(c, a.pos + 1, depth);
            lemma_after_value(a.prog, b.prog);
            if b.ok {
                let bp = b.prog.push(SInstr::Binary(crate::routine::Routine::Pow));
                lemma_concat(a.prog, bp, 0);
                lemma_raise(b.prog, 0, 1);
                lemma_push(b.prog, SInstr::Binary(crate::routine::Routine::Pow), 1);
                lemma_push(b.prog, SInstr::Binary(crate::routine::Routine::Pow), 0);
            }
        }
    }
}

proof fn lemma_postfix(c: Seq<char>, pos: int, depth: int)
    ensures
        sound(p_postfix(c, pos, depth), pos, c),
    decreases c.len() - pos, 4int,
{
    if pos < 0 || pos > c.len() {
        lemma_failed(Seq::empty(), pos, "Invalid expression"@);
    } else {
        lemma_atom(c, pos, depth);
        let a = p_atom(c, pos, depth);
        if a.ok {
            lemma_postfix_rest(c, a);
        }
    }
}

proof fn lemma_postfix_rest(c: Seq<char>, acc: Parsed)
    requires
        acc.ok,
        0 <= acc.pos <= c.len(),
        height_after(acc.prog, 0) == Some(1int),
        !has_fail(acc.prog),
    ensures
        sound(p_postfix_rest(c, acc), acc.pos, c),
    decreases c.len() - acc.pos, 3int,
{
    if peek_at(c, acc.pos) == '%' {
        lemma_push(acc.prog, SInstr::Percent, 0);
        lemma_postfix_rest(c, Parsed { prog: acc.prog.push(SInstr::Percent), pos: acc.pos + 1, ok: true });
    } else if peek_at(c, acc.pos) == '!' {
        let i = SInstr::Unary(crate::routine::Routine::Factorial);
        lemma_push(acc.prog, i, 0);
        lemma_postfix_rest(c, Parsed { prog: acc.prog.push(i), pos: acc.pos + 1, ok: true });
    }
}

proof fn lemma_atom(c: Seq<char>, pos: int, depth: int)
    ensures
        sound(p_atom(c, pos, depth), pos, c),
    decreases c.len() - pos, 2int,
{
    if pos < 0 || pos > c.len() {
        lemma_failed(Seq::empty(), pos, "Invalid expression"@);
    } else if peek_at(c, pos) == '(' {
        lemma_closed(c, pos + 1, depth);
    } else if is_letter(peek_at(c, pos)) {
        let end = letters_end(c, pos);
        lemma_letters_end(c, pos);
        let name = c.subrange(pos, end);
        if name == "pi"@ {
            lemma_single(SInstr::Constant(crate::routine::Routine::Pi), 0);
        } else if name == "e"@ {
            lemma_single(SInstr::Constant(crate::routine::Routine::E), 0);
        } else if peek_at(c, end) != '(' {
            lemma_failed(Seq::empty(), end, "Function needs parentheses"@);
        } else {
            lemma_closed(c, end + 1, depth);
            let v = p_closed(c, end + 1, depth);
            if v.ok {
                match function_routine(name) {
                    Some(r) => {
                        lemma_push(v.prog, SInstr::Unary(r), 0);
                    },
                    None => {
                        lemma_failed(v.prog, v.pos, "Unknown function"@);
                    },
                }
            }
        }
    } else {
        lemma_number_end(c, pos);
        if mantissa_end(c, pos) == pos {
            lemma_failed(Seq::empty(), pos, "Incomplete expression"@);
        } else {
            lemma_single(SInstr::Number(c.subrange(pos, number_end(c, pos))), 0);
        }
    }
}

proof fn lemma_closed(c: Seq<char>, pos: int, depth: int)
    ensures
        sound(p_closed(c, pos, depth), pos, c),
    decreases c.len() - pos, 11int,
{
    if pos < 0 || pos > c.len() {
        lemma_failed(Seq::empty(), pos, "Invalid expression"@);
    } else {
        lemma_expr(c, pos, depth);
        let e = p_expr(c, pos, depth);
        if e.ok && peek_at(c, e.pos) != ')' {
            lemma_failed(e.prog, e.pos, "Missing closing parenthesis"@);
        }
    }
}

/// Every program the parser makes can be run: no step lacks an operand,
/// and a program with no failure in it leaves exactly one value.
pub proof fn law_programs_run(text: Seq<char>, bytes: int)
    ensures
        height_after(expression_spec(text, bytes), 0) is Some,
        !has_fail(expression_spec(text, bytes)) ==> height_after(expression_spec(text, bytes), 0) == Some(1int),
{
    lemma_single(SInstr::Fail("Expression too long"@), 0);
    lemma_single(SInstr::Fail("Enter a calculation"@), 0);
    let c = crate::expression::normalize(text);
    lemma_expr(c, 0, 0);
    let r = p_expr(c, 0, 0);
    lemma_push(r.prog, SInstr::Fail("Invalid expression"@), 0);
}

} // verus!
