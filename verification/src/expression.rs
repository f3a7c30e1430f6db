//! The calculator's expression grammar.
//!
//! Parsing turns an expression into a postfix program of `Instr`s: numbers
//! and routine calls in the order the calculator evaluates them, ending with
//! a failure where the text breaks the grammar. Running the program, number by
//! number and routine by routine, stops at the first failure; so the first
//! error of a run is the error of the expression.
//!
//! ```text
//! expr    := term (('+' | '-') term)*
//! term    := unary (('*' | '/') unary)*
//! unary   := '-' unary | '+' unary | power
//! power   := postfix ('^' unary)?
//! postfix := atom ('%' | '!')*
//! atom    := '(' expr ')' | "pi" | "e" | name '(' expr ')' | number
//! ```
//!
//! A percentage that ends a summand standing alone (no `*`, `/`, `^` or `(`
//! in it) is relative to the left subtotal: `200+10%` is 220.
use crate::routine::{routine_index, routine_names, Routine};
use vstd::prelude::*;
use vstd::string::{StrSliceExecFns, StringSliceAdditionalSpecFns};

verus! {

/// A step of an expression's program.
#[derive(Debug)]
pub enum Instr {
    /// Pushes the number these characters write.
    Number(Vec<char>),
    /// Pushes the value of a constant routine.
    Constant(Routine),
    /// Replaces the top value `v` with `routine(v, 0)`.
    Unary(Routine),
    /// Replaces the top values `a, b` with `routine(a, b)`.
    Binary(Routine),
    /// Replaces the top value `v` with `div(v, 100)`.
    Percent,
    /// Replaces the top value `b`, which has `a` below it, with `mul(b, a)`.
    Relative,
    /// Stops with this error.
    Fail(String),
}

pub ghost enum SInstr {
    Number(Seq<char>),
    Constant(Routine),
    Unary(Routine),
    Binary(Routine),
    Percent,
    Relative,
    Fail(Seq<char>),
}

impl View for Instr {
    type V = SInstr;

    open spec fn view(&self) -> SInstr {
        match self {
            Instr::Number(t) => SInstr::Number(t@),
            Instr::Constant(r) => SInstr::Constant(*r),
            Instr::Unary(r) => SInstr::Unary(*r),
            Instr::Binary(r) => SInstr::Binary(*r),
            Instr::Percent => SInstr::Percent,
            Instr::Relative => SInstr::Relative,
            Instr::Fail(m) => SInstr::Fail(m@),
        }
    }
}

pub open spec fn program_view(p: Seq<Instr>) -> Seq<SInstr> {
    p.map_values(|i: Instr| i@)
}

/// The deepest nesting of signs, powers and parentheses a parse accepts.
pub const MAX_DEPTH: usize = 80;

/// The longest expression, in bytes, that is evaluated.
pub const MAX_EXPRESSION_BYTES: usize = 2048;

/// A parse: the program so far, where it stopped, and whether it may go on.
pub ghost struct Parsed {
    pub prog: Seq<SInstr>,
    pub pos: int,
    pub ok: bool,
}

pub open spec fn failed(prog: Seq<SInstr>, pos: int, message: Seq<char>) -> Parsed {
    Parsed { prog: prog.push(SInstr::Fail(message)), pos, ok: false }
}

/// The character at `pos`, or `'\0'` past the end.
pub open spec fn peek_at(c: Seq<char>, pos: int) -> char {
    if 0 <= pos < c.len() {
        c[pos]
    } else {
        '\0'
    }
}

pub open spec fn is_letter(ch: char) -> bool {
    ('a' <= ch && ch <= 'z') || ('A' <= ch && ch <= 'Z')
}

pub open spec fn is_digit(ch: char) -> bool {
    '0' <= ch && ch <= '9'
}

/// The first position from `i` on that holds no letter.
pub open spec fn letters_end(c: Seq<char>, i: int) -> int
    decreases c.len() - i,
{
    if 0 <= i < c.len() && is_letter(c[i]) {
        letters_end(c, i + 1)
    } else {
        i
    }
}

pub proof fn lemma_letters_end(c: Seq<char>, i: int)
    requires
        0 <= i <= c.len(),
    ensures
        i <= letters_end(c, i) <= c.len(),
        forall|k: int| i <= k < letters_end(c, i) ==> is_letter(#[trigger] c[k]),
    decreases c.len() - i,
{
    if i < c.len() && is_letter(c[i]) {
        lemma_letters_end(c, i + 1);
    }
}

/// The first position from `i` on that holds neither a digit nor a `.`.
pub open spec fn mantissa_end(c: Seq<char>, i: int) -> int
    decreases c.len() - i,
{
    if 0 <= i < c.len() && (is_digit(c[i]) || c[i] == '.') {
        mantissa_end(c, i + 1)
    } else {
        i
    }
}

/// The first position from `i` on that holds no digit.
pub open spec fn digits_end(c: Seq<char>, i: int) -> int
    decreases c.len() - i,
{
    if 0 <= i < c.len() && is_digit(c[i]) {
        digits_end(c, i + 1)
    } else {
        i
    }
}

/// Where a number that starts at `pos` ends: digits and points, then
/// optionally an `e` or `E`, a sign, and digits.
pub open spec fn number_end(c: Seq<char>, pos: int) -> int {
    let m = mantissa_end(c, pos);
    if peek_at(c, m) == 'e' || peek_at(c, m) == 'E' {
        let j = if peek_at(c, m + 1) == '+' || peek_at(c, m + 1) == '-' {
            m + 2
        } else {
            m + 1
        };
        digits_end(c, j)
    } else {
        m
    }
}

/// The routine a function name calls.
pub open spec fn function_routine(name: Seq<char>) -> Option<Routine> {
    if name == "sqrt"@ {
        Some(Routine::Sqrt)
    } else if name == "ln"@ {
        Some(Routine::Ln)
    } else if name == "log"@ {
        Some(Routine::Log)
    } else if name == "sin"@ {
        Some(Routine::Sin)
    } else if name == "cos"@ {
        Some(Routine::Cos)
    } else if name == "tan"@ {
        Some(Routine::Tan)
    } else if name == "abs"@ {
        Some(Routine::Abs)
    } else {
        None
    }
}

/// Whether a summand is a standalone percentage, taken relative to the left
/// subtotal: it ends in `%` and holds no `*`, `/`, `^` or `(`.
pub open spec fn relative_summand(s: Seq<char>) -> bool {
    s.len() > 0 && s.last() == '%' && forall|k: int|
        0 <= k < s.len() ==> s[k] != '*' && s[k] != '/' && s[k] != '^' && s[k] != '('
}

/// Whether a parse went on from `pos` without moving backwards or past the end.
pub open spec fn advanced(r: Parsed, pos: int, c: Seq<char>) -> bool {
    pos <= r.pos <= c.len()
}

/// `expr` at `pos`.
pub open spec fn p_expr(c: Seq<char>, pos: int, depth: int) -> Parsed
    decreases c.len() - pos, 10int,
{
    if pos < 0 || pos > c.len() {
        failed(Seq::empty(), pos, "Invalid expression"@)
    } else {
        let t = p_term(c, pos, depth);
        if !t.ok || !advanced(t, pos, c) {
            t
        } else {
            p_expr_rest(c, t, depth)
        }
    }
}

/// The summands of an `expr` that follow the parse `acc`.
pub open spec fn p_expr_rest(c: Seq<char>, acc: Parsed, depth: int) -> Parsed
    decreases c.len() - acc.pos, 9int,
{
    let op = peek_at(c, acc.pos);
    if op != '+' && op != '-' {
        acc
    } else {
        let start = acc.pos + 1;
        let t = p_term(c, start, depth);
        if !t.ok || !advanced(t, start, c) {
            Parsed { prog: acc.prog + t.prog, pos: t.pos, ok: false }
        } else {
            let relative = if relative_summand(c.subrange(start, t.pos)) {
                seq![SInstr::Relative]
            } else {
                Seq::empty()
            };
            let routine = if op == '+' {
                Routine::Add
            } else {
                Routine::Sub
            };
            p_expr_rest(
                c,
                Parsed {
                    prog: acc.prog + t.prog + relative + seq![SInstr::Binary(routine)],
                    pos: t.pos,
                    ok: true,
                },
                depth,
            )
        }
    }
}

/// `term` at `pos`.
pub open spec fn p_term(c: Seq<char>, pos: int, depth: int) -> Parsed
    decreases c.len() - pos, 8int,
{
    if pos < 0 || pos > c.len() {
        failed(Seq::empty(), pos, "Invalid expression"@)
    } else {
        let u = p_unary(c, pos, depth);
        if !u.ok || !advanced(u, pos, c) {
            u
        } else {
            p_term_rest(c, u, depth)
        }
    }
}

/// The factors of a `term` that follow the parse `acc`.
pub open spec fn p_term_rest(c: Seq<char>, acc: Parsed, depth: int) -> Parsed
    decreases c.len() - acc.pos, 7int,
{
    let op = peek_at(c, acc.pos);
    if op != '*' && op != '/' {
        acc
    } else {
        let start = acc.pos + 1;
        let u = p_unary(c, start, depth);
        if !u.ok || !advanced(u, start, c) {
            Parsed { prog: acc.prog + u.prog, pos: u.pos, ok: false }
        } else {
            let routine = if op == '*' {
                Routine::Mul
            } else {
                Routine::Div
            };
            p_term_rest(
                c,
                Parsed { prog: acc.prog + u.prog + seq![SInstr::Binary(routine)], pos: u.pos, ok: true },
                depth,
            )
        }
    }
}

/// `unary` at `pos`, `depth` signs, powers and parentheses deep.
pub open spec fn p_unary(c: Seq<char>, pos: int, depth: int) -> Parsed
    decreases c.len() - pos, 6int,
{
    if pos < 0 || pos > c.len() {
        failed(Seq::empty(), pos, "Invalid expression"@)
    } else if depth + 1 > MAX_DEPTH {
        failed(Seq::empty(), pos, "Expression too complex"@)
    } else if peek_at(c, pos) == '-' {
        let u = p_unary(c, pos + 1, depth + 1);
        if u.ok {
            Parsed { prog: u.prog.push(SInstr::Unary(Routine::Neg)), ..u }
        } else {
            u
        }
    } else if peek_at(c, pos) == '+' {
        p_unary(c, pos + 1, depth + 1)
    } else {
        p_power(c, pos, depth + 1)
    }
}

/// `power` at `pos`.
pub open spec fn p_power(c: Seq<char>, pos: int, depth: int) -> Parsed
    decreases c.len() - pos, 5int,
{
    if pos < 0 || pos > c.len() {
        failed(Seq::empty(), pos, "Invalid expression"@)
    } else {
        let a = p_postfix(c, pos, depth);
        if !a.ok || !advanced(a, pos, c) || peek_at(c, a.pos) != '^' {
            a
        } else {
            let b = p_unary(c, a.pos + 1, depth);
            if b.ok {
                Parsed { prog: a.prog + b.prog.push(SInstr::Binary(Routine::Pow)), ..b }
            } else {
                Parsed { prog: a.prog + b.prog, ..b }
            }
        }
    }
}

/// `postfix` at `pos`.
pub open spec fn p_postfix(c: Seq<char>, pos: int, depth: int) -> Parsed
    decreases c.len() - pos, 4int,
{
    if pos < 0 || pos > c.len() {
        failed(Seq::empty(), pos, "Invalid expression"@)
    } else {
        let a = p_atom(c, pos, depth);
        if !a.ok || !advanced(a, pos, c) {
            a
        } else {
            p_postfix_rest(c, a)
        }
    }
}

/// The `%` and `!` that follow the parse `acc`.
pub open spec fn p_postfix_rest(c: Seq<char>, acc: Parsed) -> Parsed
    decreases c.len() - acc.pos, 3int,
{
    if peek_at(c, acc.pos) == '%' {
        p_postfix_rest(c, Parsed { prog: acc.prog.push(SInstr::Percent), pos: acc.pos + 1, ok: true })
    } else if peek_at(c, acc.pos) == '!' {
        p_postfix_rest(
            c,
            Parsed { prog: acc.prog.push(SInstr::Unary(Routine::Factorial)), pos: acc.pos + 1, ok: true },
        )
    } else {
        acc
    }
}

/// `atom` at `pos`.
pub open spec fn p_atom(c: Seq<char>, pos: int, depth: int) -> Parsed
    decreases c.len() - pos, 2int,
{
    if pos < 0 || pos > c.len() {
        failed(Seq::empty(), pos, "Invalid expression"@)
    } else if peek_at(c, pos) == '(' {
        p_closed(c, pos + 1, depth)
    } else if is_letter(peek_at(c, pos)) {
        let end = letters_end(c, pos);
        let name = c.subrange(pos, end);
        if name == "pi"@ {
            Parsed { prog: seq![SInstr::Constant(Routine::Pi)], pos: end, ok: true }
        } else if name == "e"@ {
            Parsed { prog: seq![SInstr::Constant(Routine::E)], pos: end, ok: true }
        } else if peek_at(c, end) != '(' {
            failed(Seq::empty(), end, "Function needs parentheses"@)
        } else {
            proof {
                lemma_letters_end(c, pos);
            }
            let v = p_closed(c, end + 1, depth);
            if !v.ok {
                v
            } else {
                match function_routine(name) {
                    Some(r) => Parsed { prog: v.prog.push(SInstr::Unary(r)), ..v },
                    None => failed(v.prog, v.pos, "Unknown function"@),
                }
            }
        }
    } else {
        let end = number_end(c, pos);
        if mantissa_end(c, pos) == pos {
            failed(Seq::empty(), pos, "Incomplete expression"@)
        } else {
            Parsed { prog: seq![SInstr::Number(c.subrange(pos, end))], pos: end, ok: true }
        }
    }
}

/// An `expr` at `pos` followed by `)`.
pub open spec fn p_closed(c: Seq<char>, pos: int, depth: int) -> Parsed
    decreases c.len() - pos, 11int,
{
    if pos < 0 || pos > c.len() {
        failed(Seq::empty(), pos, "Invalid expression"@)
    } else {
        let e = p_expr(c, pos, depth);
        if !e.ok {
            e
        } else if peek_at(c, e.pos) == ')' {
            Parsed { pos: e.pos + 1, ..e }
        } else {
            failed(e.prog, e.pos, "Missing closing parenthesis"@)
        }
    }
}


/// A parser over the characters of an expression.
pub struct Parser {
    chars: Vec<char>,
    pos: usize,
    depth: usize,
}

/// A failure at the end of the program.
fn fail(out: &mut Vec<Instr>, message: &str) -> (ok: bool)
    ensures
        !ok,
        program_view(final(out)@) == program_view(old(out)@).push(SInstr::Fail(message@)),
{
    out.push(Instr::Fail(message.to_owned()));
    proof {
        assert(program_view(out@) =~= program_view(old(out)@).push(SInstr::Fail(message@)));
    }
    false
}

fn emit(out: &mut Vec<Instr>, i: Instr)
    ensures
        program_view(final(out)@) == program_view(old(out)@).push(i@),
{
    let ghost v = i@;
    out.push(i);
    proof {
        assert(program_view(out@) =~= program_view(old(out)@).push(v));
    }
}

fn char_is_letter(ch: char) -> (r: bool)
    ensures
        r == is_letter(ch),
{
    ('a' <= ch && ch <= 'z') || ('A' <= ch && ch <= 'Z')
}

fn char_is_digit(ch: char) -> (r: bool)
    ensures
        r == is_digit(ch),
{
    '0' <= ch && ch <= '9'
}

impl Parser {
    pub closed spec fn text(&self) -> Seq<char> {
        self.chars@
    }

    pub closed spec fn position(&self) -> int {
        self.pos as int
    }

    pub closed spec fn nesting(&self) -> int {
        self.depth as int
    }

    /// A parser at the start of `chars`.
    pub fn new(chars: Vec<char>) -> (p: Parser)
        ensures
            p.text() == chars@,
            p.position() == 0,
            p.nesting() == 0,
    {
        Parser { chars, pos: 0, depth: 0 }
    }

    /// Where the parser stands.
    pub fn pos(&self) -> (r: usize)
        ensures
            r == self.position(),
    {
        self.pos
    }

    /// The number of characters parsed.
    pub fn len(&self) -> (r: usize)
        ensures
            r == self.text().len(),
    {
        self.chars.len()
    }

    /// The current character, or `'\0'` at the end.
    pub fn peek(&self) -> (r: char)
        ensures
            r == peek_at(self.text(), self.position()),
    {
        if self.pos < self.chars.len() {
            self.chars[self.pos]
        } else {
            '\0'
        }
    }

    /// Steps over the current character when it is `c`.
    pub fn take(&mut self, c: char) -> (r: bool)
        requires
            old(self).position() < usize::MAX,
        ensures
            r == (peek_at(old(self).text(), old(self).position()) == c),
            final(self).text() == old(self).text(),
            final(self).nesting() == old(self).nesting(),
            final(self).position() == old(self).position() + if r {
                1int
            } else {
                0int
            },
    {
        if self.peek() == c {
            self.pos = self.pos + 1;
            true
        } else {
            false
        }
    }

    /// Whether the characters from `start` to the current position form a
    /// standalone percentage.
    fn standalone_percent(&self, start: usize) -> (r: bool)
        requires
            start <= self.pos <= self.chars@.len(),
        ensures
            r == relative_summand(self.chars@.subrange(start as int, self.pos as int)),
    {
        let ghost sl = self.chars@.subrange(start as int, self.pos as int);
        if self.pos == start || self.chars[self.pos - 1] != '%' {
            return false;
        }
        let mut k = start;
        while k < self.pos
            invariant
                start <= k <= self.pos <= self.chars@.len(),
                sl == self.chars@.subrange(start as int, self.pos as int),
                forall|t: int| 0 <= t < k - start ==> sl[t] != '*' && sl[t] != '/' && sl[t] != '^' && sl[t] != '(',
            decreases self.pos - k,
        {
            let ch = self.chars[k];
            if ch == '*' || ch == '/' || ch == '^' || ch == '(' {
                assert(sl[k - start] == ch);
                return false;
            }
            k = k + 1;
        }
        true
    }

    /// An `expr`; see `p_expr`.
    fn expr(&mut self, out: &mut Vec<Instr>) -> (ok: bool)
        requires
            old(self).position() <= old(self).text().len() < usize::MAX,
            old(self).nesting() <= MAX_DEPTH,
        ensures
            ({
                let r = p_expr(old(self).text(), old(self).position(), old(self).nesting());
                &&& program_view(final(out)@) == program_view(old(out)@) + r.prog
                &&& final(self).position() == r.pos
                &&& ok == r.ok
            }),
            final(self).text() == old(self).text(),
            old(self).position() <= final(self).position() <= final(self).text().len(),
            old(self).nesting() <= final(self).nesting() <= old(self).nesting() + 1,
            ok ==> final(self).nesting() == old(self).nesting(),
        decreases old(self).text().len() - old(self).position(), 10int,
    {
        let ghost c = self.chars@;
        let ghost pos0 = self.pos as int;
        let ghost depth = self.depth as int;
        let ghost out0 = program_view(out@);
        if !self.term(out) {
            return false;
        }
        let ghost mut acc = p_term(c, pos0, depth).prog;
        loop
            invariant
                self.chars@ == c,
                c == old(self).text(),
                pos0 == old(self).position(),
                depth == old(self).nesting(),
                out0 == program_view(old(out)@),
                c.len() < usize::MAX,
                pos0 <= self.pos <= c.len(),
                self.depth == depth,
                depth <= MAX_DEPTH,
                program_view(out@) == out0 + acc,
                p_expr(c, pos0, depth) == p_expr_rest(c, Parsed { prog: acc, pos: self.pos as int, ok: true }, depth),
            ensures
                self.chars@ == c,
                pos0 <= self.pos <= c.len(),
                self.depth == depth,
                p_expr(c, pos0, depth) == (Parsed { prog: acc, pos: self.pos as int, ok: true }),
                program_view(out@) == out0 + acc,
            decreases c.len() - self.pos,
        {
            let op = self.peek();
            if op != '+' && op != '-' {
                break;
            }
            let ghost p_before = self.pos as int;
            self.pos = self.pos + 1;
            let start = self.pos;
            let ghost before = program_view(out@);
            let ghost t = p_term(c, start as int, depth).prog;
            if !self.term(out) {
                assert(program_view(out@) =~= out0 + (acc + t));
                return false;
            }
            let relative = self.standalone_percent(start);
            if relative {
                emit(out, Instr::Relative);
            }
            emit(out, Instr::Binary(if op == '+' { Routine::Add } else { Routine::Sub }));
            proof {
                let rel = if relative { seq![SInstr::Relative] } else { Seq::<SInstr>::empty() };
                let routine = if op == '+' { Routine::Add } else { Routine::Sub };
                assert(program_view(out@) =~= out0 + (acc + t + rel + seq![SInstr::Binary(routine)]));
                acc = acc + t + rel + seq![SInstr::Binary(routine)];
            }
        }
        true
    }

    /// A `term`; see `p_term`.
    fn term(&mut self, out: &mut Vec<Instr>) -> (ok: bool)
        requires
            old(self).position() <= old(self).text().len() < usize::MAX,
            old(self).nesting() <= MAX_DEPTH,
        ensures
            ({
                let r = p_term(old(self).text(), old(self).position(), old(self).nesting());
                &&& program_view(final(out)@) == program_view(old(out)@) + r.prog
                &&& final(self).position() == r.pos
                &&& ok == r.ok
            }),
            final(self).text() == old(self).text(),
            old(self).position() <= final(self).position() <= final(self).text().len(),
            old(self).nesting() <= final(self).nesting() <= old(self).nesting() + 1,
            ok ==> final(self).nesting() == old(self).nesting(),
        decreases old(self).text().len() - old(self).position(), 8int,
    {
        let ghost c = self.chars@;
        let ghost pos0 = self.pos as int;
        let ghost depth = self.depth as int;
        let ghost out0 = program_view(out@);
        if !self.unary(out) {
            return false;
        }
        let ghost mut acc = p_unary(c, pos0, depth).prog;
        loop
            invariant
                self.chars@ == c,
                c == old(self).text(),
                pos0 == old(self).position(),
                depth == old(self).nesting(),
                out0 == program_view(old(out)@),
                c.len() < usize::MAX,
                pos0 <= self.pos <= c.len(),
                self.depth == depth,
                depth <= MAX_DEPTH,
                program_view(out@) == out0 + acc,
                p_term(c, pos0, depth) == p_term_rest(c, Parsed { prog: acc, pos: self.pos as int, ok: true }, depth),
            ensures
                self.chars@ == c,
                pos0 <= self.pos <= c.len(),
                self.depth == depth,
                p_term(c, pos0, depth) == (Parsed { prog: acc, pos: self.pos as int, ok: true }),
                program_view(out@) == out0 + acc,
            decreases c.len() - self.pos,
        {
            let op = self.peek();
            if op != '*' && op != '/' {
                break;
            }
            let ghost p_before = self.pos as int;
            self.pos = self.pos + 1;
            let ghost before = program_view(out@);
            let ghost u = p_unary(c, self.pos as int, depth).prog;
            if !self.unary(out) {
                assert(program_view(out@) =~= out0 + (acc + u));
                return false;
            }
            emit(out, Instr::Binary(if op == '*' { Routine::Mul } else { Routine::Div }));
            proof {
                let routine = if op == '*' { Routine::Mul } else { Routine::Div };
                assert(program_view(out@) =~= out0 + (acc + u + seq![SInstr::Binary(routine)]));
                acc = acc + u + seq![SInstr::Binary(routine)];
            }
        }
        true
    }

    /// A `unary`; see `p_unary`.
    fn unary(&mut self, out: &mut Vec<Instr>) -> (ok: bool)
        requires
            old(self).position() <= old(self).text().len() < usize::MAX,
            old(self).nesting() <= MAX_DEPTH,
        ensures
            ({
                let r = p_unary(old(self).text(), old(self).position(), old(self).nesting());
                &&& program_view(final(out)@) == program_view(old(out)@) + r.prog
                &&& final(self).position() == r.pos
                &&& ok == r.ok
            }),
            final(self).text() == old(self).text(),
            old(self).position() <= final(self).position() <= final(self).text().len(),
            old(self).nesting() <= final(self).nesting() <= old(self).nesting() + 1,
            ok ==> final(self).nesting() == old(self).nesting(),
        decreases old(self).text().len() - old(self).position(), 6int,
    {
        let ghost out0 = program_view(out@);
        self.depth = self.depth + 1;
        if self.depth > MAX_DEPTH {
            let ok = fail(out, "Expression too complex");
            assert(out0 + seq![SInstr::Fail("Expression too complex"@)] =~= out0.push(SInstr::Fail("Expression too complex"@)));
            return ok;
        }
        let ok = if self.take('-') {
            let ok = self.unary(out);
            if ok {
                let ghost before = program_view(out@);
                emit(out, Instr::Unary(Routine::Neg));
                assert(program_view(out@) =~= out0 + before.skip(out0.len() as int).push(SInstr::Unary(Routine::Neg)));
            }
            ok
        } else if self.take('+') {
            self.unary(out)
        } else {
            self.power(out)
        };
        self.depth = self.depth - 1;
        ok
    }

    /// A `power`; see `p_power`.
    fn power(&mut self, out: &mut Vec<Instr>) -> (ok: bool)
        requires
            old(self).position() <= old(self).text().len() < usize::MAX,
            old(self).nesting() <= MAX_DEPTH,
        ensures
            ({
                let r = p_power(old(self).text(), old(self).position(), old(self).nesting());
                &&& program_view(final(out)@) == program_view(old(out)@) + r.prog
                &&& final(self).position() == r.pos
                &&& ok == r.ok
            }),
            final(self).text() == old(self).text(),
            old(self).position() <= final(self).position() <= final(self).text().len(),
            old(self).nesting() <= final(self).nesting() <= old(self).nesting() + 1,
            ok ==> final(self).nesting() == old(self).nesting(),
        decreases old(self).text().len() - old(self).position(), 5int,
    {
        let ghost out0 = program_view(out@);
        if !self.postfix(out) {
            return false;
        }
        let ghost a = program_view(out@).skip(out0.len() as int);
        assert(program_view(out@) =~= out0 + a);
        if self.take('^') {
            let ghost mid = program_view(out@);
            if self.unary(out) {
                let ghost b = program_view(out@).skip(mid.len() as int);
                assert(program_view(out@) =~= mid + b);
                emit(out, Instr::Binary(Routine::Pow));
                assert(program_view(out@) =~= out0 + (a + b.push(SInstr::Binary(Routine::Pow))));
                true
            } else {
                let ghost b = program_view(out@).skip(mid.len() as int);
                assert(program_view(out@) =~= out0 + (a + b));
                false
            }
        } else {
            true
        }
    }

    /// A `postfix`; see `p_postfix`.
    fn postfix(&mut self, out: &mut Vec<Instr>) -> (ok: bool)
        requires
            old(self).position() <= old(self).text().len() < usize::MAX,
            old(self).nesting() <= MAX_DEPTH,
        ensures
            ({
                let r = p_postfix(old(self).text(), old(self).position(), old(self).nesting());
                &&& program_view(final(out)@) == program_view(old(out)@) + r.prog
                &&& final(self).position() == r.pos
                &&& ok == r.ok
            }),
            final(self).text() == old(self).text(),
            old(self).position() <= final(self).position() <= final(self).text().len(),
            old(self).nesting() <= final(self).nesting() <= old(self).nesting() + 1,
            ok ==> final(self).nesting() == old(self).nesting(),
        decreases old(self).text().len() - old(self).position(), 4int,
    {
        let ghost c = self.chars@;
        let ghost pos0 = self.pos as int;
        let ghost depth = self.depth as int;
        let ghost out0 = program_view(out@);
        if !self.atom(out) {
            return false;
        }
        let ghost mut acc = p_atom(c, pos0, depth).prog;
        loop
            invariant
                self.chars@ == c,
                c == old(self).text(),
                pos0 == old(self).position(),
                depth == old(self).nesting(),
                out0 == program_view(old(out)@),
                c.len() < usize::MAX,
                pos0 <= self.pos <= c.len(),
                self.depth == depth,
                program_view(out@) == out0 + acc,
                p_postfix(c, pos0, depth) == p_postfix_rest(c, Parsed { prog: acc, pos: self.pos as int, ok: true }),
            ensures
                self.chars@ == c,
                pos0 <= self.pos <= c.len(),
                self.depth == depth,
                p_postfix(c, pos0, depth) == (Parsed { prog: acc, pos: self.pos as int, ok: true }),
                program_view(out@) == out0 + acc,
            decreases c.len() - self.pos,
        {
            if self.take('%') {
                emit(out, Instr::Percent);
                proof {
                    acc = acc.push(SInstr::Percent);
                }
            } else if self.take('!') {
                emit(out, Instr::Unary(Routine::Factorial));
                proof {
                    acc = acc.push(SInstr::Unary(Routine::Factorial));
                }
            } else {
                break;
            }
        }
        true
    }

    /// An `expr` followed by `)`, the argument of a function or the inside of
    /// parentheses; see `p_closed`.
    fn unary_function_argument(&mut self, out: &mut Vec<Instr>) -> (ok: bool)
        requires
            old(self).position() <= old(self).text().len() < usize::MAX,
            old(self).nesting() <= MAX_DEPTH,
        ensures
            ({
                let r = p_closed(old(self).text(), old(self).position(), old(self).nesting());
                &&& program_view(final(out)@) == program_view(old(out)@) + r.prog
                &&& final(self).position() == r.pos
                &&& ok == r.ok
            }),
            final(self).text() == old(self).text(),
            old(self).position() <= final(self).position() <= final(self).text().len(),
            old(self).nesting() <= final(self).nesting() <= old(self).nesting() + 1,
            ok ==> final(self).nesting() == old(self).nesting(),
        decreases old(self).text().len() - old(self).position(), 11int,
    {
        let ghost out0 = program_view(out@);
        if !self.expr(out) {
            return false;
        }
        if !self.take(')') {
            let ghost e = program_view(out@).skip(out0.len() as int);
            assert(program_view(out@) =~= out0 + e);
            let ok = fail(out, "Missing closing parenthesis");
            assert(program_view(out@) =~= out0 + e.push(SInstr::Fail("Missing closing parenthesis"@)));
            return ok;
        }
        true
    }

    /// Whether the characters from `start` to the current position spell `word`.
    fn spells(&self, start: usize, word: &str) -> (r: bool)
        requires
            start <= self.pos <= self.chars@.len(),
        ensures
            r == (self.chars@.subrange(start as int, self.pos as int) == word@),
    {
        let n = word.unicode_len();
        if self.pos - start != n {
            return false;
        }
        let mut k: usize = 0;
        while k < n
            invariant
                n == word@.len(),
                start + n == self.pos <= self.chars@.len(),
                k <= n,
                forall|t: int| 0 <= t < k ==> self.chars@[start + t] == word@[t],
            decreases n - k,
        {
            if self.chars[start + k] != word.get_char(k) {
                assert(self.chars@.subrange(start as int, self.pos as int)[k as int] != word@[k as int]);
                return false;
            }
            k = k + 1;
        }
        assert(self.chars@.subrange(start as int, self.pos as int) =~= word@);
        true
    }

    /// The routine a function name calls.
    fn function(&self, start: usize) -> (r: Option<Routine>)
        requires
            start <= self.pos <= self.chars@.len(),
        ensures
            r == function_routine(self.chars@.subrange(start as int, self.pos as int)),
    {
        if self.spells(start, "sqrt") {
            Some(Routine::Sqrt)
        } else if self.spells(start, "ln") {
            Some(Routine::Ln)
        } else if self.spells(start, "log") {
            Some(Routine::Log)
        } else if self.spells(start, "sin") {
            Some(Routine::Sin)
        } else if self.spells(start, "cos") {
            Some(Routine::Cos)
        } else if self.spells(start, "tan") {
            Some(Routine::Tan)
        } else if self.spells(start, "abs") {
            Some(Routine::Abs)
        } else {
            None
        }
    }

    /// An `atom`; see `p_atom`.
    fn atom(&mut self, out: &mut Vec<Instr>) -> (ok: bool)
        requires
            old(self).position() <= old(self).text().len() < usize::MAX,
            old(self).nesting() <= MAX_DEPTH,
        ensures
            ({
                let r = p_atom(old(self).text(), old(self).position(), old(self).nesting());
                &&& program_view(final(out)@) == program_view(old(out)@) + r.prog
                &&& final(self).position() == r.pos
                &&& ok == r.ok
            }),
            final(self).text() == old(self).text(),
            old(self).position() <= final(self).position() <= final(self).text().len(),
            old(self).nesting() <= final(self).nesting() <= old(self).nesting() + 1,
            ok ==> final(self).nesting() == old(self).nesting(),
        decreases old(self).text().len() - old(self).position(), 2int,
    {
        let ghost c = self.chars@;
        let ghost out0 = program_view(out@);
        let start = self.pos;
        if self.take('(') {
            return self.unary_function_argument(out);
        }
        if char_is_letter(self.peek()) {
            while char_is_letter(self.peek())
                invariant
                    self.chars@ == c,
                    c.len() < usize::MAX,
                    start <= self.pos <= c.len(),
                    letters_end(c, start as int) == letters_end(c, self.pos as int),
                    self.depth == old(self).depth,
                decreases c.len() - self.pos,
            {
                self.pos = self.pos + 1;
            }
            let end = self.pos;
            if self.spells(start, "pi") {
                emit(out, Instr::Constant(Routine::Pi));
                assert(program_view(out@) =~= out0 + seq![SInstr::Constant(Routine::Pi)]);
                return true;
            }
            if self.spells(start, "e") {
                emit(out, Instr::Constant(Routine::E));
                assert(program_view(out@) =~= out0 + seq![SInstr::Constant(Routine::E)]);
                return true;
            }
            let routine = self.function(start);
            if !self.take('(') {
                let ok = fail(out, "Function needs parentheses");
                assert(program_view(out@) =~= out0 + seq![SInstr::Fail("Function needs parentheses"@)]);
                return ok;
            }
            if !self.unary_function_argument(out) {
                return false;
            }
            let ghost v = program_view(out@).skip(out0.len() as int);
            assert(program_view(out@) =~= out0 + v);
            match routine {
                Some(r) => {
                    emit(out, Instr::Unary(r));
                    assert(program_view(out@) =~= out0 + v.push(SInstr::Unary(r)));
                    return true;
                },
                None => {
                    let ok = fail(out, "Unknown function");
                    assert(program_view(out@) =~= out0 + v.push(SInstr::Fail("Unknown function"@)));
                    return ok;
                },
            }
        }
        while char_is_digit(self.peek()) || self.peek() == '.'
            invariant
                self.chars@ == c,
                c.len() < usize::MAX,
                start <= self.pos <= c.len(),
                mantissa_end(c, start as int) == mantissa_end(c, self.pos as int),
                self.depth == old(self).depth,
            decreases c.len() - self.pos,
        {
            self.pos = self.pos + 1;
        }
        if self.pos == start {
            let ok = fail(out, "Incomplete expression");
            assert(program_view(out@) =~= out0 + seq![SInstr::Fail("Incomplete expression"@)]);
            return ok;
        }
        if self.peek() == 'e' || self.peek() == 'E' {
            self.pos = self.pos + 1;
            if self.peek() == '+' || self.peek() == '-' {
                self.pos = self.pos + 1;
            }
            let from = self.pos;
            while char_is_digit(self.peek())
                invariant
                    self.chars@ == c,
                    c.len() < usize::MAX,
                    from <= self.pos <= c.len(),
                    digits_end(c, from as int) == digits_end(c, self.pos as int),
                    self.depth == old(self).depth,
                decreases c.len() - self.pos,
            {
                self.pos = self.pos + 1;
            }
        }
        let mut text: Vec<char> = Vec::new();
        let mut k = start;
        while k < self.pos
            invariant
                self.chars@ == c,
                start <= k <= self.pos <= c.len(),
                text@ == c.subrange(start as int, k as int),
            decreases self.pos - k,
        {
            text.push(self.chars[k]);
            assert(text@ =~= c.subrange(start as int, k + 1));
            k = k + 1;
        }
        emit(out, Instr::Number(text));
        assert(program_view(out@) =~= out0 + seq![SInstr::Number(c.subrange(start as int, self.pos as int))]);
        true
    }
}


/// Whether a character has the Unicode White_Space property, as
/// `char::is_whitespace` documents it.
pub open spec fn is_white_space(ch: char) -> bool {
    let u = ch as u32;
    (0x9 <= u && u <= 0xd) || u == 0x20 || u == 0x85 || u == 0xa0 || u == 0x1680 || (0x2000 <= u
        && u <= 0x200a) || u == 0x2028 || u == 0x2029 || u == 0x202f || u == 0x205f || u == 0x3000
}

fn char_is_white_space(ch: char) -> (r: bool)
    ensures
        r == is_white_space(ch),
{
    let u = ch as u32;
    (0x9 <= u && u <= 0xd) || u == 0x20 || u == 0x85 || u == 0xa0 || u == 0x1680 || (0x2000 <= u
        && u <= 0x200a) || u == 0x2028 || u == 0x2029 || u == 0x202f || u == 0x205f || u == 0x3000
}

/// The characters the grammar reads: `×`, `÷` and `−` become `*`, `/` and
/// `-`, `π` becomes `pi`, and white space is dropped.
pub open spec fn normalize(text: Seq<char>) -> Seq<char>
    decreases text.len(),
{
    if text.len() == 0 {
        text
    } else {
        let prev = normalize(text.drop_last());
        let ch = text.last();
        if ch == '×' {
            prev.push('*')
        } else if ch == '÷' {
            prev.push('/')
        } else if ch == '−' {
            prev.push('-')
        } else if ch == 'π' {
            prev + seq!['p', 'i']
        } else if is_white_space(ch) {
            prev
        } else {
            prev.push(ch)
        }
    }
}

/// The program of the expression `text`, which takes `bytes` bytes.
pub open spec fn expression_spec(text: Seq<char>, bytes: int) -> Seq<SInstr> {
    if bytes > MAX_EXPRESSION_BYTES {
        seq![SInstr::Fail("Expression too long"@)]
    } else {
        let c = normalize(text);
        if c.len() == 0 {
            seq![SInstr::Fail("Enter a calculation"@)]
        } else {
            let r = p_expr(c, 0, 0);
            if !r.ok {
                r.prog
            } else if r.pos != c.len() {
                r.prog.push(SInstr::Fail("Invalid expression"@))
            } else {
                r.prog
            }
        }
    }
}

proof fn lemma_encoding_length(chars: Seq<char>)
    ensures
        chars.len() <= vstd::utf8::encode_utf8(chars).len(),
    decreases chars.len(),
{
    if chars.len() > 0 {
        lemma_encoding_length(chars.drop_first());
    }
}

proof fn lemma_normalize_length(text: Seq<char>)
    ensures
        normalize(text).len() <= 2 * text.len(),
    decreases text.len(),
{
    if text.len() > 0 {
        lemma_normalize_length(text.drop_last());
    }
}

/// The program of an expression: its numbers and routine calls in the order
/// the calculator evaluates them, and the error where its text breaks the
/// grammar, if it does. Expressions longer than `MAX_EXPRESSION_BYTES` bytes
/// and empty ones are refused.
pub fn expression_program(s: &str) -> (r: Vec<Instr>)
    requires
        s.spec_bytes().len() <= usize::MAX,
    ensures
        program_view(r@) == expression_spec(s@, s.spec_bytes().len() as int),
{
    let mut out: Vec<Instr> = Vec::new();
    if s.len() > MAX_EXPRESSION_BYTES {
        fail(&mut out, "Expression too long");
        assert(program_view(out@) =~= seq![SInstr::Fail("Expression too long"@)]);
        return out;
    }
    proof {
        lemma_encoding_length(s@);
    }
    let n = s.unicode_len();
    let mut chars: Vec<char> = Vec::new();
    let mut i: usize = 0;
    while i < n
        invariant
            n == s@.len(),
            n <= MAX_EXPRESSION_BYTES,
            i <= n,
            chars@ == normalize(s@.take(i as int)),
            chars@.len() <= 2 * i,
        decreases n - i,
    {
        let ch = s.get_char(i);
        assert(s@.take(i + 1).drop_last() =~= s@.take(i as int));
        assert(s@.take(i + 1).last() == ch);
        if ch == '×' {
            chars.push('*');
        } else if ch == '÷' {
            chars.push('/');
        } else if ch == '−' {
            chars.push('-');
        } else if ch == 'π' {
            chars.push('p');
            chars.push('i');
            assert(chars@ =~= normalize(s@.take(i as int)) + seq!['p', 'i']);
        } else if !char_is_white_space(ch) {
            chars.push(ch);
        }
        i = i + 1;
    }
    assert(s@.take(n as int) =~= s@);
    if chars.len() == 0 {
        fail(&mut out, "Enter a calculation");
        assert(program_view(out@) =~= seq![SInstr::Fail("Enter a calculation"@)]);
        return out;
    }
    let mut parser = Parser::new(chars);
    assert(program_view(out@) =~= Seq::empty());
    let ok = parser.expr(&mut out);
    assert(program_view(out@) =~= p_expr(normalize(s@), 0, 0).prog);
    if ok && parser.pos() != parser.len() {
        fail(&mut out, "Invalid expression");
    }
    out
}

/// Normalizing text part by part gives the normalized whole.
pub proof fn lemma_normalize_concat(a: Seq<char>, b: Seq<char>)
    ensures
        normalize(a + b) == normalize(a) + normalize(b),
    decreases b.len(),
{
    if b.len() == 0 {
        assert(a + b =~= a);
        assert(normalize(a) + normalize(b) =~= normalize(a));
    } else {
        lemma_normalize_concat(a, b.drop_last());
        assert((a + b).drop_last() =~= a + b.drop_last());
        assert((a + b).last() == b.last());
        let na = normalize(a);
        let nb = normalize(b.drop_last());
        assert((na + nb).push('*') =~= na + nb.push('*'));
        assert((na + nb).push('/') =~= na + nb.push('/'));
        assert((na + nb).push('-') =~= na + nb.push('-'));
        assert((na + nb).push(b.last()) =~= na + nb.push(b.last()));
        assert((na + nb) + seq!['p', 'i'] =~= na + (nb + seq!['p', 'i']));
    }
}

/// White space normalizes to nothing.
proof fn lemma_normalize_white_space(v: Seq<char>)
    requires
        forall|i: int| 0 <= i < v.len() ==> is_white_space(#[trigger] v[i]),
    ensures
        normalize(v) == Seq::<char>::empty(),
    decreases v.len(),
{
    if v.len() > 0 {
        lemma_normalize_white_space(v.drop_last());
        assert(is_white_space(v[v.len() - 1]));
    }
}

/// Two notations for one thing: `*` and `×`, `/` and `÷`, `-` and `−`,
/// `pi` and `π`, and nothing and white space.
pub open spec fn same_notation(u: Seq<char>, v: Seq<char>) -> bool {
    ||| u == seq!['*'] && v == seq!['×']
    ||| u == seq!['/'] && v == seq!['÷']
    ||| u == seq!['-'] && v == seq!['−']
    ||| u == seq!['p', 'i'] && v == seq!['π']
    ||| u.len() == 0 && forall|i: int| 0 <= i < v.len() ==> is_white_space(#[trigger] v[i])
}

/// The notation does not matter: writing `×`, `÷`, `−` or `π` in place of
/// `*`, `/`, `-` or `pi`, or putting white space anywhere, gives an
/// expression the same program, as long as it stays within
/// `MAX_EXPRESSION_BYTES` bytes. Any number of such edits, one after
/// another, keeps the program too.
pub proof fn law_notation_is_irrelevant(
    a: Seq<char>,
    u: Seq<char>,
    v: Seq<char>,
    b: Seq<char>,
    bytes_u: int,
    bytes_v: int,
)
    requires
        same_notation(u, v),
        bytes_u <= MAX_EXPRESSION_BYTES,
        bytes_v <= MAX_EXPRESSION_BYTES,
    ensures
        expression_spec(a + u + b, bytes_u) == expression_spec(a + v + b, bytes_v),
{
    lemma_normalize_concat(a + u, b);
    lemma_normalize_concat(a + v, b);
    lemma_normalize_concat(a, u);
    lemma_normalize_concat(a, v);
    if u.len() == 0 && forall|i: int| 0 <= i < v.len() ==> is_white_space(#[trigger] v[i]) {
        lemma_normalize_white_space(v);
        assert(normalize(u) == Seq::<char>::empty());
    } else {
        assert(u.drop_last().len() == 0 || u == seq!['p', 'i']);
        assert(v.drop_last() =~= Seq::<char>::empty());
        if u == seq!['p', 'i'] {
            assert(u.drop_last() =~= seq!['p']);
            assert(u.drop_last().drop_last() =~= Seq::<char>::empty());
            assert(!is_white_space('p') && !is_white_space('i'));
            assert(seq!['p'].drop_last() =~= Seq::<char>::empty());
            assert(seq!['p'].last() == 'p');
            assert(normalize(Seq::<char>::empty()).push('p') =~= seq!['p']);
            assert(normalize(seq!['p']) =~= seq!['p']);
            assert(normalize(u) =~= seq!['p', 'i']);
            assert(normalize(v) =~= Seq::<char>::empty() + seq!['p', 'i']);
        } else {
            assert(u.drop_last() =~= Seq::<char>::empty());
            assert(!is_white_space(u[0]));
        }
    }
    assert(normalize(u) == normalize(v));
    assert(normalize(a + u + b) == normalize(a + v + b));
}

/// A function name calls the routine of that name, and each routine of one
/// operand that has a name in the grammar is called by it.
pub proof fn law_function_names_call_their_routine(name: Seq<char>)
    ensures
        function_routine(name) matches Some(r) ==> routine_names()[routine_index(r)] == name,
        function_routine(routine_names()[routine_index(Routine::Sqrt)]) == Some(Routine::Sqrt),
        function_routine(routine_names()[routine_index(Routine::Ln)]) == Some(Routine::Ln),
        function_routine(routine_names()[routine_index(Routine::Log)]) == Some(Routine::Log),
        function_routine(routine_names()[routine_index(Routine::Sin)]) == Some(Routine::Sin),
        function_routine(routine_names()[routine_index(Routine::Cos)]) == Some(Routine::Cos),
        function_routine(routine_names()[routine_index(Routine::Tan)]) == Some(Routine::Tan),
        function_routine(routine_names()[routine_index(Routine::Abs)]) == Some(Routine::Abs),
{
    reveal_strlit("sqrt");
    reveal_strlit("ln");
    reveal_strlit("log");
    reveal_strlit("sin");
    reveal_strlit("cos");
    reveal_strlit("tan");
    reveal_strlit("abs");
    assert("sqrt"@.len() == 4 && "ln"@.len() == 2 && "log"@.len() == 3);
    assert("log"@[0] == 'l' && "sin"@[0] == 's' && "cos"@[0] == 'c' && "tan"@[0] == 't' && "abs"@[0] == 'a');
    assert("ln"@ != "sqrt"@);
    assert("log"@ != "sqrt"@ && "log"@ != "ln"@);
    assert("sin"@ != "sqrt"@ && "sin"@ != "ln"@ && "sin"@ != "log"@);
    assert("cos"@ != "sqrt"@ && "cos"@ != "ln"@ && "cos"@ != "log"@ && "cos"@ != "sin"@);
    assert("tan"@ != "sqrt"@ && "tan"@ != "ln"@ && "tan"@ != "log"@ && "tan"@ != "sin"@ && "tan"@ != "cos"@);
    assert("abs"@ != "sqrt"@ && "abs"@ != "ln"@ && "abs"@ != "log"@ && "abs"@ != "sin"@ && "abs"@ != "cos"@
        && "abs"@ != "tan"@);
}

} // verus!
