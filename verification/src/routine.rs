//! The calling convention of the numeric Brainfuck routines.
//!
//! On entry the tape holds the magnitude and negative flag of operand A in
//! cells 0 and 1, those of operand B in cells 2 and 3, and the degrees flag in
//! cell 4; every other cell is 0. On exit cell 5 holds an error code (0 when
//! the routine succeeded) and cells 6 and 7 the magnitude and negative flag of
//! the result. Magnitudes are decimal fixed point with 24 places.
use crate::natural::{decimal_digits, nat_is_zero, nat_parse_decimal, nat_to_decimal, nat_to_u32, parse_decimal, Natural};
use crate::vm::{error_message, exec, message, ops_view, run, tape_view, Machine, Op, VmError};
use vstd::prelude::*;

verus! {

/// The number of cells of a routine's tape.
pub const TAPE_CELLS: usize = 512;

/// The number of instructions a routine may execute.
pub const ROUTINE_FUEL: usize = 2_000_000;

/// The routines, in the order of the routine table.
pub const ROUTINE_NAMES: [&'static str; 16] = [
    "add",
    "sub",
    "mul",
    "div",
    "neg",
    "abs",
    "sqrt",
    "ln",
    "log",
    "sin",
    "cos",
    "tan",
    "pow",
    "factorial",
    "pi",
    "e",
];

pub open spec fn routine_names() -> Seq<Seq<char>> {
    seq![
        "add"@,
        "sub"@,
        "mul"@,
        "div"@,
        "neg"@,
        "abs"@,
        "sqrt"@,
        "ln"@,
        "log"@,
        "sin"@,
        "cos"@,
        "tan"@,
        "pow"@,
        "factorial"@,
        "pi"@,
        "e"@,
    ]
}

/// Whether two strings hold the same characters, compared one by one.
fn text_eq(a: &str, b: &str) -> (r: bool)
    ensures
        r == (a@ == b@),
{
    let n = a.unicode_len();
    if n != b.unicode_len() {
        return false;
    }
    let mut i: usize = 0;
    while i < n
        invariant
            n == a@.len(),
            n == b@.len(),
            i <= n,
            forall|j: int| 0 <= j < i ==> a@[j] == b@[j],
        decreases n - i,
    {
        if a.get_char(i) != b.get_char(i) {
            return false;
        }
        i = i + 1;
    }
    assert(a@ =~= b@);
    true
}

/// The position of the routine called `name` in the routine table.
pub fn routine_position(name: &str) -> (r: Result<usize, String>)
    ensures
        match r {
            Ok(i) => i < 16 && routine_names()[i as int] == name@ && forall|j: int|
                0 <= j < i ==> routine_names()[j] != name@,
            Err(m) => m@ == "Unknown Brainfuck routine"@ && forall|j: int|
                0 <= j < 16 ==> routine_names()[j] != name@,
        },
{
    let mut i: usize = 0;
    while i < 16
        invariant
            i <= 16,
            forall|j: int| 0 <= j < i ==> routine_names()[j] != name@,
        decreases 16 - i,
    {
        let candidate = ROUTINE_NAMES[i];
        assert(candidate@ == routine_names()[i as int]);
        if text_eq(candidate, name) {
            return Ok(i);
        }
        i = i + 1;
    }
    Err("Unknown Brainfuck routine".to_owned())
}


/// The message for a nonzero error code left in cell 5.
pub open spec fn code_message(code: nat) -> Seq<char> {
    if code == 1 {
        "Cannot divide by zero"@
    } else if code == 2 {
        "Function input is outside its domain"@
    } else if code == 4 {
        "Factorial needs an integer from 0 to 170"@
    } else if code == 5 {
        "Tangent is undefined at this angle"@
    } else if code == 6 {
        "Radian angle exceeds the reliable range of 1e12"@
    } else {
        "Result outside supported range"@
    }
}

pub open spec fn flag(b: bool) -> nat {
    if b {
        1
    } else {
        0
    }
}

/// The tape a routine starts on.
pub open spec fn entry_tape(a: nat, a_negative: bool, b: nat, b_negative: bool, degrees: bool) -> Seq<nat> {
    Seq::new(
        TAPE_CELLS as nat,
        |i: int|
            if i == 0 {
                a
            } else if i == 1 {
                flag(a_negative)
            } else if i == 2 {
                b
            } else if i == 3 {
                flag(b_negative)
            } else if i == 4 {
                flag(degrees)
            } else {
                0
            },
    )
}

/// Where a routine run ends.
pub open spec fn routine_run(program: Seq<crate::vm::SOp>, a: nat, a_negative: bool, b: nat, b_negative: bool, degrees: bool) -> crate::vm::Outcome {
    run(
        program,
        0,
        Machine {
            tape: entry_tape(a, a_negative, b, b_negative, degrees),
            pointer: 0,
            consumed: 0,
            output: Seq::empty(),
        },
        ROUTINE_FUEL as nat,
        Seq::empty(),
    )
}

/// Whether a zero result of routine `name` on a nonzero A is an underflow
/// below the fixed-point precision rather than a true zero: so for products
/// and quotients with a nonzero B, and for powers.
pub open spec fn is_underflow(name: Seq<char>, a: nat, b: nat) -> bool {
    a != 0 && ((name == "mul"@ || name == "div"@) && b != 0 || name == "pow"@)
}

/// What a routine returns: the error of the run, the error its code names,
/// an underflow error, or the magnitude and negative flag of the result.
pub open spec fn routine_result(name: Seq<char>, o: crate::vm::Outcome, a: nat, b: nat) -> Result<(nat, bool), Seq<char>> {
    let t = o.machine.tape;
    match o.error {
        Some(e) => Err(message(e)),
        None => if t[5] != 0 {
            Err(code_message(t[5]))
        } else if t[6] == 0 && is_underflow(name, a, b) {
            Err("Result below Brainfuck precision of 1e-24"@)
        } else {
            Ok((t[6], t[7] != 0))
        },
    }
}

fn flag_cell(b: bool) -> (r: Natural)
    ensures
        r@ == flag(b),
{
    if b {
        Natural::from_u32(1)
    } else {
        Natural::from_u32(0)
    }
}

fn code_text(code: &Natural) -> (r: String)
    requires
        code@ != 0,
    ensures
        r@ == code_message(code@),
{
    match nat_to_u32(code) {
        Some(1) => "Cannot divide by zero".to_owned(),
        Some(2) => "Function input is outside its domain".to_owned(),
        Some(4) => "Factorial needs an integer from 0 to 170".to_owned(),
        Some(5) => "Tangent is undefined at this angle".to_owned(),
        Some(6) => "Radian angle exceeds the reliable range of 1e12".to_owned(),
        _ => "Result outside supported range".to_owned(),
    }
}

/// Runs the compiled routine `program`, called `name`, on operands with
/// magnitudes `a` and `b` and the given signs: the magnitude and negative
/// flag of the result.
pub fn run_routine(
    name: &str,
    program: &[Op],
    a: Natural,
    a_negative: bool,
    b: Natural,
    b_negative: bool,
    degrees: bool,
) -> (r: Result<(Natural, bool), String>)
    ensures
        match routine_result(
            name@,
            routine_run(ops_view(program@), a@, a_negative, b@, b_negative, degrees),
            a@,
            b@,
        ) {
            Ok((magnitude, negative)) => r matches Ok((c, n)) && c@ == magnitude && n == negative,
            Err(m) => r matches Err(e) && e@ == m,
        },
{
    let ghost a_value = a@;
    let ghost b_value = b@;
    let a_zero = nat_is_zero(&a);
    let b_zero = nat_is_zero(&b);
    let mut tape: Vec<Natural> = Vec::new();
    let mut i: usize = 0;
    while i < TAPE_CELLS
        invariant
            i <= TAPE_CELLS,
            a_value == a@,
            b_value == b@,
            tape@.len() == i,
            forall|j: int| 0 <= j < i ==> #[trigger] tape@[j]@ == entry_tape(a_value, a_negative, b_value, b_negative, degrees)[j],
        decreases TAPE_CELLS - i,
    {
        let cell = if i == 0 {
            a.clone()
        } else if i == 1 {
            flag_cell(a_negative)
        } else if i == 2 {
            b.clone()
        } else if i == 3 {
            flag_cell(b_negative)
        } else if i == 4 {
            flag_cell(degrees)
        } else {
            Natural::from_u32(0)
        };
        tape.push(cell);
        i = i + 1;
    }
    assert(tape_view(tape@) =~= entry_tape(a_value, a_negative, b_value, b_negative, degrees));
    let mut pointer: usize = 0;
    let mut consumed: usize = 0;
    let mut output: Vec<u8> = Vec::new();
    let mut fuel: usize = ROUTINE_FUEL;
    let no_input: Vec<u8> = Vec::new();
    assert(no_input@ =~= Seq::<u8>::empty());
    assert(output@ =~= Seq::<u8>::empty());
    match exec(program, &mut tape, &mut pointer, no_input.as_slice(), &mut consumed, &mut output, &mut fuel) {
        Err(e) => return Err(e),
        Ok(()) => {},
    }
    if !nat_is_zero(&tape[5]) {
        return Err(code_text(&tape[5]));
    }
    if nat_is_zero(&tape[6]) && !a_zero && (((text_eq(name, "mul") || text_eq(name, "div")) && !b_zero)
        || text_eq(name, "pow")) {
        return Err("Result below Brainfuck precision of 1e-24".to_owned());
    }
    Ok((tape[6].clone(), !nat_is_zero(&tape[7])))
}


/// A numeric routine.
#[derive(Clone, Copy, Debug, PartialEq, Eq)]
pub enum Routine {
    Add,
    Sub,
    Mul,
    Div,
    Neg,
    Abs,
    Sqrt,
    Ln,
    Log,
    Sin,
    Cos,
    Tan,
    Pow,
    Factorial,
    Pi,
    E,
}

/// The position of a routine in the routine table.
pub open spec fn routine_index(r: Routine) -> int {
    match r {
        Routine::Add => 0,
        Routine::Sub => 1,
        Routine::Mul => 2,
        Routine::Div => 3,
        Routine::Neg => 4,
        Routine::Abs => 5,
        Routine::Sqrt => 6,
        Routine::Ln => 7,
        Routine::Log => 8,
        Routine::Sin => 9,
        Routine::Cos => 10,
        Routine::Tan => 11,
        Routine::Pow => 12,
        Routine::Factorial => 13,
        Routine::Pi => 14,
        Routine::E => 15,
    }
}

impl Routine {
    /// The name the routine is called by.
    pub fn name(self) -> (r: &'static str)
        ensures
            r@ == routine_names()[routine_index(self)],
    {
        ROUTINE_NAMES[self.index()]
    }

    /// The position of the routine in the routine table.
    pub fn index(self) -> (r: usize)
        ensures
            r == routine_index(self),
    {
        match self {
            Routine::Add => 0,
            Routine::Sub => 1,
            Routine::Mul => 2,
            Routine::Div => 3,
            Routine::Neg => 4,
            Routine::Abs => 5,
            Routine::Sqrt => 6,
            Routine::Ln => 7,
            Routine::Log => 8,
            Routine::Sin => 9,
            Routine::Cos => 10,
            Routine::Tan => 11,
            Routine::Pow => 12,
            Routine::Factorial => 13,
            Routine::Pi => 14,
            Routine::E => 15,
        }
    }
}

/// The decimal places of the routines' fixed-point magnitudes.
pub const PRECISION: usize = 24;

/// The characters `t` without its `.`s.
pub open spec fn without_points(t: Seq<char>) -> Seq<char>
    decreases t.len(),
{
    if t.len() == 0 {
        t
    } else if t.last() == '.' {
        without_points(t.drop_last())
    } else {
        without_points(t.drop_last()).push(t.last())
    }
}

/// The fixed-point magnitude an operand's decimal expansion `decimal` (with
/// `PRECISION` places) stands for: its digits with the point left out, read
/// as one number. An expansion that writes no number is refused, and so is
/// a nonzero operand whose expansion is all zeros.
pub open spec fn magnitude_spec(decimal: Seq<char>, nonzero: bool) -> Result<nat, Seq<char>> {
    match parse_decimal(without_points(decimal)) {
        None => Err("Invalid input number"@),
        Some(v) => if nonzero && v == 0 {
            Err("Brainfuck precision limit: minimum magnitude is 1e-24"@)
        } else {
            Ok(v)
        },
    }
}

/// The magnitude of an operand written in decimal with `PRECISION` places;
/// see `magnitude_spec`.
pub fn magnitude_of(decimal: &str, nonzero: bool) -> (r: Result<Natural, String>)
    ensures
        match magnitude_spec(decimal@, nonzero) {
            Ok(v) => r matches Ok(n) && n@ == v,
            Err(m) => r matches Err(e) && e@ == m,
        },
{
    let n = decimal.unicode_len();
    let mut digits: Vec<char> = Vec::new();
    let mut i: usize = 0;
    while i < n
        invariant
            n == decimal@.len(),
            i <= n,
            digits@ == without_points(decimal@.take(i as int)),
        decreases n - i,
    {
        let c = decimal.get_char(i);
        assert(decimal@.take(i + 1).drop_last() =~= decimal@.take(i as int));
        if c != '.' {
            digits.push(c);
        }
        i = i + 1;
    }
    assert(decimal@.take(n as int) =~= decimal@);
    match nat_parse_decimal(&digits) {
        None => Err("Invalid input number".to_owned()),
        Some(v) => {
            if nonzero && nat_is_zero(&v) {
                Err("Brainfuck precision limit: minimum magnitude is 1e-24".to_owned())
            } else {
                Ok(v)
            }
        },
    }
}

/// The digits of a fixed-point magnitude, padded with zeros on the left to
/// at least `PRECISION + 1` of them.
pub open spec fn padded_digits(n: nat) -> Seq<char> {
    let d = decimal_digits(n);
    if d.len() <= PRECISION {
        Seq::new((PRECISION + 1 - d.len()) as nat, |i: int| '0') + d
    } else {
        d
    }
}

/// The decimal text of a routine's result: the magnitude `n` with its point
/// `PRECISION` places from the right, at least one digit before it, and a
/// `-` in front when `negative` and `n` is not 0.
pub open spec fn fixed_point_spec(n: nat, negative: bool) -> Seq<char> {
    let p = padded_digits(n);
    let k = p.len() - PRECISION;
    let t = p.take(k) + seq!['.'] + p.skip(k);
    if negative && n != 0 {
        seq!['-'] + t
    } else {
        t
    }
}

/// The decimal text of a routine's result; see `fixed_point_spec`.
pub fn fixed_point_text(n: &Natural, negative: bool) -> (r: Vec<char>)
    ensures
        r@ == fixed_point_spec(n@, negative),
{
    let d = nat_to_decimal(n);
    let mut p: Vec<char> = Vec::new();
    if d.len() <= PRECISION {
        let zeros = PRECISION + 1 - d.len();
        while p.len() < zeros
            invariant
                zeros <= PRECISION + 1,
                p@ == Seq::new(p@.len(), |i: int| '0'),
                p@.len() <= zeros,
            decreases zeros - p.len(),
        {
            p.push('0');
            assert(p@ =~= Seq::new(p@.len(), |i: int| '0'));
        }
    }
    let ghost start = p@;
    let mut j: usize = 0;
    while j < d.len()
        invariant
            j <= d@.len(),
            p@ == start + d@.take(j as int),
            start.len() <= PRECISION + 1,
        decreases d.len() - j,
    {
        p.push(d[j]);
        assert(d@.take(j + 1) =~= d@.take(j as int).push(d@[j as int]));
        assert(p@ =~= start + d@.take(j + 1));
        j = j + 1;
    }
    assert(d@.take(d@.len() as int) =~= d@);
    assert(p@ =~= padded_digits(n@));
    let mut out: Vec<char> = Vec::new();
    if negative && !nat_is_zero(n) {
        out.push('-');
    }
    let ghost head = out@;
    let k = p.len() - PRECISION;
    let mut i: usize = 0;
    while i < p.len()
        invariant
            p@ == padded_digits(n@),
            k == p@.len() - PRECISION,
            1 <= k,
            i <= p@.len(),
            out@ == head + if i <= k {
                p@.take(i as int)
            } else {
                p@.take(k as int) + seq!['.'] + p@.subrange(k as int, i as int)
            },
        decreases p.len() - i,
    {
        if i == k {
            out.push('.');
        }
        out.push(p[i]);
        proof {
            if i < k {
                assert(p@.take(i + 1) =~= p@.take(i as int).push(p@[i as int]));
            } else {
                assert(p@.subrange(k as int, i + 1) =~= p@.subrange(k as int, i as int).push(p@[i as int]));
            }
        }
        i = i + 1;
    }
    assert(p@.subrange(k as int, p@.len() as int) =~= p@.skip(k as int));
    out
}

} // verus!
