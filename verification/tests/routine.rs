use calc_core::compiler::compile;
use calc_core::natural::Natural;
use calc_core::routine::{fixed_point_text, magnitude_of, routine_position, run_routine, Routine, ROUTINE_NAMES};

fn value(n: &Natural) -> u64 {
    let d = n.to_digits();
    d.iter().rev().fold(0u64, |acc, x| (acc << 32) | *x as u64)
}

fn call(name: &str, source: &str, a: u32, a_negative: bool, b: u32, b_negative: bool) -> Result<(u64, bool), String> {
    let program = compile(source, true)?;
    run_routine(name, &program, Natural::from_u32(a), a_negative, Natural::from_u32(b), b_negative, true)
        .map(|(m, n)| (value(&m), n))
}

#[test]
fn routines_are_found_by_name() {
    assert_eq!(routine_position("add"), Ok(0));
    assert_eq!(routine_position("div"), Ok(3));
    assert_eq!(routine_position("factorial"), Ok(13));
    assert_eq!(routine_position("e"), Ok(15));
    assert_eq!(routine_position("unknown"), Err("Unknown Brainfuck routine".to_string()));
    assert_eq!(routine_position(""), Err("Unknown Brainfuck routine".to_string()));
    assert_eq!(routine_position("Add"), Err("Unknown Brainfuck routine".to_string()));
}

#[test]
fn routine_names_match_the_table() {
    for (i, r) in [
        Routine::Add,
        Routine::Sub,
        Routine::Mul,
        Routine::Div,
        Routine::Neg,
        Routine::Abs,
        Routine::Sqrt,
        Routine::Ln,
        Routine::Log,
        Routine::Sin,
        Routine::Cos,
        Routine::Tan,
        Routine::Pow,
        Routine::Factorial,
        Routine::Pi,
        Routine::E,
    ]
    .into_iter()
    .enumerate()
    {
        assert_eq!(r.index(), i);
        assert_eq!(r.name(), ROUTINE_NAMES[i]);
        assert_eq!(routine_position(r.name()), Ok(i));
    }
}

#[test]
fn result_is_read_from_cells_six_and_seven() {
    // Moves A into the result cell.
    assert_eq!(call("add", "[->>>>>>+<<<<<<]", 5, false, 0, false), Ok((5, false)));
    // Copies A's sign too.
    assert_eq!(call("neg", "[->>>>>>+<<<<<<]>[->>>>>>+<<<<<<]", 7, true, 0, false), Ok((7, true)));
    // B reaches the routine in cell 2, and the degrees flag in cell 4.
    assert_eq!(call("abs", ">>[->>>>+<<<<]>>[->>+<<]", 0, false, 9, false), Ok((10, false)));
}

#[test]
fn error_codes_become_messages() {
    assert_eq!(call("div", ">>>>>+", 1, false, 0, false), Err("Cannot divide by zero".to_string()));
    assert_eq!(call("sqrt", ">>>>>++", 1, false, 0, false), Err("Function input is outside its domain".to_string()));
    assert_eq!(call("pow", ">>>>>+++", 1, false, 0, false), Err("Result outside supported range".to_string()));
    assert_eq!(
        call("factorial", ">>>>>++++", 1, false, 0, false),
        Err("Factorial needs an integer from 0 to 170".to_string())
    );
    assert_eq!(call("tan", ">>>>>+++++", 1, false, 0, false), Err("Tangent is undefined at this angle".to_string()));
    assert_eq!(
        call("sin", ">>>>>++++++", 1, false, 0, false),
        Err("Radian angle exceeds the reliable range of 1e12".to_string())
    );
    assert_eq!(call("cos", ">>>>>+++++++", 1, false, 0, false), Err("Result outside supported range".to_string()));
}

#[test]
fn zero_products_are_underflow() {
    let underflow = Err("Result below Brainfuck precision of 1e-24".to_string());
    assert_eq!(call("mul", "", 2, false, 3, false), underflow);
    assert_eq!(call("div", "", 2, false, 3, false), underflow);
    assert_eq!(call("pow", "", 2, false, 0, false), underflow);
    // A zero operand makes a zero result exact.
    assert_eq!(call("mul", "", 2, false, 0, false), Ok((0, false)));
    assert_eq!(call("mul", "", 0, false, 3, false), Ok((0, false)));
    assert_eq!(call("pow", "", 0, false, 3, false), Ok((0, false)));
    // Other routines may return 0.
    assert_eq!(call("sub", "", 2, false, 3, false), Ok((0, false)));
}

#[test]
fn machine_errors_reach_the_caller() {
    assert_eq!(call("add", "<", 1, false, 1, false), Err("Brainfuck tape boundary".to_string()));
    assert_eq!(call("add", ">-", 0, false, 1, false), Err("Brainfuck cell underflow".to_string()));
    assert_eq!(
        call("add", "+[]", 0, false, 0, false),
        Err("Calculation exceeded Brainfuck execution limit".to_string())
    );
}

fn text(v: Vec<char>) -> String {
    v.into_iter().collect()
}

#[test]
fn operands_become_fixed_point_magnitudes() {
    let m = magnitude_of(&format!("{:.24}", 1.5f64), true).unwrap();
    assert_eq!(text(fixed_point_text(&m, false)), "1.500000000000000000000000");
    assert_eq!(m.to_digits(), vec![0x71800000, 0x29b63364, 0x13da3]);
    assert_eq!(magnitude_of("0.000000000000000000000000", false).unwrap().to_digits(), Vec::<u32>::new());
    assert_eq!(
        magnitude_of("0.000000000000000000000000", true).unwrap_err(),
        "Brainfuck precision limit: minimum magnitude is 1e-24"
    );
    assert_eq!(magnitude_of("1.x", true).unwrap_err(), "Invalid input number");
    assert_eq!(magnitude_of("", false).unwrap_err(), "Invalid input number");
    assert_eq!(magnitude_of("12_3.4", false).unwrap().to_digits(), vec![1234]);
}

#[test]
fn results_are_written_with_their_point() {
    assert_eq!(text(fixed_point_text(&Natural::from_u32(0), true)), "0.000000000000000000000000");
    assert_eq!(text(fixed_point_text(&Natural::from_u32(7), true)), "-0.000000000000000000000007");
    let big = magnitude_of("123456789.000000000000000000000001", false).unwrap();
    assert_eq!(text(fixed_point_text(&big, false)), "123456789.000000000000000000000001");
}
