//! The calculator's keypad and expression logic, driven the way the
//! application drives it. The numbers are computed here with native `f64`
//! arithmetic, standing in for the Brainfuck routines, and displayed as the
//! application displays them.
use calc_core::calculator::{binary_operator_at, operand_start_of, repeat_site_of, Calculator, Effect, MemoryOp, Value};
use calc_core::evaluation::{Evaluation, Request};
use calc_core::expression::{expression_program, Instr};
use calc_core::routine::Routine;

fn text(s: &str) -> Vec<char> {
    s.chars().collect()
}

fn string(v: &[char]) -> String {
    v.iter().collect()
}

fn native(r: Routine, a: f64, b: f64, degrees: bool) -> Result<f64, String> {
    let domain = Err("Function input is outside its domain".to_string());
    let angle = if degrees { a.to_radians() } else { a };
    let v = match r {
        Routine::Add => a + b,
        Routine::Sub => a - b,
        Routine::Mul => a * b,
        Routine::Div => {
            if b == 0.0 {
                return Err("Cannot divide by zero".to_string());
            }
            a / b
        }
        Routine::Neg => -a,
        Routine::Abs => a.abs(),
        Routine::Sqrt => {
            if a < 0.0 {
                return domain;
            }
            a.sqrt()
        }
        Routine::Ln => {
            if a <= 0.0 {
                return domain;
            }
            a.ln()
        }
        Routine::Log => {
            if a <= 0.0 {
                return domain;
            }
            a.log10()
        }
        Routine::Sin => angle.sin(),
        Routine::Cos => angle.cos(),
        Routine::Tan => {
            if degrees && (a / 90.0).fract() == 0.0 && (a / 90.0) as i64 % 2 != 0 {
                return Err("Tangent is undefined at this angle".to_string());
            }
            angle.tan()
        }
        Routine::Pow => {
            if a < 0.0 && b.fract() != 0.0 {
                return domain;
            }
            a.powf(b)
        }
        Routine::Factorial => {
            if a < 0.0 || a > 170.0 || a.fract() != 0.0 {
                return Err("Factorial needs an integer from 0 to 170".to_string());
            }
            (1..=a as u64).fold(1.0, |p, k| p * k as f64)
        }
        Routine::Pi => std::f64::consts::PI,
        Routine::E => std::f64::consts::E,
    };
    if v.is_finite() {
        Ok(v)
    } else {
        Err("Result outside supported range".to_string())
    }
}

fn evaluate(s: &str, degrees: bool) -> Result<f64, String> {
    let mut run = Evaluation::of_expression(s);
    loop {
        let n = match run.request() {
            Request::Number(t) => string(&t).parse::<f64>().map_err(|_| "Invalid number".to_string())?,
            Request::Constant(r) => native(r, 0.0, 0.0, degrees)?,
            Request::Unary(r, v) => native(r, f64::from_bits(v), 0.0, degrees)?,
            Request::Binary(r, a, b) => native(r, f64::from_bits(a), f64::from_bits(b), degrees)?,
            Request::Percent(v) => native(Routine::Div, f64::from_bits(v), 100.0, degrees)?,
            Request::Done(v) => {
                let n = f64::from_bits(v);
                if !n.is_finite() {
                    return Err("Result outside supported range".to_string());
                }
                return Ok(n);
            }
            Request::Fail(m) => return Err(m),
        };
        run.give(n.to_bits());
    }
}

fn format_number(n: f64) -> String {
    if n == 0.0 {
        return "0".into();
    }
    if n.abs() >= 1e15 || n.abs() < 1e-9 {
        return format!("{:.12e}", n);
    }
    if n.fract() == 0.0 {
        return format!("{n:.0}");
    }
    let decimals = (12 - n.abs().log10().floor() as i32).clamp(0, 20) as usize;
    format!("{n:.decimals$}").trim_end_matches('0').trim_end_matches('.').into()
}

fn value(n: f64) -> Value {
    Value { bits: n.to_bits(), text: text(&format_number(n)) }
}

fn repeat_of(c: &Calculator) -> Option<(char, Value)> {
    let e = c.expression();
    let i = c.repeat_site()?;
    let rhs = evaluate(&string(&e[i + 1..]), c.degrees()).ok()?;
    let rhs = if c.repeat_relative(i) {
        let lhs = evaluate(&string(&e[..i]), c.degrees()).unwrap_or(1.0);
        native(Routine::Mul, rhs, lhs, c.degrees()).unwrap_or(rhs)
    } else {
        rhs
    };
    Some((e[i], value(rhs)))
}

fn press(c: &mut Calculator, key: &str) {
    match c.action(key) {
        Effect::Nothing | Effect::Save => {}
        Effect::Preview => {
            let shown = evaluate(&string(&c.expression()), c.degrees()).map(format_number).unwrap_or("0".into());
            c.finish_preview(text(&shown));
        }
        Effect::Evaluate => {
            let outcome = evaluate(&string(&c.expression()), c.degrees()).map(value).map_err(|m| text(&m));
            let repeat = if c.done() { None } else { repeat_of(c) };
            assert_eq!(c.finish_equals(outcome, repeat), Effect::Nothing);
        }
        Effect::Memory(op) => {
            if let Ok(v) = string(&c.result()).parse::<f64>() {
                let old = c.memory().map_or(0.0, |m| f64::from_bits(m.bits));
                let n = match op {
                    MemoryOp::Store => Ok(v),
                    MemoryOp::Add => native(Routine::Add, old, v, c.degrees()),
                    MemoryOp::Subtract => native(Routine::Sub, old, v, c.degrees()),
                };
                c.finish_memory(n.map(value).map_err(|m| text(&m)));
            }
        }
    }
}

fn calc() -> Calculator {
    Calculator::new(true)
}

fn expression(c: &Calculator) -> String {
    string(&c.expression())
}

fn result(c: &Calculator) -> String {
    string(&c.result())
}

fn memory_value(c: &Calculator) -> Option<f64> {
    c.memory().map(|m| f64::from_bits(m.bits))
}

fn equal(s: &str, n: f64) {
    let actual = evaluate(s, true).unwrap();
    assert!((actual - n).abs() < 1e-9, "{s}: {actual} != {n}")
}

fn program_fails_with(s: &str, message: &str) -> bool {
    expression_program(s).iter().any(|i| matches!(i, Instr::Fail(m) if m == message))
}

#[test]
fn basic() {
    for (s, n) in [("128×4", 512.), ("2+3×4", 14.), ("(2+3)*4", 20.), ("-5*2", -10.), ("1.5/.5", 3.), ("0.1+0.2", 0.3)] {
        equal(s, n)
    }
}

#[test]
fn lib_scientific() {
    for (s, n) in [
        ("2^3^2", 512.),
        ("-2^2", -4.),
        ("2^-2", 0.25),
        ("sqrt(81)", 9.),
        ("5!", 120.),
        ("sin(30)", 0.5),
        ("log(100)", 2.),
        ("ln(e)", 1.),
    ] {
        equal(s, n)
    }
    assert!((evaluate("sin(pi/2)", false).unwrap() - 1.).abs() < 1e-12)
}

#[test]
fn percent() {
    for (s, n) in [("200+10%", 220.), ("200-10%", 180.), ("200*10%", 20.), ("50%", 0.5), ("200/10%", 2000.)] {
        equal(s, n)
    }
}

#[test]
fn invalid() {
    for s in [
        "1/0", "2+", ".", "2**3", "(2+3", "sqrt(-1)", "log(0)", "171!", "2.5!", "tan(90)", "2foo", "", "1e999",
    ] {
        assert!(evaluate(s, true).is_err(), "{s}")
    }
}

#[test]
fn grouping_not_in_engine() {
    assert!(evaluate("1,000", true).is_err());
    equal("1e-5*100000", 1.)
}

#[test]
fn depth_limit() {
    let s = format!("{}1{}", "(".repeat(100), ")".repeat(100));
    assert!(evaluate(&s, true).is_err());
    assert!(program_fails_with(&s, "Expression too complex"));
}

#[test]
fn parse_errors_are_named() {
    assert!(program_fails_with("", "Enter a calculation"));
    assert!(program_fails_with(" \t", "Enter a calculation"));
    assert!(program_fails_with("2+", "Incomplete expression"));
    assert!(program_fails_with("(2+3", "Missing closing parenthesis"));
    assert!(program_fails_with("sqrt(4", "Missing closing parenthesis"));
    assert!(program_fails_with("sqrt4", "Function needs parentheses"));
    assert!(program_fails_with("foo(4)", "Unknown function"));
    assert!(program_fails_with("1,000", "Invalid expression"));
    assert!(program_fails_with(&"1".repeat(2049), "Expression too long"));
    let nested = format!("{}1{}", "(".repeat(79), ")".repeat(79));
    assert!(!program_fails_with(&nested, "Expression too complex"));
}

#[test]
fn programs_follow_precedence() {
    let p = expression_program("2+3×4");
    assert_eq!(p.len(), 5);
    assert!(matches!(&p[0], Instr::Number(t) if string(t) == "2"));
    assert!(matches!(&p[1], Instr::Number(t) if string(t) == "3"));
    assert!(matches!(&p[2], Instr::Number(t) if string(t) == "4"));
    assert!(matches!(p[3], Instr::Binary(Routine::Mul)));
    assert!(matches!(p[4], Instr::Binary(Routine::Add)));
    let p = expression_program("200 + 10%");
    assert_eq!(p.len(), 5);
    assert!(matches!(p[2], Instr::Percent));
    assert!(matches!(p[3], Instr::Relative));
    assert!(matches!(p[4], Instr::Binary(Routine::Add)));
    let p = expression_program("2×π");
    assert!(matches!(p[1], Instr::Constant(Routine::Pi)));
    let p = expression_program("−sqrt(9)");
    assert!(matches!(p[1], Instr::Unary(Routine::Sqrt)));
    assert!(matches!(p[2], Instr::Unary(Routine::Neg)));
}

#[test]
fn operators_in_expressions() {
    let t = text("1e-5+(2−3)×−4");
    assert!(!binary_operator_at(&t, 2, '-'));
    assert!(binary_operator_at(&t, 4, '+'));
    assert!(!binary_operator_at(&t, 5, '('));
    assert!(binary_operator_at(&t, 7, '−'));
    assert!(!binary_operator_at(&t, 11, '−'));
    assert!(!binary_operator_at(&t, 0, '-'));
    assert_eq!(operand_start_of(&t), 11);
    assert_eq!(operand_start_of(&text("(1+2)")), 0);
    assert_eq!(operand_start_of(&text("")), 0);
    assert_eq!(repeat_site_of(&t), Some(10));
    assert_eq!(repeat_site_of(&text("−5")), None);
    assert_eq!(repeat_site_of(&text("(1+2)")), None);
}

#[test]
fn repeat_and_continue() {
    let mut c = calc();
    for k in ["edit:2+3", "=", "="] {
        press(&mut c, k)
    }
    assert_eq!(result(&c), "8");
    press(&mut c, "×");
    press(&mut c, "2");
    press(&mut c, "=");
    assert_eq!(result(&c), "16");
    press(&mut c, "7");
    assert_eq!(expression(&c), "7")
}

#[test]
fn undo_and_clear_entry() {
    let mut c = calc();
    press(&mut c, "edit:12+34");
    press(&mut c, "CE");
    assert_eq!(expression(&c), "12+");
    press(&mut c, "undo");
    assert_eq!(expression(&c), "12+34");
    press(&mut c, "redo");
    assert_eq!(expression(&c), "12+")
}

#[test]
fn memory() {
    let mut c = calc();
    for k in ["edit:50", "MS", "edit:25", "M+", "C", "MR"] {
        press(&mut c, k)
    }
    assert_eq!(result(&c), "75");
    press(&mut c, "M-");
    assert_eq!(memory_value(&c), Some(0.));
    press(&mut c, "MC");
    assert!(memory_value(&c).is_none())
}

#[test]
fn history() {
    let mut c = calc();
    for k in ["edit:5*4", "=", "C", "reuse:0"] {
        press(&mut c, k)
    }
    assert_eq!(expression(&c), "5*4");
    press(&mut c, "recall:0");
    assert_eq!(result(&c), "20");
    press(&mut c, "delete:0");
    assert!(c.history().is_empty())
}

#[test]
fn unary() {
    let mut c = calc();
    for k in ["edit:100+9", "sqrt", "="] {
        press(&mut c, k)
    }
    assert_eq!(result(&c), "103");
    press(&mut c, "±");
    press(&mut c, "=");
    assert_eq!(result(&c), "-103")
}

#[test]
fn errors_recover() {
    let mut c = calc();
    for k in ["edit:1/0", "=", "back", "2", "="] {
        press(&mut c, k)
    }
    assert_eq!(result(&c), "0.5");
    assert!(!c.error())
}

#[test]
fn repeated_percent() {
    let mut c = calc();
    for k in ["edit:200+10%", "=", "="] {
        press(&mut c, k)
    }
    assert_eq!(result(&c), "240");
}

#[test]
fn reciprocal_operand() {
    let mut c = calc();
    for k in ["edit:100/4", "reciprocal", "="] {
        press(&mut c, k)
    }
    assert_eq!(result(&c), "400");
}

#[test]
fn signed_keyboard_operand() {
    let mut c = calc();
    for k in ["5", "×", "−", "2", "="] {
        press(&mut c, k)
    }
    assert_eq!(result(&c), "-10");
}

#[test]
fn constants_multiply() {
    let mut c = calc();
    for k in ["2", "pi", "="] {
        press(&mut c, k)
    }
    assert!((result(&c).parse::<f64>().unwrap() - 2.0 * std::f64::consts::PI).abs() < 1e-10);
}

#[test]
fn memory_history_undo_sequences() {
    for i in 1..301 {
        let mut c = calc();
        press(&mut c, &format!("edit:{i}"));
        press(&mut c, "=");
        press(&mut c, "MS");
        press(&mut c, "edit:2");
        press(&mut c, "=");
        press(&mut c, "M+");
        press(&mut c, "C");
        press(&mut c, "MR");
        press(&mut c, "=");
        assert_eq!(result(&c), (i + 2).to_string());
        press(&mut c, "×");
        press(&mut c, "3");
        press(&mut c, "=");
        assert_eq!(result(&c), ((i + 2) * 3).to_string());
        press(&mut c, "C");
        press(&mut c, "reuse:0");
        press(&mut c, "=");
        assert_eq!(result(&c), ((i + 2) * 3).to_string());
        press(&mut c, "clearHistory");
        assert!(c.history().is_empty());
    }
}

#[test]
fn repeated_equals_edge_cases() {
    for (expr, want) in
        [("5×−2", "20"), ("5÷−2", "1.25"), ("100+10%×2", "200.4"), ("100+10%+20%", "154"), ("2^3+4", "16")]
    {
        let mut c = calc();
        press(&mut c, &format!("edit:{expr}"));
        press(&mut c, "=");
        press(&mut c, "=");
        assert_eq!(result(&c), want, "{expr}")
    }
}

#[test]
fn negative_current_operand() {
    for (expr, key, want) in [
        ("−4", "sqrt", None),
        ("5×−2", "square", Some("20")),
        ("−5", "±", Some("5")),
        ("e-2", "=", Some("-1.281718171541")),
    ] {
        let mut c = calc();
        press(&mut c, &format!("edit:{expr}"));
        press(&mut c, key);
        press(&mut c, "=");
        if let Some(w) = want {
            assert_eq!(result(&c), w, "{expr} {key}")
        } else {
            assert!(c.error(), "{expr} {key}: {}", result(&c))
        }
    }
}

#[test]
fn history_and_undo_are_bounded() {
    let mut c = calc();
    for i in 0..350 {
        press(&mut c, &format!("edit:{i}+1"));
        press(&mut c, "=");
    }
    assert_eq!(c.history().len(), 100);
    assert_eq!(string(&c.history()[0].result), "350");
    assert_eq!(string(&c.history()[99].result), "251");
    assert!(c.undo_len() <= 100);
    let before = result(&c);
    press(&mut c, "recall:9999");
    assert_eq!(result(&c), before);
    press(&mut c, "delete:9999");
    assert_eq!(c.history().len(), 100);
    press(&mut c, "clearHistory");
    assert!(c.history().is_empty());
}

#[test]
fn undo_takes_back_one_step() {
    let mut c = calc();
    press(&mut c, "edit:7×6");
    press(&mut c, "=");
    assert_eq!(result(&c), "42");
    assert!(c.done());
    press(&mut c, "undo");
    assert_eq!(expression(&c), "7×6");
    assert!(!c.done());
    press(&mut c, "redo");
    assert_eq!(result(&c), "42");
    assert!(c.done());
    // Nothing left to redo.
    press(&mut c, "redo");
    assert_eq!(result(&c), "42");
}

#[test]
fn operators_replace_each_other() {
    let mut c = calc();
    for k in ["8", "+", "×", "^"] {
        press(&mut c, k)
    }
    assert_eq!(expression(&c), "8^");
    press(&mut c, "−");
    assert_eq!(expression(&c), "8^−");
    let mut c = calc();
    press(&mut c, "+");
    assert_eq!(expression(&c), "");
    press(&mut c, "−");
    assert_eq!(expression(&c), "−");
}

#[test]
fn keys_that_type_themselves() {
    let mut c = calc();
    for k in [".", "5", ".", "(", "e"] {
        press(&mut c, k)
    }
    assert_eq!(expression(&c), "0.5×(e");
    press(&mut c, "x");
    assert_eq!(expression(&c), "0.5×(e");
    press(&mut c, "C");
    assert_eq!(expression(&c), "");
    assert_eq!(result(&c), "0");
}

#[test]
fn edit_is_truncated_and_angle_units_switch() {
    let mut c = calc();
    press(&mut c, &format!("edit:{}", "9".repeat(1500)));
    assert_eq!(c.expression().len(), 1024);
    press(&mut c, "edit:sin(90)");
    assert_eq!(result(&c), "1");
    press(&mut c, "rad");
    assert!(!c.degrees());
    assert_eq!(result(&c), format_number(90f64.sin()));
    press(&mut c, "deg");
    assert_eq!(result(&c), "1");
}

#[test]
fn errors_block_operators_and_memory() {
    let mut c = calc();
    press(&mut c, "edit:1/0");
    press(&mut c, "=");
    assert!(c.error());
    assert_eq!(result(&c), "Cannot divide by zero");
    press(&mut c, "+");
    assert_eq!(expression(&c), "1/0");
    press(&mut c, "MS");
    assert!(memory_value(&c).is_none());
    press(&mut c, "sqrt");
    assert_eq!(expression(&c), "1/0");
}

#[test]
fn save_failures_become_notices() {
    let mut c = Calculator::new(false);
    press(&mut c, "edit:1+1");
    assert_eq!(c.action("="), Effect::Evaluate);
    assert_eq!(c.finish_equals(Ok(value(2.0)), None), Effect::Save);
    c.finish_save(false);
    assert_eq!(string(&c.notice()), "Could not save history");
    assert_eq!(c.action("clearHistory"), Effect::Save);
    assert_eq!(string(&c.notice()), "");
    c.finish_save(true);
    assert_eq!(string(&c.notice()), "");
}

struct Rng(u64);

impl Rng {
    fn next(&mut self) -> u64 {
        self.0 = self.0.wrapping_mul(6364136223846793005).wrapping_add(1);
        self.0
    }
}

#[test]
fn malformed_input_never_panics() {
    let alphabet: Vec<char> = "0123456789.+-*/^%!()sqrtlnpie×÷−π abc🙂\0\n".chars().collect();
    let mut rng = Rng(718191);
    for _ in 0..10000 {
        let len = (rng.next() % 45) as usize;
        let text: String = (0..len).map(|_| alphabet[(rng.next() as usize) % alphabet.len()]).collect();
        // Runs the program to its end, giving 1 for every value asked: a
        // failure that the program does not hold itself would be a step
        // short of an operand.
        let mut run = Evaluation::of_expression(&text);
        loop {
            match run.request() {
                Request::Done(_) => break,
                Request::Fail(m) => {
                    assert!(program_fails_with(&text, &m), "{text:?}: {m}");
                    break;
                }
                _ => run.give(1f64.to_bits()),
            }
        }
        let _ = evaluate(&text, true);
    }
}

#[test]
fn only_equals_evaluates() {
    let keys = [
        "", "undo", "redo", "clearHistory", "delete:0", "deg", "rad", "MC", "MS", "M+", "M-", "recall:0",
        "reuse:0", "edit:1/0", "C", "CE", "back", "MR", "±", "square", "sqrt", "reciprocal", "sin", "cos",
        "tan", "ln", "log", "abs", "+", "−", "×", "÷", "^", "0", "7", ".", "(", ")", "%", "!", "pi", "e", "x",
    ];
    let mut c = calc();
    press(&mut c, "edit:6×7");
    press(&mut c, "MS");
    press(&mut c, "=");
    for k in keys {
        let was_error = c.error();
        let effect = c.action(k);
        assert_ne!(effect, Effect::Evaluate, "{k}");
        if k != "undo" && k != "redo" {
            assert!(!c.error() || was_error, "{k}");
        }
        if let Effect::Preview = effect {
            c.finish_preview(text("0"));
        }
    }
    assert_eq!(c.action("="), Effect::Evaluate);
}

#[test]
fn generated_valid_expressions() {
    let mut rng = Rng(912441);
    for _ in 0..2000 {
        let a = (rng.next() % 2001) as f64 - 1000.;
        let b = (rng.next() % 501) as f64 + 1.;
        let c = (rng.next() % 51) as f64 + 1.;
        let expression = format!("(({a})+({b}))*({c})/({b})");
        let want = (a + b) * c / b;
        let got = evaluate(&expression, true).unwrap();
        assert!((got - want).abs() < want.abs().max(1.) * 1e-11, "{expression}: {got}/{want}")
    }
}

#[test]
fn notation_does_not_change_programs() {
    for (plain, fancy) in [("2*3-pi", " 2 × 3 − π "), ("8/2^(1-pi)", "8÷2^( 1−π )"), ("sqrt(9)*-2", "sqrt ( 9 )×−2")] {
        let a = format!("{:?}", expression_program(plain));
        let b = format!("{:?}", expression_program(fancy));
        assert_eq!(a, b, "{plain} / {fancy}");
        assert_eq!(evaluate(plain, true).unwrap(), evaluate(fancy, true).unwrap());
    }
}

#[test]
fn evaluation_takes_operands_in_order() {
    let mut run = Evaluation::of_expression("8-2");
    for text in ["8", "2"] {
        match run.request() {
            Request::Number(t) => assert_eq!(string(&t), text),
            other => panic!("{other:?}"),
        }
        run.give(text.parse::<f64>().unwrap().to_bits());
    }
    match run.request() {
        Request::Binary(Routine::Sub, a, b) => assert_eq!((f64::from_bits(a), f64::from_bits(b)), (8.0, 2.0)),
        other => panic!("{other:?}"),
    }
    // A relative percentage multiplies by the left subtotal, which stays.
    let mut run = Evaluation::of_expression("200+10%");
    let mut asked = Vec::new();
    loop {
        let n = match run.request() {
            Request::Number(t) => string(&t).parse::<f64>().unwrap(),
            Request::Percent(v) => f64::from_bits(v) / 100.0,
            Request::Binary(r, a, b) => {
                asked.push((r, f64::from_bits(a), f64::from_bits(b)));
                native(r, f64::from_bits(a), f64::from_bits(b), true).unwrap()
            }
            Request::Done(v) => {
                assert_eq!(f64::from_bits(v), 220.0);
                break;
            }
            other => panic!("{other:?}"),
        };
        run.give(n.to_bits());
    }
    assert_eq!(asked, vec![(Routine::Mul, 0.1, 200.0), (Routine::Add, 200.0, 20.0)]);
}
