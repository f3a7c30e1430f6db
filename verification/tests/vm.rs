use calc_core::compiler::compile;
use calc_core::natural::Natural;
use calc_core::vm::{exec, index, Op, DIV, LIMIT, MUL};

fn zeros(n: usize) -> Vec<Natural> {
    (0..n).map(|_| Natural::from_u32(0)).collect()
}

fn run_on(cells: usize, source: &str, opt: bool, values: &[u32], fuel: usize) -> Result<Vec<Natural>, String> {
    let mut tape = zeros(cells);
    for (i, v) in values.iter().enumerate() {
        tape[i] = Natural::from_u32(*v)
    }
    let ops = compile(source, opt)?;
    let mut pointer = 0;
    let mut consumed = 0;
    let mut output = Vec::new();
    let mut fuel = fuel;
    exec(&ops, &mut tape, &mut pointer, &[], &mut consumed, &mut output, &mut fuel)?;
    Ok(tape)
}

/// A 512-cell tape and 5,000,000 instructions, as the engine's own tests use.
fn run(source: &str, opt: bool, values: &[u32]) -> Result<Vec<Natural>, String> {
    run_on(512, source, opt, values, 5_000_000)
}

/// A 64-cell tape and 1,000,000 instructions, as the VM stress tests use.
fn run_small(source: &str, opt: bool, values: &[u32]) -> Result<Vec<Natural>, String> {
    run_on(64, source, opt, values, 1_000_000)
}

fn value(n: &Natural) -> u64 {
    let d = n.to_digits();
    d.iter().rev().fold(0u64, |acc, x| (acc << 32) | *x as u64)
}

#[test]
fn literal_matches_multiplication() {
    for a in 0..18 {
        for b in 0..18 {
            assert_eq!(run(MUL, true, &[a, b]).unwrap(), run(MUL, false, &[a, b]).unwrap())
        }
    }
}

#[test]
fn literal_matches_division() {
    for a in 0..50 {
        for b in 1..20 {
            assert_eq!(run(DIV, true, &[a, b, 1]).unwrap(), run(DIV, false, &[a, b, 1]).unwrap())
        }
    }
}

#[test]
fn exhaustive_small_divmod() {
    let mut n = 0;
    for a in 0..128 {
        for b in 1..65 {
            let initial = [a, b, 1];
            assert_eq!(run_small(DIV, true, &initial).unwrap(), run_small(DIV, false, &initial).unwrap());
            n += 1
        }
    }
    println!("CAMPAIGN VM divmod: {n} cases")
}

#[test]
fn multiplication_nonzero_output() {
    let mut n = 0;
    for a in 0..32 {
        for b in 0..32 {
            for extra in [0, 1, 17] {
                assert_eq!(
                    run_small(MUL, true, &[a, b, extra]).unwrap(),
                    run_small(MUL, false, &[a, b, extra]).unwrap()
                );
                n += 1
            }
        }
    }
    println!("CAMPAIGN VM multiply: {n} cases")
}

#[test]
fn affine_transfer_variants() {
    let mut n = 0;
    for a in 0..80 {
        for b in 1..12 {
            let code = format!("[-<{}> {}]", "+".repeat(b as usize), "");
            let source = format!(">{code}");
            assert_eq!(run_small(&source, true, &[7, a]).unwrap(), run_small(&source, false, &[7, a]).unwrap());
            n += 1
        }
    }
    println!("CAMPAIGN VM affine: {n} cases")
}

#[test]
fn boundaries_not_optimized_away() {
    for s in ["<>", "-+", ">-+<"] {
        assert!(run_small(s, false, &[]).is_err(), "literal {s}");
        assert!(run_small(s, true, &[]).is_err(), "optimized {s}");
    }
    let code = format!("{}+[><-]", ">".repeat(63));
    assert!(run_small(&code, true, &[]).is_err());
}

#[test]
fn zero_loop_has_no_side_effects() {
    for s in ["[<]", "[->-<]", "[----]", "[>+]"] {
        assert_eq!(run_small(s, true, &[]).unwrap(), run_small(s, false, &[]).unwrap())
    }
}

#[test]
fn fallback_preconditions() {
    for s in [MUL, DIV] {
        for init in [[0, 0, 0, 1, 0, 0], [0, 1, 0, 0, 0, 0], [2, 0, 1, 0, 0, 0], [1, 2, 1, 0, 0, 0]] {
            let a = run_small(s, true, &init);
            let b = run_small(s, false, &init);
            assert_eq!(a, b, "{s} {init:?}")
        }
    }
}

#[test]
fn io_and_execution_budget() {
    for optimized in [false, true] {
        let mut tape = zeros(64);
        let mut output = vec![];
        let input = b"Brainfuck 123\n";
        let mut consumed = 0;
        exec(
            &compile(",[.,]", optimized).unwrap(),
            &mut tape,
            &mut 0,
            input,
            &mut consumed,
            &mut output,
            &mut 1000,
        )
        .unwrap();
        assert_eq!(output, b"Brainfuck 123\n");
        let error = exec(&compile("+[]", optimized).unwrap(), &mut tape, &mut 0, &[], &mut 0, &mut vec![], &mut 100)
            .unwrap_err();
        assert!(error.contains("execution limit"));
    }
}

#[test]
fn cell_growth_limits() {
    let widest = Natural::from_digits(&[u32::MAX; (LIMIT / 32) as usize]);
    let mut tape = zeros(64);
    tape[0] = widest.clone();
    assert!(exec(&compile("+", true).unwrap(), &mut tape, &mut 0, &[], &mut 0, &mut vec![], &mut 100).is_err());
    let mut tape = zeros(64);
    tape[0] = Natural::from_u32(1);
    tape[1] = Natural::from_u32(1);
    tape[2] = widest;
    assert!(exec(&compile(MUL, true).unwrap(), &mut tape, &mut 0, &[], &mut 0, &mut vec![], &mut 100).is_err());
}

#[test]
fn no_native_fallback() {
    assert!(calc_core::routine::routine_position("unknown").is_err());
    // `calculate("add", 1e-30, 0.)` is refused at the operand: its 24-place
    // expansion is all zeros.
    assert!(calc_core::routine::magnitude_of(&format!("{:.24}", 1e-30f64), true).is_err());
    assert!(run("<", true, &[]).is_err());
    assert!(compile("[", true).is_err());
}

#[test]
fn multiplication_computes_product() {
    let tape = run(MUL, true, &[6, 7]).unwrap();
    assert_eq!(value(&tape[2]), 42);
    assert_eq!(value(&tape[0]), 0);
    let literal = run(MUL, false, &[6, 7]).unwrap();
    assert_eq!(value(&literal[2]), 42);
}

#[test]
fn divmod_computes_quotient_and_remainder() {
    let tape = run(DIV, true, &[17, 5, 1]).unwrap();
    assert_eq!(value(&tape[3]), 3);
    assert_eq!(value(&tape[2]), 3);
    assert_eq!(value(&tape[1]), 3);
}

#[test]
fn optimized_compilation_folds_runs() {
    let ops = compile(">>>+++--<", true).unwrap();
    assert!(matches!(ops.as_slice(), [Op::Move(3), Op::Add(3), Op::Add(-2), Op::Move(-1)]));
    let literal = compile(">>>", false).unwrap();
    assert_eq!(literal.len(), 3);
    let comments = compile("a>b+c", false).unwrap();
    assert_eq!(comments.len(), 2);
}

#[test]
fn affine_loop_is_recognized() {
    let ops = compile("[->++>>-<<<]", true).unwrap();
    match ops.as_slice() {
        [Op::Affine { terms, low, high }] => {
            assert_eq!(terms, &vec![(1, 2), (3, -1)]);
            assert_eq!((*low, *high), (0, 3));
        }
        other => panic!("{other:?}"),
    }
    assert!(calc_core::compiler::affine(b"[-+]").is_none());
    assert!(calc_core::compiler::affine(b"[->]").is_none());
    assert!(calc_core::compiler::affine(b"[--]").is_none());
    assert!(calc_core::compiler::affine(b"[-.]").is_none());
}

#[test]
fn brackets_are_linked() {
    let ops = compile("[[]]", false).unwrap();
    assert!(matches!(ops.as_slice(), [Op::Open(4), Op::Open(3), Op::Close(2), Op::Close(1)]));
    assert!(compile("]", false).is_err());
}

#[test]
fn index_reports_boundary() {
    assert_eq!(index(3, -1, 5), Ok(2));
    assert_eq!(index(3, 1, 5), Ok(4));
    assert_eq!(index(3, 2, 5).unwrap_err(), "Brainfuck tape boundary");
    assert_eq!(index(0, -1, 5).unwrap_err(), "Brainfuck tape boundary");
}

#[test]
fn underflow_is_an_error() {
    assert_eq!(run_small("-", false, &[]).unwrap_err(), "Brainfuck cell underflow");
    assert_eq!(run_small("+[]", false, &[]).unwrap_err(), "Calculation exceeded Brainfuck execution limit");
}

#[test]
fn all_sources_are_pure() {
    for s in [MUL, DIV] {
        assert!(s.bytes().all(|c| b"><+-[],.\n".contains(&c)));
        compile(s, true).unwrap();
    }
}

#[test]
fn optimization_keeps_compilation() {
    for s in ["[", "]", "[[]", "[]]", "][", "+[->+<]", "[[-<+>]]", "a[b]c", "[->-[>+>>]>[[-<+>]+>+>>]<<<<<", MUL, DIV, ""] {
        assert_eq!(compile(s, true).is_ok(), compile(s, false).is_ok(), "{s}");
    }
    assert!(compile("[->+<", true).is_err());
    assert!(compile(&format!("{MUL}]"), true).is_err());
    assert!(compile(&format!("[{DIV}"), false).is_err());
}

#[test]
fn optimized_programs_match_literal_runs() {
    let source = format!("{DIV}>>>>>>>>+++>++++<{MUL}>>>+++++[-<<+>>]<[->>++<<]<<<<<<<<<,.");
    for init in [[17, 5, 1], [0, 3, 1], [9, 9, 1], [4, 1, 1]] {
        assert_eq!(run(&source, true, &init).unwrap(), run(&source, false, &init).unwrap(), "{init:?}");
    }
    let tape = run(&source, true, &[17, 5, 1]).unwrap();
    assert_eq!(value(&tape[3]), 3);
    assert_eq!(value(&tape[9]), 4 + 5);
    assert_eq!(value(&tape[12]), 2 * 12);
}

#[test]
fn compound_loops_near_the_tape_end_fall_back() {
    // Fewer than five cells right of the head: the optimized divmod runs the
    // literal loop, which runs to its end here.
    let initial = [0, 0, 0, 1, 1, 0, 0, 0];
    let literal = run_on(8, &format!(">>>{DIV}"), false, &initial, 1000).unwrap();
    let optimized = run_on(8, &format!(">>>{DIV}"), true, &initial, 1000).unwrap();
    assert_eq!(optimized, literal);
    let source = format!(">>>{DIV}");
    let divided = run_on(6, &source, true, &[0, 0, 0, 1, 1, 0], 1000).unwrap();
    assert_eq!(divided, run_on(6, &source, false, &[0, 0, 0, 1, 1, 0], 1000).unwrap());
    // The multiplication loop near the end fails as its literal loop does.
    let short = [2, 3, 0];
    assert_eq!(
        run_on(3, MUL, true, &short, 1000).unwrap_err(),
        run_on(3, MUL, false, &short, 1000).unwrap_err()
    );
}

#[test]
fn optimized_fallbacks_are_literal_runs() {
    // Divmod with a remainder cell other than 1 and multiplication with a
    // nonempty cell 3: the optimized ops run the literal loops themselves,
    // and every optimized success is the literal program's success.
    for init in [[7, 3, 2, 0], [9, 4, 3, 0], [5, 2, 1, 1], [6, 6, 6, 6]] {
        let div = run(DIV, true, &init).unwrap();
        assert_eq!(div, run(DIV, false, &init).unwrap(), "{init:?}");
        let mul = run(MUL, true, &init).unwrap();
        assert_eq!(mul, run(MUL, false, &init).unwrap(), "{init:?}");
    }
    // Remaining divisor 3 and remainder cell 2: the divisor is 4, and the
    // loop splits 7 units and the one already counted into 2 and 0.
    let div = run(DIV, true, &[7, 3, 2, 0]).unwrap();
    let cells: Vec<u64> = div[..4].iter().map(value).collect();
    assert_eq!(cells, vec![0, 4, 1, 2]);
}

#[test]
fn compiles_exactly_when_brackets_match() {
    for optimize in [false, true] {
        for source in ["", "x[y]z", "[[-]>[+]]", "comment ] only [ here", "][", "[[]", "a]"] {
            let balanced = source.chars().try_fold(0i32, |depth, c| {
                let depth = depth + (c == '[') as i32 - (c == ']') as i32;
                (depth >= 0).then_some(depth)
            }) == Some(0);
            let compiled = compile(source, optimize);
            assert_eq!(compiled.is_ok(), balanced, "{source:?} {optimize}");
            if let Err(message) = compiled {
                assert_eq!(message, "Unmatched Brainfuck bracket");
            }
        }
    }
}

#[test]
fn only_instructions_matter() {
    let text = format!("mul: {MUL} then move > twice >, read, and print.");
    let filtered: String = text.chars().filter(|c| "><+-[],.".contains(*c)).collect();
    for optimize in [false, true] {
        let a = format!("{:?}", compile(&text, optimize));
        let b = format!("{:?}", compile(&filtered, optimize));
        assert_eq!(a, b);
    }
    assert_eq!(compile(&filtered, false).unwrap().len(), filtered.len());
}

#[test]
fn output_keeps_what_was_written() {
    let ops = compile("+++.>++.", true).unwrap();
    let mut tape = zeros(4);
    let mut output = vec![7u8, 9];
    let (mut pointer, mut consumed, mut fuel) = (0, 0, 100);
    exec(&ops, &mut tape, &mut pointer, &[], &mut consumed, &mut output, &mut fuel).unwrap();
    assert_eq!(output, vec![7, 9, 3, 2]);
}
