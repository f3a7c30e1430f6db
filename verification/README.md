# calc_core

A calculator whose numeric engine is Brainfuck, verified with Verus.

- `src/` is the verified library:
  - `natural.rs`: arbitrary-width tape cells, with their arithmetic delegated
    to `num-bigint`;
  - `vm.rs`, `compiler.rs`: the Brainfuck virtual machine and the compiler
    with its peephole optimizations, specified by a small-step semantics
    (`run`);
  - `peephole.rs`, `converse.rs`, `equivalence.rs`: proofs that each
    optimized op does what the literal code it replaces does and succeeds
    only where that code does, and that an optimized program runs as the
    literal one does;
  - `routine.rs`: the tape calling convention of the numeric routines, and
    their decimal fixed-point operands and results as text;
  - `expression.rs`, `stack.rs`: the expression grammar, which turns text
    into a postfix program of numbers and routine calls, and the proof that
    such programs always have their operands;
  - `evaluation.rs`: running such a program one request at a time, the
    numbers and routine runs being asked of the caller;
  - `calculator.rs`: the keypad, history, memory and undo logic, as a state
    machine that asks for evaluations and for storing the history through
    `Effect`s.
- `app/` is the shell: the floating-point side of the engine (writing an
  `f64` in decimal and reading one back, and answering an evaluation's
  requests), number display, the history file,
  the C interface of the desktop front end and the `bf-calc` command line.
  The numeric routines are read at run time from the directory named by
  `BRAINFUCK_CALCULATOR_PROGRAMS` (default `brainfuck/`).
- `tests/` drives the library; the calculator tests compute numbers with
  native `f64` arithmetic in place of the routines.
