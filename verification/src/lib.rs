//! An optimizing Brainfuck virtual machine with arbitrary-width cells, the
//! tape calling convention of its numeric routines, and the expression and
//! keypad logic of a calculator built on top of them.
pub mod natural;
pub mod vm;
pub mod compiler;
pub mod routine;
pub mod expression;
pub mod calculator;
pub mod peephole;
pub mod equivalence;
pub mod stack;
pub mod converse;
pub mod evaluation;
