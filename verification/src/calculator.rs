//! The calculator's keypad: editing the expression, memory, repeated
//! equals, undo and redo, and the history of results.
//!
//! Numbers are the business of the numeric engine: a key that needs one
//! (`=`, the memory keys, and every edit, which previews its result) asks for
//! it through the `Effect` it returns, and the answer comes back through
//! `finish_preview`, `finish_equals`, `finish_memory` and `finish_save`.
//! Values are carried as the bits of an `f64` with their display text.
use crate::expression::is_digit;
use vstd::prelude::*;
use vstd::string::StrSliceExecFns;

verus! {

/// The most results the history keeps, and the most steps undo remembers.
pub const HISTORY_LIMIT: usize = 100;

/// The most characters an edit keeps, and the most bytes an expression may
/// reach by typing.
pub const EXPRESSION_LIMIT: usize = 1024;

/// Whether `c` is one of the operators `+ - − * / × ÷ ^`.
pub open spec fn is_operator(c: char) -> bool {
    c == '+' || c == '-' || c == '−' || c == '*' || c == '/' || c == '×' || c == '÷' || c == '^'
}

pub open spec fn is_sign(c: char) -> bool {
    c == '+' || c == '-' || c == '−'
}

/// Whether the operator `operator` at character `index` of `text` is a
/// binary operator: a sign is unary at the start, after another operator or
/// `(`, and inside an exponent such as `1e-5`.
pub open spec fn binary_operator_spec(text: Seq<char>, index: int, operator: char) -> bool {
    if !is_operator(operator) {
        false
    } else if is_sign(operator) {
        if index <= 0 {
            false
        } else {
            let prev = text[index - 1];
            if is_operator(prev) || prev == '(' {
                false
            } else if (prev == 'e' || prev == 'E') && index >= 2 && (is_digit(text[index - 2])
                || text[index - 2] == '.') {
                false
            } else {
                true
            }
        }
    } else {
        true
    }
}

/// Scanning `text` backwards from character `k - 1` at parenthesis depth
/// `depth` for the operator that starts the last operand.
pub open spec fn operand_scan(text: Seq<char>, k: int, depth: int) -> int
    decreases k,
{
    if k <= 0 || k > text.len() {
        0
    } else {
        let i = k - 1;
        let c = text[i];
        if c == ')' {
            operand_scan(text, i, depth + 1)
        } else if c == '(' && depth > 0 {
            operand_scan(text, i, depth - 1)
        } else if depth == 0 && binary_operator_spec(text, i, c) {
            i + 1
        } else {
            operand_scan(text, i, depth)
        }
    }
}

/// Where the last operand of an expression starts: after its last binary
/// operator outside parentheses, or at 0.
pub open spec fn operand_start_spec(text: Seq<char>) -> int {
    operand_scan(text, text.len() as int, 0)
}

pub open spec fn is_repeat_operator(c: char) -> bool {
    c == '+' || c == '−' || c == '×' || c == '÷' || c == '*' || c == '/' || c == '-'
}

/// Scanning backwards for the operator that repeated equals repeats.
pub open spec fn repeat_scan(text: Seq<char>, k: int, depth: int) -> Option<int>
    decreases k,
{
    if k <= 0 || k > text.len() {
        None
    } else {
        let i = k - 1;
        let c = text[i];
        if c == ')' {
            repeat_scan(text, i, depth + 1)
        } else if c == '(' {
            repeat_scan(text, i, depth - 1)
        } else if depth == 0 && is_repeat_operator(c) && i > 0 && binary_operator_spec(text, i, c) {
            Some(i)
        } else {
            repeat_scan(text, i, depth)
        }
    }
}

/// The position of the last top-level binary `+ − × ÷ * / -` of an
/// expression (not at its start): the operation that `=` repeats.
pub open spec fn repeat_site_spec(text: Seq<char>) -> Option<int> {
    repeat_scan(text, text.len() as int, 0)
}

/// The number of bytes of the UTF-8 encoding of `c`.
pub open spec fn char_width(c: char) -> nat {
    let u = c as u32;
    if u < 0x80 {
        1
    } else if u < 0x800 {
        2
    } else if u < 0x10000 {
        3
    } else {
        4
    }
}

/// The number of bytes of the UTF-8 encoding of `s`.
pub open spec fn byte_length(s: Seq<char>) -> nat
    decreases s.len(),
{
    if s.len() == 0 {
        0
    } else {
        byte_length(s.drop_last()) + char_width(s.last())
    }
}

/// Whether `c` separates the segments `.` looks at.
pub open spec fn is_segment_separator(c: char) -> bool {
    c == '+' || c == '−' || c == '×' || c == '÷' || c == '^' || c == '(' || c == ')'
}

/// The part of an expression after its last `+ − × ÷ ^ ( )`.
pub open spec fn last_segment_start(s: Seq<char>) -> int
    decreases s.len(),
{
    if s.len() == 0 {
        0
    } else if is_segment_separator(s.last()) {
        s.len() as int
    } else {
        last_segment_start(s.drop_last())
    }
}

/// The value of a sequence of decimal digits.
pub open spec fn decimal(s: Seq<char>) -> nat
    decreases s.len(),
{
    if s.len() == 0 {
        0
    } else {
        decimal(s.drop_last()) * 10 + (s.last() as u32 - '0' as u32) as nat
    }
}

/// `usize::from_str`: an optional `+` and at least one decimal digit,
/// naming a value that fits in a `usize`.
pub open spec fn parse_index(s: Seq<char>) -> Option<nat> {
    let digits = unsigned_digits(s);
    if digits.len() > 0 && all_digits(digits) && decimal(digits) <= usize::MAX {
        Some(decimal(digits))
    } else {
        None
    }
}

/// The digits of an unsigned number: the text after an optional `+`.
pub open spec fn unsigned_digits(s: Seq<char>) -> Seq<char> {
    if s.len() > 0 && s[0] == '+' {
        s.drop_first()
    } else {
        s
    }
}

pub open spec fn all_digits(s: Seq<char>) -> bool {
    forall|k: int| 0 <= k < s.len() ==> is_digit(#[trigger] s[k])
}

/// The part of `key` after `prefix`, if it starts with it.
pub open spec fn after_prefix(key: Seq<char>, prefix: Seq<char>) -> Option<Seq<char>> {
    if prefix.len() <= key.len() && key.subrange(0, prefix.len() as int) == prefix {
        Some(key.subrange(prefix.len() as int, key.len() as int))
    } else {
        None
    }
}

/// The index in a key `prefix:N`.
pub open spec fn key_index(key: Seq<char>, prefix: Seq<char>) -> Option<nat> {
    match after_prefix(key, prefix) {
        Some(rest) => parse_index(rest),
        None => None,
    }
}

/// A value: the bits of an `f64` and its display text.
pub ghost struct SValue {
    pub bits: u64,
    pub text: Seq<char>,
}

/// What undo and redo restore.
pub ghost struct Snap {
    pub expression: Seq<char>,
    pub result: Seq<char>,
    pub done: bool,
    pub error: bool,
}

/// The state of a calculator.
pub ghost struct Model {
    pub expression: Seq<char>,
    pub result: Seq<char>,
    pub history: Seq<(Seq<char>, Seq<char>)>,
    pub memory: Option<SValue>,
    pub degrees: bool,
    pub error: bool,
    pub notice: Seq<char>,
    pub done: bool,
    pub undo: Seq<Snap>,
    pub redo: Seq<Snap>,
    pub repeat: Option<(char, SValue)>,
    pub transient: bool,
}

/// A memory key.
#[derive(Clone, Copy, Debug, PartialEq, Eq)]
pub enum MemoryOp {
    /// `MS`: stores the result.
    Store,
    /// `M+`: adds the result to the memory.
    Add,
    /// `M-`: subtracts the result from the memory.
    Subtract,
}

/// What a key asks of the numeric engine and the store once it is handled.
#[derive(Clone, Copy, Debug, PartialEq, Eq)]
pub enum Effect {
    /// Nothing.
    Nothing,
    /// The result should show the expression's value: its display text, or
    /// `0` when it has none; see `finish_preview`.
    Preview,
    /// The history should be stored; see `finish_save`.
    Save,
    /// The expression should be evaluated; see `finish_equals`.
    Evaluate,
    /// The result, read as a number, goes to the memory; see `finish_memory`.
    Memory(MemoryOp),
}

pub open spec fn snap(m: Model) -> Snap {
    Snap { expression: m.expression, result: m.result, done: m.done, error: m.error }
}

pub open spec fn restore(m: Model, s: Snap) -> Model {
    Model { expression: s.expression, result: s.result, done: s.done, error: s.error, repeat: None, ..m }
}

/// What an edit does before its preview.
pub open spec fn previewed(m: Model) -> Model {
    Model { error: false, done: false, repeat: None, ..m }
}

/// A step that undo can take back: the state goes on the undo stack, which
/// keeps its last `HISTORY_LIMIT` entries, and redo is forgotten.
pub open spec fn recorded(m: Model) -> Model {
    let undo = m.undo.push(snap(m));
    Model {
        undo: if undo.len() > HISTORY_LIMIT {
            undo.drop_first()
        } else {
            undo
        },
        redo: Seq::empty(),
        ..m
    }
}

pub open spec fn save_effect(m: Model) -> Effect {
    if m.transient {
        Effect::Nothing
    } else {
        Effect::Save
    }
}

pub open spec fn with_expression(m: Model, e: Seq<char>) -> Model {
    Model { expression: e, ..m }
}

/// The text that wraps the last operand for a function key.
pub open spec fn wrapped(key: Seq<char>, part: Seq<char>) -> Seq<char> {
    if key == "±"@ {
        seq!['-', '('] + part + seq![')']
    } else if key == "square"@ {
        seq!['('] + part + seq![')', '^', '2']
    } else if key == "reciprocal"@ {
        seq!['(', '1', '/', '('] + part + seq![')', ')']
    } else {
        key + seq!['('] + part + seq![')']
    }
}

pub open spec fn is_function_key(key: Seq<char>) -> bool {
    key == "±"@ || key == "square"@ || key == "sqrt"@ || key == "reciprocal"@ || key == "sin"@
        || key == "cos"@ || key == "tan"@ || key == "ln"@ || key == "log"@ || key == "abs"@
}

pub open spec fn is_operator_key(key: Seq<char>) -> bool {
    key == "+"@ || key == "−"@ || key == "×"@ || key == "÷"@ || key == "^"@
}

/// Whether a key types itself into the expression.
pub open spec fn is_input_key(key: Seq<char>) -> bool {
    (key.len() == 1 && (is_digit(key[0]) || key[0] == '.' || key[0] == '(' || key[0] == ')' || key[0]
        == '%' || key[0] == '!')) || key == "pi"@ || key == "e"@
}

pub open spec fn ends_with_any(s: Seq<char>, set: Seq<char>) -> bool {
    s.len() > 0 && set.contains(s.last())
}

/// A function key: the last operand is wrapped in the function.
pub open spec fn function_key_spec(m: Model, key: Seq<char>) -> (Model, Effect) {
    if m.error {
        (m, Effect::Nothing)
    } else {
        let e = if m.done {
            m.result
        } else {
            m.expression
        };
        let start = operand_start_spec(e);
        let part = e.subrange(start, e.len() as int);
        let part = if part.len() == 0 {
            seq!['0']
        } else {
            part
        };
        (previewed(with_expression(m, e.subrange(0, start) + wrapped(key, part))), Effect::Preview)
    }
}

/// An operator key.
pub open spec fn operator_key_spec(m: Model, key: Seq<char>) -> (Model, Effect) {
    if m.error {
        (m, Effect::Nothing)
    } else {
        let m1 = if m.done {
            Model { expression: m.result, done: false, repeat: None, ..m }
        } else {
            m
        };
        let e = m1.expression;
        if e.len() == 0 {
            (if key == "−"@ {
                with_expression(m1, e.push('−'))
            } else {
                m1
            }, Effect::Nothing)
        } else if key == "−"@ && ends_with_any(e, seq!['×', '÷', '^']) {
            (with_expression(m1, e.push('−')), Effect::Nothing)
        } else {
            let e2 = if ends_with_any(e, seq!['+', '−', '×', '÷', '^']) {
                e.drop_last()
            } else {
                e
            };
            (with_expression(m1, e2 + key), Effect::Nothing)
        }
    }
}

/// A key that types itself.
pub open spec fn input_key_spec(m: Model, key: Seq<char>) -> (Model, Effect) {
    let m1 = if m.done || m.error {
        Model {
            expression: if key == "%"@ || key == "!"@ {
                m.result
            } else {
                Seq::empty()
            },
            done: false,
            error: false,
            ..m
        }
    } else {
        m
    };
    let e = m1.expression;
    if byte_length(e) > EXPRESSION_LIMIT {
        (m1, Effect::Nothing)
    } else {
        let seg = e.subrange(last_segment_start(e), e.len() as int);
        if key == "."@ && seg.contains('.') {
            (m1, Effect::Nothing)
        } else {
            let e1 = if key == "."@ && seg.len() == 0 {
                e.push('0')
            } else {
                e
            };
            let e2 = if (key == "pi"@ || key == "e"@ || key == "("@) && e1.len() > 0 && (is_digit(
                e1.last(),
            ) || e1.last() == ')' || e1.last() == '%' || e1.last() == '!') {
                e1.push('×')
            } else {
                e1
            };
            (previewed(with_expression(m1, e2 + key)), Effect::Preview)
        }
    }
}

/// The `=` key.
pub open spec fn equals_key_spec(m: Model) -> (Model, Effect) {
    if m.expression.len() == 0 {
        (m, Effect::Nothing)
    } else if m.done {
        match m.repeat {
            Some((op, v)) => (with_expression(m, m.result.push(op) + v.text), Effect::Evaluate),
            None => (m, Effect::Nothing),
        }
    } else {
        (m, Effect::Evaluate)
    }
}

/// The keys after the undo stack has taken the state.
pub open spec fn recorded_key_spec(m: Model, key: Seq<char>) -> (Model, Effect) {
    if key_index(key, "recall:"@) is Some {
        let i = key_index(key, "recall:"@)->0;
        if i < m.history.len() {
            let r = m.history[i as int].1;
            (Model { expression: r, result: r, done: true, error: false, repeat: None, ..m }, Effect::Nothing)
        } else {
            (m, Effect::Nothing)
        }
    } else if key_index(key, "reuse:"@) is Some {
        let i = key_index(key, "reuse:"@)->0;
        if i < m.history.len() {
            (previewed(with_expression(m, m.history[i as int].0)), Effect::Preview)
        } else {
            (m, Effect::Nothing)
        }
    } else if after_prefix(key, "edit:"@) is Some {
        let text = after_prefix(key, "edit:"@)->0;
        let kept = if text.len() > EXPRESSION_LIMIT {
            text.subrange(0, EXPRESSION_LIMIT as int)
        } else {
            text
        };
        (previewed(with_expression(m, kept)), Effect::Preview)
    } else if key == "C"@ {
        (Model { expression: Seq::empty(), result: seq!['0'], done: false, error: false, repeat: None, ..m }, Effect::Nothing)
    } else if key == "CE"@ {
        let e = m.expression;
        (previewed(with_expression(m, e.subrange(0, operand_start_spec(e)))), Effect::Preview)
    } else if key == "back"@ {
        let e = m.expression;
        (previewed(with_expression(m, if e.len() > 0 {
            e.drop_last()
        } else {
            e
        })), Effect::Preview)
    } else if key == "MR"@ {
        match m.memory {
            Some(v) => {
                let e = m.expression;
                let e2 = if m.done || m.error {
                    v.text
                } else {
                    e.subrange(0, operand_start_spec(e)) + v.text
                };
                (previewed(with_expression(m, e2)), Effect::Preview)
            },
            None => (m, Effect::Nothing),
        }
    } else if key == "="@ {
        equals_key_spec(m)
    } else if is_function_key(key) {
        function_key_spec(m, key)
    } else if is_operator_key(key) {
        operator_key_spec(m, key)
    } else if is_input_key(key) {
        input_key_spec(m, key)
    } else {
        (m, Effect::Nothing)
    }
}

/// Handling a key; the notice is cleared first.
pub open spec fn action_spec(m0: Model, key: Seq<char>) -> (Model, Effect) {
    let m = Model { notice: Seq::empty(), ..m0 };
    if key.len() == 0 {
        (m, Effect::Nothing)
    } else if key == "undo"@ {
        if m.undo.len() > 0 {
            let s = m.undo.last();
            (restore(Model { undo: m.undo.drop_last(), redo: m.redo.push(snap(m)), ..m }, s), Effect::Nothing)
        } else {
            (m, Effect::Nothing)
        }
    } else if key == "redo"@ {
        if m.redo.len() > 0 {
            let s = m.redo.last();
            (restore(Model { redo: m.redo.drop_last(), undo: m.undo.push(snap(m)), ..m }, s), Effect::Nothing)
        } else {
            (m, Effect::Nothing)
        }
    } else if key == "clearHistory"@ {
        let m1 = Model { history: Seq::empty(), ..m };
        (m1, save_effect(m1))
    } else if key_index(key, "delete:"@) is Some {
        let i = key_index(key, "delete:"@)->0;
        if i < m.history.len() {
            let m1 = Model { history: m.history.remove(i as int), ..m };
            (m1, save_effect(m1))
        } else {
            (m, Effect::Nothing)
        }
    } else if key == "deg"@ || key == "rad"@ {
        let m1 = Model { degrees: key == "deg"@, ..m };
        if !m1.done {
            (previewed(m1), Effect::Preview)
        } else {
            (m1, Effect::Nothing)
        }
    } else if key == "MC"@ {
        (Model { memory: None, ..m }, Effect::Nothing)
    } else if key == "MS"@ || key == "M+"@ || key == "M-"@ {
        if m.error {
            (m, Effect::Nothing)
        } else {
            (m, Effect::Memory(if key == "MS"@ {
                MemoryOp::Store
            } else if key == "M+"@ {
                MemoryOp::Add
            } else {
                MemoryOp::Subtract
            }))
        }
    } else {
        recorded_key_spec(recorded(m), key)
    }
}


/// The characters of a string.
pub fn chars_of(s: &str) -> (r: Vec<char>)
    ensures
        r@ == s@,
{
    let n = s.unicode_len();
    let mut r: Vec<char> = Vec::new();
    let mut i: usize = 0;
    while i < n
        invariant
            n == s@.len(),
            i <= n,
            r@ == s@.take(i as int),
        decreases n - i,
    {
        r.push(s.get_char(i));
        assert(r@ =~= s@.take(i + 1));
        i = i + 1;
    }
    assert(s@.take(n as int) =~= s@);
    r
}

/// A copy of a sequence of characters.
pub fn copy_chars(v: &[char]) -> (r: Vec<char>)
    ensures
        r@ == v@,
{
    let mut r: Vec<char> = Vec::new();
    let mut i: usize = 0;
    while i < v.len()
        invariant
            i <= v@.len(),
            r@ == v@.take(i as int),
        decreases v.len() - i,
    {
        r.push(v[i]);
        assert(r@ =~= v@.take(i + 1));
        i = i + 1;
    }
    assert(v@.take(i as int) =~= v@);
    r
}

/// Appends the characters of `tail` to `v`.
fn extend(v: &mut Vec<char>, tail: &[char])
    ensures
        final(v)@ == old(v)@ + tail@,
{
    let mut i: usize = 0;
    while i < tail.len()
        invariant
            i <= tail@.len(),
            v@ == old(v)@ + tail@.take(i as int),
        decreases tail.len() - i,
    {
        v.push(tail[i]);
        assert(v@ =~= old(v)@ + tail@.take(i + 1));
        i = i + 1;
    }
    assert(tail@.take(i as int) =~= tail@);
}

/// Whether `v` holds exactly the characters of `lit`.
fn same_text(v: &[char], lit: &str) -> (r: bool)
    ensures
        r == (v@ == lit@),
{
    let n = lit.unicode_len();
    if v.len() != n {
        return false;
    }
    let mut k: usize = 0;
    while k < n
        invariant
            n == lit@.len(),
            v@.len() == n,
            k <= n,
            forall|t: int| 0 <= t < k ==> v@[t] == lit@[t],
        decreases n - k,
    {
        if v[k] != lit.get_char(k) {
            return false;
        }
        k = k + 1;
    }
    assert(v@ =~= lit@);
    true
}

/// The part of `key` after `prefix`, if it starts with it.
fn strip_prefix(key: &[char], prefix: &str) -> (r: Option<Vec<char>>)
    ensures
        match after_prefix(key@, prefix@) {
            Some(rest) => r matches Some(v) && v@ == rest,
            None => r is None,
        },
{
    let n = prefix.unicode_len();
    if n > key.len() {
        return None;
    }
    let mut k: usize = 0;
    while k < n
        invariant
            n == prefix@.len(),
            n <= key@.len(),
            k <= n,
            forall|t: int| 0 <= t < k ==> key@[t] == prefix@[t],
        decreases n - k,
    {
        if key[k] != prefix.get_char(k) {
            assert(key@.subrange(0, n as int)[k as int] != prefix@[k as int]);
            return None;
        }
        k = k + 1;
    }
    assert(key@.subrange(0, n as int) =~= prefix@);
    let mut rest: Vec<char> = Vec::new();
    let mut i = n;
    while i < key.len()
        invariant
            n <= i <= key@.len(),
            rest@ == key@.subrange(n as int, i as int),
        decreases key.len() - i,
    {
        rest.push(key[i]);
        assert(rest@ =~= key@.subrange(n as int, i + 1));
        i = i + 1;
    }
    Some(rest)
}

/// `usize::from_str` on characters; see `parse_index`.
fn parse_usize(s: &[char]) -> (r: Option<usize>)
    ensures
        match parse_index(s@) {
            Some(v) => r == Some(v as usize),
            None => r is None,
        },
{
    let start: usize = if s.len() > 0 && s[0] == '+' {
        1
    } else {
        0
    };
    let ghost digits = unsigned_digits(s@);
    assert(digits =~= s@.subrange(start as int, s@.len() as int));
    if start >= s.len() {
        return None;
    }
    let mut value: usize = 0;
    let mut i = start;
    while i < s.len()
        invariant
            start <= i <= s@.len(),
            digits == unsigned_digits(s@),
            digits == s@.subrange(start as int, s@.len() as int),
            forall|k: int| 0 <= k < i - start ==> is_digit(#[trigger] digits[k]),
            value as nat == decimal(digits.take(i - start)),
        decreases s.len() - i,
    {
        let c = s[i];
        assert(digits[i - start] == c);
        if !('0' <= c && c <= '9') {
            assert(!is_digit(digits[i - start]));
            assert(!all_digits(digits));
            assert(parse_index(s@) is None);
            return None;
        }
        assert(digits.take(i - start + 1).last() == c);
        let d = (c as u32 - '0' as u32) as usize;
        assert(digits.take(i - start + 1).drop_last() =~= digits.take(i - start));
        let next = match value.checked_mul(10) {
            Some(t) => t.checked_add(d),
            None => None,
        };
        match next {
            Some(v) => {
                value = v;
            },
            None => {
                proof {
                    assert(decimal(digits.take(i - start + 1)) == value * 10 + d);
                    if all_digits(digits) {
                        lemma_decimal_prefix(digits, i - start + 1);
                    }
                }
                assert(parse_index(s@) is None);
                return None;
            },
        }
        i = i + 1;
    }
    assert(digits.take(i - start) =~= digits);
    Some(value)
}

/// A longer run of digits never names a smaller number.
proof fn lemma_decimal_prefix(digits: Seq<char>, k: int)
    requires
        0 <= k <= digits.len(),
        forall|t: int| 0 <= t < digits.len() ==> is_digit(#[trigger] digits[t]),
    ensures
        decimal(digits.take(k)) <= decimal(digits),
    decreases digits.len() - k,
{
    if k < digits.len() {
        lemma_decimal_prefix(digits, k + 1);
        assert(digits.take(k + 1).drop_last() =~= digits.take(k));
    } else {
        assert(digits.take(k) =~= digits);
    }
}

fn char_is_operator(c: char) -> (r: bool)
    ensures
        r == is_operator(c),
{
    c == '+' || c == '-' || c == '−' || c == '*' || c == '/' || c == '×' || c == '÷' || c == '^'
}

/// Whether `operator` at character `index` of `text` is a binary operator;
/// see `binary_operator_spec`.
pub fn binary_operator_at(text: &[char], index: usize, operator: char) -> (r: bool)
    requires
        is_sign(operator) ==> index <= text@.len(),
    ensures
        r == binary_operator_spec(text@, index as int, operator),
{
    if !char_is_operator(operator) {
        return false;
    }
    if operator == '+' || operator == '-' || operator == '−' {
        if index == 0 {
            return false;
        }
        let prev = text[index - 1];
        if char_is_operator(prev) || prev == '(' {
            return false;
        }
        if (prev == 'e' || prev == 'E') && index >= 2 && (('0' <= text[index - 2] && text[index - 2] <= '9')
            || text[index - 2] == '.') {
            return false;
        }
    }
    true
}

/// Where the last operand of `text` starts; see `operand_start_spec`.
pub fn operand_start_of(text: &[char]) -> (r: usize)
    ensures
        r == operand_start_spec(text@),
        r <= text@.len(),
{
    let mut depth: usize = 0;
    let mut k: usize = text.len();
    while k > 0
        invariant
            k <= text@.len(),
            depth <= text@.len() - k,
            operand_scan(text@, k as int, depth as int) == operand_start_spec(text@),
        decreases k,
    {
        let i = k - 1;
        let c = text[i];
        if c == ')' {
            depth = depth + 1;
        } else if c == '(' && depth > 0 {
            depth = depth - 1;
        } else if depth == 0 && binary_operator_at(text, i, c) {
            return i + 1;
        }
        k = i;
    }
    0
}

fn is_repeat_operator_char(c: char) -> (r: bool)
    ensures
        r == is_repeat_operator(c),
{
    c == '+' || c == '−' || c == '×' || c == '÷' || c == '*' || c == '/' || c == '-'
}

/// The operator `=` repeats; see `repeat_site_spec`.
pub fn repeat_site_of(text: &[char]) -> (r: Option<usize>)
    ensures
        match repeat_site_spec(text@) {
            Some(i) => r == Some(i as usize),
            None => r is None,
        },
{
    let mut depth: i128 = 0;
    let mut k: usize = text.len();
    while k > 0
        invariant
            k <= text@.len(),
            -(text@.len() - k) <= depth <= text@.len() - k,
            text@.len() <= usize::MAX,
            repeat_scan(text@, k as int, depth as int) == repeat_site_spec(text@),
        decreases k,
    {
        let i = k - 1;
        let c = text[i];
        if c == ')' {
            depth = depth + 1;
        } else if c == '(' {
            depth = depth - 1;
        } else if depth == 0 && is_repeat_operator_char(c) && i > 0 && binary_operator_at(text, i, c) {
            return Some(i);
        }
        k = i;
    }
    None
}

fn width(c: char) -> (r: usize)
    ensures
        r == char_width(c),
{
    let u = c as u32;
    if u < 0x80 {
        1
    } else if u < 0x800 {
        2
    } else if u < 0x10000 {
        3
    } else {
        4
    }
}

/// Whether the UTF-8 encoding of `s` takes more than `limit` bytes.
fn longer_than(s: &[char], limit: usize) -> (r: bool)
    requires
        limit <= usize::MAX - 4,
    ensures
        r == (byte_length(s@) > limit),
{
    let mut total: usize = 0;
    let mut i: usize = 0;
    while i < s.len()
        invariant
            i <= s@.len(),
            total == byte_length(s@.take(i as int)),
            total <= limit,
            limit <= usize::MAX - 4,
        decreases s.len() - i,
    {
        assert(s@.take(i + 1).drop_last() =~= s@.take(i as int));
        total = total + width(s[i]);
        if total > limit {
            proof {
                lemma_byte_length_prefix(s@, i + 1);
            }
            return true;
        }
        i = i + 1;
    }
    assert(s@.take(i as int) =~= s@);
    false
}

proof fn lemma_byte_length_prefix(s: Seq<char>, k: int)
    requires
        0 <= k <= s.len(),
    ensures
        byte_length(s.take(k)) <= byte_length(s),
    decreases s.len() - k,
{
    if k < s.len() {
        lemma_byte_length_prefix(s, k + 1);
        assert(s.take(k + 1).drop_last() =~= s.take(k));
    } else {
        assert(s.take(k) =~= s);
    }
}

fn is_separator(c: char) -> (r: bool)
    ensures
        r == is_segment_separator(c),
{
    c == '+' || c == '−' || c == '×' || c == '÷' || c == '^' || c == '(' || c == ')'
}

/// Where the part of `s` after its last `+ − × ÷ ^ ( )` starts.
fn segment_start(s: &[char]) -> (r: usize)
    ensures
        r == last_segment_start(s@),
        r <= s@.len(),
{
    let mut k = s.len();
    assert(s@.take(k as int) =~= s@);
    while k > 0
        invariant
            k <= s@.len(),
            last_segment_start(s@) == last_segment_start(s@.take(k as int)),
        decreases k,
    {
        assert(s@.take(k as int).drop_last() =~= s@.take(k - 1));
        if is_separator(s[k - 1]) {
            return k;
        }
        k = k - 1;
    }
    0
}


/// A result kept in the history: the expression and its display text.
#[derive(Debug)]
pub struct Entry {
    pub expression: Vec<char>,
    pub result: Vec<char>,
}

impl View for Entry {
    type V = (Seq<char>, Seq<char>);

    open spec fn view(&self) -> (Seq<char>, Seq<char>) {
        (self.expression@, self.result@)
    }
}

impl Clone for Entry {
    fn clone(&self) -> (r: Entry)
        ensures
            r@ == self@,
    {
        Entry { expression: copy_chars(&self.expression), result: copy_chars(&self.result) }
    }
}

/// A number: the bits of an `f64` and its display text.
#[derive(Debug)]
pub struct Value {
    pub bits: u64,
    pub text: Vec<char>,
}

impl View for Value {
    type V = SValue;

    open spec fn view(&self) -> SValue {
        SValue { bits: self.bits, text: self.text@ }
    }
}

impl Clone for Value {
    fn clone(&self) -> (r: Value)
        ensures
            r@ == self@,
    {
        Value { bits: self.bits, text: copy_chars(&self.text) }
    }
}

struct Snapshot {
    expression: Vec<char>,
    result: Vec<char>,
    done: bool,
    error: bool,
}

impl View for Snapshot {
    type V = Snap;

    closed spec fn view(&self) -> Snap {
        Snap { expression: self.expression@, result: self.result@, done: self.done, error: self.error }
    }
}

pub open spec fn history_view(h: Seq<Entry>) -> Seq<(Seq<char>, Seq<char>)> {
    h.map_values(|e: Entry| e@)
}

spec fn snaps_view(s: Seq<Snapshot>) -> Seq<Snap> {
    s.map_values(|x: Snapshot| x@)
}

pub open spec fn value_option(v: Option<Value>) -> Option<SValue> {
    match v {
        Some(v) => Some(v@),
        None => None,
    }
}

pub open spec fn repeat_option(r: Option<(char, Value)>) -> Option<(char, SValue)> {
    match r {
        Some((c, v)) => Some((c, v@)),
        None => None,
    }
}

/// A calculator: the expression being typed, the shown result, the history,
/// the memory, and the undo and redo stacks.
pub struct Calculator {
    expression: Vec<char>,
    result: Vec<char>,
    history: Vec<Entry>,
    memory: Option<Value>,
    degrees: bool,
    error: bool,
    notice: Vec<char>,
    done: bool,
    undo: Vec<Snapshot>,
    redo: Vec<Snapshot>,
    repeat: Option<(char, Value)>,
    transient: bool,
}

impl View for Calculator {
    type V = Model;

    closed spec fn view(&self) -> Model {
        Model {
            expression: self.expression@,
            result: self.result@,
            history: history_view(self.history@),
            memory: value_option(self.memory),
            degrees: self.degrees,
            error: self.error,
            notice: self.notice@,
            done: self.done,
            undo: snaps_view(self.undo@),
            redo: snaps_view(self.redo@),
            repeat: repeat_option(self.repeat),
            transient: self.transient,
        }
    }
}

/// A new calculator: result 0, degrees, and nothing else.
pub open spec fn initial_model(transient: bool) -> Model {
    Model {
        expression: Seq::empty(),
        result: seq!['0'],
        history: Seq::empty(),
        memory: None,
        degrees: true,
        error: false,
        notice: Seq::empty(),
        done: false,
        undo: Seq::empty(),
        redo: Seq::empty(),
        repeat: None,
        transient,
    }
}

impl Calculator {
    /// A new calculator; a transient one never asks for its history to be
    /// stored.
    pub fn new(transient: bool) -> (c: Calculator)
        ensures
            c@ == initial_model(transient),
    {
        let mut result = Vec::new();
        result.push('0');
        let c = Calculator {
            expression: Vec::new(),
            result,
            history: Vec::new(),
            memory: None,
            degrees: true,
            error: false,
            notice: Vec::new(),
            done: false,
            undo: Vec::new(),
            redo: Vec::new(),
            repeat: None,
            transient,
        };
        assert(c@.result =~= seq!['0']);
        assert(c@.history =~= Seq::empty());
        assert(c@.undo =~= Seq::empty());
        assert(c@.redo =~= Seq::empty());
        c
    }

    fn snapshot(&self) -> (s: Snapshot)
        ensures
            s@ == snap(self@),
    {
        Snapshot {
            expression: copy_chars(&self.expression),
            result: copy_chars(&self.result),
            done: self.done,
            error: self.error,
        }
    }

    fn restore(&mut self, s: Snapshot)
        ensures
            final(self)@ == restore(old(self)@, s@),
    {
        self.expression = s.expression;
        self.result = s.result;
        self.done = s.done;
        self.error = s.error;
        self.repeat = None;
    }

    fn preview(&mut self)
        ensures
            final(self)@ == previewed(old(self)@),
    {
        self.error = false;
        self.done = false;
        self.repeat = None;
    }

    /// Where the last operand of the expression starts.
    pub fn operand_start(&self) -> (r: usize)
        ensures
            r == operand_start_spec(self@.expression),
            r <= self@.expression.len(),
    {
        operand_start_of(&self.expression)
    }

    fn record(&mut self)
        ensures
            final(self)@ == recorded(old(self)@),
    {
        let s = self.snapshot();
        let ghost before = self.undo@;
        self.undo.push(s);
        assert(snaps_view(self.undo@) =~= snaps_view(before).push(snap(old(self)@)));
        if self.undo.len() > HISTORY_LIMIT {
            let ghost pushed = self.undo@;
            self.undo.remove(0);
            assert(snaps_view(self.undo@) =~= snaps_view(pushed).drop_first());
        }
        self.redo = Vec::new();
        assert(snaps_view(self.redo@) =~= Seq::empty());
    }

    fn save_effect(&self) -> (e: Effect)
        ensures
            e == save_effect(self@),
    {
        if self.transient {
            Effect::Nothing
        } else {
            Effect::Save
        }
    }
}


/// The characters of `v` from `from` to `to`.
fn copy_range(v: &[char], from: usize, to: usize) -> (r: Vec<char>)
    requires
        from <= to <= v@.len(),
    ensures
        r@ == v@.subrange(from as int, to as int),
{
    let mut r: Vec<char> = Vec::new();
    let mut i = from;
    while i < to
        invariant
            from <= i <= to <= v@.len(),
            r@ == v@.subrange(from as int, i as int),
        decreases to - i,
    {
        r.push(v[i]);
        assert(r@ =~= v@.subrange(from as int, i + 1));
        i = i + 1;
    }
    r
}

/// The text that wraps `part` for the function key `key`; see `wrapped`.
fn wrap(key: &[char], part: &[char]) -> (r: Vec<char>)
    ensures
        r@ == wrapped(key@, part@),
{
    let mut r: Vec<char> = Vec::new();
    if same_text(key, "±") {
        r.push('-');
        r.push('(');
        extend(&mut r, part);
        r.push(')');
        assert(r@ =~= seq!['-', '('] + part@ + seq![')']);
    } else if same_text(key, "square") {
        r.push('(');
        extend(&mut r, part);
        r.push(')');
        r.push('^');
        r.push('2');
        assert(r@ =~= seq!['('] + part@ + seq![')', '^', '2']);
    } else if same_text(key, "reciprocal") {
        r.push('(');
        r.push('1');
        r.push('/');
        r.push('(');
        extend(&mut r, part);
        r.push(')');
        r.push(')');
        assert(r@ =~= seq!['(', '1', '/', '('] + part@ + seq![')', ')']);
    } else {
        extend(&mut r, key);
        r.push('(');
        extend(&mut r, part);
        r.push(')');
        assert(r@ =~= key@ + seq!['('] + part@ + seq![')']);
    }
    r
}

fn ends_with_one_of(s: &[char], set: &[char]) -> (r: bool)
    ensures
        r == ends_with_any(s@, set@),
{
    if s.len() == 0 {
        return false;
    }
    let last = s[s.len() - 1];
    let mut k: usize = 0;
    while k < set.len()
        invariant
            k <= set@.len(),
            s@.len() > 0,
            last == s@.last(),
            forall|t: int| 0 <= t < k ==> set@[t] != last,
        decreases set.len() - k,
    {
        if set[k] == last {
            assert(set@.contains(last));
            return true;
        }
        k = k + 1;
    }
    false
}

fn contains_char(s: &[char], c: char) -> (r: bool)
    ensures
        r == s@.contains(c),
{
    let mut k: usize = 0;
    while k < s.len()
        invariant
            k <= s@.len(),
            forall|t: int| 0 <= t < k ==> s@[t] != c,
        decreases s.len() - k,
    {
        if s[k] == c {
            return true;
        }
        k = k + 1;
    }
    false
}

fn is_function_key_exec(key: &[char]) -> (r: bool)
    ensures
        r == is_function_key(key@),
{
    same_text(key, "±") || same_text(key, "square") || same_text(key, "sqrt") || same_text(key, "reciprocal")
        || same_text(key, "sin") || same_text(key, "cos") || same_text(key, "tan") || same_text(key, "ln")
        || same_text(key, "log") || same_text(key, "abs")
}

fn is_operator_key_exec(key: &[char]) -> (r: bool)
    ensures
        r == is_operator_key(key@),
{
    same_text(key, "+") || same_text(key, "−") || same_text(key, "×") || same_text(key, "÷") || same_text(key, "^")
}

fn is_input_key_exec(key: &[char]) -> (r: bool)
    ensures
        r == is_input_key(key@),
{
    if key.len() == 1 {
        let c = key[0];
        if ('0' <= c && c <= '9') || c == '.' || c == '(' || c == ')' || c == '%' || c == '!' {
            return true;
        }
    }
    same_text(key, "pi") || same_text(key, "e")
}

impl Calculator {
    fn function_key(&mut self, key: &[char]) -> (effect: Effect)
        ensures
            (final(self)@, effect) == function_key_spec(old(self)@, key@),
    {
        if self.error {
            return Effect::Nothing;
        }
        if self.done {
            self.expression = copy_chars(&self.result);
        }
        let ghost e = self.expression@;
        let start = self.operand_start();
        let mut part = copy_range(&self.expression, start, self.expression.len());
        if part.len() == 0 {
            part.push('0');
            assert(part@ =~= seq!['0']);
        }
        let w = wrap(key, &part);
        self.expression.truncate(start);
        extend(&mut self.expression, &w);
        self.preview();
        assert(self@.expression =~= e.subrange(0, start as int) + w@);
        Effect::Preview
    }

    fn operator_key(&mut self, key: &[char]) -> (effect: Effect)
        ensures
            (final(self)@, effect) == operator_key_spec(old(self)@, key@),
    {
        if self.error {
            return Effect::Nothing;
        }
        if self.done {
            self.expression = copy_chars(&self.result);
            self.done = false;
            self.repeat = None;
        }
        let minus = same_text(key, "−");
        if self.expression.len() == 0 {
            if minus {
                self.expression.push('−');
            }
            return Effect::Nothing;
        }
        let ghost e = self.expression@;
        let products = ['×', '÷', '^'];
        assert(products@ =~= seq!['×', '÷', '^']);
        if minus && ends_with_one_of(&self.expression, &products) {
            self.expression.push('−');
            return Effect::Nothing;
        }
        let operators = ['+', '−', '×', '÷', '^'];
        assert(operators@ =~= seq!['+', '−', '×', '÷', '^']);
        if ends_with_one_of(&self.expression, &operators) {
            self.expression.pop();
            assert(self.expression@ =~= e.drop_last());
        }
        extend(&mut self.expression, key);
        Effect::Nothing
    }

    fn input_key(&mut self, key: &[char]) -> (effect: Effect)
        ensures
            (final(self)@, effect) == input_key_spec(old(self)@, key@),
    {
        if self.done || self.error {
            if same_text(key, "%") || same_text(key, "!") {
                self.expression = copy_chars(&self.result);
            } else {
                self.expression = Vec::new();
                assert(self.expression@ =~= Seq::empty());
            }
            self.done = false;
            self.error = false;
        }
        if longer_than(&self.expression, EXPRESSION_LIMIT) {
            return Effect::Nothing;
        }
        let ghost e = self.expression@;
        let dot = same_text(key, ".");
        let start = segment_start(&self.expression);
        let seg = copy_range(&self.expression, start, self.expression.len());
        if dot && contains_char(&seg, '.') {
            return Effect::Nothing;
        }
        if dot && seg.len() == 0 {
            self.expression.push('0');
        }
        let ghost e1 = self.expression@;
        let n = self.expression.len();
        if (same_text(key, "pi") || same_text(key, "e") || same_text(key, "(")) && n > 0 {
            let last = self.expression[n - 1];
            if ('0' <= last && last <= '9') || last == ')' || last == '%' || last == '!' {
                self.expression.push('×');
            }
        }
        extend(&mut self.expression, key);
        self.preview();
        Effect::Preview
    }

    fn equals_key(&mut self) -> (effect: Effect)
        ensures
            (final(self)@, effect) == equals_key_spec(old(self)@),
    {
        if self.expression.len() == 0 {
            return Effect::Nothing;
        }
        if self.done {
            match &self.repeat {
                Some((op, v)) => {
                    let mut e = copy_chars(&self.result);
                    e.push(*op);
                    extend(&mut e, &v.text);
                    self.expression = e;
                    return Effect::Evaluate;
                },
                None => {
                    return Effect::Nothing;
                },
            }
        }
        Effect::Evaluate
    }
}


fn index_after(key: &[char], prefix: &str) -> (r: Option<usize>)
    ensures
        match key_index(key@, prefix@) {
            Some(i) => r == Some(i as usize),
            None => r is None,
        },
{
    match strip_prefix(key, prefix) {
        Some(rest) => parse_usize(&rest),
        None => None,
    }
}

impl Calculator {
    fn recorded_key(&mut self, key: &[char]) -> (effect: Effect)
        ensures
            (final(self)@, effect) == recorded_key_spec(old(self)@, key@),
    {
        if let Some(i) = index_after(key, "recall:") {
            if i < self.history.len() {
                let r = copy_chars(&self.history[i].result);
                self.expression = copy_chars(&r);
                self.result = r;
                self.done = true;
                self.error = false;
                self.repeat = None;
            }
            return Effect::Nothing;
        }
        if let Some(i) = index_after(key, "reuse:") {
            if i < self.history.len() {
                self.expression = copy_chars(&self.history[i].expression);
                self.preview();
                return Effect::Preview;
            }
            return Effect::Nothing;
        }
        if let Some(text) = strip_prefix(key, "edit:") {
            let n = if text.len() > EXPRESSION_LIMIT {
                EXPRESSION_LIMIT
            } else {
                text.len()
            };
            self.expression = copy_range(&text, 0, n);
            assert(text@.len() <= EXPRESSION_LIMIT ==> text@.subrange(0, n as int) =~= text@);
            self.preview();
            return Effect::Preview;
        }
        if same_text(key, "C") {
            self.expression = Vec::new();
            let mut zero = Vec::new();
            zero.push('0');
            self.result = zero;
            self.done = false;
            self.error = false;
            self.repeat = None;
            assert(self@.expression =~= Seq::empty());
            assert(self@.result =~= seq!['0']);
            return Effect::Nothing;
        }
        if same_text(key, "CE") {
            let start = self.operand_start();
            self.expression.truncate(start);
            self.preview();
            return Effect::Preview;
        }
        if same_text(key, "back") {
            let ghost e = self.expression@;
            if self.expression.len() > 0 {
                self.expression.pop();
                assert(self.expression@ =~= e.drop_last());
            }
            self.preview();
            return Effect::Preview;
        }
        if same_text(key, "MR") {
            match &self.memory {
                Some(v) => {
                    let text = copy_chars(&v.text);
                    if self.done || self.error {
                        self.expression = text;
                    } else {
                        let start = self.operand_start();
                        self.expression.truncate(start);
                        extend(&mut self.expression, &text);
                    }
                    self.preview();
                    return Effect::Preview;
                },
                None => {
                    return Effect::Nothing;
                },
            }
        }
        if same_text(key, "=") {
            return self.equals_key();
        }
        if is_function_key_exec(key) {
            return self.function_key(key);
        }
        if is_operator_key_exec(key) {
            return self.operator_key(key);
        }
        if is_input_key_exec(key) {
            return self.input_key(key);
        }
        Effect::Nothing
    }

    /// Handles a key: a digit, `.`, `(`, `)`, `%`, `!`, `pi` or `e` types
    /// itself; `+ − × ÷ ^` an operator; `±`, `square`, `sqrt`, `reciprocal`,
    /// `sin`, `cos`, `tan`, `ln`, `log` and `abs` wrap the last operand; `=`
    /// evaluates; `C`, `CE` and `back` clear; `MC`, `MS`, `M+`, `M-` and `MR`
    /// use the memory; `deg` and `rad` switch the angle unit; `undo` and
    /// `redo` step through the edits; `recall:N`, `reuse:N`, `delete:N` and
    /// `clearHistory` use the history; and `edit:TEXT` replaces the
    /// expression. See `action_spec`.
    pub fn action(&mut self, key: &str) -> (effect: Effect)
        ensures
            (final(self)@, effect) == action_spec(old(self)@, key@),
    {
        let key = chars_of(key);
        self.notice = Vec::new();
        assert(self@.notice =~= Seq::empty());
        let ghost m = self@;
        if key.len() == 0 {
            return Effect::Nothing;
        }
        if same_text(&key, "undo") {
            if self.undo.len() > 0 {
                let current = self.snapshot();
                let ghost undo0 = self.undo@;
                let ghost redo0 = self.redo@;
                let top = self.undo.pop().unwrap();
                assert(snaps_view(self.undo@) =~= snaps_view(undo0).drop_last());
                self.redo.push(current);
                assert(snaps_view(self.redo@) =~= snaps_view(redo0).push(snap(m)));
                self.restore(top);
            }
            return Effect::Nothing;
        }
        if same_text(&key, "redo") {
            if self.redo.len() > 0 {
                let current = self.snapshot();
                let ghost undo0 = self.undo@;
                let ghost redo0 = self.redo@;
                let top = self.redo.pop().unwrap();
                assert(snaps_view(self.redo@) =~= snaps_view(redo0).drop_last());
                self.undo.push(current);
                assert(snaps_view(self.undo@) =~= snaps_view(undo0).push(snap(m)));
                self.restore(top);
            }
            return Effect::Nothing;
        }
        if same_text(&key, "clearHistory") {
            self.history = Vec::new();
            assert(self@.history =~= Seq::empty());
            return self.save_effect();
        }
        if let Some(i) = index_after(&key, "delete:") {
            if i < self.history.len() {
                let ghost h = self.history@;
                self.history.remove(i);
                assert(history_view(self.history@) =~= history_view(h).remove(i as int));
                return self.save_effect();
            }
            return Effect::Nothing;
        }
        let deg = same_text(&key, "deg");
        if deg || same_text(&key, "rad") {
            self.degrees = deg;
            if !self.done {
                self.preview();
                return Effect::Preview;
            }
            return Effect::Nothing;
        }
        if same_text(&key, "MC") {
            self.memory = None;
            return Effect::Nothing;
        }
        let store = same_text(&key, "MS");
        let add = same_text(&key, "M+");
        if store || add || same_text(&key, "M-") {
            if self.error {
                return Effect::Nothing;
            }
            return Effect::Memory(
                if store {
                    MemoryOp::Store
                } else if add {
                    MemoryOp::Add
                } else {
                    MemoryOp::Subtract
                },
            );
        }
        self.record();
        self.recorded_key(&key)
    }
}


/// `=` once the expression is evaluated: a value becomes the result, goes to
/// the front of the history (which keeps `HISTORY_LIMIT` entries) and, when
/// the previous `=` did not produce the result already shown, `repeat`
/// becomes the operation that `=` repeats; an error becomes the result.
pub open spec fn equals_spec(m: Model, outcome: Result<SValue, Seq<char>>, repeat: Option<(char, SValue)>) -> (Model, Effect) {
    match outcome {
        Ok(v) => {
            let h = seq![(m.expression, v.text)] + m.history;
            let m2 = Model {
                repeat: if m.done {
                    m.repeat
                } else {
                    repeat
                },
                result: v.text,
                history: if h.len() > HISTORY_LIMIT {
                    h.subrange(0, HISTORY_LIMIT as int)
                } else {
                    h
                },
                done: true,
                error: false,
                ..m
            };
            (m2, save_effect(m2))
        },
        Err(e) => (Model { result: e, error: true, done: false, ..m }, Effect::Nothing),
    }
}

pub open spec fn value_result(r: Result<Value, Vec<char>>) -> Result<SValue, Seq<char>> {
    match r {
        Ok(v) => Ok(v@),
        Err(e) => Err(e@),
    }
}

/// Whether the repeated operation at `i` is relative to the left subtotal:
/// a `+`, `-` or `−` whose right operand ends in `%`.
pub open spec fn repeat_relative_spec(e: Seq<char>, i: int) -> bool {
    is_sign(e[i]) && e.len() > i + 1 && e.last() == '%'
}

impl Calculator {
    /// Shows `text`, the display text of the expression's value (or `0`),
    /// as the result after a `Preview` effect.
    pub fn finish_preview(&mut self, text: Vec<char>)
        ensures
            final(self)@ == (Model { result: text@, ..old(self)@ }),
    {
        self.result = text;
    }

    /// Completes `=` after an `Evaluate` effect with the value of the
    /// expression or its error, and the operation to repeat; see
    /// `equals_spec`.
    pub fn finish_equals(&mut self, outcome: Result<Value, Vec<char>>, repeat: Option<(char, Value)>) -> (effect: Effect)
        ensures
            (final(self)@, effect) == equals_spec(old(self)@, value_result(outcome), repeat_option(repeat)),
    {
        match outcome {
            Ok(v) => {
                if !self.done {
                    self.repeat = repeat;
                }
                self.result = copy_chars(&v.text);
                let entry = Entry { expression: copy_chars(&self.expression), result: v.text };
                let ghost h0 = self.history@;
                self.history.insert(0, entry);
                assert(history_view(self.history@) =~= seq![(old(self)@.expression, v@.text)] + history_view(h0));
                if self.history.len() > HISTORY_LIMIT {
                    let ghost h1 = self.history@;
                    self.history.truncate(HISTORY_LIMIT);
                    assert(history_view(self.history@) =~= history_view(h1).subrange(0, HISTORY_LIMIT as int));
                }
                self.done = true;
                self.error = false;
                self.save_effect()
            },
            Err(e) => {
                self.result = e;
                self.error = true;
                self.done = false;
                Effect::Nothing
            },
        }
    }

    /// Completes a memory key after a `Memory` effect: the new memory value,
    /// or the error that becomes the notice.
    pub fn finish_memory(&mut self, outcome: Result<Value, Vec<char>>)
        ensures
            final(self)@ == (match value_result(outcome) {
                Ok(v) => Model { memory: Some(v), ..old(self)@ },
                Err(e) => Model { notice: e, ..old(self)@ },
            }),
    {
        match outcome {
            Ok(v) => {
                self.memory = Some(v);
            },
            Err(e) => {
                self.notice = e;
            },
        }
    }

    /// Completes a `Save` effect: a failure becomes the notice.
    pub fn finish_save(&mut self, stored: bool)
        ensures
            final(self)@ == (if stored {
                old(self)@
            } else {
                Model { notice: "Could not save history"@, ..old(self)@ }
            }),
    {
        if !stored {
            self.notice = chars_of("Could not save history");
        }
    }

    /// Replaces the history, as read from the store.
    pub fn set_history(&mut self, history: Vec<Entry>)
        ensures
            final(self)@ == (Model { history: history_view(history@), ..old(self)@ }),
    {
        self.history = history;
    }

    /// The position of the operation that `=` repeats.
    pub fn repeat_site(&self) -> (r: Option<usize>)
        ensures
            match repeat_site_spec(self@.expression) {
                Some(i) => r == Some(i as usize),
                None => r is None,
            },
    {
        repeat_site_of(&self.expression)
    }

    /// Whether the operation at `i` that `=` repeats is relative to the left
    /// subtotal; see `repeat_relative_spec`.
    pub fn repeat_relative(&self, i: usize) -> (r: bool)
        requires
            i < self@.expression.len(),
        ensures
            r == repeat_relative_spec(self@.expression, i as int),
    {
        let c = self.expression[i];
        let n = self.expression.len();
        (c == '+' || c == '-' || c == '−') && n > i + 1 && self.expression[n - 1] == '%'
    }

    pub fn expression(&self) -> (r: Vec<char>)
        ensures
            r@ == self@.expression,
    {
        copy_chars(&self.expression)
    }

    pub fn result(&self) -> (r: Vec<char>)
        ensures
            r@ == self@.result,
    {
        copy_chars(&self.result)
    }

    pub fn notice(&self) -> (r: Vec<char>)
        ensures
            r@ == self@.notice,
    {
        copy_chars(&self.notice)
    }

    pub fn history(&self) -> (r: &Vec<Entry>)
        ensures
            history_view(r@) == self@.history,
    {
        &self.history
    }

    pub fn memory(&self) -> (r: Option<Value>)
        ensures
            value_option(r) == self@.memory,
    {
        match &self.memory {
            Some(v) => Some(v.clone()),
            None => None,
        }
    }

    pub fn degrees(&self) -> (r: bool)
        ensures
            r == self@.degrees,
    {
        self.degrees
    }

    pub fn error(&self) -> (r: bool)
        ensures
            r == self@.error,
    {
        self.error
    }

    pub fn done(&self) -> (r: bool)
        ensures
            r == self@.done,
    {
        self.done
    }

    pub fn undo_len(&self) -> (r: usize)
        ensures
            r == self@.undo.len(),
    {
        self.undo.len()
    }
}


/// Whether a key takes a step that undo can take back: every key but the
/// empty one, `undo`, `redo`, the history store keys `clearHistory` and
/// `delete:N`, `deg`, `rad` and the memory keys `MC`, `MS`, `M+` and `M-`.
pub open spec fn records_undo(key: Seq<char>) -> bool {
    &&& key.len() > 0
    &&& key != "undo"@
    &&& key != "redo"@
    &&& key != "clearHistory"@
    &&& key_index(key, "delete:"@) is None
    &&& key != "deg"@
    &&& key != "rad"@
    &&& key != "MC"@
    &&& key != "MS"@
    &&& key != "M+"@
    &&& key != "M-"@
}

/// `undo` right after a step takes it back: the expression, the result and
/// whether they show a result or an error are those from before the step,
/// whatever the numeric engine answered in between (its answers leave the
/// undo stack alone).
pub proof fn law_undo_reverts_step(m: Model, key: Seq<char>, later: Model)
    requires
        records_undo(key),
        later.undo == action_spec(m, key).0.undo,
    ensures
        snap(action_spec(later, "undo"@).0) == snap(m),
{
    reveal_strlit("undo");
    let r = recorded(Model { notice: Seq::empty(), ..m });
    assert(action_spec(m, key).0.undo == r.undo);
    assert(r.undo.last() == snap(m));
}

proof fn lemma_key_literals()
    ensures
        "undo"@.len() == 4,
        "redo"@.len() == 4,
        "undo"@ != "redo"@,
{
    reveal_strlit("undo");
    reveal_strlit("redo");
    assert("undo"@[0] != "redo"@[0]);
}

proof fn lemma_recorded_key_keeps(m: Model, key: Seq<char>)
    ensures
        recorded_key_spec(m, key).0.history == m.history,
        recorded_key_spec(m, key).0.undo == m.undo,
{
}

/// `redo` right after `undo` brings the state back, with no operation left
/// to repeat and no notice.
pub proof fn law_undo_then_redo(m: Model)
    requires
        m.undo.len() > 0,
    ensures
        action_spec(action_spec(m, "undo"@).0, "redo"@).0 == (Model { repeat: None, notice: Seq::empty(), ..m }),
{
    lemma_key_literals();
    let m1 = Model { notice: Seq::empty(), ..m };
    let a = action_spec(m, "undo"@).0;
    assert(a == restore(Model { undo: m1.undo.drop_last(), redo: m1.redo.push(snap(m1)), ..m1 }, m1.undo.last()));
    assert(a.redo.last() == snap(m1));
    assert(a.redo.drop_last() =~= m.redo);
    assert(a.undo.push(snap(a)) =~= m.undo);
}

/// `undo` right after `redo` brings the state back, with no operation left
/// to repeat and no notice.
pub proof fn law_redo_then_undo(m: Model)
    requires
        m.redo.len() > 0,
    ensures
        action_spec(action_spec(m, "redo"@).0, "undo"@).0 == (Model { repeat: None, notice: Seq::empty(), ..m }),
{
    lemma_key_literals();
    let m1 = Model { notice: Seq::empty(), ..m };
    let a = action_spec(m, "redo"@).0;
    assert(a == restore(Model { redo: m1.redo.drop_last(), undo: m1.undo.push(snap(m1)), ..m1 }, m1.redo.last()));
    assert(a.undo.drop_last() =~= m.undo);
    assert(a.redo.push(snap(a)) =~= m.redo);
}

/// Whether the history holds at most `HISTORY_LIMIT` entries, and the undo
/// and redo stacks together as many.
pub open spec fn bounded(m: Model) -> bool {
    m.history.len() <= HISTORY_LIMIT && m.undo.len() + m.redo.len() <= HISTORY_LIMIT
}

/// No key and no evaluation makes the history, or the undo and redo stacks
/// together, outgrow `HISTORY_LIMIT`.
pub proof fn law_bounded(m: Model, key: Seq<char>, outcome: Result<SValue, Seq<char>>, repeat: Option<(char, SValue)>)
    requires
        bounded(m),
    ensures
        bounded(action_spec(m, key).0),
        bounded(equals_spec(m, outcome, repeat).0),
{
    let m1 = Model { notice: Seq::empty(), ..m };
    lemma_recorded_key_keeps(recorded(m1), key);
    lemma_recorded_redo(recorded(m1), key);
    assert(bounded(recorded(m1)));
}

/// Only `=` evaluates, and only its evaluation can put the calculator in the
/// error state: no other key asks for an evaluation, and none but `undo` and
/// `redo` (which bring back an earlier state) sets the error flag.
pub proof fn law_only_equals_evaluates(m: Model, key: Seq<char>)
    requires
        key != "="@,
    ensures
        action_spec(m, key).1 != Effect::Evaluate,
        key != "undo"@ && key != "redo"@ && action_spec(m, key).0.error ==> m.error,
{
}

proof fn lemma_plain_key_literals()
    ensures
        "undo"@.len() == 4,
        "redo"@.len() == 4,
        "clearHistory"@.len() == 12,
        "deg"@.len() == 3,
        "rad"@.len() == 3,
        "MC"@.len() == 2,
        "MS"@.len() == 2,
        "M+"@.len() == 2,
        "M-"@.len() == 2,
        "delete:"@ == seq!['d', 'e', 'l', 'e', 't', 'e', ':'],
        "recall:"@ == seq!['r', 'e', 'c', 'a', 'l', 'l', ':'],
        "reuse:"@ == seq!['r', 'e', 'u', 's', 'e', ':'],
{
    reveal_strlit("undo");
    reveal_strlit("redo");
    reveal_strlit("clearHistory");
    reveal_strlit("deg");
    reveal_strlit("rad");
    reveal_strlit("MC");
    reveal_strlit("MS");
    reveal_strlit("M+");
    reveal_strlit("M-");
    reveal_strlit("delete:");
    reveal_strlit("recall:");
    reveal_strlit("reuse:");
}

/// What `=` puts in the history reads back: `recall:0` then shows its
/// result, as expression and result, and `reuse:0` brings back the
/// expression that was evaluated.
pub proof fn law_history_reads_back(m: Model, v: SValue, repeat: Option<(char, SValue)>)
    ensures
        action_spec(equals_spec(m, Ok(v), repeat).0, "recall:0"@).0.expression == v.text,
        action_spec(equals_spec(m, Ok(v), repeat).0, "recall:0"@).0.result == v.text,
        action_spec(equals_spec(m, Ok(v), repeat).0, "reuse:0"@).0.expression == m.expression,
{
    lemma_plain_key_literals();
    reveal_strlit("recall:0");
    reveal_strlit("reuse:0");
    let h = equals_spec(m, Ok(v), repeat).0;
    let recall = "recall:0"@;
    let reuse = "reuse:0"@;
    assert(recall.subrange(0, 7) =~= "recall:"@);
    assert(recall.subrange(7, 8) =~= seq!['0']);
    assert(decimal(seq!['0']) == 0) by {
        let z = seq!['0'];
        assert(z.drop_last() =~= Seq::<char>::empty());
        assert(z.last() == '0');
        assert(decimal(z.drop_last()) == 0);
        assert(('0' as u32 - '0' as u32) as nat == 0);
    }
    assert(key_index(recall, "recall:"@) == Some(0nat));
    assert(reuse.subrange(0, 6) =~= "reuse:"@);
    assert(reuse.subrange(6, 7) =~= seq!['0']);
    assert(key_index(reuse, "reuse:"@) == Some(0nat));
    assert(recall.subrange(0, 7) != "delete:"@);
    assert(reuse.subrange(0, 7) != "delete:"@);
    assert(reuse.subrange(0, 7) != "recall:"@);
    assert(h.history.len() > 0);
}

/// What a memory key stores reads back: with a value in the memory, `MR`
/// puts its display text in place of the last operand (of the whole
/// expression after a result or an error) and asks for a preview.
pub proof fn law_memory_reads_back(m: Model, v: SValue)
    ensures
        action_spec(Model { memory: Some(v), ..m }, "MR"@).1 == Effect::Preview,
        action_spec(Model { memory: Some(v), ..m }, "MR"@).0.expression == (if m.done || m.error {
            v.text
        } else {
            m.expression.subrange(0, operand_start_spec(m.expression)) + v.text
        }),
        action_spec(Model { memory: Some(v), ..m }, "MR"@).0.memory == Some(v),
{
    lemma_plain_key_literals();
    reveal_strlit("MR");
    reveal_strlit("edit:");
    reveal_strlit("C");
    reveal_strlit("CE");
    reveal_strlit("back");
    reveal_strlit("MC");
    reveal_strlit("MS");
    reveal_strlit("M+");
    reveal_strlit("M-");
    let k = "MR"@;
    assert(k[1] != "MC"@[1] && k[1] != "MS"@[1] && k[1] != "M+"@[1] && k[1] != "M-"@[1]);
}

proof fn lemma_recorded_redo(m: Model, key: Seq<char>)
    ensures
        recorded_key_spec(m, key).0.redo == m.redo,
{
}

/// The key literals a one-character key is told apart from.
proof fn lemma_single_key_literals()
    ensures
        "C"@ == seq!['C'],
        "="@ == seq!['='],
        "±"@ == seq!['±'],
        "+"@ == seq!['+'],
        "−"@ == seq!['−'],
        "×"@ == seq!['×'],
        "÷"@ == seq!['÷'],
        "^"@ == seq!['^'],
        "."@ == seq!['.'],
        "%"@ == seq!['%'],
        "!"@ == seq!['!'],
        "("@ == seq!['('],
        "edit:"@.len() == 5,
        "CE"@.len() == 2,
        "back"@.len() == 4,
        "MR"@.len() == 2,
        "square"@.len() == 6,
        "sqrt"@.len() == 4,
        "reciprocal"@.len() == 10,
        "sin"@.len() == 3,
        "cos"@.len() == 3,
        "tan"@.len() == 3,
        "ln"@.len() == 2,
        "log"@.len() == 3,
        "abs"@.len() == 3,
        "pi"@.len() == 2,
        "e"@ == seq!['e'],
{
    lemma_plain_key_literals();
    reveal_strlit("C");
    reveal_strlit("=");
    reveal_strlit("±");
    reveal_strlit("+");
    reveal_strlit("−");
    reveal_strlit("×");
    reveal_strlit("÷");
    reveal_strlit("^");
    reveal_strlit(".");
    reveal_strlit("%");
    reveal_strlit("!");
    reveal_strlit("(");
    reveal_strlit("edit:");
    reveal_strlit("CE");
    reveal_strlit("back");
    reveal_strlit("MR");
    reveal_strlit("square");
    reveal_strlit("sqrt");
    reveal_strlit("reciprocal");
    reveal_strlit("sin");
    reveal_strlit("cos");
    reveal_strlit("tan");
    reveal_strlit("ln");
    reveal_strlit("log");
    reveal_strlit("abs");
    reveal_strlit("pi");
    reveal_strlit("e");
}

/// The `.` key is handled as a key that types itself.
proof fn lemma_point_key(m: Model)
    ensures
        action_spec(m, "."@) == input_key_spec(recorded(Model { notice: Seq::empty(), ..m }), "."@),
{
    lemma_single_key_literals();
    lemma_plain_key_literals();
    let k = "."@;
    assert(k.len() == 1 && k[0] == '.');
    assert(k != "undo"@ && k != "redo"@ && k != "clearHistory"@);
    assert(key_index(k, "delete:"@) is None);
    assert(k != "deg"@ && k != "rad"@ && k != "MC"@ && k != "MS"@ && k != "M+"@ && k != "M-"@);
    let r = recorded(Model { notice: Seq::empty(), ..m });
    assert(key_index(k, "recall:"@) is None);
    assert(key_index(k, "reuse:"@) is None);
    assert(after_prefix(k, "edit:"@) is None);
    assert(k != "C"@ && k != "CE"@ && k != "back"@ && k != "MR"@ && k != "="@);
    assert(!is_function_key(k));
    assert(!is_operator_key(k));
    assert(is_input_key(k));
    assert(recorded_key_spec(r, k) == input_key_spec(r, k));
}

proof fn lemma_segment_start_bound(s: Seq<char>)
    ensures
        0 <= last_segment_start(s) <= s.len(),
    decreases s.len(),
{
    if s.len() > 0 {
        lemma_segment_start_bound(s.drop_last());
    }
}

/// Characters other than `+ − × ÷ ^ ( )` after `a` keep the segment start
/// where it is in `a`.
proof fn lemma_segment_start_skips(a: Seq<char>, d: Seq<char>)
    requires
        forall|k: int|
            0 <= k < d.len() ==> {
                let c = #[trigger] d[k];
                c != '+' && c != '−' && c != '×' && c != '÷' && c != '^' && c != '(' && c != ')'
            },
    ensures
        last_segment_start(a + d) == last_segment_start(a),
    decreases d.len(),
{
    if d.len() == 0 {
        assert(a + d =~= a);
    } else {
        assert((a + d).drop_last() =~= a + d.drop_last());
        assert((a + d).last() == d[d.len() - 1]);
        lemma_segment_start_skips(a, d.drop_last());
    }
}

/// Typing `.` after an operator key, or a parenthesis, starts a new operand:
/// when the expression is `a`, one of `+ − × ÷ ^ ( )`, then digits, `.` is
/// typed (after a `0` when no digit follows the operator), whatever points
/// `a` holds.
pub proof fn law_point_starts_operand(m: Model, a: Seq<char>, op: char, d: Seq<char>)
    requires
        !m.done,
        !m.error,
        byte_length(m.expression) <= EXPRESSION_LIMIT,
        m.expression == a.push(op) + d,
        op == '+' || op == '−' || op == '×' || op == '÷' || op == '^' || op == '(' || op == ')',
        forall|k: int| 0 <= k < d.len() ==> is_digit(#[trigger] d[k]),
    ensures
        action_spec(m, "."@).1 == Effect::Preview,
        action_spec(m, "."@).0.expression == m.expression + (if d.len() == 0 {
            seq!['0', '.']
        } else {
            seq!['.']
        }),
{
    lemma_point_key(m);
    lemma_single_key_literals();
    let e = m.expression;
    lemma_segment_start_skips(a.push(op), d);
    assert(a.push(op).drop_last() =~= a);
    assert(last_segment_start(a.push(op)) == a.len() + 1);
    let seg = e.subrange(a.len() as int + 1, e.len() as int);
    assert(seg =~= d);
    assert(!seg.contains('.')) by {
        if seg.contains('.') {
            let k = choose|k: int| 0 <= k < seg.len() && seg[k] == '.';
            assert(is_digit(d[k]));
        }
    }
    let r = recorded(Model { notice: Seq::empty(), ..m });
    assert(r.expression == e && !r.done && !r.error);
    assert(last_segment_start(e) == a.len() + 1);
    assert(seg.len() == d.len());
    let k = "."@;
    lemma_single_key_literals();
    assert(k[0] != "e"@[0] && k[0] != "("@[0]);
    assert(k.len() != "pi"@.len());
    assert(k != "pi"@ && k != "e"@ && k != "("@);
    assert(input_key_spec(r, k).1 == Effect::Preview);
    if d.len() == 0 {
        assert(input_key_spec(r, k).0.expression == e.push('0') + k);
        assert(e.push('0') + "."@ =~= e + seq!['0', '.']);
    } else {
        assert(input_key_spec(r, k).0.expression == e + k);
        assert(e + "."@ =~= e + seq!['.']);
    }
}

/// An operand takes one point: when the expression ends in characters other
/// than `+ − × ÷ ^ ( )` that hold a `.`, the `.` key changes nothing.
pub proof fn law_point_once_per_operand(m: Model, a: Seq<char>, d: Seq<char>)
    requires
        !m.done,
        !m.error,
        m.expression == a + d,
        d.contains('.'),
        forall|k: int|
            0 <= k < d.len() ==> {
                let c = #[trigger] d[k];
                c != '+' && c != '−' && c != '×' && c != '÷' && c != '^' && c != '(' && c != ')'
            },
    ensures
        action_spec(m, "."@).1 == Effect::Nothing,
        action_spec(m, "."@).0.expression == m.expression,
{
    lemma_point_key(m);
    lemma_single_key_literals();
    let e = m.expression;
    lemma_segment_start_skips(a, d);
    lemma_segment_start_bound(a);
    let st = last_segment_start(a);
    let seg = e.subrange(st, e.len() as int);
    let k = choose|k: int| 0 <= k < d.len() && d[k] == '.';
    assert(seg[a.len() - st + k] == '.');
}

/// The `=` key is handled by `equals_key_spec`.
proof fn lemma_equals_key(m: Model)
    ensures
        action_spec(m, "="@) == equals_key_spec(recorded(Model { notice: Seq::empty(), ..m })),
{
    lemma_single_key_literals();
    lemma_plain_key_literals();
    let k = "="@;
    assert(k.len() == 1 && k[0] == '=');
    assert(k != "undo"@ && k != "redo"@ && k != "clearHistory"@);
    assert(key_index(k, "delete:"@) is None);
    assert(k != "deg"@ && k != "rad"@ && k != "MC"@ && k != "MS"@ && k != "M+"@ && k != "M-"@);
    assert(key_index(k, "recall:"@) is None);
    assert(key_index(k, "reuse:"@) is None);
    assert(after_prefix(k, "edit:"@) is None);
    assert(k[0] != "C"@[0]);
    assert(k != "C"@ && k != "CE"@ && k != "back"@ && k != "MR"@);
}

/// A repeated `=` keeps the operation it repeats: once a result is shown
/// with an operation to repeat, finishing `=` with a new value keeps that
/// operation whatever the shell offers, and the next `=` applies it again to
/// the new result; the first `=` takes the operation offered.
pub proof fn law_repeat_persists(m: Model, v: SValue, offered: Option<(char, SValue)>, op: char, w: SValue)
    requires
        m.expression.len() > 0,
    ensures
        !m.done ==> equals_spec(m, Ok(v), offered).0.repeat == offered,
        m.done && m.repeat == Some((op, w)) ==> {
            let after = equals_spec(m, Ok(v), offered).0;
            &&& after.repeat == Some((op, w))
            &&& after.result == v.text
            &&& action_spec(after, "="@).1 == Effect::Evaluate
            &&& action_spec(after, "="@).0.expression == v.text.push(op) + w.text
        },
{
    let after = equals_spec(m, Ok(v), offered).0;
    lemma_equals_key(after);
}

/// A repeated percentage after any sign is relative to the left subtotal,
/// and only a percentage after a sign is: the operation at `i` is relative
/// exactly when it is `+`, `-` or `−`, a right operand follows it and the
/// expression ends in `%`.
pub proof fn law_signed_percentages_are_relative(e: Seq<char>, i: int)
    requires
        0 <= i < e.len(),
    ensures
        repeat_relative_spec(e, i) <==> ((e[i] == '+' || e[i] == '-' || e[i] == '−') && i + 1 < e.len()
            && e[e.len() - 1] == '%'),
{
}

} // verus!
