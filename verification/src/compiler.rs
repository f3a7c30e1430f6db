//! Compiling Brainfuck source text to `Op`s.
use crate::vm::{error_message, term_view, Op, SOp, VmError, DIV, MUL};
use vstd::prelude::*;
use vstd::string::StringSliceAdditionalSpecFns;

verus! {

pub const RIGHT: u8 = 62;
pub const LEFT: u8 = 60;
pub const PLUS: u8 = 43;
pub const MINUS: u8 = 45;
pub const OPEN: u8 = 91;
pub const CLOSE: u8 = 93;
pub const COMMA: u8 = 44;
pub const DOT: u8 = 46;

pub open spec fn is_instruction(c: u8) -> bool {
    c == 62 || c == 60 || c == 43 || c == 45 || c == 91 || c == 93 || c == 44 || c == 46
}

/// The bytes of a loop body an affine loop may hold: `>`, `<`, `+` and `-`.
pub open spec fn is_transfer(c: u8) -> bool {
    c == 62 || c == 60 || c == 43 || c == 45
}

/// The Brainfuck instructions of `s`: every byte but `><+-[],.` is a comment.
pub open spec fn instructions(s: Seq<u8>) -> Seq<u8>
    decreases s.len(),
{
    if s.len() == 0 {
        s
    } else if is_instruction(s.last()) {
        instructions(s.drop_last()).push(s.last())
    } else {
        instructions(s.drop_last())
    }
}

/// The net head movement of a loop body.
pub open spec fn displacement(b: Seq<u8>) -> int
    decreases b.len(),
{
    if b.len() == 0 {
        0
    } else {
        displacement(b.drop_last()) + if b.last() == 62 {
            1int
        } else if b.last() == 60 {
            -1int
        } else {
            0int
        }
    }
}

/// The leftmost head position a loop body reaches, relative to its start.
pub open spec fn lowest(b: Seq<u8>) -> int
    decreases b.len(),
{
    if b.len() == 0 {
        0
    } else {
        let l = lowest(b.drop_last());
        if displacement(b) < l {
            displacement(b)
        } else {
            l
        }
    }
}

/// The rightmost head position a loop body reaches, relative to its start.
pub open spec fn highest(b: Seq<u8>) -> int
    decreases b.len(),
{
    if b.len() == 0 {
        0
    } else {
        let h = highest(b.drop_last());
        if displacement(b) > h {
            displacement(b)
        } else {
            h
        }
    }
}

/// How much one pass of a loop body adds to the cell at offset `x`.
pub open spec fn net(b: Seq<u8>, x: int) -> int
    decreases b.len(),
{
    if b.len() == 0 {
        0
    } else {
        net(b.drop_last(), x) + if displacement(b.drop_last()) == x {
            if b.last() == 43 {
                1int
            } else if b.last() == 45 {
                -1int
            } else {
                0int
            }
        } else {
            0int
        }
    }
}

/// Whether a loop body holds `c` (`+` or `-`) at offset `x`.
pub open spec fn touches(b: Seq<u8>, x: int, c: u8) -> bool
    decreases b.len(),
{
    b.len() > 0 && (touches(b.drop_last(), x, c) || (b.last() == c && displacement(b.drop_last())
        == x))
}

/// Whether some cell is both increased and decreased by a loop body, which
/// could hide an intermediate underflow.
pub open spec fn mixed(b: Seq<u8>) -> bool {
    exists|x: int| touches(b, x, 43) && touches(b, x, 45)
}

/// The first position from `i` on that holds no transfer byte.
pub open spec fn body_end(s: Seq<u8>, i: int) -> int
    decreases s.len() - i,
{
    if i >= s.len() {
        s.len() as int
    } else if is_transfer(s[i]) {
        body_end(s, i + 1)
    } else {
        i
    }
}

/// The terms `(offset, net)` of a loop body for the offsets
/// `low .. low + k`, skipping offset 0 and offsets it leaves unchanged.
pub open spec fn terms_upto(b: Seq<u8>, low: int, k: int) -> Seq<(int, int)>
    decreases k,
{
    if k <= 0 {
        Seq::empty()
    } else {
        let x = low + k - 1;
        let prev = terms_upto(b, low, k - 1);
        if x != 0 && net(b, x) != 0 {
            prev.push((x, net(b, x)))
        } else {
            prev
        }
    }
}

/// An affine transfer loop: its length in bytes, its terms in increasing
/// order of offset, and the head excursion of its body.
pub ghost struct AffineLoop {
    pub len: int,
    pub terms: Seq<(int, int)>,
    pub low: int,
    pub high: int,
}

/// Whether `s` starts with an affine transfer loop `[body]`, and which: the
/// body holds only `><+-`, leaves the head where it was, subtracts exactly 1
/// from the loop counter, and never both adds to and subtracts from a cell.
pub open spec fn affine_spec(s: Seq<u8>) -> Option<AffineLoop> {
    let j = body_end(s, 1);
    let b = s.subrange(1, j);
    if s.len() >= 1 && j < s.len() && s[j] == 93 && !mixed(b) && displacement(b) == 0 && net(b, 0)
        == -1 {
        Some(
            AffineLoop {
                len: j + 1,
                terms: terms_upto(b, lowest(b), highest(b) - lowest(b) + 1),
                low: lowest(b),
                high: highest(b),
            },
        )
    } else {
        None
    }
}

/// Whether `pattern` occurs in `s` at position `i`.
pub open spec fn occurs_at(s: Seq<u8>, i: int, pattern: Seq<u8>) -> bool {
    0 <= i && i + pattern.len() <= s.len() && s.subrange(i, i + pattern.len()) == pattern
}

/// The number of consecutive bytes `c` in `s` from `i` on.
pub open spec fn run_length(s: Seq<u8>, i: int, c: u8) -> int
    decreases s.len() - i,
{
    if 0 <= i < s.len() && s[i] == c {
        1 + run_length(s, i + 1, c)
    } else {
        0
    }
}

/// The op that the source `s` of instructions yields at position `i`, and the
/// number of bytes it takes; brackets are linked later.
pub open spec fn token(s: Seq<u8>, i: int, optimize: bool) -> (SOp, int) {
    let c = s[i];
    if optimize && occurs_at(s, i, MUL.spec_bytes()) {
        (SOp::Mul, MUL.spec_bytes().len() as int)
    } else if optimize && occurs_at(s, i, DIV.spec_bytes()) {
        (SOp::Div, DIV.spec_bytes().len() as int)
    } else if optimize && c == 91 && affine_spec(s.skip(i)) is Some {
        let a = affine_spec(s.skip(i))->0;
        (SOp::Affine { terms: a.terms, low: a.low, high: a.high }, a.len)
    } else if c == 62 || c == 60 {
        let k = if optimize {
            run_length(s, i, c)
        } else {
            1
        };
        (SOp::Move(if c == 62 {
            k
        } else {
            -k
        }), k)
    } else if c == 43 || c == 45 {
        let k = if optimize {
            run_length(s, i, c)
        } else {
            1
        };
        (SOp::Add(if c == 43 {
            k
        } else {
            -k
        }), k)
    } else if c == 91 {
        (SOp::Open(0), 1)
    } else if c == 93 {
        (SOp::Close(0), 1)
    } else if c == 44 {
        (SOp::In, 1)
    } else {
        (SOp::Out, 1)
    }
}

/// The ops of the instructions `s` from position `i` on, brackets unlinked.
pub open spec fn lex(s: Seq<u8>, i: int, optimize: bool) -> Seq<SOp>
    decreases s.len() - i,
{
    if i < 0 || i >= s.len() {
        Seq::empty()
    } else {
        let t = token(s, i, optimize);
        if t.1 <= 0 || i + t.1 > s.len() {
            Seq::empty()
        } else {
            seq![t.0] + lex(s, i + t.1, optimize)
        }
    }
}

/// Ops with their brackets linked so far, the positions of the brackets
/// still open, and whether every `]` found its `[`.
pub ghost struct Linked {
    pub ops: Seq<SOp>,
    pub open: Seq<int>,
    pub ok: bool,
}

/// Linking brackets: a `[` at `j` whose `]` is at `k` jumps to `k + 1`,
/// and the `]` jumps back to `j + 1`.
pub open spec fn link(t: Seq<SOp>) -> Linked
    decreases t.len(),
{
    if t.len() == 0 {
        Linked { ops: Seq::empty(), open: Seq::empty(), ok: true }
    } else {
        let prev = link(t.drop_last());
        if !prev.ok {
            prev
        } else {
            match t.last() {
                SOp::Open(_) => Linked {
                    ops: prev.ops.push(SOp::Open(0)),
                    open: prev.open.push(prev.ops.len() as int),
                    ok: true,
                },
                SOp::Close(_) => if prev.open.len() == 0 {
                    Linked { ok: false, ..prev }
                } else {
                    let j = prev.open.last();
                    Linked {
                        ops: prev.ops.update(j, SOp::Open(prev.ops.len() + 1int)).push(
                            SOp::Close(j + 1),
                        ),
                        open: prev.open.drop_last(),
                        ok: true,
                    }
                },
                op => Linked { ops: prev.ops.push(op), ..prev },
            }
        }
    }
}

/// How many more `[` than `]` the bytes `s` hold.
pub open spec fn bracket_depth(s: Seq<u8>) -> int
    decreases s.len(),
{
    if s.len() == 0 {
        0
    } else {
        bracket_depth(s.drop_last()) + if s.last() == 91 {
            1int
        } else if s.last() == 93 {
            -1int
        } else {
            0int
        }
    }
}

/// No prefix of `s` closes more brackets than it opens.
pub open spec fn never_overclosed(s: Seq<u8>) -> bool {
    forall|k: int| 0 <= k <= s.len() ==> bracket_depth(#[trigger] s.take(k)) >= 0
}

/// The brackets of `s` match: no prefix closes more brackets than it opens,
/// and the whole opens as many as it closes.
pub open spec fn brackets_match(s: Seq<u8>) -> bool {
    never_overclosed(s) && bracket_depth(s) == 0
}

proof fn lemma_overclosed_step(s: Seq<u8>)
    requires
        s.len() > 0,
    ensures
        never_overclosed(s) <==> never_overclosed(s.drop_last()) && bracket_depth(s) >= 0,
{
    let s1 = s.drop_last();
    assert(s.take(s.len() as int) =~= s);
    assert forall|k: int| 0 <= k <= s1.len() implies #[trigger] s.take(k) == s1.take(k) by {
        assert(s.take(k) =~= s1.take(k));
    }
    if never_overclosed(s) {
        assert forall|k: int| 0 <= k <= s1.len() implies bracket_depth(#[trigger] s1.take(k)) >= 0 by {
            assert(s.take(k) == s1.take(k));
        }
    }
    if never_overclosed(s1) && bracket_depth(s) >= 0 {
        assert forall|k: int| 0 <= k <= s.len() implies bracket_depth(#[trigger] s.take(k)) >= 0 by {
            if k < s.len() {
                assert(s.take(k) == s1.take(k));
            }
        }
    }
}

/// Linking the literal ops of `s` succeeds exactly when no prefix of `s`
/// closes more brackets than it opens, and then leaves as many brackets open
/// as `s` opens more than it closes.
proof fn lemma_link_depth(s: Seq<u8>)
    ensures
        link(lex(s, 0, false)).ok <==> never_overclosed(s),
        link(lex(s, 0, false)).ok ==> link(lex(s, 0, false)).open.len() == bracket_depth(s),
    decreases s.len(),
{
    lemma_lex_literal(s, 0);
    if s.len() == 0 {
        assert(s.take(0) =~= s);
    } else {
        let s1 = s.drop_last();
        lemma_lex_literal(s1, 0);
        let t = lex(s, 0, false);
        assert(t.drop_last() =~= lex(s1, 0, false));
        assert(t.last() == literal_op(s.last()));
        lemma_link_depth(s1);
        lemma_overclosed_step(s);
        assert(s1.take(s1.len() as int) =~= s1);
    }
}

/// The literal program of the instructions `s` exists exactly when their
/// brackets match.
pub(crate) proof fn lemma_literal_compiles(s: Seq<u8>)
    ensures
        compiled(s, false) is Some <==> brackets_match(s),
{
    lemma_link_depth(s);
}

/// Leaving out the bytes that are not instructions keeps the brackets.
pub(crate) proof fn lemma_instructions_brackets(b: Seq<u8>)
    ensures
        bracket_depth(instructions(b)) == bracket_depth(b),
        never_overclosed(instructions(b)) <==> never_overclosed(b),
        brackets_match(instructions(b)) <==> brackets_match(b),
    decreases b.len(),
{
    if b.len() == 0 {
        assert(b.take(0) =~= b);
    } else {
        let b1 = b.drop_last();
        lemma_instructions_brackets(b1);
        lemma_overclosed_step(b);
        assert(b1.take(b1.len() as int) =~= b1);
        if is_instruction(b.last()) {
            let i = instructions(b);
            assert(i.drop_last() =~= instructions(b1));
            lemma_overclosed_step(i);
        } else {
            let i1 = instructions(b1);
            assert(i1.take(i1.len() as int) =~= i1);
        }
    }
}

/// The program that the instructions `s` compile to, if their brackets match.
pub open spec fn compiled(s: Seq<u8>, optimize: bool) -> Option<Seq<SOp>> {
    let l = link(lex(s, 0, optimize));
    if l.ok && l.open.len() == 0 {
        Some(l.ops)
    } else {
        None
    }
}

/// The program that the source text `source` compiles to.
pub open spec fn compile_spec(source: &str, optimize: bool) -> Option<Seq<SOp>> {
    compiled(instructions(source.spec_bytes()), optimize)
}


pub(crate) proof fn lemma_displacement_bounds(b: Seq<u8>)
    ensures
        -b.len() <= lowest(b) <= displacement(b) <= highest(b) <= b.len(),
        lowest(b) <= 0 <= highest(b),
        highest(b) - lowest(b) <= b.len(),
    decreases b.len(),
{
    if b.len() > 0 {
        lemma_displacement_bounds(b.drop_last());
    }
}

/// Every head position inside a loop body lies between its extremes.
pub(crate) proof fn lemma_prefix_within(b: Seq<u8>, k: int)
    requires
        0 <= k <= b.len(),
    ensures
        lowest(b) <= displacement(b.take(k)) <= highest(b),
    decreases b.len(),
{
    lemma_displacement_bounds(b);
    if k == b.len() {
        assert(b.take(k) =~= b);
    } else {
        assert(b.take(k) =~= b.drop_last().take(k));
        lemma_prefix_within(b.drop_last(), k);
    }
}

pub(crate) proof fn lemma_net_bounds(b: Seq<u8>, x: int)
    ensures
        -b.len() <= net(b, x) <= b.len(),
        touches(b, x, 43) && !touches(b, x, 45) ==> net(b, x) > 0,
        touches(b, x, 45) && !touches(b, x, 43) ==> net(b, x) < 0,
        !touches(b, x, 43) && !touches(b, x, 45) ==> net(b, x) == 0,
    decreases b.len(),
{
    if b.len() > 0 {
        lemma_net_bounds(b.drop_last(), x);
    }
}

fn is_transfer_byte(c: u8) -> (r: bool)
    ensures
        r == is_transfer(c),
{
    c == RIGHT || c == LEFT || c == PLUS || c == MINUS
}

/// Recognizes an affine transfer loop at the start of `s` (which starts with
/// `[`): its length, its terms `(offset, net change per pass)` in increasing
/// order of offset, and the lowest and highest offsets its body visits.
pub fn affine(s: &[u8]) -> (r: Option<(usize, Vec<(isize, i32)>, isize, isize)>)
    requires
        s@.len() <= i32::MAX,
    ensures
        match affine_spec(s@) {
            None => r is None,
            Some(a) => r matches Some((len, terms, low, high)) && len == a.len && terms@.map_values(
                |t: (isize, i32)| term_view(t),
            ) == a.terms && low == a.low && high == a.high,
        },
{
    let ghost ss = s@;
    // Where the body ends, where it leaves the head, and how far it goes.
    let mut i: usize = 1;
    let mut p: isize = 0;
    let mut low: isize = 0;
    let mut high: isize = 0;
    if s.len() == 0 {
        return None;
    }
    while i < s.len() && is_transfer_byte(s[i])
        invariant
            ss == s@,
            1 <= i <= s.len() <= i32::MAX,
            body_end(ss, i as int) == body_end(ss, 1),
            forall|t: int| 1 <= t < i ==> is_transfer(#[trigger] ss[t]),
            p == displacement(ss.subrange(1, i as int)),
            low == lowest(ss.subrange(1, i as int)),
            high == highest(ss.subrange(1, i as int)),
        decreases s.len() - i,
    {
        let ghost b = ss.subrange(1, i as int);
        proof {
            lemma_displacement_bounds(b);
            assert(ss.subrange(1, i + 1).drop_last() =~= b);
        }
        if s[i] == RIGHT {
            p = p + 1;
            if p > high {
                high = p;
            }
        } else if s[i] == LEFT {
            p = p - 1;
            if p < low {
                low = p;
            }
        }
        i = i + 1;
    }
    if i >= s.len() || s[i] != CLOSE {
        return None;
    }
    let j = i;
    let ghost b = ss.subrange(1, j as int);
    assert(body_end(ss, j as int) == j);
    proof {
        lemma_displacement_bounds(b);
    }
    if p != 0 {
        return None;
    }
    // The net change of every cell the body touches, by offset from `low`.
    let width: usize = (high - low + 1) as usize;
    let mut counts: Vec<i32> = Vec::new();
    let mut k: usize = 0;
    while k < width
        invariant
            k <= width,
            counts@.len() == k,
            forall|x: int| 0 <= x < k ==> counts@[x] == 0,
        decreases width - k,
    {
        counts.push(0);
        k = k + 1;
    }
    let mut q: isize = 0;
    let mut k: usize = 1;
    while k < j
        invariant
            ss == s@,
            1 <= k <= j < s.len() <= i32::MAX,
            b == ss.subrange(1, j as int),
            body_end(ss, 1) == j,
            low == lowest(b),
            high == highest(b),
            width == high - low + 1,
            counts@.len() == width,
            q == displacement(ss.subrange(1, k as int)),
            !mixed(ss.subrange(1, k as int)),
            forall|x: int|
                low <= x <= high ==> #[trigger] counts@[x - low] == net(ss.subrange(1, k as int), x),
            forall|x: int|
                #![trigger net(ss.subrange(1, k as int), x)]
                (x < low || x > high) ==> net(ss.subrange(1, k as int), x) == 0 && !touches(
                    ss.subrange(1, k as int),
                    x,
                    43,
                ) && !touches(ss.subrange(1, k as int), x, 45),
            forall|t: int| 1 <= t < j ==> is_transfer(#[trigger] ss[t]),
        decreases j - k,
    {
        let ghost bk = ss.subrange(1, k as int);
        let ghost bk1 = ss.subrange(1, k + 1);
        proof {
            assert(bk1.drop_last() =~= bk);
            assert(bk =~= b.take(k - 1));
            assert(bk1 =~= b.take(k as int));
            lemma_prefix_within(b, k - 1);
            lemma_prefix_within(b, k as int);
            lemma_displacement_bounds(bk);
            lemma_displacement_bounds(b);
            lemma_net_bounds(bk, q as int);
        }
        let c = s[k];
        if c == RIGHT {
            q = q + 1;
        } else if c == LEFT {
            q = q - 1;
        } else {
            let idx: usize = (q - low) as usize;
            let prior = counts[idx];
            assert(prior == net(bk, q as int));
            if c == PLUS {
                if prior < 0 {
                    assert(touches(bk1, q as int, 43) && touches(bk1, q as int, 45));
                    assert(mixed(b)) by {
                        assert(bk1 =~= b.take(k as int));
                        lemma_touches_prefix(b, k as int, q as int, 43);
                        lemma_touches_prefix(b, k as int, q as int, 45);
                    }
                    return None;
                }
                counts.set(idx, prior + 1);
            } else {
                if prior > 0 {
                    assert(touches(bk1, q as int, 43) && touches(bk1, q as int, 45));
                    assert(mixed(b)) by {
                        assert(bk1 =~= b.take(k as int));
                        lemma_touches_prefix(b, k as int, q as int, 43);
                        lemma_touches_prefix(b, k as int, q as int, 45);
                    }
                    return None;
                }
                counts.set(idx, prior - 1);
            }
        }
        proof {
            assert forall|x: int| touches(bk1, x, 43) && touches(bk1, x, 45) implies false by {
                lemma_net_bounds(bk, x);
            }
            assert forall|x: int| low <= x <= high implies #[trigger] counts@[x - low] == net(bk1, x) by {
            }
            assert forall|x: int| (x < low || x > high) implies net(bk1, x) == 0 && !touches(bk1, x, 43)
                && !touches(bk1, x, 45) by {
                assert(net(bk, x) == 0);
                assert(displacement(bk) != x);
            }
        }
        k = k + 1;
    }
    proof {
        assert(ss.subrange(1, k as int) =~= b);
        lemma_net_bounds(b, 0);
    }
    if counts[(0 - low) as usize] != -1 {
        return None;
    }
    // The terms, in increasing order of offset.
    let mut terms: Vec<(isize, i32)> = Vec::new();
    let mut k: usize = 0;
    while k < width
        invariant
            k <= width,
            1 <= j <= i32::MAX,
            b.len() == j - 1,
            -(j as int) <= low <= 0 <= high,
            high - low <= j,
            low == lowest(b),
            high == highest(b),
            width == high - low + 1,
            counts@.len() == width,
            forall|x: int| low <= x <= high ==> #[trigger] counts@[x - low] == net(b, x),
            terms@.map_values(|t: (isize, i32)| term_view(t)) == terms_upto(b, low as int, k as int),
        decreases width - k,
    {
        let x: isize = low + k as isize;
        assert(counts@[x - low] == net(b, x as int));
        if x != 0 && counts[k] != 0 {
            terms.push((x, counts[k]));
        }
        proof {
            assert(terms@.map_values(|t: (isize, i32)| term_view(t)) =~= terms_upto(
                b,
                low as int,
                k + 1,
            ));
        }
        k = k + 1;
    }
    Some((j + 1, terms, low, high))
}

proof fn lemma_touches_prefix(b: Seq<u8>, k: int, x: int, c: u8)
    requires
        0 <= k <= b.len(),
        touches(b.take(k), x, c),
    ensures
        touches(b, x, c),
    decreases b.len(),
{
    if k < b.len() {
        assert(b.take(k) =~= b.drop_last().take(k));
        lemma_touches_prefix(b.drop_last(), k, x, c);
    } else {
        assert(b.take(k) =~= b);
    }
}


pub(crate) proof fn lemma_body_end_range(s: Seq<u8>, i: int)
    requires
        0 <= i <= s.len(),
    ensures
        i <= body_end(s, i) <= s.len(),
    decreases s.len() - i,
{
    if i < s.len() && is_transfer(s[i]) {
        lemma_body_end_range(s, i + 1);
    }
}

/// The two loop patterns the optimizer recognizes are 26 and 30 bytes long.
pub proof fn lemma_pattern_lengths()
    ensures
        MUL.spec_bytes().len() == 26,
        DIV.spec_bytes().len() == 30,
{
    reveal_strlit("[>[->+>+<<]>>[-<<+>>]<<<-]");
    reveal_strlit("[->-[>+>>]>[[-<+>]+>+>>]<<<<<]");
    vstd::string::is_ascii_spec_bytes(MUL);
    vstd::string::is_ascii_spec_bytes(DIV);
}

/// A failed link stays failed whatever follows.
pub(crate) proof fn lemma_link_failure_sticks(t1: Seq<SOp>, t2: Seq<SOp>)
    requires
        !link(t1).ok,
    ensures
        !link(t1 + t2).ok,
    decreases t2.len(),
{
    if t2.len() == 0 {
        assert(t1 + t2 =~= t1);
    } else {
        lemma_link_failure_sticks(t1, t2.drop_last());
        assert((t1 + t2).drop_last() =~= t1 + t2.drop_last());
    }
}

fn is_instruction_byte(c: u8) -> (r: bool)
    ensures
        r == is_instruction(c),
{
    c == RIGHT || c == LEFT || c == PLUS || c == MINUS || c == OPEN || c == CLOSE || c == COMMA
        || c == DOT
}

/// Whether `pattern` occurs in `s` at position `i`.
fn occurs(s: &[u8], i: usize, pattern: &[u8]) -> (r: bool)
    requires
        i <= s@.len(),
    ensures
        r == occurs_at(s@, i as int, pattern@),
{
    if pattern.len() > s.len() - i {
        return false;
    }
    let mut k: usize = 0;
    while k < pattern.len()
        invariant
            s@.len() <= usize::MAX,
            i <= s@.len(),
            i + pattern@.len() <= s@.len(),
            k <= pattern@.len(),
            forall|t: int| 0 <= t < k ==> s@[i + t] == pattern@[t],
        decreases pattern.len() - k,
    {
        let at: usize = i + k;
        if s[at] != pattern[k] {
            assert(s@.subrange(i as int, i + pattern@.len())[k as int] != pattern@[k as int]);
            return false;
        }
        k = k + 1;
    }
    assert(s@.subrange(i as int, i + pattern@.len()) =~= pattern@);
    true
}

/// The length of the run of equal bytes at `start` that one op takes: the
/// whole run when optimizing, else one byte.
fn run_of(s: &[u8], start: usize, optimize: bool) -> (k: usize)
    requires
        start < s@.len(),
    ensures
        k == (if optimize {
            run_length(s@, start as int, s@[start as int])
        } else {
            1
        }),
        1 <= k <= s@.len() - start,
{
    let c = s[start];
    let mut j = start;
    while j < s.len() && s[j] == c && (optimize || j == start)
        invariant
            start <= j <= s@.len(),
            c == s@[start as int],
            !optimize ==> j <= start + 1,
            optimize ==> run_length(s@, start as int, c) == (j - start) + run_length(s@, j as int, c),
        decreases s.len() - j,
    {
        j = j + 1;
    }
    j - start
}

/// Compiles Brainfuck source text, ignoring every byte that is not one of
/// `><+-[],.`. With `optimize`, runs of moves and additions are folded and
/// the multiplication, divmod and affine transfer loops become single ops.
pub fn compile(source: &str, optimize: bool) -> (r: Result<Vec<Op>, String>)
    requires
        optimize ==> source.spec_bytes().len() <= i32::MAX,
    ensures
        match compile_spec(source, optimize) {
            Some(ops) => r matches Ok(v) && crate::vm::ops_view(v@) == ops,
            None => r matches Err(m) && m@ == crate::vm::message(VmError::Unmatched),
        },
        r is Ok <==> brackets_match(source.spec_bytes()),
{
    proof {
        crate::equivalence::law_optimization_keeps_compilation(source);
    }
    let bytes = source.as_bytes();
    let mut s: Vec<u8> = Vec::new();
    let mut k: usize = 0;
    while k < bytes.len()
        invariant
            k <= bytes@.len(),
            s@ == instructions(bytes@.take(k as int)),
            s@.len() <= k,
        decreases bytes.len() - k,
    {
        assert(bytes@.take(k + 1).drop_last() =~= bytes@.take(k as int));
        if is_instruction_byte(bytes[k]) {
            s.push(bytes[k]);
        }
        k = k + 1;
    }
    assert(bytes@.take(k as int) =~= bytes@);
    let ghost ss = s@;
    proof {
        lemma_pattern_lengths();
    }
    let mul = MUL.as_bytes();
    let div = DIV.as_bytes();
    let mut result: Vec<Op> = Vec::new();
    let mut stack: Vec<usize> = Vec::new();
    let ghost mut toks: Seq<SOp> = Seq::empty();
    let mut i: usize = 0;
    assert(toks + lex(ss, 0, optimize) =~= lex(ss, 0, optimize));
    assert(crate::vm::ops_view(result@) =~= Seq::empty());
    assert(stack@.map_values(|x: usize| x as int) =~= Seq::empty());
    while i < s.len()
        invariant
            ss == s@,
            ss == instructions(source.spec_bytes()),
            optimize ==> s@.len() <= i32::MAX,
            result@.len() <= i,
            mul@ == MUL.spec_bytes(),
            div@ == DIV.spec_bytes(),
            MUL.spec_bytes().len() == 26,
            DIV.spec_bytes().len() == 30,
            i <= s@.len(),
            lex(ss, 0, optimize) == toks + lex(ss, i as int, optimize),
            link(toks) == (Linked {
                ops: crate::vm::ops_view(result@),
                open: stack@.map_values(|x: usize| x as int),
                ok: true,
            }),
            forall|t: int| 0 <= t < stack@.len() ==> #[trigger] stack@[t] < result@.len(),
        decreases s.len() - i,
    {
        let ghost tk = token(ss, i as int, optimize);
        let op: Op;
        let n: usize;
        if optimize && occurs(&s, i, mul) {
            op = Op::Mul;
            n = mul.len();
            assert(0 < n && i + n <= ss.len());
        } else if optimize && occurs(&s, i, div) {
            op = Op::Div;
            n = div.len();
            assert(0 < n && i + n <= ss.len());
        } else {
            let slice = &s.as_slice()[i..s.len()];
            assert(slice@ =~= ss.skip(i as int));
            let found = if optimize && s[i] == OPEN {
                affine(slice)
            } else {
                None
            };
            if let Some((len, terms, low, high)) = found {
                assert(affine_spec(slice@) is Some);
                let ghost a = affine_spec(slice@)->0;
                assert(a.len <= slice@.len());
                assert(len == a.len);
                proof {
                    lemma_body_end_range(slice@, 1);
                }
                assert(slice@.len() == ss.len() - i);
                op = Op::Affine { terms, low, high };
                n = len;
                assert(0 < n && i + n <= ss.len());
            } else {
                let c = s[i];
                if c == RIGHT || c == LEFT || c == PLUS || c == MINUS {
                    let run = run_of(&s, i, optimize);
                    let amount: i32 = if c == RIGHT || c == PLUS {
                        run as i32
                    } else {
                        0 - run as i32
                    };
                    op = if c == RIGHT || c == LEFT {
                        Op::Move(amount as isize)
                    } else {
                        Op::Add(amount)
                    };
                    n = run;
                } else {
                    op = if c == OPEN {
                        Op::Open(0)
                    } else if c == CLOSE {
                        Op::Close(0)
                    } else if c == COMMA {
                        Op::In
                    } else {
                        Op::Out
                    };
                    n = 1;
                }
            }
        }
        assert(op@ == tk.0 && n == tk.1);
        assert(0 < n && i + n <= ss.len());
        assert(lex(ss, i as int, optimize) == seq![op@] + lex(ss, i + n, optimize));
        proof {
            assert(toks + lex(ss, i as int, optimize) =~= toks.push(op@) + lex(ss, i + n, optimize));
            let old_toks = toks;
            toks = toks.push(op@);
            assert(toks.drop_last() =~= old_toks);
        }
        let ghost prev_result = result@;
        let ghost prev_stack = stack@;
        match op {
            Op::Open(_) => {
                stack.push(result.len());
                result.push(Op::Open(0));
            },
            Op::Close(_) => {
                match stack.pop() {
                    None => {
                        proof {
                            assert(!link(toks).ok);
                            lemma_link_failure_sticks(toks, lex(ss, i + n, optimize));
                            crate::equivalence::law_optimization_keeps_compilation(source);
                        }
                        return Err(error_message(VmError::Unmatched));
                    },
                    Some(open) => {
                        let end = result.len();
                        result.set(open, Op::Open(end + 1));
                        result.push(Op::Close(open + 1));
                    },
                }
            },
            other => {
                result.push(other);
            },
        }
        proof {
            assert(crate::vm::ops_view(result@) =~= link(toks).ops);
            assert(stack@.map_values(|x: usize| x as int) =~= link(toks).open);
        }
        i = i + n;
    }
    assert(toks + lex(ss, i as int, optimize) =~= toks);
    if stack.len() > 0 {
        return Err(error_message(VmError::Unmatched));
    }
    Ok(result)
}


/// The op a single instruction compiles to without optimization (brackets
/// before linking).
pub open spec fn literal_op(c: u8) -> SOp {
    if c == 62 {
        SOp::Move(1)
    } else if c == 60 {
        SOp::Move(-1)
    } else if c == 43 {
        SOp::Add(1)
    } else if c == 45 {
        SOp::Add(-1)
    } else if c == 91 {
        SOp::Open(0)
    } else if c == 93 {
        SOp::Close(0)
    } else if c == 44 {
        SOp::In
    } else {
        SOp::Out
    }
}

/// Whether two ops are the same up to the targets of brackets.
pub open spec fn same_kind(a: SOp, b: SOp) -> bool {
    match a {
        SOp::Open(_) => b is Open,
        SOp::Close(_) => b is Close,
        _ => a == b,
    }
}

pub(crate) proof fn lemma_lex_literal(s: Seq<u8>, i: int)
    requires
        0 <= i <= s.len(),
    ensures
        lex(s, i, false) == Seq::new((s.len() - i) as nat, |k: int| literal_op(s[i + k])),
    decreases s.len() - i,
{
    if i < s.len() {
        lemma_lex_literal(s, i + 1);
        assert(lex(s, i, false) =~= Seq::new((s.len() - i) as nat, |k: int| literal_op(s[i + k])));
    } else {
        assert(lex(s, i, false) =~= Seq::new((s.len() - i) as nat, |k: int| literal_op(s[i + k])));
    }
}

pub(crate) proof fn lemma_link_shape(t: Seq<SOp>)
    ensures
        link(t).ok ==> {
            &&& link(t).ops.len() == t.len()
            &&& forall|k: int| 0 <= k < t.len() ==> same_kind(t[k], #[trigger] link(t).ops[k])
            &&& forall|m: int| 0 <= m < link(t).open.len() ==> 0 <= #[trigger] link(t).open[m] < t.len()
                && t[link(t).open[m]] is Open
        },
    decreases t.len(),
{
    if t.len() > 0 {
        let prev = link(t.drop_last());
        lemma_link_shape(t.drop_last());
        if prev.ok && link(t).ok {
            let l = link(t);
            assert forall|k: int| 0 <= k < t.len() implies same_kind(t[k], #[trigger] l.ops[k]) by {
                if k < t.len() - 1 {
                    assert(t[k] == t.drop_last()[k]);
                    assert(same_kind(t.drop_last()[k], prev.ops[k]));
                    match t.last() {
                        SOp::Close(_) => {
                            let j = prev.open.last();
                            assert(0 <= prev.open[prev.open.len() - 1] < t.drop_last().len());
                            if k == j {
                                assert(t.drop_last()[j] is Open);
                            }
                        },
                        _ => {},
                    }
                }
            }
            assert forall|m: int| 0 <= m < l.open.len() implies 0 <= #[trigger] l.open[m] < t.len()
                && t[l.open[m]] is Open by {
                if m < prev.open.len() {
                    assert(l.open[m] == prev.open[m]);
                    assert(t[l.open[m]] == t.drop_last()[l.open[m]]);
                }
            }
        }
    }
}

/// Without optimization, every instruction of the source becomes exactly one
/// op of its own kind: `>`/`<` one-cell moves, `+`/`-` single increments,
/// brackets jumps, `,` input and `.` output.
pub proof fn lemma_literal_compilation(source: &str)
    ensures
        compile_spec(source, false) is Some <==> brackets_match(instructions(source.spec_bytes())),
        compile_spec(source, false) matches Some(ops) ==> {
            let s = instructions(source.spec_bytes());
            &&& ops.len() == s.len()
            &&& forall|k: int| 0 <= k < s.len() ==> same_kind(literal_op(s[k]), #[trigger] ops[k])
        },
{
    let s = instructions(source.spec_bytes());
    lemma_literal_compiles(s);
    lemma_lex_literal(s, 0);
    let t = lex(s, 0, false);
    lemma_link_shape(t);
    if compile_spec(source, false) is Some {
        let ops = compile_spec(source, false)->0;
        assert forall|k: int| 0 <= k < s.len() implies same_kind(literal_op(s[k]), #[trigger] ops[k]) by {
            assert(t[k] == literal_op(s[0 + k]));
        }
    }
}

/// Leaving out what is not an instruction a second time leaves nothing more
/// out.
pub proof fn lemma_instructions_idempotent(s: Seq<u8>)
    ensures
        instructions(instructions(s)) == instructions(s),
    decreases s.len(),
{
    if s.len() > 0 {
        lemma_instructions_idempotent(s.drop_last());
        let i = instructions(s.drop_last());
        if is_instruction(s.last()) {
            assert(i.push(s.last()).drop_last() =~= i);
        }
    }
}

/// Only the instructions of a source matter: the text that holds just the
/// instructions of `source` compiles, with or without optimization, to what
/// `source` compiles to.
pub proof fn law_only_instructions_matter(source: &str, filtered: &str, optimize: bool)
    requires
        filtered.spec_bytes() == instructions(source.spec_bytes()),
    ensures
        compile_spec(filtered, optimize) == compile_spec(source, optimize),
{
    lemma_instructions_idempotent(source.spec_bytes());
}

/// The instructions `s` are one loop: the `[` they start with is closed by
/// the `]` they end with.
pub open spec fn is_one_loop(s: Seq<u8>) -> bool {
    &&& s.len() >= 2
    &&& s[0] == 91
    &&& bracket_depth(s) == 0
    &&& forall|k: int| 1 <= k < s.len() ==> bracket_depth(#[trigger] s.take(k)) >= 1
}

/// Linking the literal ops of the first `k` instructions of one loop: the
/// `[` at the start stays open and unlinked, at the bottom of the brackets
/// still open.
proof fn lemma_first_bracket_open(s: Seq<u8>, k: int)
    requires
        is_one_loop(s),
        1 <= k < s.len(),
    ensures
        link(lex(s.take(k), 0, false)).ok,
        link(lex(s.take(k), 0, false)).open.len() == bracket_depth(s.take(k)),
        link(lex(s.take(k), 0, false)).open[0] == 0,
        link(lex(s.take(k), 0, false)).ops.len() == k,
        link(lex(s.take(k), 0, false)).ops[0] == SOp::Open(0),
        forall|i: int| 1 <= i < link(lex(s.take(k), 0, false)).open.len() ==> #[trigger] link(
            lex(s.take(k), 0, false),
        ).open[i] >= 1,
    decreases k,
{
    let sk = s.take(k);
    lemma_loop_prefixes_open(s, k);
    lemma_lex_literal(sk, 0);
    let t = lex(sk, 0, false);
    lemma_link_depth(sk);
    lemma_link_shape(t);
    assert(bracket_depth(sk) >= 1);
    if k == 1 {
        assert(sk.drop_last() =~= Seq::<u8>::empty());
        assert(t.drop_last() =~= Seq::<SOp>::empty());
        assert(t.last() == literal_op(91));
    } else {
        lemma_first_bracket_open(s, k - 1);
        let s1 = s.take(k - 1);
        assert(sk.drop_last() =~= s1);
        lemma_lex_literal(s1, 0);
        assert(t.drop_last() =~= lex(s1, 0, false));
        assert(bracket_depth(s1) >= 1);
        let prev = link(lex(s1, 0, false));
        assert(t.last() == literal_op(s[k - 1]));
        assert(sk.last() == s[k - 1]);
        if s[k - 1] == 93 {
            assert(prev.open.len() >= 2);
            let j = prev.open.last();
            assert(prev.open[prev.open.len() - 1] >= 1);
            assert(j != 0);
            lemma_link_shape(lex(s1, 0, false));
            assert(0 <= j < prev.ops.len());
            assert(t.drop_last() == lex(s1, 0, false));
            assert(link(t.drop_last()) == prev);
            assert(t.last() == SOp::Close(0));
            assert(link(t).ops == prev.ops.update(j, SOp::Open(prev.ops.len() + 1int)).push(SOp::Close(j + 1)));
            assert(link(t).ops[0] == prev.ops[0]);
        }
    }
}

proof fn lemma_loop_prefixes_open(s: Seq<u8>, k: int)
    requires
        is_one_loop(s),
        1 <= k < s.len(),
    ensures
        never_overclosed(s.take(k)),
{
    assert forall|i: int| 0 <= i <= k implies bracket_depth(#[trigger] s.take(k).take(i)) >= 0 by {
        assert(s.take(k).take(i) =~= s.take(i));
        if i == 0 {
            assert(s.take(0) =~= Seq::<u8>::empty());
        }
    }
}

/// One loop compiles literally to a program whose first op, the `[`,
/// jumps past the program's end.
pub(crate) proof fn lemma_one_loop_links(s: Seq<u8>)
    requires
        is_one_loop(s),
    ensures
        compiled(s, false) is Some,
        compiled(s, false)->0.len() == s.len(),
        compiled(s, false)->0[0] == SOp::Open(s.len() as int),
{
    let n = s.len() as int;
    lemma_first_bracket_open(s, n - 1);
    let s1 = s.take(n - 1);
    assert(s.drop_last() =~= s1);
    assert(s.take(n) =~= s);
    lemma_lex_literal(s, 0);
    lemma_lex_literal(s1, 0);
    let t = lex(s, 0, false);
    assert(t.drop_last() =~= lex(s1, 0, false));
    assert(s.last() == 93);
    assert(t.last() == literal_op(93));
}

} // verus!
