//! Evaluation of calculator scripts, one command at a time.
use crate::fixed::{
    dec_add, dec_div, dec_eq, dec_lt, dec_mul, dec_neg, dec_pow, dec_rem, dec_sqrt, dec_sub,
    integer_part, max_nat, parsed, saturating_u32, Dec, Fixed,
};
use crate::memory::{item_fits, item_text, pop_two, stack_text, Item, Memory, State, Value};
use vstd::prelude::*;

verus! {

/// An error that a command reports.
#[derive(Debug, Clone, Copy, PartialEq, Eq, Structural)]
pub enum Error {
    EmptyStack,
    NaN,
    ZeroDivision,
    NegativeNumber,
    InvalidExponent,
    EoF,
    Unexpected(u8),
}

/// Check if the byte is a hexadecimal digit (`0`-`9`, `A`-`F`).
pub open spec fn is_hex(c: u8) -> bool {
    (48 <= c <= 57) || (65 <= c <= 70)
}

/// Check if the string byte is a hexadecimal digit.
pub fn is_hex_digit(c: u8) -> (r: bool)
    ensures
        r == is_hex(c),
{
    (48 <= c && c <= 57) || (65 <= c && c <= 70)
}


pub const ADD: u8 = 43;
pub const SUB: u8 = 45;
pub const MUL: u8 = 42;
pub const DIV: u8 = 47;
pub const REM: u8 = 37;
pub const POW: u8 = 94;
pub const SQRT: u8 = 118;
pub const DUP: u8 = 100;
pub const CLEAR: u8 = 99;
pub const SWAP: u8 = 114;
pub const PRINTLN: u8 = 112;
pub const PRINT: u8 = 110;
pub const PRINT_STACK: u8 = 102;
pub const SET_PRECISION: u8 = 107;
pub const SET_INPUT_RADIX: u8 = 105;
pub const SET_OUTPUT_RADIX: u8 = 111;
pub const SET_SEED: u8 = 106;
pub const RANDOM: u8 = 39;
pub const SAVE: u8 = 115;
pub const LOAD: u8 = 108;
pub const EXECUTE: u8 = 120;
pub const GREATER: u8 = 62;
pub const LESS: u8 = 60;
pub const EQUAL: u8 = 61;
pub const NOT: u8 = 33;
pub const OPEN: u8 = 91;
pub const CLOSE: u8 = 93;
pub const ESCAPE: u8 = 92;
pub const COMMENT: u8 = 35;
pub const QUIT: u8 = 113;
pub const MINUS_SIGN: u8 = 95;
pub const DOT: u8 = 46;
pub const NEWLINE: u8 = 10;
pub const RETURN: u8 = 13;
pub const TAB: u8 = 9;
pub const SPACE: u8 = 32;
pub const FORM_FEED: u8 = 12;

/// Multiplier and increment of the linear congruential generator behind
/// the random numbers (modulo 2^32).
pub const LCG_MULTIPLIER: u32 = 1664525;
pub const LCG_INCREMENT: u32 = 1013904223;

/// Why evaluation cannot go on: the script asks for a precision beyond
/// `u32::MAX` digits, or a string ends in a lone `\`.
#[derive(Debug, Clone, Copy, PartialEq, Eq, Structural)]
pub enum Fault {
    PrecisionOverflow,
    EscapeAtEnd,
}

/// The state of an evaluation: the commands being run, the position in
/// them, the commands to resume once they are done (innermost last), and
/// whether an error stops the evaluation.
pub struct Program {
    pub queue: Seq<(Seq<u8>, nat)>,
    pub cmds: Seq<u8>,
    pub pos: nat,
    pub fail: bool,
}

/// What one step of evaluation yields.
pub enum Outcome {
    /// Nothing to show; evaluation goes on.
    Continue,
    /// Bytes to write to the output; evaluation goes on.
    Print(Seq<u8>),
    /// An error to report; evaluation goes on.
    Warn(Error),
    /// An error to report; evaluation ends unsuccessfully.
    Fail(Error),
    /// All commands have run; evaluation ends successfully.
    Done,
    /// `q`: the program is to exit.
    Quit,
    /// Evaluation cannot go on.
    Abort(Fault),
}

pub struct Transition {
    pub program: Program,
    pub state: State,
    pub outcome: Outcome,
}

pub open spec fn go(program: Program, state: State, outcome: Outcome) -> Transition {
    Transition { program, state, outcome }
}

pub open spec fn advanced(p: Program, k: nat) -> Program {
    Program { pos: p.pos + k, ..p }
}

/// Report `e`: stop when errors are fatal, else go on after the command.
pub open spec fn fail_with(p: Program, st: State, e: Error) -> Transition {
    if p.fail {
        go(p, st, Outcome::Fail(e))
    } else {
        go(advanced(p, 1), st, Outcome::Warn(e))
    }
}

/// Run a value as a command: a number is pushed, a string is run as a
/// macro, after which the rest of the current commands resumes.
pub open spec fn run_item(p: Program, st: State, v: Item) -> Transition {
    match v {
        Item::Number(_) => go(advanced(p, 1), st.push(v), Outcome::Continue),
        Item::Text(s) => {
            let i = p.pos + 1;
            let queue = if i < p.cmds.len() {
                p.queue.push((p.cmds, i))
            } else {
                p.queue
            };
            go(Program { queue, cmds: s, pos: 0, fail: p.fail }, st, Outcome::Continue)
        },
    }
}

pub open spec fn push_number(p: Program, st: State, d: Dec) -> Transition {
    go(advanced(p, 1), st.push(Item::Number(d)), Outcome::Continue)
}

/// `+`, `-`, `*`, `/`, `%`: pop two numbers and push the result.
pub open spec fn arith_step(p: Program, st: State, c: u8) -> Transition {
    let (st2, res) = pop_two(st);
    match res {
        Err(e) => fail_with(p, st2, e),
        Ok((l, r)) => {
            if c == ADD {
                push_number(p, st2, dec_add(l, r))
            } else if c == SUB {
                push_number(p, st2, dec_sub(l, r))
            } else if c == MUL {
                if l.scale + r.scale > u32::MAX {
                    go(p, st2, Outcome::Abort(Fault::PrecisionOverflow))
                } else {
                    push_number(p, st2, dec_mul(l, r, st.precision as nat))
                }
            } else if c == DIV {
                if r.value == 0 {
                    fail_with(p, st2, Error::ZeroDivision)
                } else {
                    push_number(p, st2, dec_div(l, r, st.precision as nat))
                }
            } else {
                if r.value == 0 {
                    fail_with(p, st2, Error::ZeroDivision)
                } else if st.precision + r.scale > u32::MAX {
                    go(p, st2, Outcome::Abort(Fault::PrecisionOverflow))
                } else {
                    push_number(p, st2, dec_rem(l, r, st.precision as nat))
                }
            }
        },
    }
}

/// `^`: pop the exponent and raise the number below it.
pub open spec fn pow_step(p: Program, st: State) -> Transition {
    let s = st.stack;
    if s.len() == 0 {
        fail_with(p, st, Error::EmptyStack)
    } else if s.len() == 1 {
        fail_with(p, st.with_stack(s.drop_last()), Error::EmptyStack)
    } else {
        let rest = s.drop_last();
        let st2 = st.with_stack(rest);
        match (rest.last(), s.last()) {
            (Item::Number(l), Item::Number(e)) => {
                let n = integer_part(e);
                if n <= u32::MAX && l.scale * n > u32::MAX {
                    go(p, st2, Outcome::Abort(Fault::PrecisionOverflow))
                } else {
                    match dec_pow(l, e, st.precision as nat) {
                        Some(v) => go(
                            advanced(p, 1),
                            st.with_stack(rest.drop_last().push(Item::Number(v))),
                            Outcome::Continue,
                        ),
                        None => fail_with(p, st2, Error::InvalidExponent),
                    }
                }
            },
            _ => fail_with(p, st2, Error::NaN),
        }
    }
}

/// `v`: replace the number on the top by its square root.
pub open spec fn sqrt_step(p: Program, st: State) -> Transition {
    let s = st.stack;
    if s.len() == 0 {
        fail_with(p, st, Error::EmptyStack)
    } else {
        match s.last() {
            Item::Number(d) => {
                if d.value < 0 {
                    fail_with(p, st, Error::NegativeNumber)
                } else if 2 * max_nat(d.scale, st.precision as nat) > u32::MAX {
                    go(p, st, Outcome::Abort(Fault::PrecisionOverflow))
                } else {
                    go(
                        advanced(p, 1),
                        st.with_stack(s.drop_last().push(Item::Number(dec_sqrt(d, st.precision as nat)))),
                        Outcome::Continue,
                    )
                }
            },
            Item::Text(_) => fail_with(p, st, Error::NaN),
        }
    }
}

/// `k`, `i`, `o`, `j`: pop a number and set a setting from it.
pub open spec fn setting_step(p: Program, st: State, c: u8) -> Transition {
    let s = st.stack;
    if s.len() == 0 {
        fail_with(p, st, Error::EmptyStack)
    } else {
        let st2 = st.with_stack(s.drop_last());
        match s.last() {
            Item::Number(d) => {
                let n = saturating_u32(d);
                let st3 = if c == SET_PRECISION {
                    State { precision: n, ..st2 }
                } else if c == SET_INPUT_RADIX {
                    State { input_radix: clamp_radix(n), ..st2 }
                } else if c == SET_OUTPUT_RADIX {
                    State { output_radix: clamp_radix(n), ..st2 }
                } else {
                    State { seed: n, ..st2 }
                };
                go(advanced(p, 1), st3, Outcome::Continue)
            },
            Item::Text(_) => fail_with(p, st2, Error::EmptyStack),
        }
    }
}

pub open spec fn clamp_radix(n: u32) -> u32 {
    if n < 2 {
        2
    } else if n > 16 {
        16
    } else {
        n
    }
}

/// The seed after `seed`: `seed * LCG_MULTIPLIER + LCG_INCREMENT` modulo 2^32.
pub open spec fn next_seed(seed: u32) -> u32 {
    ((seed * LCG_MULTIPLIER + LCG_INCREMENT) % 0x1_0000_0000) as u32
}

/// `'`: advance the generator and push the new seed.
pub open spec fn random_step(p: Program, st: State) -> Transition {
    let n = next_seed(st.seed);
    go(
        advanced(p, 1),
        State { seed: n, ..st }.push(Item::Number(Dec { value: n as int, scale: 0 })),
        Outcome::Continue,
    )
}

/// The condition of `>r`, `<r`, `=r` (`negated` for `!>r`, `!<r`, `!=r`)
/// on the second value from the top (`l`) and the top (`r`).
pub open spec fn holds(op: u8, negated: bool, l: Dec, r: Dec) -> bool {
    let c = if op == GREATER {
        dec_lt(l, r)
    } else if op == LESS {
        dec_lt(r, l)
    } else {
        dec_eq(l, r)
    };
    c != negated
}

/// A comparison whose register name stands at `p.pos`: pop two numbers and
/// run the register when the condition holds.
pub open spec fn compare_step(p: Program, st: State, op: u8, negated: bool) -> Transition {
    let branch = st.register[p.cmds[p.pos as int] as int];
    let (st2, res) = pop_two(st);
    match res {
        Err(e) => fail_with(p, st2, e),
        Ok((l, r)) => if holds(op, negated, l, r) {
            run_item(p, st2, branch)
        } else {
            go(advanced(p, 1), st2, Outcome::Continue)
        },
    }
}

/// The byte that an escape `\c` in a string stands for.
pub open spec fn unescaped(c: u8) -> u8 {
    if c == 110 {
        NEWLINE
    } else if c == 114 {
        RETURN
    } else if c == 116 {
        TAB
    } else if c == 48 {
        0
    } else {
        c
    }
}

/// Read a string from `i` at bracket depth `depth` (at least 1), with the
/// bytes read so far in `acc`: the string and the position of its closing
/// bracket (or the end), or `None` when a `\` is the last byte.
pub open spec fn scan_text(cmds: Seq<u8>, i: nat, depth: nat, acc: Seq<u8>) -> Option<(Seq<u8>, nat)>
    decreases cmds.len() - i,
{
    if i >= cmds.len() {
        Some((acc, i))
    } else {
        let c = cmds[i as int];
        if c == OPEN {
            scan_text(cmds, i + 1, depth + 1, acc.push(c))
        } else if c == CLOSE {
            if depth <= 1 {
                Some((acc, i))
            } else {
                scan_text(cmds, i + 1, (depth - 1) as nat, acc.push(c))
            }
        } else if c == ESCAPE {
            if i + 1 >= cmds.len() {
                None
            } else {
                scan_text(cmds, i + 2, depth, acc.push(unescaped(cmds[i + 1 as int])))
            }
        } else {
            scan_text(cmds, i + 1, depth, acc.push(c))
        }
    }
}

/// The first position at or after `i` that holds a line end, or the end.
pub open spec fn comment_end(cmds: Seq<u8>, i: nat) -> nat
    decreases cmds.len() - i,
{
    if i >= cmds.len() || cmds[i as int] == NEWLINE || cmds[i as int] == RETURN {
        i
    } else {
        comment_end(cmds, i + 1)
    }
}

/// The first position at or after `i` that does not hold a hexadecimal
/// digit.
pub open spec fn hex_end(cmds: Seq<u8>, i: nat) -> nat
    decreases cmds.len() - i,
{
    if i < cmds.len() && is_hex(cmds[i as int]) {
        hex_end(cmds, i + 1)
    } else {
        i
    }
}

/// The end of a number that starts at `i`: digits, then optionally a dot
/// and more digits.
pub open spec fn number_end(cmds: Seq<u8>, i: nat) -> nat {
    let e = hex_end(cmds, i);
    if e < cmds.len() && cmds[e as int] == DOT {
        hex_end(cmds, e + 1)
    } else {
        e
    }
}

pub open spec fn is_whitespace(c: u8) -> bool {
    c == SPACE || c == TAB || c == NEWLINE || c == FORM_FEED || c == RETURN
}

/// A number literal at `p.pos`, negative after a `_`, read in the input
/// radix; evaluation goes on after it.
pub open spec fn number_step(p: Program, st: State) -> Transition {
    let negate = p.cmds[p.pos as int] == MINUS_SIGN;
    let start = if negate {
        p.pos + 1
    } else {
        p.pos
    };
    let end = number_end(p.cmds, start);
    let v = parsed(p.cmds.subrange(start as int, end as int), st.input_radix as nat);
    let v2 = if negate {
        dec_neg(v)
    } else {
        v
    };
    go(Program { pos: end, ..p }, st.push(Item::Number(v2)), Outcome::Continue)
}

/// The effect of the command `c` at `p.pos`.
pub open spec fn command_step(p: Program, st: State, c: u8) -> Transition {
    let s = st.stack;
    let len = p.cmds.len();
    if c == ADD || c == SUB || c == MUL || c == DIV || c == REM {
        arith_step(p, st, c)
    } else if c == POW {
        pow_step(p, st)
    } else if c == SQRT {
        sqrt_step(p, st)
    } else if c == DUP {
        if s.len() == 0 {
            fail_with(p, st, Error::EmptyStack)
        } else {
            go(advanced(p, 1), st.push(s.last()), Outcome::Continue)
        }
    } else if c == CLEAR {
        go(advanced(p, 1), st.with_stack(Seq::empty()), Outcome::Continue)
    } else if c == SWAP {
        if s.len() > 1 {
            go(
                advanced(p, 1),
                st.with_stack(s.update(s.len() - 2, s.last()).update(s.len() - 1, s[s.len() - 2])),
                Outcome::Continue,
            )
        } else {
            fail_with(p, st, Error::EmptyStack)
        }
    } else if c == PRINTLN || c == PRINT {
        if s.len() == 0 {
            fail_with(p, st, Error::EmptyStack)
        } else {
            let text = item_text(s.last(), st.output_radix);
            go(
                advanced(p, 1),
                st.with_stack(s.drop_last()),
                Outcome::Print(
                    if c == PRINTLN {
                        text.push(NEWLINE)
                    } else {
                        text
                    },
                ),
            )
        }
    } else if c == PRINT_STACK {
        if s.len() == 0 {
            go(advanced(p, 1), st, Outcome::Continue)
        } else {
            go(
                advanced(p, 1),
                st,
                Outcome::Print(stack_text(s, st.output_radix).drop_last().push(NEWLINE)),
            )
        }
    } else if c == SET_PRECISION || c == SET_INPUT_RADIX || c == SET_OUTPUT_RADIX || c
        == SET_SEED {
        setting_step(p, st, c)
    } else if c == RANDOM {
        random_step(p, st)
    } else if c == SAVE {
        let p1 = advanced(p, 1);
        if p1.pos < len {
            if s.len() == 0 {
                fail_with(p1, st, Error::EmptyStack)
            } else {
                go(
                    advanced(p1, 1),
                    State {
                        stack: s.drop_last(),
                        register: st.register.update(p.cmds[p1.pos as int] as int, s.last()),
                        ..st
                    },
                    Outcome::Continue,
                )
            }
        } else {
            fail_with(p1, st, Error::EoF)
        }
    } else if c == LOAD {
        let p1 = advanced(p, 1);
        if p1.pos < len {
            go(advanced(p1, 1), st.push(st.register[p.cmds[p1.pos as int] as int]), Outcome::Continue)
        } else {
            fail_with(p1, st, Error::EoF)
        }
    } else if c == EXECUTE {
        if s.len() == 0 {
            fail_with(p, st, Error::EmptyStack)
        } else {
            run_item(p, st.with_stack(s.drop_last()), s.last())
        }
    } else if c == GREATER || c == LESS || c == EQUAL {
        let p1 = advanced(p, 1);
        if p1.pos < len {
            compare_step(p1, st, c, false)
        } else {
            fail_with(p1, st, Error::EoF)
        }
    } else if c == NOT {
        if p.pos + 2 < len {
            let op = p.cmds[p.pos + 1 as int];
            if op == GREATER || op == LESS || op == EQUAL {
                compare_step(advanced(p, 2), st, op, true)
            } else {
                fail_with(p, st, Error::Unexpected(op))
            }
        } else {
            fail_with(p, st, Error::EoF)
        }
    } else if c == OPEN {
        match scan_text(p.cmds, p.pos + 1, 1, seq![]) {
            None => go(p, st, Outcome::Abort(Fault::EscapeAtEnd)),
            Some((text, j)) => go(
                Program { pos: j + 1, ..p },
                st.push(Item::Text(text)),
                Outcome::Continue,
            ),
        }
    } else if c == COMMENT {
        go(Program { pos: comment_end(p.cmds, p.pos) + 1, ..p }, st, Outcome::Continue)
    } else if c == QUIT {
        go(p, st, Outcome::Quit)
    } else if c == MINUS_SIGN || c == DOT || is_hex(c) {
        number_step(p, st)
    } else if is_whitespace(c) {
        go(advanced(p, 1), st, Outcome::Continue)
    } else {
        fail_with(p, st, Error::Unexpected(c))
    }
}

/// One step of evaluation: run the command at the current position, or,
/// at the end of the commands, resume the innermost waiting ones, or finish.
pub open spec fn step_spec(p: Program, st: State) -> Transition {
    if p.pos >= p.cmds.len() {
        if p.queue.len() == 0 {
            go(p, st, Outcome::Done)
        } else {
            let f = p.queue.last();
            go(
                Program { queue: p.queue.drop_last(), cmds: f.0, pos: f.1, fail: p.fail },
                st,
                Outcome::Continue,
            )
        }
    } else {
        command_step(p, st, p.cmds[p.pos as int])
    }
}


/// A command buffer fits in memory and the positions stay within it.
pub open spec fn program_wf(p: Program) -> bool {
    &&& p.cmds.len() <= isize::MAX
    &&& p.pos <= p.cmds.len() + 1
    &&& forall|k: int|
        0 <= k < p.queue.len() ==> {
            let f = #[trigger] p.queue[k];
            f.0.len() <= isize::MAX && f.1 < f.0.len()
        }
}

pub open spec fn frames(q: Seq<(Vec<u8>, usize)>) -> Seq<(Seq<u8>, nat)> {
    q.map_values(|f: (Vec<u8>, usize)| (f.0@, f.1 as nat))
}

/// An evaluation in progress (see `Program`).
pub struct Machine {
    queue: Vec<(Vec<u8>, usize)>,
    cmds: Vec<u8>,
    pos: usize,
    fail: bool,
}

impl View for Machine {
    type V = Program;

    closed spec fn view(&self) -> Program {
        Program { queue: frames(self.queue@), cmds: self.cmds@, pos: self.pos as nat, fail: self.fail }
    }
}

/// What one step of evaluation yields (see `Outcome`).
#[derive(Debug)]
pub enum Step {
    Continue,
    Print(Vec<u8>),
    Warn(Error),
    Fail(Error),
    Done,
    Quit,
    Abort(Fault),
}

impl View for Step {
    type V = Outcome;

    open spec fn view(&self) -> Outcome {
        match self {
            Step::Continue => Outcome::Continue,
            Step::Print(b) => Outcome::Print(b@),
            Step::Warn(e) => Outcome::Warn(*e),
            Step::Fail(e) => Outcome::Fail(*e),
            Step::Done => Outcome::Done,
            Step::Quit => Outcome::Quit,
            Step::Abort(f) => Outcome::Abort(*f),
        }
    }
}

/// Both views after a step agree with `t`.
pub open spec fn agrees(m: Program, st: State, out: Outcome, t: Transition) -> bool {
    m == t.program && st == t.state && out == t.outcome
}

impl Machine {
    /// Evaluation of `script` from its start; with `fail`, the first error
    /// ends it.
    pub fn new(script: &[u8], fail: bool) -> (r: Machine)
        requires
            script@.len() <= isize::MAX,
        ensures
            r@ == (Program { queue: Seq::empty(), cmds: script@, pos: 0, fail }),
            program_wf(r@),
    {
        let r = Machine { queue: Vec::new(), cmds: vstd::slice::slice_to_vec(script), pos: 0, fail };
        assert(frames(r.queue@) =~= Seq::empty());
        r
    }

    /// Report `e` (see `fail_with`).
    fn report(&mut self, e: Error) -> (r: Step)
        requires
            program_wf(old(self)@),
            old(self)@.pos <= old(self)@.cmds.len(),
        ensures
            program_wf(final(self)@),
            final(self)@ == fail_with(old(self)@, State::initial(), e).program,
            r@ == fail_with(old(self)@, State::initial(), e).outcome,
    {
        if self.fail {
            Step::Fail(e)
        } else {
            self.pos = self.pos + 1;
            Step::Warn(e)
        }
    }

    /// Run `v` (see `run_item`).
    fn run_value(&mut self, memory: &mut Memory, v: Value) -> (r: Step)
        requires
            program_wf(old(self)@),
            old(self)@.pos < old(self)@.cmds.len(),
            old(memory)@.wf(),
            item_fits(v@),
        ensures
            agrees(final(self)@, final(memory)@, r@, run_item(old(self)@, old(memory)@, v@)),
            program_wf(final(self)@),
            final(memory)@.wf(),
    {
        match v {
            Value::Number(n) => {
                memory.push(Value::Number(n));
                self.pos = self.pos + 1;
            },
            Value::String(s) => {
                let i = self.pos + 1;
                let mut t = s;
                std::mem::swap(&mut t, &mut self.cmds);
                if i < t.len() {
                    self.queue.push((t, i));
                    assert(frames(self.queue@) =~= frames(old(self).queue@).push((old(self).cmds@, i as nat)));
                }
                self.pos = 0;
            },
        }
        Step::Continue
    }
}


impl Machine {
    /// `+`, `-`, `*`, `/`, `%` (see `arith_step`).
    fn arith(&mut self, memory: &mut Memory, c: u8) -> (r: Step)
        requires
            program_wf(old(self)@),
            old(self)@.pos < old(self)@.cmds.len(),
            old(memory)@.wf(),
        ensures
            agrees(final(self)@, final(memory)@, r@, arith_step(old(self)@, old(memory)@, c)),
            program_wf(final(self)@),
            final(memory)@.wf(),
    {
        let precision = memory.precision();
        match memory.two_numbers() {
            Err(e) => self.report(e),
            Ok((l, r)) => {
                let v = if c == ADD {
                    l.add(&r)
                } else if c == SUB {
                    l.sub(&r)
                } else if c == MUL {
                    if l.precision() > u32::MAX - r.precision() {
                        return Step::Abort(Fault::PrecisionOverflow);
                    }
                    l.mul(&r, precision)
                } else if c == DIV {
                    if r.is_zero() {
                        return self.report(Error::ZeroDivision);
                    }
                    l.div(&r, precision)
                } else {
                    if r.is_zero() {
                        return self.report(Error::ZeroDivision);
                    }
                    if precision > u32::MAX - r.precision() {
                        return Step::Abort(Fault::PrecisionOverflow);
                    }
                    l.rem(&r, precision)
                };
                memory.push(Value::Number(v));
                self.pos = self.pos + 1;
                Step::Continue
            },
        }
    }

    /// `^` (see `pow_step`).
    fn power(&mut self, memory: &mut Memory) -> (r: Step)
        requires
            program_wf(old(self)@),
            old(self)@.pos < old(self)@.cmds.len(),
            old(memory)@.wf(),
        ensures
            agrees(final(self)@, final(memory)@, r@, pow_step(old(self)@, old(memory)@)),
            program_wf(final(self)@),
            final(memory)@.wf(),
    {
        let precision = memory.precision();
        let rhs = match memory.pop() {
            Some(v) => v,
            None => return self.report(Error::EmptyStack),
        };
        if memory.stack_len() == 0 {
            return self.report(Error::EmptyStack);
        }
        let result = match (memory.top(), &rhs) {
            (Value::Number(lhs), Value::Number(e)) => {
                proof {
                    crate::fixed::lemma_scale_fits(lhs);
                }
                let overflow = match e.integer_u32() {
                    Some(exp) => {
                        let a = exp as u64;
                        let b = lhs.precision() as u64;
                        assert(a * b <= 0xffff_ffff * 0xffff_ffff) by (nonlinear_arith)
                            requires
                                a <= 0xffff_ffff,
                                b <= 0xffff_ffff,
                        ;
                        proof {
                            vstd::arithmetic::mul::lemma_mul_is_commutative(a as int, b as int);
                        }
                        a * b > u32::MAX as u64
                    },
                    None => {
                        proof {
                            let n = integer_part(e@);
                            let sc = lhs@.scale as int;
                            if n < 0 {
                                assert(sc * n <= 0) by (nonlinear_arith)
                                    requires
                                        sc >= 0,
                                        n < 0,
                                ;
                            }
                        }
                        false
                    },
                };
                if overflow {
                    return Step::Abort(Fault::PrecisionOverflow);
                }
                lhs.checked_pow(e, precision)
            },
            _ => return self.report(Error::NaN),
        };
        match result {
            Some(v) => {
                memory.replace_top(Value::Number(v));
                self.pos = self.pos + 1;
                Step::Continue
            },
            None => self.report(Error::InvalidExponent),
        }
    }
}


impl Machine {
    /// `v` (see `sqrt_step`).
    fn square_root(&mut self, memory: &mut Memory) -> (r: Step)
        requires
            program_wf(old(self)@),
            old(self)@.pos < old(self)@.cmds.len(),
            old(memory)@.wf(),
        ensures
            agrees(final(self)@, final(memory)@, r@, sqrt_step(old(self)@, old(memory)@)),
            program_wf(final(self)@),
            final(memory)@.wf(),
    {
        let precision = memory.precision();
        if memory.stack_len() == 0 {
            return self.report(Error::EmptyStack);
        }
        let root = match memory.top() {
            Value::Number(x) => {
                if x.is_negative() {
                    return self.report(Error::NegativeNumber);
                }
                let p = if x.precision() >= precision {
                    x.precision()
                } else {
                    precision
                };
                if p > u32::MAX / 2 {
                    return Step::Abort(Fault::PrecisionOverflow);
                }
                x.sqrt(precision)
            },
            Value::String(_) => return self.report(Error::NaN),
        };
        memory.replace_top(Value::Number(root));
        self.pos = self.pos + 1;
        Step::Continue
    }

    /// `k`, `i`, `o`, `j` (see `setting_step`).
    fn setting(&mut self, memory: &mut Memory, c: u8) -> (r: Step)
        requires
            program_wf(old(self)@),
            old(self)@.pos < old(self)@.cmds.len(),
            old(memory)@.wf(),
        ensures
            agrees(final(self)@, final(memory)@, r@, setting_step(old(self)@, old(memory)@, c)),
            program_wf(final(self)@),
            final(memory)@.wf(),
    {
        match memory.pop() {
            Some(Value::Number(n)) => {
                let v = n.to_u32_saturating();
                if c == SET_PRECISION {
                    memory.set_precision(v);
                } else if c == SET_INPUT_RADIX {
                    memory.set_input_radix(clamp(v));
                } else if c == SET_OUTPUT_RADIX {
                    memory.set_output_radix(clamp(v));
                } else {
                    memory.set_seed(v);
                }
                self.pos = self.pos + 1;
                Step::Continue
            },
            _ => self.report(Error::EmptyStack),
        }
    }

    /// `'` (see `random_step`).
    fn random(&mut self, memory: &mut Memory) -> (r: Step)
        requires
            program_wf(old(self)@),
            old(self)@.pos < old(self)@.cmds.len(),
            old(memory)@.wf(),
        ensures
            agrees(final(self)@, final(memory)@, r@, random_step(old(self)@, old(memory)@)),
            program_wf(final(self)@),
            final(memory)@.wf(),
    {
        let seed = memory.seed();
        let n = seed.wrapping_mul(LCG_MULTIPLIER).wrapping_add(LCG_INCREMENT);
        proof {
            lemma_next_seed(seed);
        }
        memory.set_seed(n);
        memory.push(Value::Number(Fixed::from_u32(n)));
        self.pos = self.pos + 1;
        Step::Continue
    }
}

/// Clamp a radix to `2..=16`.
fn clamp(n: u32) -> (r: u32)
    ensures
        r == clamp_radix(n),
{
    if n < 2 {
        2
    } else if n > 16 {
        16
    } else {
        n
    }
}


/// The generator step computed with wrapping `u32` arithmetic.
proof fn lemma_next_seed(seed: u32)
    ensures
        vstd::wrapping::u32_specs::wrapping_add(
            vstd::wrapping::u32_specs::wrapping_mul(seed, LCG_MULTIPLIER),
            LCG_INCREMENT,
        ) == next_seed(seed),
{
    let m: int = 0x1_0000_0000;
    let x = (seed as int * LCG_MULTIPLIER as int) % m;
    vstd::arithmetic::div_mod::lemma_mod_bound(seed as int * LCG_MULTIPLIER as int, m);
    vstd::arithmetic::div_mod::lemma_add_mod_noop(
        seed as int * LCG_MULTIPLIER as int,
        LCG_INCREMENT as int,
        m,
    );
    vstd::arithmetic::div_mod::lemma_small_mod(LCG_INCREMENT as nat, m as nat);
    if x + LCG_INCREMENT >= m {
        vstd::arithmetic::div_mod::lemma_mod_sub_multiples_vanish(x + LCG_INCREMENT, m);
        vstd::arithmetic::div_mod::lemma_small_mod((x + LCG_INCREMENT - m) as nat, m as nat);
    } else {
        vstd::arithmetic::div_mod::lemma_small_mod((x + LCG_INCREMENT) as nat, m as nat);
    }
}


impl Machine {
    /// A comparison whose register name is at the current position (see
    /// `compare_step`).
    fn compare(&mut self, memory: &mut Memory, op: u8, negated: bool) -> (r: Step)
        requires
            program_wf(old(self)@),
            old(self)@.pos < old(self)@.cmds.len(),
            old(memory)@.wf(),
        ensures
            agrees(
                final(self)@,
                final(memory)@,
                r@,
                compare_step(old(self)@, old(memory)@, op, negated),
            ),
            program_wf(final(self)@),
            final(memory)@.wf(),
    {
        let branch = memory.register(self.cmds[self.pos]).clone();
        proof {
            assert(item_fits(memory@.register[self.cmds@[self.pos as int] as int]));
        }
        match memory.two_numbers() {
            Err(e) => self.report(e),
            Ok((l, r)) => {
                let c = if op == GREATER {
                    l.less_than(&r)
                } else if op == LESS {
                    r.less_than(&l)
                } else {
                    l.equals(&r)
                };
                if c != negated {
                    self.run_value(memory, branch)
                } else {
                    self.pos = self.pos + 1;
                    Step::Continue
                }
            },
        }
    }

    /// `[`: read a string up to its matching `]` (see `scan_text`).
    fn read_text(&mut self, memory: &mut Memory) -> (r: Step)
        requires
            program_wf(old(self)@),
            old(self)@.pos < old(self)@.cmds.len(),
            old(memory)@.wf(),
        ensures
            agrees(
                final(self)@,
                final(memory)@,
                r@,
                command_step(old(self)@, old(memory)@, OPEN),
            ),
            program_wf(final(self)@),
            final(memory)@.wf(),
    {
        let len = self.cmds.len();
        let mut i = self.pos + 1;
        let mut depth: usize = 1;
        let mut acc: Vec<u8> = Vec::new();
        while i < len
            invariant_except_break
                depth >= 1,
                scan_text(self.cmds@, (self.pos + 1) as nat, 1, seq![]) == scan_text(
                    self.cmds@,
                    i as nat,
                    depth as nat,
                    acc@,
                ),
            invariant
                len == self.cmds@.len(),
                len <= isize::MAX,
                self.pos < i <= len,
                depth <= i - self.pos,
                acc@.len() <= i - self.pos,
                self == old(self),
                memory == old(memory),
                program_wf(self@),
                memory@.wf(),
            ensures
                scan_text(self.cmds@, (self.pos + 1) as nat, 1, seq![]) == Some((acc@, i as nat)),
                acc@.len() <= len,
                i <= len,
            decreases len - i,
        {
            let c = self.cmds[i];
            if c == OPEN {
                depth = depth + 1;
                acc.push(c);
                i = i + 1;
            } else if c == CLOSE {
                if depth <= 1 {
                    break;
                }
                depth = depth - 1;
                acc.push(c);
                i = i + 1;
            } else if c == ESCAPE {
                if i + 1 >= len {
                    return Step::Abort(Fault::EscapeAtEnd);
                }
                let e = self.cmds[i + 1];
                let u = if e == 110 {
                    NEWLINE
                } else if e == 114 {
                    RETURN
                } else if e == 116 {
                    TAB
                } else if e == 48 {
                    0
                } else {
                    e
                };
                acc.push(u);
                i = i + 2;
            } else {
                acc.push(c);
                i = i + 1;
            }
        }
        memory.push(Value::String(acc));
        self.pos = i + 1;
        Step::Continue
    }

    /// `#`: skip to the end of the line (see `comment_end`).
    fn comment(&mut self, memory: &mut Memory) -> (r: Step)
        requires
            program_wf(old(self)@),
            old(self)@.pos < old(self)@.cmds.len(),
            old(memory)@.wf(),
        ensures
            agrees(
                final(self)@,
                final(memory)@,
                r@,
                command_step(old(self)@, old(memory)@, COMMENT),
            ),
            program_wf(final(self)@),
            final(memory)@.wf(),
    {
        let len = self.cmds.len();
        let mut i = self.pos;
        while i < len && self.cmds[i] != NEWLINE && self.cmds[i] != RETURN
            invariant
                len == self.cmds@.len(),
                self.pos <= i <= len,
                comment_end(self.cmds@, self.pos as nat) == comment_end(self.cmds@, i as nat),
            decreases len - i,
        {
            i = i + 1;
        }
        self.pos = i + 1;
        Step::Continue
    }

    /// The end of a run of hexadecimal digits from `i` (see `hex_end`).
    fn hex_run(&self, i: usize) -> (r: usize)
        requires
            i <= self@.cmds.len(),
        ensures
            r == hex_end(self@.cmds, i as nat),
            i <= r <= self@.cmds.len(),
    {
        let len = self.cmds.len();
        let mut k = i;
        while k < len && is_hex_digit(self.cmds[k])
            invariant
                len == self.cmds@.len(),
                i <= k <= len,
                hex_end(self.cmds@, i as nat) == hex_end(self.cmds@, k as nat),
            decreases len - k,
        {
            k = k + 1;
        }
        k
    }

    /// A number literal (see `number_step`).
    fn number(&mut self, memory: &mut Memory) -> (r: Step)
        requires
            program_wf(old(self)@),
            old(self)@.pos < old(self)@.cmds.len(),
            old(memory)@.wf(),
        ensures
            agrees(final(self)@, final(memory)@, r@, number_step(old(self)@, old(memory)@)),
            program_wf(final(self)@),
            final(memory)@.wf(),
    {
        let negate = self.cmds[self.pos] == MINUS_SIGN;
        let start = if negate {
            self.pos + 1
        } else {
            self.pos
        };
        let e = self.hex_run(start);
        let end = if e < self.cmds.len() && self.cmds[e] == DOT {
            self.hex_run(e + 1)
        } else {
            e
        };
        let digits = vstd::slice::slice_subrange(self.cmds.as_slice(), start, end);
        let radix = memory.input_radix();
        let mut v = Fixed::parse(digits, radix);
        if negate {
            v = v.neg();
        }
        memory.push(Value::Number(v));
        self.pos = end;
        Step::Continue
    }
}


impl Machine {
    /// Run one step of evaluation (see `step_spec`).
    pub fn step(&mut self, memory: &mut Memory) -> (r: Step)
        requires
            program_wf(old(self)@),
            old(memory)@.wf(),
        ensures
            agrees(final(self)@, final(memory)@, r@, step_spec(old(self)@, old(memory)@)),
            program_wf(final(self)@),
            final(memory)@.wf(),
    {
        if self.pos >= self.cmds.len() {
            let ghost q = self.queue@;
            match self.queue.pop() {
                None => {
                    assert(frames(q).len() == 0);
                    return Step::Done;
                },
                Some(f) => {
                    let (cmds, pos) = f;
                    proof {
                        assert(frames(self.queue@) =~= frames(q).drop_last());
                        assert(frames(q).last() == (cmds@, pos as nat));
                        assert(frames(q)[frames(q).len() - 1] == (cmds@, pos as nat));
                    }
                    self.cmds = cmds;
                    self.pos = pos;
                    return Step::Continue;
                },
            }
        }
        let c = self.cmds[self.pos];
        if c == ADD || c == SUB || c == MUL || c == DIV || c == REM {
            self.arith(memory, c)
        } else if c == POW {
            self.power(memory)
        } else if c == SQRT {
            self.square_root(memory)
        } else {
            self.other_command(memory, c)
        }
    }

    fn other_command(&mut self, memory: &mut Memory, c: u8) -> (r: Step)
        requires
            program_wf(old(self)@),
            old(self)@.pos < old(self)@.cmds.len(),
            old(memory)@.wf(),
            c == old(self)@.cmds[old(self)@.pos as int],
            !(c == ADD || c == SUB || c == MUL || c == DIV || c == REM || c == POW || c == SQRT),
        ensures
            agrees(final(self)@, final(memory)@, r@, command_step(old(self)@, old(memory)@, c)),
            program_wf(final(self)@),
            final(memory)@.wf(),
    {
        if c == DUP {
            if memory.stack_len() == 0 {
                return self.report(Error::EmptyStack);
            }
            let v = memory.top().clone();
            memory.push(v);
            self.pos = self.pos + 1;
            Step::Continue
        } else if c == CLEAR {
            memory.clear_stack();
            self.pos = self.pos + 1;
            Step::Continue
        } else if c == SWAP {
            if memory.stack_len() > 1 {
                memory.swap_top();
                self.pos = self.pos + 1;
                Step::Continue
            } else {
                self.report(Error::EmptyStack)
            }
        } else if c == PRINTLN || c == PRINT {
            let radix = memory.output_radix();
            match memory.pop() {
                Some(v) => {
                    let mut text = v.text(radix);
                    if c == PRINTLN {
                        text.push(NEWLINE);
                    }
                    self.pos = self.pos + 1;
                    Step::Print(text)
                },
                None => self.report(Error::EmptyStack),
            }
        } else if c == PRINT_STACK {
            self.pos = self.pos + 1;
            if memory.stack_len() == 0 {
                return Step::Continue;
            }
            let mut text = memory.stack_text(memory.output_radix());
            text.pop();
            text.push(NEWLINE);
            Step::Print(text)
        } else if c == SET_PRECISION || c == SET_INPUT_RADIX || c == SET_OUTPUT_RADIX || c
            == SET_SEED {
            self.setting(memory, c)
        } else if c == RANDOM {
            self.random(memory)
        } else {
            self.register_command(memory, c)
        }
    }

    fn register_command(&mut self, memory: &mut Memory, c: u8) -> (r: Step)
        requires
            program_wf(old(self)@),
            old(self)@.pos < old(self)@.cmds.len(),
            old(memory)@.wf(),
            c == old(self)@.cmds[old(self)@.pos as int],
            !(c == ADD || c == SUB || c == MUL || c == DIV || c == REM || c == POW || c == SQRT
                || c == DUP || c == CLEAR || c == SWAP || c == PRINTLN || c == PRINT || c
                == PRINT_STACK || c == SET_PRECISION || c == SET_INPUT_RADIX || c
                == SET_OUTPUT_RADIX || c == SET_SEED || c == RANDOM),
        ensures
            agrees(final(self)@, final(memory)@, r@, command_step(old(self)@, old(memory)@, c)),
            program_wf(final(self)@),
            final(memory)@.wf(),
    {
        let len = self.cmds.len();
        if c == SAVE {
            self.pos = self.pos + 1;
            if self.pos < len {
                match memory.pop() {
                    Some(v) => {
                        memory.set_register(self.cmds[self.pos], v);
                        self.pos = self.pos + 1;
                        Step::Continue
                    },
                    None => self.report(Error::EmptyStack),
                }
            } else {
                self.report(Error::EoF)
            }
        } else if c == LOAD {
            self.pos = self.pos + 1;
            if self.pos < len {
                let v = memory.register(self.cmds[self.pos]).clone();
                memory.push(v);
                self.pos = self.pos + 1;
                Step::Continue
            } else {
                self.report(Error::EoF)
            }
        } else if c == EXECUTE {
            match memory.pop() {
                Some(v) => self.run_value(memory, v),
                None => self.report(Error::EmptyStack),
            }
        } else if c == GREATER || c == LESS || c == EQUAL {
            self.pos = self.pos + 1;
            if self.pos < len {
                self.compare(memory, c, false)
            } else {
                self.report(Error::EoF)
            }
        } else if c == NOT {
            if len - self.pos > 2 {
                let op = self.cmds[self.pos + 1];
                if op == GREATER || op == LESS || op == EQUAL {
                    self.pos = self.pos + 2;
                    self.compare(memory, op, true)
                } else {
                    self.report(Error::Unexpected(op))
                }
            } else {
                self.report(Error::EoF)
            }
        } else {
            self.text_command(memory, c)
        }
    }

    fn text_command(&mut self, memory: &mut Memory, c: u8) -> (r: Step)
        requires
            program_wf(old(self)@),
            old(self)@.pos < old(self)@.cmds.len(),
            old(memory)@.wf(),
            c == old(self)@.cmds[old(self)@.pos as int],
            !(c == ADD || c == SUB || c == MUL || c == DIV || c == REM || c == POW || c == SQRT
                || c == DUP || c == CLEAR || c == SWAP || c == PRINTLN || c == PRINT || c
                == PRINT_STACK || c == SET_PRECISION || c == SET_INPUT_RADIX || c
                == SET_OUTPUT_RADIX || c == SET_SEED || c == RANDOM || c == SAVE || c == LOAD
                || c == EXECUTE || c == GREATER || c == LESS || c == EQUAL || c == NOT),
        ensures
            agrees(final(self)@, final(memory)@, r@, command_step(old(self)@, old(memory)@, c)),
            program_wf(final(self)@),
            final(memory)@.wf(),
    {
        if c == OPEN {
            self.read_text(memory)
        } else if c == COMMENT {
            self.comment(memory)
        } else if c == QUIT {
            Step::Quit
        } else if c == MINUS_SIGN || c == DOT || is_hex_digit(c) {
            self.number(memory)
        } else if c == SPACE || c == TAB || c == NEWLINE || c == FORM_FEED || c == RETURN {
            self.pos = self.pos + 1;
            Step::Continue
        } else {
            self.report(Error::Unexpected(c))
        }
    }
}

} // verus!
