//! The mathematical model of the two formatting algorithms.
//!
//! Each algorithm is described by a deterministic step machine over the
//! input byte sequence: `step` performs one iteration of the grammar-driven
//! formatter, `fast_step` one iteration of the single-pass formatter, and
//! `run` / `fast_run` iterate them.  A machine whose `verdict` is set is
//! finished and no further step changes it, so the final machine reached
//! from a given start is unique (`lemma_run_verdict_unique`).

use vstd::prelude::*;

verus! {

/// ASCII space.
pub const SP: u8 = 32;

/// ASCII horizontal tab.
pub const HT: u8 = 9;

/// ASCII line feed.
pub const NL: u8 = 10;

/// ASCII carriage return.
pub const CR: u8 = 13;

/// ASCII double quote.
pub const QUOTE: u8 = 34;

/// ASCII backslash.
pub const BACKSLASH: u8 = 92;

/// ASCII left brace.
pub const LBRACE: u8 = 123;

/// ASCII right brace.
pub const RBRACE: u8 = 125;

/// ASCII left bracket.
pub const LBRACKET: u8 = 91;

/// ASCII right bracket.
pub const RBRACKET: u8 = 93;

/// ASCII comma.
pub const COMMA: u8 = 44;

/// ASCII colon.
pub const COLON: u8 = 58;

/// ASCII digit zero.
pub const D0: u8 = 48;

/// ASCII digit nine.
pub const D9: u8 = 57;

/// ASCII minus.
pub const MINUS: u8 = 45;

/// ASCII plus.
pub const PLUS: u8 = 43;

/// ASCII full stop.
pub const DOT: u8 = 46;

/// ASCII lower-case `e`.
pub const LOW_E: u8 = 101;

/// ASCII upper-case `E`.
pub const UP_E: u8 = 69;

/// ASCII lower-case `n`.
pub const LOW_N: u8 = 110;

/// ASCII lower-case `t`.
pub const LOW_T: u8 = 116;

/// ASCII lower-case `f`.
pub const LOW_F: u8 = 102;

/// ASCII lower-case `u`.
pub const LOW_U: u8 = 117;

/// ASCII lower-case `l`.
pub const LOW_L: u8 = 108;

/// ASCII lower-case `r`.
pub const LOW_R: u8 = 114;

/// ASCII lower-case `a`.
pub const LOW_A: u8 = 97;

/// ASCII lower-case `s`.
pub const LOW_S: u8 = 115;

/// One grammar position of the grammar-driven formatter's frame stack.
#[derive(Clone, Copy, PartialEq, Eq, Structural, Debug)]
pub enum State {
    /// A JSON value is expected next.
    Value,
    /// Inside an object: a key or the closing brace is expected.
    Object,
    /// After a member's value: a comma or the closing brace is expected.
    Pair,
    /// Inside an array: an element or the closing bracket is expected.
    Array,
    /// After an element's value: a comma or the closing bracket is expected.
    Elem,
}

/// The terminal errors of a formatting call.
#[derive(Clone, Copy, PartialEq, Eq, Structural, Debug)]
pub enum JsonError {
    /// The input ended while a token, separator or value was still expected.
    UnexpectedEof,
    /// A byte that the current grammar position does not accept; carries it.
    UnexpectedInput(u8),
    /// A literal keyword or separator differed from its expected spelling;
    /// carries the first differing byte.
    LiteralMismatch(u8),
}

/// Insignificant whitespace: space, tab, newline, carriage return.
pub open spec fn is_ws(c: u8) -> bool {
    c == SP || c == HT || c == NL || c == CR
}

/// Index of the first byte at or after `i` that is not insignificant
/// whitespace, or `s.len()` when only whitespace remains.
pub open spec fn skip_ws_from(s: Seq<u8>, i: int) -> int
    decreases s.len() - i,
{
    if 0 <= i < s.len() && is_ws(s[i]) {
        skip_ws_from(s, i + 1)
    } else {
        i
    }
}

/// Position immediately after the closing quote of a string token whose
/// content is scanned from `i`, or `None` when the input ends first.
/// `esc` records whether the previous byte was an unpaired backslash: a
/// quote terminates the token only when it is not escaped, and a backslash
/// escapes the next byte only when it is not itself escaped.
pub open spec fn str_scan(s: Seq<u8>, i: int, esc: bool) -> Option<int>
    decreases s.len() - i,
{
    if i < 0 || i >= s.len() {
        None
    } else if s[i] == QUOTE && !esc {
        Some(i + 1)
    } else {
        str_scan(s, i + 1, s[i] == BACKSLASH && !esc)
    }
}

pub open spec fn is_digit(c: u8) -> bool {
    D0 <= c && c <= D9
}

/// The byte class that continues a number token.
pub open spec fn is_num_byte(c: u8) -> bool {
    is_digit(c) || c == MINUS || c == PLUS || c == DOT || c == LOW_E || c == UP_E
}

/// Index of the first byte at or after `i` outside the number class, or
/// `s.len()` when the number runs to the end of the input.
pub open spec fn num_end(s: Seq<u8>, i: int) -> int
    decreases s.len() - i,
{
    if 0 <= i < s.len() && is_num_byte(s[i]) {
        num_end(s, i + 1)
    } else {
        i
    }
}

/// First index `k >= j` at which `s[pos + k]` differs from `expect[k]`,
/// or `expect.len()` when the whole expected spelling matches.
pub open spec fn mismatch_from(s: Seq<u8>, pos: int, expect: Seq<u8>, j: int) -> int
    decreases expect.len() - j,
{
    if 0 <= j < expect.len() {
        if s[pos + j] != expect[j] {
            j
        } else {
            mismatch_from(s, pos, expect, j + 1)
        }
    } else {
        j
    }
}

/// Outcome of matching the expected spelling `expect` against the input at
/// `pos`: end of input before `expect.len()` bytes is an end-of-stream
/// error, a differing byte is a literal mismatch carrying that byte.
pub open spec fn lit_result(s: Seq<u8>, pos: int, expect: Seq<u8>) -> Result<(), JsonError> {
    if pos + expect.len() > s.len() {
        Err(JsonError::UnexpectedEof)
    } else if mismatch_from(s, pos, expect, 0) == expect.len() {
        Ok(())
    } else {
        Err(JsonError::LiteralMismatch(s[pos + mismatch_from(s, pos, expect, 0)]))
    }
}

pub open spec fn kw_null() -> Seq<u8> {
    seq![LOW_N, LOW_U, LOW_L, LOW_L]
}

pub open spec fn kw_true() -> Seq<u8> {
    seq![LOW_T, LOW_R, LOW_U, LOW_E]
}

pub open spec fn kw_false() -> Seq<u8> {
    seq![LOW_F, LOW_A, LOW_L, LOW_S, LOW_E]
}

/// Remove one indentation unit from a prefix; a prefix shorter than one
/// unit is left unchanged.
pub open spec fn pop_prefix(prefix: Seq<u8>, tab: Seq<u8>) -> Seq<u8> {
    if prefix.len() >= tab.len() {
        prefix.take(prefix.len() - tab.len())
    } else {
        prefix
    }
}

/// Complete state of the grammar-driven formatter between two iterations:
/// the frame stack, the cursor position, the bytes emitted so far, the
/// current indentation prefix, and the verdict once the call has finished.
#[verifier::ext_equal]
pub ghost struct Machine {
    pub stack: Seq<State>,
    pub pos: int,
    pub out: Seq<u8>,
    pub prefix: Seq<u8>,
    pub verdict: Option<Result<(), JsonError>>,
}

/// The machine at the start of a grammar-driven formatting call.
pub open spec fn init_machine(prefix: Seq<u8>) -> Machine {
    Machine {
        stack: seq![State::Value],
        pos: 0,
        out: Seq::empty(),
        prefix: prefix,
        verdict: None,
    }
}

/// A machine that has aborted with error `e`, everything else unchanged.
pub open spec fn fail(m: Machine, e: JsonError) -> Machine {
    Machine { verdict: Some(Err(e)), ..m }
}

/// One `Value` frame: `m.pos` is already past leading whitespace and the
/// frame is already popped.  A bracket opens a container (bracket plus
/// newline, one deeper indentation level, container frame pushed); a quote,
/// digit, `-` or keyword head copies one token verbatim; anything else is
/// unexpected input, and end of input is an end-of-stream error.
pub open spec fn step_value(tab: Seq<u8>, s: Seq<u8>, m: Machine) -> Machine {
    if m.pos >= s.len() {
        fail(m, JsonError::UnexpectedEof)
    } else {
        let c = s[m.pos];
        if c == LBRACE || c == LBRACKET {
            Machine {
                stack: m.stack.push(if c == LBRACE { State::Object } else { State::Array }),
                pos: m.pos + 1,
                out: m.out + seq![c, NL],
                prefix: m.prefix + tab,
                verdict: None,
            }
        } else if c == QUOTE {
            match str_scan(s, m.pos + 1, false) {
                Some(e) => Machine { pos: e, out: m.out + s.subrange(m.pos, e), ..m },
                None => Machine {
                    out: m.out + s.subrange(m.pos, s.len() as int),
                    verdict: Some(Err(JsonError::UnexpectedEof)),
                    ..m
                },
            }
        } else if is_digit(c) || c == MINUS {
            let e = num_end(s, m.pos + 1);
            Machine { pos: e, out: m.out + s.subrange(m.pos, e), ..m }
        } else if c == LOW_N || c == LOW_T || c == LOW_F {
            let kw = if c == LOW_N {
                kw_null()
            } else if c == LOW_T {
                kw_true()
            } else {
                kw_false()
            };
            match lit_result(s, m.pos, kw) {
                Ok(_) => Machine { pos: m.pos + kw.len(), out: m.out + kw, ..m },
                Err(e) => fail(m, e),
            }
        } else {
            fail(m, JsonError::UnexpectedInput(c))
        }
    }
}

/// One `Pair` or `Elem` frame (the continuation after a member's or
/// element's value): a comma is consumed and written, the matching closer
/// is left for the owning frame, anything else is unexpected input.  In
/// either accepted case a newline is written and the owning `Object` or
/// `Array` frame is pushed back.
pub open spec fn step_cont(st: State, s: Seq<u8>, m: Machine) -> Machine {
    if m.pos >= s.len() {
        fail(m, JsonError::UnexpectedEof)
    } else {
        let c = s[m.pos];
        let owner = if st == State::Pair { State::Object } else { State::Array };
        let closer = if st == State::Pair { RBRACE } else { RBRACKET };
        if c == COMMA {
            Machine {
                stack: m.stack.push(owner),
                pos: m.pos + 1,
                out: m.out + seq![COMMA, NL],
                ..m
            }
        } else if c == closer {
            Machine { stack: m.stack.push(owner), out: m.out + seq![NL], ..m }
        } else {
            fail(m, JsonError::UnexpectedInput(c))
        }
    }
}

/// One `Object` frame: a quote starts another member (current indentation,
/// the key copied verbatim, whitespace, a colon, one space, then `Pair`
/// under `Value` pushed); a closing brace ends the object after removing
/// one indentation level, so the brace stands at the outer indentation.
pub open spec fn step_object(tab: Seq<u8>, s: Seq<u8>, m: Machine) -> Machine {
    if m.pos >= s.len() {
        fail(m, JsonError::UnexpectedEof)
    } else if s[m.pos] == QUOTE {
        let ind_out = m.out + m.prefix;
        match str_scan(s, m.pos + 1, false) {
            None => Machine {
                out: ind_out + s.subrange(m.pos, s.len() as int),
                verdict: Some(Err(JsonError::UnexpectedEof)),
                ..m
            },
            Some(k) => {
                let key_out = ind_out + s.subrange(m.pos, k);
                let q = skip_ws_from(s, k);
                match lit_result(s, q, seq![COLON]) {
                    Err(e) => Machine { out: key_out, verdict: Some(Err(e)), ..m },
                    Ok(_) => Machine {
                        stack: m.stack.push(State::Pair).push(State::Value),
                        pos: q + 1,
                        out: key_out + seq![COLON, SP],
                        ..m
                    },
                }
            },
        }
    } else if s[m.pos] == RBRACE {
        let np = pop_prefix(m.prefix, tab);
        Machine {
            pos: m.pos + 1,
            out: m.out + np + seq![RBRACE],
            prefix: np,
            ..m
        }
    } else {
        fail(m, JsonError::UnexpectedInput(s[m.pos]))
    }
}

/// One `Array` frame: a closing bracket ends the array exactly as a brace
/// ends an object; anything else starts another element (current
/// indentation written, `Elem` under `Value` pushed, nothing consumed).
pub open spec fn step_array(tab: Seq<u8>, s: Seq<u8>, m: Machine) -> Machine {
    if m.pos >= s.len() {
        fail(m, JsonError::UnexpectedEof)
    } else if s[m.pos] == RBRACKET {
        let np = pop_prefix(m.prefix, tab);
        Machine {
            pos: m.pos + 1,
            out: m.out + np + seq![RBRACKET],
            prefix: np,
            ..m
        }
    } else {
        Machine {
            stack: m.stack.push(State::Elem).push(State::Value),
            out: m.out + m.prefix,
            ..m
        }
    }
}

/// One iteration of the grammar-driven formatter: an empty stack means the
/// single top-level value is complete; otherwise the top frame is popped,
/// leading whitespace is skipped, and the frame is processed.
pub open spec fn step(tab: Seq<u8>, s: Seq<u8>, m: Machine) -> Machine {
    if m.stack.len() == 0 {
        Machine { verdict: Some(Ok(())), ..m }
    } else {
        let st = m.stack.last();
        let m1 = Machine {
            stack: m.stack.drop_last(),
            pos: skip_ws_from(s, m.pos),
            ..m
        };
        match st {
            State::Value => step_value(tab, s, m1),
            State::Object => step_object(tab, s, m1),
            State::Array => step_array(tab, s, m1),
            State::Pair => step_cont(State::Pair, s, m1),
            State::Elem => step_cont(State::Elem, s, m1),
        }
    }
}

/// `n` iterations of `step`; a machine whose verdict is set is left as it
/// is, so a finished machine absorbs further steps.
pub open spec fn run(tab: Seq<u8>, s: Seq<u8>, m: Machine, n: nat) -> Machine
    decreases n,
{
    if n == 0 {
        m
    } else if m.verdict is Some {
        m
    } else {
        run(tab, s, step(tab, s, m), (n - 1) as nat)
    }
}

/// Iterating one more time steps the machine reached so far, unless it has
/// already finished.
pub proof fn lemma_run_snoc(tab: Seq<u8>, s: Seq<u8>, m: Machine, n: nat)
    ensures
        run(tab, s, m, n + 1) == (if run(tab, s, m, n).verdict is Some {
            run(tab, s, m, n)
        } else {
            step(tab, s, run(tab, s, m, n))
        }),
    decreases n,
{
    if n == 0 {
        assert(run(tab, s, step(tab, s, m), 0) == step(tab, s, m));
    } else if m.verdict is Some {
        assert(run(tab, s, m, n + 1) == m);
        assert(run(tab, s, m, n) == m);
    } else {
        lemma_run_snoc(tab, s, step(tab, s, m), (n - 1) as nat);
        assert(run(tab, s, m, n + 1) == run(tab, s, step(tab, s, m), n));
        assert(run(tab, s, m, n) == run(tab, s, step(tab, s, m), (n - 1) as nat));
    }
}

/// A finished machine stays as it is under further iterations.
pub proof fn lemma_run_absorb(tab: Seq<u8>, s: Seq<u8>, m: Machine, n1: nat, n2: nat)
    requires
        n1 <= n2,
        run(tab, s, m, n1).verdict is Some,
    ensures
        run(tab, s, m, n2) == run(tab, s, m, n1),
    decreases n2 - n1,
{
    if n1 < n2 {
        lemma_run_absorb(tab, s, m, n1, (n2 - 1) as nat);
        lemma_run_snoc(tab, s, m, (n2 - 1) as nat);
    }
}

/// The machine is deterministic and a verdict is final, so any two finished
/// machines reached from the same start coincide: the step count in the
/// formatters' contracts pins their result down uniquely.
pub proof fn lemma_run_verdict_unique(tab: Seq<u8>, s: Seq<u8>, m: Machine, n1: nat, n2: nat)
    requires
        run(tab, s, m, n1).verdict is Some,
        run(tab, s, m, n2).verdict is Some,
    ensures
        run(tab, s, m, n1) == run(tab, s, m, n2),
{
    if n1 <= n2 {
        lemma_run_absorb(tab, s, m, n1, n2);
    } else {
        lemma_run_absorb(tab, s, m, n2, n1);
    }
}

/// Complete state of the single-pass formatter between two iterations.
/// `pending` records that the next emitted byte must be preceded by the
/// current indentation prefix.
#[verifier::ext_equal]
pub ghost struct FastMachine {
    pub pos: int,
    pub pending: bool,
    pub out: Seq<u8>,
    pub prefix: Seq<u8>,
    pub verdict: Option<Result<(), JsonError>>,
}

/// The machine at the start of a single-pass formatting call.
pub open spec fn fast_init(prefix: Seq<u8>) -> FastMachine {
    FastMachine { pos: 0, pending: false, out: Seq::empty(), prefix: prefix, verdict: None }
}

/// One iteration of the single-pass formatter, reacting to the local
/// character class alone.  Insignificant whitespace is dropped without
/// touching the pending-indentation flag, so that both algorithms render
/// whitespace-only gaps — an empty container written `{ }` among them —
/// identically.  A closer first removes one indentation level (never
/// below empty) and, unless a fresh line is already pending, starts a new
/// line at the shallower indentation; any pending indentation is flushed
/// before another significant byte is handled; openers and commas end
/// their line and leave the indentation pending; strings are copied
/// verbatim; any other byte passes through verbatim.  End of input is
/// normal completion.
pub open spec fn fast_step(tab: Seq<u8>, s: Seq<u8>, m: FastMachine) -> FastMachine {
    if m.pos >= s.len() {
        FastMachine { verdict: Some(Ok(())), ..m }
    } else {
        let c = s[m.pos];
        if is_ws(c) {
            FastMachine { pos: m.pos + 1, ..m }
        } else if c == RBRACE || c == RBRACKET {
            let np = pop_prefix(m.prefix, tab);
            let out1 = if m.pending {
                m.out + np
            } else {
                m.out + seq![NL] + np
            };
            FastMachine {
                pos: m.pos + 1,
                pending: false,
                out: out1 + seq![c],
                prefix: np,
                verdict: None,
            }
        } else {
            let out0 = if m.pending {
                m.out + m.prefix
            } else {
                m.out
            };
            if c == QUOTE {
                match str_scan(s, m.pos + 1, false) {
                    Some(e) => FastMachine {
                        pos: e,
                        pending: false,
                        out: out0 + s.subrange(m.pos, e),
                        ..m
                    },
                    None => FastMachine {
                        pending: false,
                        out: out0 + s.subrange(m.pos, s.len() as int),
                        verdict: Some(Err(JsonError::UnexpectedEof)),
                        ..m
                    },
                }
            } else if c == LBRACE || c == LBRACKET {
                FastMachine {
                    pos: m.pos + 1,
                    pending: true,
                    out: out0 + seq![c, NL],
                    prefix: m.prefix + tab,
                    verdict: None,
                }
            } else if c == COMMA {
                FastMachine { pos: m.pos + 1, pending: true, out: out0 + seq![COMMA, NL], ..m }
            } else if c == COLON {
                FastMachine { pos: m.pos + 1, pending: false, out: out0 + seq![COLON, SP], ..m }
            } else {
                FastMachine { pos: m.pos + 1, pending: false, out: out0 + seq![c], ..m }
            }
        }
    }
}

/// `n` iterations of `fast_step`, finished machines absorbing.
pub open spec fn fast_run(tab: Seq<u8>, s: Seq<u8>, m: FastMachine, n: nat) -> FastMachine
    decreases n,
{
    if n == 0 {
        m
    } else if m.verdict is Some {
        m
    } else {
        fast_run(tab, s, fast_step(tab, s, m), (n - 1) as nat)
    }
}

/// Iterating one more time steps the machine reached so far, unless it has
/// already finished.
pub proof fn lemma_fast_run_snoc(tab: Seq<u8>, s: Seq<u8>, m: FastMachine, n: nat)
    ensures
        fast_run(tab, s, m, n + 1) == (if fast_run(tab, s, m, n).verdict is Some {
            fast_run(tab, s, m, n)
        } else {
            fast_step(tab, s, fast_run(tab, s, m, n))
        }),
    decreases n,
{
    if n == 0 {
        assert(fast_run(tab, s, fast_step(tab, s, m), 0) == fast_step(tab, s, m));
    } else if m.verdict is Some {
        assert(fast_run(tab, s, m, n + 1) == m);
        assert(fast_run(tab, s, m, n) == m);
    } else {
        lemma_fast_run_snoc(tab, s, fast_step(tab, s, m), (n - 1) as nat);
        assert(fast_run(tab, s, m, n + 1) == fast_run(tab, s, fast_step(tab, s, m), n));
        assert(fast_run(tab, s, m, n) == fast_run(tab, s, fast_step(tab, s, m), (n - 1) as nat));
    }
}

/// A finished machine stays as it is under further iterations.
pub proof fn lemma_fast_run_absorb(tab: Seq<u8>, s: Seq<u8>, m: FastMachine, n1: nat, n2: nat)
    requires
        n1 <= n2,
        fast_run(tab, s, m, n1).verdict is Some,
    ensures
        fast_run(tab, s, m, n2) == fast_run(tab, s, m, n1),
    decreases n2 - n1,
{
    if n1 < n2 {
        lemma_fast_run_absorb(tab, s, m, n1, (n2 - 1) as nat);
        lemma_fast_run_snoc(tab, s, m, (n2 - 1) as nat);
    }
}

/// Any two finished machines reached from the same start coincide.
pub proof fn lemma_fast_run_verdict_unique(tab: Seq<u8>, s: Seq<u8>, m: FastMachine, n1: nat, n2: nat)
    requires
        fast_run(tab, s, m, n1).verdict is Some,
        fast_run(tab, s, m, n2).verdict is Some,
    ensures
        fast_run(tab, s, m, n1) == fast_run(tab, s, m, n2),
{
    if n1 <= n2 {
        lemma_fast_run_absorb(tab, s, m, n1, n2);
    } else {
        lemma_fast_run_absorb(tab, s, m, n2, n1);
    }
}

/// Running `k1 + k2` iterations is running `k1`, then `k2` more.
pub proof fn lemma_run_compose(tab: Seq<u8>, s: Seq<u8>, m: Machine, k1: nat, k2: nat)
    ensures
        run(tab, s, m, k1 + k2) == run(tab, s, run(tab, s, m, k1), k2),
    decreases k1,
{
    if k1 == 0 {
    } else if m.verdict is Some {
        lemma_run_absorb(tab, s, m, 0, k1 + k2);
        lemma_run_absorb(tab, s, m, 0, k1);
        lemma_run_absorb(tab, s, m, 0, k2);
    } else {
        lemma_run_compose(tab, s, step(tab, s, m), (k1 - 1) as nat, k2);
        assert(run(tab, s, m, k1 + k2) == run(tab, s, step(tab, s, m), (k1 - 1) as nat + k2));
        assert(run(tab, s, m, k1) == run(tab, s, step(tab, s, m), (k1 - 1) as nat));
    }
}

/// Running `k1 + k2` iterations of the single-pass machine is running
/// `k1`, then `k2` more.
pub proof fn lemma_fast_run_compose(tab: Seq<u8>, s: Seq<u8>, m: FastMachine, k1: nat, k2: nat)
    ensures
        fast_run(tab, s, m, k1 + k2) == fast_run(tab, s, fast_run(tab, s, m, k1), k2),
    decreases k1,
{
    if k1 == 0 {
    } else if m.verdict is Some {
        lemma_fast_run_absorb(tab, s, m, 0, k1 + k2);
        lemma_fast_run_absorb(tab, s, m, 0, k1);
        lemma_fast_run_absorb(tab, s, m, 0, k2);
    } else {
        lemma_fast_run_compose(tab, s, fast_step(tab, s, m), (k1 - 1) as nat, k2);
        assert(fast_run(tab, s, m, k1 + k2) == fast_run(
            tab,
            s,
            fast_step(tab, s, m),
            (k1 - 1) as nat + k2,
        ));
        assert(fast_run(tab, s, m, k1) == fast_run(tab, s, fast_step(tab, s, m), (k1 - 1) as nat));
    }
}

} // verus!
