//! The two pretty-printers: the grammar-driven formatter over an explicit
//! frame stack, and the single-pass formatter reacting to local character
//! classes.  Each is proved to realize its step machine from the model:
//! the returned verdict, the bytes appended to the sink, and the final
//! indentation prefix are those of the machine run to completion.

use vstd::prelude::*;

use crate::indent::Indent;
use crate::model::fast_init;
use crate::model::fast_run;
use crate::model::fast_step;
use crate::model::init_machine;
use crate::model::lemma_run_snoc;
use crate::model::lemma_fast_run_snoc;
use crate::model::run;
use crate::model::step;
use crate::model::step_array;
use crate::model::step_cont;
use crate::model::step_object;
use crate::model::step_value;
use crate::model::kw_false;
use crate::model::kw_null;
use crate::model::kw_true;
use crate::model::pop_prefix;
use crate::model::JsonError;
use crate::model::Machine;
use crate::model::State;
use crate::model::COLON;
use crate::model::COMMA;
use crate::model::D0;
use crate::model::D9;
use crate::model::LBRACE;
use crate::model::LBRACKET;
use crate::model::LOW_A;
use crate::model::LOW_E;
use crate::model::LOW_F;
use crate::model::LOW_L;
use crate::model::LOW_N;
use crate::model::LOW_R;
use crate::model::LOW_S;
use crate::model::LOW_T;
use crate::model::LOW_U;
use crate::model::MINUS;
use crate::model::CR;
use crate::model::HT;
use crate::model::NL;
use crate::model::QUOTE;
use crate::model::RBRACE;
use crate::model::RBRACKET;
use crate::model::SP;
use crate::scan::peek_char;
use crate::scan::skip_whitespace;
use crate::scan::write_expected;
use crate::scan::write_number;
use crate::scan::write_string;

verus! {

/// How much one frame contributes to the nesting depth: every frame but
/// `Value` stands for one open container.
pub open spec fn frame_weight(f: State) -> int {
    if f == State::Value {
        0
    } else {
        1
    }
}

/// Number of open containers that a frame stack stands for.
pub open spec fn depth_weight(st: Seq<State>) -> int
    decreases st.len(),
{
    if st.len() == 0 {
        0
    } else {
        depth_weight(st.drop_last()) + frame_weight(st.last())
    }
}

/// Termination rank of one frame: chosen so that every transition of the
/// grammar machine that consumes no input strictly lowers the stack's rank.
pub open spec fn frame_rank(f: State) -> int {
    match f {
        State::Value => -2,
        State::Object => 1,
        State::Array => 2,
        State::Pair => 2,
        State::Elem => 3,
    }
}

/// Termination rank of a frame stack.
pub open spec fn stack_rank(st: Seq<State>) -> int
    decreases st.len(),
{
    if st.len() == 0 {
        0
    } else {
        stack_rank(st.drop_last()) + frame_rank(st.last())
    }
}

proof fn lemma_depth_weight_nonneg(st: Seq<State>)
    ensures
        depth_weight(st) >= 0,
    decreases st.len(),
{
    if st.len() > 0 {
        lemma_depth_weight_nonneg(st.drop_last());
    }
}

proof fn lemma_rank_nonneg(st: Seq<State>)
    requires
        forall|i: int| 0 <= i < st.len() ==> st[i] != State::Value,
    ensures
        stack_rank(st) >= 0,
    decreases st.len(),
{
    if st.len() > 0 {
        lemma_rank_nonneg(st.drop_last());
    }
}

/// A stack whose only `Value` frame, if any, is the top one has rank at
/// least `-2`.
proof fn lemma_rank_lower(st: Seq<State>)
    requires
        forall|i: int| 0 <= i < st.len() - 1 ==> st[i] != State::Value,
    ensures
        stack_rank(st) >= -2,
{
    if st.len() > 0 {
        lemma_rank_nonneg(st.drop_last());
    }
}

proof fn lemma_rank_push(st: Seq<State>, x: State)
    ensures
        stack_rank(st.push(x)) == stack_rank(st) + frame_rank(x),
        depth_weight(st.push(x)) == depth_weight(st) + frame_weight(x),
{
    assert(st.push(x).drop_last() =~= st);
    assert(st.push(x).last() == x);
}

/// The grammar-driven formatter.  It appends to `w` the pretty-printed
/// form of the single JSON value at the head of `input`, indenting with
/// `indent`, by iterating the grammar step machine until it finishes.
/// What comes back, what lands in the sink, and what indentation prefix
/// remains are exactly those of the finished machine, and
/// `lemma_run_verdict_unique` pins that machine down uniquely.  String and
/// number bytes are copied verbatim; trailing bytes after the value are
/// not read.
#[verifier::loop_isolation(false)]
#[verifier::rlimit(100)]
pub fn format_json(w: &mut Vec<u8>, input: &[u8], indent: &mut Indent) -> (res: Result<
    (),
    JsonError,
>)
    ensures
        final(indent).tab() == old(indent).tab(),
        exists|n: nat|
            (#[trigger] run(
                old(indent).tab(),
                input@,
                init_machine(old(indent).prefix()),
                n,
            )).verdict == Some(res) && final(w)@ == old(w)@ + run(
                old(indent).tab(),
                input@,
                init_machine(old(indent).prefix()),
                n,
            ).out && final(indent).prefix() == run(
                old(indent).tab(),
                input@,
                init_machine(old(indent).prefix()),
                n,
            ).prefix,
{
    let ghost tab = indent.tab();
    let ghost s = input@;
    let ghost init = init_machine(indent.prefix());
    let ghost base = w@;
    let ghost pre_len = indent.prefix().len() as int;
    let mut stack: Vec<State> = Vec::new();
    stack.push(State::Value);
    let mut pos: usize = 0;
    let ghost mut m = init;
    let ghost mut steps: nat = 0;
    proof {
        assert(m.stack =~= stack@);
        assert(depth_weight(stack@) == 0) by {
            lemma_rank_push(Seq::<State>::empty(), State::Value);
        }
        assert(stack_rank(stack@) == -2) by {
            lemma_rank_push(Seq::<State>::empty(), State::Value);
        }
    }
    loop
        invariant
            m == run(tab, s, init, steps),
            m.verdict is None,
            m.stack == stack@,
            m.pos == pos as int,
            w@ == base + m.out,
            m.prefix == indent.prefix(),
            indent.tab() == tab,
            pos <= input.len(),
            indent.prefix().len() == pre_len + tab.len() * depth_weight(stack@),
            forall|i: int| 0 <= i < stack@.len() - 1 ==> stack@[i] != State::Value,
            stack_rank(stack@) >= -2,
        decreases input@.len() - pos, stack_rank(stack@) + 2,
    {
        let popped = stack.pop();
        match popped {
            None => {
                proof {
                    lemma_run_snoc(tab, s, init, steps);
                    assert(m.stack.len() == 0);
                    assert(run(tab, s, init, steps + 1) == step(tab, s, m));
                }
                return Ok(());
            },
            Some(st) => {
                let ghost rest = stack@;
                proof {
                    assert(rest =~= m.stack.drop_last());
                    assert(st == m.stack.last());
                    assert(forall|i: int| 0 <= i < rest.len() ==> rest[i] != State::Value);
                    lemma_rank_nonneg(rest);
                    lemma_depth_weight_nonneg(rest);
                    assert(stack_rank(m.stack) == stack_rank(rest) + frame_rank(st));
                    assert(depth_weight(m.stack) == depth_weight(rest) + frame_weight(st));
                }
                skip_whitespace(input, &mut pos);
                let ghost m1 = Machine { stack: rest, pos: pos as int, ..m };
                proof {
                    lemma_run_snoc(tab, s, init, steps);
                    assert(run(tab, s, init, steps + 1) == step(tab, s, m));
                }
                match st {
                    State::Value => {
                        proof {
                            assert(step(tab, s, m) == step_value(tab, s, m1));
                        }
                        match peek_char(input, pos) {
                            None => {
                                proof {
                                    let fin = run(tab, s, init, steps + 1);
                                    assert(fin.verdict == Some(
                                        Err::<(), JsonError>(JsonError::UnexpectedEof),
                                    ));
                                    assert(w@ =~= base + fin.out);
                                    assert(indent.prefix() == fin.prefix);
                                }
                                return Err(JsonError::UnexpectedEof);
                            },
                            Some(c) => {
                                if c == LBRACE || c == LBRACKET {
                                    pos = pos + 1;
                                    w.push(c);
                                    w.push(NL);
                                    indent.push();
                                    let frame = if c == LBRACE {
                                        State::Object
                                    } else {
                                        State::Array
                                    };
                                    stack.push(frame);
                                    proof {
                                        lemma_rank_push(rest, frame);
                                        m = step(tab, s, m);
                                        steps = steps + 1;
                                        assert(m.stack =~= stack@);
                                        assert(w@ =~= base + m.out);
                                        assert(indent.prefix().len() == pre_len + tab.len()
                                            * depth_weight(stack@)) by (nonlinear_arith)
                                            requires
                                                indent.prefix().len() == pre_len + tab.len()
                                                    * depth_weight(rest) + tab.len(),
                                                depth_weight(stack@) == depth_weight(rest) + 1,
                                        ;
                                        lemma_rank_lower(stack@);
                                    }
                                } else if c == QUOTE {
                                    let r = write_string(w, input, &mut pos);
                                    proof {
                                        m = step(tab, s, m);
                                        steps = steps + 1;
                                    }
                                    match r {
                                        Ok(_) => {
                                            proof {
                                                assert(m.stack =~= stack@);
                                                assert(w@ =~= base + m.out);
                                                lemma_rank_lower(stack@);
                                            }
                                        },
                                        Err(e) => {
                                            proof {
                                                assert(m.verdict == Some(
                                                    Err::<(), JsonError>(e),
                                                ));
                                                assert(w@ =~= base + m.out);
                                            }
                                            return Err(e);
                                        },
                                    }
                                } else if c >= D0 && c <= D9 || c == MINUS {
                                    write_number(w, input, &mut pos);
                                    proof {
                                        m = step(tab, s, m);
                                        steps = steps + 1;
                                        assert(m.stack =~= stack@);
                                        assert(w@ =~= base + m.out);
                                        lemma_rank_lower(stack@);
                                    }
                                } else if c == LOW_N || c == LOW_T || c == LOW_F {
                                    let mut kw: Vec<u8> = Vec::new();
                                    if c == LOW_N {
                                        kw.push(LOW_N);
                                        kw.push(LOW_U);
                                        kw.push(LOW_L);
                                        kw.push(LOW_L);
                                        proof {
                                            assert(kw@ =~= kw_null());
                                        }
                                    } else if c == LOW_T {
                                        kw.push(LOW_T);
                                        kw.push(LOW_R);
                                        kw.push(LOW_U);
                                        kw.push(LOW_E);
                                        proof {
                                            assert(kw@ =~= kw_true());
                                        }
                                    } else {
                                        kw.push(LOW_F);
                                        kw.push(LOW_A);
                                        kw.push(LOW_L);
                                        kw.push(LOW_S);
                                        kw.push(LOW_E);
                                        proof {
                                            assert(kw@ =~= kw_false());
                                        }
                                    }
                                    let r = write_expected(w, input, &mut pos, kw.as_slice());
                                    proof {
                                        m = step(tab, s, m);
                                        steps = steps + 1;
                                    }
                                    match r {
                                        Ok(_) => {
                                            proof {
                                                assert(m.stack =~= stack@);
                                                assert(w@ =~= base + m.out);
                                                lemma_rank_lower(stack@);
                                            }
                                        },
                                        Err(e) => {
                                            proof {
                                                assert(m.verdict == Some(
                                                    Err::<(), JsonError>(e),
                                                ));
                                                assert(w@ =~= base + m.out);
                                            }
                                            return Err(e);
                                        },
                                    }
                                } else {
                                    proof {
                                        m = step(tab, s, m);
                                        steps = steps + 1;
                                        assert(m.verdict == Some(
                                            Err::<(), JsonError>(JsonError::UnexpectedInput(c)),
                                        ));
                                        assert(w@ =~= base + m.out);
                                    }
                                    return Err(JsonError::UnexpectedInput(c));
                                }
                            },
                        }
                    },
                    State::Pair | State::Elem => {
                        proof {
                            assert(step(tab, s, m) == step_cont(st, s, m1));
                        }
                        let owner = if st == State::Pair {
                            State::Object
                        } else {
                            State::Array
                        };
                        let closer = if st == State::Pair {
                            RBRACE
                        } else {
                            RBRACKET
                        };
                        match peek_char(input, pos) {
                            None => {
                                proof {
                                    m = step(tab, s, m);
                                    steps = steps + 1;
                                    assert(w@ =~= base + m.out);
                                }
                                return Err(JsonError::UnexpectedEof);
                            },
                            Some(c) => {
                                if c == COMMA {
                                    pos = pos + 1;
                                    w.push(COMMA);
                                    w.push(NL);
                                    stack.push(owner);
                                    proof {
                                        lemma_rank_push(rest, owner);
                                        m = step(tab, s, m);
                                        steps = steps + 1;
                                        assert(m.stack =~= stack@);
                                        assert(w@ =~= base + m.out);
                                        lemma_rank_lower(stack@);
                                    }
                                } else if c == closer {
                                    w.push(NL);
                                    stack.push(owner);
                                    proof {
                                        lemma_rank_push(rest, owner);
                                        m = step(tab, s, m);
                                        steps = steps + 1;
                                        assert(m.stack =~= stack@);
                                        assert(w@ =~= base + m.out);
                                        lemma_rank_lower(stack@);
                                    }
                                } else {
                                    proof {
                                        m = step(tab, s, m);
                                        steps = steps + 1;
                                        assert(w@ =~= base + m.out);
                                    }
                                    return Err(JsonError::UnexpectedInput(c));
                                }
                            },
                        }
                    },
                    State::Object => {
                        proof {
                            assert(step(tab, s, m) == step_object(tab, s, m1));
                        }
                        match peek_char(input, pos) {
                            None => {
                                proof {
                                    m = step(tab, s, m);
                                    steps = steps + 1;
                                    assert(w@ =~= base + m.out);
                                }
                                return Err(JsonError::UnexpectedEof);
                            },
                            Some(c) => {
                                if c == QUOTE {
                                    indent.write_to(w);
                                    let r = write_string(w, input, &mut pos);
                                    if let Err(e) = r {
                                        proof {
                                            m = step(tab, s, m);
                                            steps = steps + 1;
                                            assert(m.verdict == Some(Err::<(), JsonError>(e)));
                                            assert(w@ =~= base + m.out);
                                        }
                                        return Err(e);
                                    }
                                    let ghost kpos = pos as int;
                                    skip_whitespace(input, &mut pos);
                                    let mut colon: Vec<u8> = Vec::new();
                                    colon.push(COLON);
                                    proof {
                                        assert(colon@ =~= seq![COLON]);
                                    }
                                    let r2 = write_expected(w, input, &mut pos, colon.as_slice());
                                    if let Err(e) = r2 {
                                        proof {
                                            m = step(tab, s, m);
                                            steps = steps + 1;
                                            assert(m.verdict == Some(Err::<(), JsonError>(e)));
                                            assert(w@ =~= base + m.out);
                                        }
                                        return Err(e);
                                    }
                                    w.push(SP);
                                    stack.push(State::Pair);
                                    stack.push(State::Value);
                                    proof {
                                        lemma_rank_push(rest, State::Pair);
                                        lemma_rank_push(rest.push(State::Pair), State::Value);
                                        m = step(tab, s, m);
                                        steps = steps + 1;
                                        assert(m.stack =~= stack@);
                                        assert(w@ =~= base + m.out);
                                        lemma_rank_lower(stack@);
                                    }
                                } else if c == RBRACE {
                                    pos = pos + 1;
                                    proof {
                                        assert(indent.prefix().len() >= tab.len())
                                            by (nonlinear_arith)
                                            requires
                                                indent.prefix().len() == pre_len + tab.len()
                                                    * depth_weight(m.stack),
                                                depth_weight(m.stack) >= 1,
                                                pre_len >= 0,
                                                tab.len() >= 0,
                                        ;
                                    }
                                    indent.pop();
                                    indent.write_to(w);
                                    w.push(RBRACE);
                                    proof {
                                        m = step(tab, s, m);
                                        steps = steps + 1;
                                        assert(m.stack =~= stack@);
                                        assert(m.prefix =~= indent.prefix());
                                        assert(w@ =~= base + m.out);
                                        assert(indent.prefix().len() == pre_len + tab.len()
                                            * depth_weight(stack@)) by (nonlinear_arith)
                                            requires
                                                indent.prefix().len() + tab.len() == pre_len
                                                    + tab.len() * (depth_weight(stack@) + 1),
                                        ;
                                        lemma_rank_lower(stack@);
                                    }
                                } else {
                                    proof {
                                        m = step(tab, s, m);
                                        steps = steps + 1;
                                        assert(w@ =~= base + m.out);
                                    }
                                    return Err(JsonError::UnexpectedInput(c));
                                }
                            },
                        }
                    },
                    State::Array => {
                        proof {
                            assert(step(tab, s, m) == step_array(tab, s, m1));
                        }
                        match peek_char(input, pos) {
                            None => {
                                proof {
                                    m = step(tab, s, m);
                                    steps = steps + 1;
                                    assert(w@ =~= base + m.out);
                                }
                                return Err(JsonError::UnexpectedEof);
                            },
                            Some(c) => {
                                if c == RBRACKET {
                                    pos = pos + 1;
                                    proof {
                                        assert(indent.prefix().len() >= tab.len())
                                            by (nonlinear_arith)
                                            requires
                                                indent.prefix().len() == pre_len + tab.len()
                                                    * depth_weight(m.stack),
                                                depth_weight(m.stack) >= 1,
                                                pre_len >= 0,
                                                tab.len() >= 0,
                                        ;
                                    }
                                    indent.pop();
                                    indent.write_to(w);
                                    w.push(RBRACKET);
                                    proof {
                                        m = step(tab, s, m);
                                        steps = steps + 1;
                                        assert(m.stack =~= stack@);
                                        assert(m.prefix =~= indent.prefix());
                                        assert(w@ =~= base + m.out);
                                        assert(indent.prefix().len() == pre_len + tab.len()
                                            * depth_weight(stack@)) by (nonlinear_arith)
                                            requires
                                                indent.prefix().len() + tab.len() == pre_len
                                                    + tab.len() * (depth_weight(stack@) + 1),
                                        ;
                                        lemma_rank_lower(stack@);
                                    }
                                } else {
                                    indent.write_to(w);
                                    stack.push(State::Elem);
                                    stack.push(State::Value);
                                    proof {
                                        lemma_rank_push(rest, State::Elem);
                                        lemma_rank_push(rest.push(State::Elem), State::Value);
                                        m = step(tab, s, m);
                                        steps = steps + 1;
                                        assert(m.stack =~= stack@);
                                        assert(w@ =~= base + m.out);
                                        lemma_rank_lower(stack@);
                                    }
                                }
                            },
                        }
                    },
                }
            },
        }
    }
}

/// The single-pass formatter.  It scans the input bytes once, reacting to
/// the local character class alone — no frame stack and no bracket
/// matching — and is proved to realize the single-pass step machine of the
/// model: verdict, bytes appended and final indentation prefix are those
/// of the finished machine.  Insignificant whitespace is skipped without
/// disturbing the pending-indentation flag, so both algorithms must render
/// well-formed input identically.  Unbalanced or otherwise malformed input is
/// not reliably detected: it may yield malformed output rather than an
/// error, though never below-empty indentation, and strings are still
/// copied verbatim with an end-of-stream error when one is unterminated.
#[verifier::loop_isolation(false)]
#[verifier::rlimit(100)]
pub fn format_json_fast(w: &mut Vec<u8>, input: &[u8], indent: &mut Indent) -> (res: Result<
    (),
    JsonError,
>)
    ensures
        final(indent).tab() == old(indent).tab(),
        exists|n: nat|
            (#[trigger] fast_run(
                old(indent).tab(),
                input@,
                fast_init(old(indent).prefix()),
                n,
            )).verdict == Some(res) && final(w)@ == old(w)@ + fast_run(
                old(indent).tab(),
                input@,
                fast_init(old(indent).prefix()),
                n,
            ).out && final(indent).prefix() == fast_run(
                old(indent).tab(),
                input@,
                fast_init(old(indent).prefix()),
                n,
            ).prefix,
{
    let ghost tab = indent.tab();
    let ghost s = input@;
    let ghost init = fast_init(indent.prefix());
    let ghost base = w@;
    let mut pos: usize = 0;
    let mut pending = false;
    let ghost mut m = init;
    let ghost mut steps: nat = 0;
    loop
        invariant
            m == fast_run(tab, s, init, steps),
            m.verdict is None,
            m.pos == pos as int,
            m.pending == pending,
            w@ == base + m.out,
            m.prefix == indent.prefix(),
            indent.tab() == tab,
            pos <= input.len(),
        decreases input@.len() - pos,
    {
        proof {
            lemma_fast_run_snoc(tab, s, init, steps);
            assert(fast_run(tab, s, init, steps + 1) == fast_step(tab, s, m));
        }
        if pos >= input.len() {
            proof {
                assert(fast_run(tab, s, init, steps + 1).verdict == Some(
                    Ok::<(), JsonError>(()),
                ));
            }
            return Ok(());
        }
        let c = input[pos];
        if c == SP || c == HT || c == NL || c == CR {
            pos = pos + 1;
            proof {
                m = fast_step(tab, s, m);
                steps = steps + 1;
            }
        } else if c == RBRACE || c == RBRACKET {
            if indent.prefix_len() >= indent.tab_len() {
                indent.pop();
            }
            proof {
                assert(indent.prefix() =~= pop_prefix(m.prefix, tab));
            }
            if !pending {
                w.push(NL);
                indent.write_to(w);
            } else {
                indent.write_to(w);
                pending = false;
            }
            w.push(c);
            pos = pos + 1;
            proof {
                m = fast_step(tab, s, m);
                steps = steps + 1;
                assert(w@ =~= base + m.out);
            }
        } else {
            if pending {
                indent.write_to(w);
                pending = false;
            }
            if c == QUOTE {
                let r = write_string(w, input, &mut pos);
                proof {
                    m = fast_step(tab, s, m);
                    steps = steps + 1;
                    assert(w@ =~= base + m.out);
                }
                if let Err(e) = r {
                    return Err(e);
                }
            } else if c == LBRACE || c == LBRACKET {
                indent.push();
                w.push(c);
                w.push(NL);
                pending = true;
                pos = pos + 1;
                proof {
                    m = fast_step(tab, s, m);
                    steps = steps + 1;
                    assert(w@ =~= base + m.out);
                }
            } else if c == COMMA {
                w.push(COMMA);
                w.push(NL);
                pending = true;
                pos = pos + 1;
                proof {
                    m = fast_step(tab, s, m);
                    steps = steps + 1;
                    assert(w@ =~= base + m.out);
                }
            } else if c == COLON {
                w.push(COLON);
                w.push(SP);
                pos = pos + 1;
                proof {
                    m = fast_step(tab, s, m);
                    steps = steps + 1;
                    assert(w@ =~= base + m.out);
                }
            } else {
                w.push(c);
                pos = pos + 1;
                proof {
                    m = fast_step(tab, s, m);
                    steps = steps + 1;
                    assert(w@ =~= base + m.out);
                }
            }
        }
    }
}

} // verus!
