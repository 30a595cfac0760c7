//! Laws of the formatters, stated over the step machines of the model and
//! proved once and for all: the shape of empty containers, the verbatim
//! preservation of string, number and keyword tokens, the agreement of
//! the two algorithms on single tokens and on flat scalar arrays, the
//! idempotence of both on those inputs — each one's rendering of a flat
//! scalar array is a fixed point of either — and the errors that
//! truncated or misspelled input must surface.  Together with the
//! formatters' contracts — each returns exactly what its finished machine
//! holds — these pin down the formatters' behaviour on the covered
//! inputs.

use vstd::prelude::*;

use crate::model::BACKSLASH;
use crate::model::COLON;
use crate::model::COMMA;
use crate::model::fast_init;
use crate::model::fast_run;
use crate::model::fast_step;
use crate::model::FastMachine;
use crate::model::init_machine;
use crate::model::is_digit;
use crate::model::is_num_byte;
use crate::model::is_ws;
use crate::model::JsonError;
use crate::model::kw_false;
use crate::model::kw_null;
use crate::model::kw_true;
use crate::model::LBRACE;
use crate::model::LBRACKET;
use crate::model::lemma_fast_run_compose;
use crate::model::lemma_fast_run_verdict_unique;
use crate::model::lemma_run_compose;
use crate::model::lemma_run_verdict_unique;
use crate::model::lit_result;
use crate::model::LOW_F;
use crate::model::LOW_N;
use crate::model::LOW_T;
use crate::model::Machine;
use crate::model::MINUS;
use crate::model::mismatch_from;
use crate::model::NL;
use crate::model::num_end;
use crate::model::pop_prefix;
use crate::model::QUOTE;
use crate::model::RBRACE;
use crate::model::RBRACKET;
use crate::model::run;
use crate::model::skip_ws_from;
use crate::model::SP;
use crate::model::State;
use crate::model::step;
use crate::model::str_scan;

verus! {

/// The input is exactly one string token: an opening quote whose matching
/// unescaped closing quote is the last byte.
pub open spec fn single_string_token(s: Seq<u8>) -> bool {
    s.len() > 0 && s[0] == QUOTE && str_scan(s, 1, false) == Some(s.len() as int)
}

/// The input is exactly one number token: a digit or minus sign followed
/// by number-class bytes up to the end of the input.
pub open spec fn single_number_token(s: Seq<u8>) -> bool {
    s.len() > 0 && (is_digit(s[0]) || s[0] == MINUS) && num_end(s, 1) == s.len() as int
}

/// The input is exactly one literal keyword.
pub open spec fn single_keyword_token(s: Seq<u8>) -> bool {
    s == kw_null() || s == kw_true() || s == kw_false()
}

/// Law: an empty object renders as its opening brace and a newline,
/// followed by the closing brace standing at the surrounding indentation —
/// never `{}` on one line, and never with the closer indented one level
/// deeper.  Every finished run of the grammar machine on the two-byte
/// input `{}` ends successfully with exactly that output, whatever the
/// indentation unit and the surrounding prefix; by `format_json`'s
/// contract the same holds of its output.
pub proof fn lemma_empty_object_shape(tab: Seq<u8>, outer: Seq<u8>, n: nat)
    requires
        run(tab, seq![LBRACE, RBRACE], init_machine(outer), n).verdict is Some,
    ensures
        run(tab, seq![LBRACE, RBRACE], init_machine(outer), n).verdict == Some(
            Ok::<(), JsonError>(()),
        ),
        run(tab, seq![LBRACE, RBRACE], init_machine(outer), n).out == seq![LBRACE, NL] + outer
            + seq![RBRACE],
        run(tab, seq![LBRACE, RBRACE], init_machine(outer), n).prefix == outer,
{
    let s = seq![LBRACE, RBRACE];
    let m0 = init_machine(outer);
    let m1 = step(tab, s, m0);
    let m2 = step(tab, s, m1);
    let m3 = step(tab, s, m2);
    assert(skip_ws_from(s, 0) == 0);
    assert(m0.stack.last() == State::Value);
    assert(m0.stack.drop_last() =~= Seq::<State>::empty());
    assert(m1.stack =~= seq![State::Object]);
    assert(m1.out =~= seq![LBRACE, NL]);
    assert(m1.pos == 1 && m1.prefix == outer + tab && m1.verdict is None);
    assert(skip_ws_from(s, 1) == 1);
    assert(m1.stack.last() == State::Object);
    assert(m1.stack.drop_last() =~= Seq::<State>::empty());
    assert(pop_prefix(outer + tab, tab) =~= outer);
    assert(m2.stack =~= Seq::<State>::empty());
    assert(m2.out =~= seq![LBRACE, NL] + outer + seq![RBRACE]);
    assert(m2.pos == 2 && m2.prefix =~= outer && m2.verdict is None);
    assert(m3.verdict == Some(Ok::<(), JsonError>(())));
    assert(m3.out == m2.out && m3.prefix == m2.prefix);
    assert(run(tab, s, m0, 3) == run(tab, s, m1, 2));
    assert(run(tab, s, m1, 2) == run(tab, s, m2, 1));
    assert(run(tab, s, m2, 1) == run(tab, s, m3, 0));
    lemma_run_verdict_unique(tab, s, m0, n, 3);
}

/// Law (literal preservation, grammar-driven): an input that is exactly
/// one string token is reproduced byte for byte — nothing is re-escaped or
/// re-encoded, and no indentation is added around a top-level scalar.  In
/// particular the grammar-driven formatter is idempotent on such inputs.
pub proof fn lemma_string_token_format(tab: Seq<u8>, outer: Seq<u8>, s: Seq<u8>, n: nat)
    requires
        single_string_token(s),
        run(tab, s, init_machine(outer), n).verdict is Some,
    ensures
        run(tab, s, init_machine(outer), n).verdict == Some(Ok::<(), JsonError>(())),
        run(tab, s, init_machine(outer), n).out == s,
        run(tab, s, init_machine(outer), n).prefix == outer,
{
    let m0 = init_machine(outer);
    let m1 = step(tab, s, m0);
    let m2 = step(tab, s, m1);
    assert(skip_ws_from(s, 0) == 0);
    assert(m0.stack.last() == State::Value);
    assert(m0.stack.drop_last() =~= Seq::<State>::empty());
    assert(m1.stack =~= Seq::<State>::empty());
    assert(m1.out =~= s);
    assert(m1.prefix == outer && m1.verdict is None);
    assert(m2.verdict == Some(Ok::<(), JsonError>(())));
    assert(run(tab, s, m0, 2) == run(tab, s, m1, 1));
    assert(run(tab, s, m1, 1) == run(tab, s, m2, 0));
    lemma_run_verdict_unique(tab, s, m0, n, 2);
}

/// Law (literal preservation, grammar-driven): an input that is exactly
/// one number token is reproduced byte for byte — no numeric
/// normalization of any kind.  In particular the grammar-driven formatter
/// is idempotent on such inputs.
pub proof fn lemma_number_token_format(tab: Seq<u8>, outer: Seq<u8>, s: Seq<u8>, n: nat)
    requires
        single_number_token(s),
        run(tab, s, init_machine(outer), n).verdict is Some,
    ensures
        run(tab, s, init_machine(outer), n).verdict == Some(Ok::<(), JsonError>(())),
        run(tab, s, init_machine(outer), n).out == s,
        run(tab, s, init_machine(outer), n).prefix == outer,
{
    let m0 = init_machine(outer);
    let m1 = step(tab, s, m0);
    let m2 = step(tab, s, m1);
    assert(skip_ws_from(s, 0) == 0);
    assert(m0.stack.last() == State::Value);
    assert(m0.stack.drop_last() =~= Seq::<State>::empty());
    assert(m1.stack =~= Seq::<State>::empty());
    assert(m1.out =~= s);
    assert(m1.prefix == outer && m1.verdict is None);
    assert(m2.verdict == Some(Ok::<(), JsonError>(())));
    assert(run(tab, s, m0, 2) == run(tab, s, m1, 1));
    assert(run(tab, s, m1, 1) == run(tab, s, m2, 0));
    lemma_run_verdict_unique(tab, s, m0, n, 2);
}

/// Law (literal preservation, single-pass): an input that is exactly one
/// string token is reproduced byte for byte by the single-pass machine.
pub proof fn lemma_string_token_fast(tab: Seq<u8>, outer: Seq<u8>, s: Seq<u8>, n: nat)
    requires
        single_string_token(s),
        fast_run(tab, s, fast_init(outer), n).verdict is Some,
    ensures
        fast_run(tab, s, fast_init(outer), n).verdict == Some(Ok::<(), JsonError>(())),
        fast_run(tab, s, fast_init(outer), n).out == s,
        fast_run(tab, s, fast_init(outer), n).prefix == outer,
{
    let m0 = fast_init(outer);
    let m1 = fast_step(tab, s, m0);
    let m2 = fast_step(tab, s, m1);
    assert(m1.out =~= s);
    assert(m1.pos == s.len() && m1.prefix == outer && m1.verdict is None);
    assert(m2.verdict == Some(Ok::<(), JsonError>(())));
    assert(fast_run(tab, s, m0, 2) == fast_run(tab, s, m1, 1));
    assert(fast_run(tab, s, m1, 1) == fast_run(tab, s, m2, 0));
    lemma_fast_run_verdict_unique(tab, s, m0, n, 2);
}

/// A byte that the single-pass scanner passes through verbatim: neither
/// structural punctuation, nor a quote, nor insignificant whitespace.
pub open spec fn is_plain(c: u8) -> bool {
    c != LBRACE && c != RBRACE && c != LBRACKET && c != RBRACKET && c != QUOTE && c != COMMA
        && c != COLON && !is_ws(c)
}

/// A run of the single-pass machine over a tail of plain bytes passes
/// every byte through verbatim and ends successfully.
proof fn lemma_fast_plain_tail(tab: Seq<u8>, s: Seq<u8>, m: FastMachine)
    requires
        m.verdict is None,
        !m.pending,
        0 <= m.pos <= s.len(),
        forall|i: int| m.pos <= i < s.len() ==> is_plain(#[trigger] s[i]),
    ensures
        ({
            let fin = fast_run(tab, s, m, (s.len() - m.pos + 1) as nat);
            fin.verdict == Some(Ok::<(), JsonError>(())) && fin.out == m.out + s.subrange(
                m.pos,
                s.len() as int,
            ) && fin.prefix == m.prefix
        }),
    decreases s.len() - m.pos,
{
    let k = (s.len() - m.pos + 1) as nat;
    let m1 = fast_step(tab, s, m);
    if m.pos >= s.len() {
        assert(m1.verdict == Some(Ok::<(), JsonError>(())));
        assert(fast_run(tab, s, m, k) == fast_run(tab, s, m1, (k - 1) as nat));
        assert(m1.out =~= m.out + s.subrange(m.pos, s.len() as int));
    } else {
        assert(is_plain(s[m.pos]));
        assert(m1.pos == m.pos + 1 && !m1.pending && m1.verdict is None);
        assert(m1.out =~= m.out + s.subrange(m.pos, m.pos + 1));
        lemma_fast_plain_tail(tab, s, m1);
        assert(fast_run(tab, s, m, k) == fast_run(tab, s, m1, (k - 1) as nat));
        assert(m1.out + s.subrange(m1.pos, s.len() as int) =~= m.out + s.subrange(
            m.pos,
            s.len() as int,
        ));
    }
}

/// Law (literal preservation, single-pass): an input that is exactly one
/// number token is reproduced byte for byte by the single-pass machine.
pub proof fn lemma_number_token_fast(tab: Seq<u8>, outer: Seq<u8>, s: Seq<u8>, n: nat)
    requires
        single_number_token(s),
        fast_run(tab, s, fast_init(outer), n).verdict is Some,
    ensures
        fast_run(tab, s, fast_init(outer), n).verdict == Some(Ok::<(), JsonError>(())),
        fast_run(tab, s, fast_init(outer), n).out == s,
        fast_run(tab, s, fast_init(outer), n).prefix == outer,
{
    let m0 = fast_init(outer);
    assert forall|i: int| 0 <= i < s.len() implies is_num_byte(#[trigger] s[i]) by {
        lemma_num_end_all(s, i);
    }
    assert forall|i: int| 0 <= i < s.len() implies is_plain(#[trigger] s[i]) by {
        lemma_num_end_all(s, i);
    }
    lemma_fast_plain_tail(tab, s, m0);
    assert(m0.out + s.subrange(0, s.len() as int) =~= s);
    lemma_fast_run_verdict_unique(tab, s, m0, n, (s.len() + 1) as nat);
}

/// Every byte of a single number token is in the number class.
proof fn lemma_num_end_all(s: Seq<u8>, i: int)
    requires
        single_number_token(s),
        0 <= i < s.len(),
    ensures
        is_num_byte(s[i]),
{
    if i == 0 {
        assert(is_digit(s[0]) || s[0] == MINUS);
    } else {
        lemma_num_end_between(s, 1, i);
    }
}

/// Between `j` and `num_end(s, j)` every byte is in the number class.
proof fn lemma_num_end_between(s: Seq<u8>, j: int, i: int)
    requires
        0 <= j <= i < num_end(s, j),
        i < s.len(),
    ensures
        is_num_byte(s[i]),
    decreases i - j,
{
    assert(num_end(s, j) > j);
    assert(0 <= j < s.len() && is_num_byte(s[j]));
    if i > j {
        lemma_num_end_between(s, j + 1, i);
    }
}

/// Law (algorithm equivalence, one-token case): on an input that is
/// exactly one string, number or literal keyword token, both machines
/// succeed and emit the same bytes — the token itself.  It follows that
/// each formatter is idempotent on such inputs.
pub proof fn lemma_single_token_equivalence(
    tab: Seq<u8>,
    outer: Seq<u8>,
    s: Seq<u8>,
    n1: nat,
    n2: nat,
)
    requires
        single_string_token(s) || single_number_token(s) || single_keyword_token(s),
        run(tab, s, init_machine(outer), n1).verdict is Some,
        fast_run(tab, s, fast_init(outer), n2).verdict is Some,
    ensures
        run(tab, s, init_machine(outer), n1).verdict == fast_run(
            tab,
            s,
            fast_init(outer),
            n2,
        ).verdict,
        run(tab, s, init_machine(outer), n1).out == fast_run(tab, s, fast_init(outer), n2).out,
{
    if single_string_token(s) {
        lemma_string_token_format(tab, outer, s, n1);
        lemma_string_token_fast(tab, outer, s, n2);
    } else if single_number_token(s) {
        lemma_number_token_format(tab, outer, s, n1);
        lemma_number_token_fast(tab, outer, s, n2);
    } else {
        lemma_keyword_token_format(tab, outer, s, n1);
        lemma_keyword_token_fast(tab, outer, s, n2);
    }
}

/// Law: an empty array renders exactly as an empty object does — opening
/// bracket, newline, then the closing bracket at the surrounding
/// indentation.
pub proof fn lemma_empty_array_shape(tab: Seq<u8>, outer: Seq<u8>, n: nat)
    requires
        run(tab, seq![LBRACKET, RBRACKET], init_machine(outer), n).verdict is Some,
    ensures
        run(tab, seq![LBRACKET, RBRACKET], init_machine(outer), n).verdict == Some(
            Ok::<(), JsonError>(()),
        ),
        run(tab, seq![LBRACKET, RBRACKET], init_machine(outer), n).out == seq![LBRACKET, NL]
            + outer + seq![RBRACKET],
        run(tab, seq![LBRACKET, RBRACKET], init_machine(outer), n).prefix == outer,
{
    let s = seq![LBRACKET, RBRACKET];
    let m0 = init_machine(outer);
    let m1 = step(tab, s, m0);
    let m2 = step(tab, s, m1);
    let m3 = step(tab, s, m2);
    assert(skip_ws_from(s, 0) == 0);
    assert(m0.stack.last() == State::Value);
    assert(m0.stack.drop_last() =~= Seq::<State>::empty());
    assert(m1.stack =~= seq![State::Array]);
    assert(m1.out =~= seq![LBRACKET, NL]);
    assert(m1.pos == 1 && m1.prefix == outer + tab && m1.verdict is None);
    assert(skip_ws_from(s, 1) == 1);
    assert(m1.stack.last() == State::Array);
    assert(m1.stack.drop_last() =~= Seq::<State>::empty());
    assert(pop_prefix(outer + tab, tab) =~= outer);
    assert(m2.stack =~= Seq::<State>::empty());
    assert(m2.out =~= seq![LBRACKET, NL] + outer + seq![RBRACKET]);
    assert(m2.pos == 2 && m2.prefix =~= outer && m2.verdict is None);
    assert(m3.verdict == Some(Ok::<(), JsonError>(())));
    assert(m3.out == m2.out && m3.prefix == m2.prefix);
    assert(run(tab, s, m0, 3) == run(tab, s, m1, 2));
    assert(run(tab, s, m1, 2) == run(tab, s, m2, 1));
    assert(run(tab, s, m2, 1) == run(tab, s, m3, 0));
    lemma_run_verdict_unique(tab, s, m0, n, 3);
}

/// Law (literal keywords, grammar-driven): an input that is exactly the
/// spelling `null`, `true` or `false` is reproduced byte for byte.
pub proof fn lemma_keyword_token_format(tab: Seq<u8>, outer: Seq<u8>, s: Seq<u8>, n: nat)
    requires
        single_keyword_token(s),
        run(tab, s, init_machine(outer), n).verdict is Some,
    ensures
        run(tab, s, init_machine(outer), n).verdict == Some(Ok::<(), JsonError>(())),
        run(tab, s, init_machine(outer), n).out == s,
        run(tab, s, init_machine(outer), n).prefix == outer,
{
    let m0 = init_machine(outer);
    let m1 = step(tab, s, m0);
    let m2 = step(tab, s, m1);
    assert(skip_ws_from(s, 0) == 0);
    assert(m0.stack.last() == State::Value);
    assert(m0.stack.drop_last() =~= Seq::<State>::empty());
    if s == kw_null() {
        assert(mismatch_from(s, 0, kw_null(), 4) == 4);
        assert(mismatch_from(s, 0, kw_null(), 3) == 4);
        assert(mismatch_from(s, 0, kw_null(), 2) == 4);
        assert(mismatch_from(s, 0, kw_null(), 1) == 4);
        assert(mismatch_from(s, 0, kw_null(), 0) == 4);
        assert(lit_result(s, 0, kw_null()) == Ok::<(), JsonError>(()));
    } else if s == kw_true() {
        assert(mismatch_from(s, 0, kw_true(), 4) == 4);
        assert(mismatch_from(s, 0, kw_true(), 3) == 4);
        assert(mismatch_from(s, 0, kw_true(), 2) == 4);
        assert(mismatch_from(s, 0, kw_true(), 1) == 4);
        assert(mismatch_from(s, 0, kw_true(), 0) == 4);
        assert(lit_result(s, 0, kw_true()) == Ok::<(), JsonError>(()));
    } else {
        assert(mismatch_from(s, 0, kw_false(), 5) == 5);
        assert(mismatch_from(s, 0, kw_false(), 4) == 5);
        assert(mismatch_from(s, 0, kw_false(), 3) == 5);
        assert(mismatch_from(s, 0, kw_false(), 2) == 5);
        assert(mismatch_from(s, 0, kw_false(), 1) == 5);
        assert(mismatch_from(s, 0, kw_false(), 0) == 5);
        assert(lit_result(s, 0, kw_false()) == Ok::<(), JsonError>(()));
    }
    assert(m1.stack =~= Seq::<State>::empty());
    assert(m1.out =~= s);
    assert(m1.prefix == outer && m1.verdict is None);
    assert(m2.verdict == Some(Ok::<(), JsonError>(())));
    assert(run(tab, s, m0, 2) == run(tab, s, m1, 1));
    assert(run(tab, s, m1, 1) == run(tab, s, m2, 0));
    lemma_run_verdict_unique(tab, s, m0, n, 2);
}

/// Law (literal keywords, single-pass): an input that is exactly the
/// spelling `null`, `true` or `false` is reproduced byte for byte by the
/// single-pass machine, whose scan passes the letters through verbatim.
pub proof fn lemma_keyword_token_fast(tab: Seq<u8>, outer: Seq<u8>, s: Seq<u8>, n: nat)
    requires
        single_keyword_token(s),
        fast_run(tab, s, fast_init(outer), n).verdict is Some,
    ensures
        fast_run(tab, s, fast_init(outer), n).verdict == Some(Ok::<(), JsonError>(())),
        fast_run(tab, s, fast_init(outer), n).out == s,
        fast_run(tab, s, fast_init(outer), n).prefix == outer,
{
    let m0 = fast_init(outer);
    if s == kw_false() {
        assert(is_plain(s[0]) && is_plain(s[1]) && is_plain(s[2]) && is_plain(s[3]) && is_plain(
            s[4],
        ));
    } else {
        assert(is_plain(s[0]) && is_plain(s[1]) && is_plain(s[2]) && is_plain(s[3]));
    }
    lemma_fast_plain_tail(tab, s, m0);
    assert(m0.out + s.subrange(0, s.len() as int) =~= s);
    lemma_fast_run_verdict_unique(tab, s, m0, n, (s.len() + 1) as nat);
}

/// Law (error surfacing): an input that opens a string and never closes
/// it makes the grammar-driven machine fail with an end-of-stream error.
pub proof fn lemma_unterminated_string_fails(tab: Seq<u8>, outer: Seq<u8>, s: Seq<u8>, n: nat)
    requires
        s.len() > 0,
        s[0] == QUOTE,
        str_scan(s, 1, false) is None,
        run(tab, s, init_machine(outer), n).verdict is Some,
    ensures
        run(tab, s, init_machine(outer), n).verdict == Some(
            Err::<(), JsonError>(JsonError::UnexpectedEof),
        ),
{
    let m0 = init_machine(outer);
    let m1 = step(tab, s, m0);
    assert(skip_ws_from(s, 0) == 0);
    assert(m0.stack.last() == State::Value);
    assert(m1.verdict == Some(Err::<(), JsonError>(JsonError::UnexpectedEof)));
    assert(run(tab, s, m0, 1) == run(tab, s, m1, 0));
    lemma_run_verdict_unique(tab, s, m0, n, 1);
}

/// Law (error surfacing): an input that starts a literal keyword but ends
/// before its spelling is complete makes the grammar-driven machine fail
/// with an end-of-stream error.
pub proof fn lemma_truncated_keyword_fails(tab: Seq<u8>, outer: Seq<u8>, s: Seq<u8>, n: nat)
    requires
        s.len() > 0,
        (s[0] == LOW_N || s[0] == LOW_T) && s.len() < 4 || s[0] == LOW_F && s.len() < 5,
        run(tab, s, init_machine(outer), n).verdict is Some,
    ensures
        run(tab, s, init_machine(outer), n).verdict == Some(
            Err::<(), JsonError>(JsonError::UnexpectedEof),
        ),
{
    let m0 = init_machine(outer);
    let m1 = step(tab, s, m0);
    assert(skip_ws_from(s, 0) == 0);
    assert(m0.stack.last() == State::Value);
    assert(m1.verdict == Some(Err::<(), JsonError>(JsonError::UnexpectedEof)));
    assert(run(tab, s, m0, 1) == run(tab, s, m1, 0));
    lemma_run_verdict_unique(tab, s, m0, n, 1);
}

/// Law (error surfacing): an input long enough for the keyword `null` but
/// misspelling it makes the grammar-driven machine fail with a literal
/// mismatch carrying the first differing input byte.
pub proof fn lemma_literal_mismatch_surfaces(tab: Seq<u8>, outer: Seq<u8>, s: Seq<u8>, n: nat)
    requires
        s.len() >= 4,
        s[0] == LOW_N,
        mismatch_from(s, 0, kw_null(), 0) < 4,
        run(tab, s, init_machine(outer), n).verdict is Some,
    ensures
        run(tab, s, init_machine(outer), n).verdict == Some(
            Err::<(), JsonError>(JsonError::LiteralMismatch(s[mismatch_from(s, 0, kw_null(), 0)])),
        ),
{
    let m0 = init_machine(outer);
    let m1 = step(tab, s, m0);
    assert(skip_ws_from(s, 0) == 0);
    assert(m0.stack.last() == State::Value);
    assert(lit_result(s, 0, kw_null()) == Err::<(), JsonError>(
        JsonError::LiteralMismatch(s[mismatch_from(s, 0, kw_null(), 0)]),
    ));
    assert(m1.verdict == Some(Err::<(), JsonError>(
        JsonError::LiteralMismatch(s[mismatch_from(s, 0, kw_null(), 0)]),
    )));
    assert(run(tab, s, m0, 1) == run(tab, s, m1, 0));
    lemma_run_verdict_unique(tab, s, m0, n, 1);
}

/// Law (error surfacing): an array opened and truncated right after its
/// first one-digit element — the stream ends where a comma or the closing
/// bracket was still expected — makes the grammar-driven machine fail with
/// an end-of-stream error.  The digit itself is not the failure: a number
/// may end the stream, but its container may not.
pub proof fn lemma_truncated_array_fails(tab: Seq<u8>, outer: Seq<u8>, d: u8, n: nat)
    requires
        is_digit(d),
        run(tab, seq![LBRACKET, d], init_machine(outer), n).verdict is Some,
    ensures
        run(tab, seq![LBRACKET, d], init_machine(outer), n).verdict == Some(
            Err::<(), JsonError>(JsonError::UnexpectedEof),
        ),
{
    let s = seq![LBRACKET, d];
    let m0 = init_machine(outer);
    let m1 = step(tab, s, m0);
    let m2 = step(tab, s, m1);
    let m3 = step(tab, s, m2);
    let m4 = step(tab, s, m3);
    assert(skip_ws_from(s, 0) == 0);
    assert(m0.stack.last() == State::Value);
    assert(m0.stack.drop_last() =~= Seq::<State>::empty());
    assert(m1.stack =~= seq![State::Array]);
    assert(m1.pos == 1 && m1.verdict is None);
    assert(skip_ws_from(s, 1) == 1);
    assert(m1.stack.last() == State::Array);
    assert(m1.stack.drop_last() =~= Seq::<State>::empty());
    assert(s[1] != RBRACKET);
    assert(m2.stack =~= seq![State::Elem, State::Value]);
    assert(m2.pos == 1 && m2.verdict is None);
    assert(m2.stack.last() == State::Value);
    assert(m2.stack.drop_last() =~= seq![State::Elem]);
    assert(num_end(s, 2) == 2);
    assert(m3.stack =~= seq![State::Elem]);
    assert(m3.pos == 2 && m3.verdict is None);
    assert(skip_ws_from(s, 2) == 2);
    assert(m3.stack.last() == State::Elem);
    assert(m4.verdict == Some(Err::<(), JsonError>(JsonError::UnexpectedEof)));
    assert(run(tab, s, m0, 4) == run(tab, s, m1, 3));
    assert(run(tab, s, m1, 3) == run(tab, s, m2, 2));
    assert(run(tab, s, m2, 2) == run(tab, s, m3, 1));
    assert(run(tab, s, m3, 1) == run(tab, s, m4, 0));
    lemma_run_verdict_unique(tab, s, m0, n, 4);
}

/// End of the scalar token that starts at `i`: a digit or minus sign
/// starts a number ending at the first byte outside the number class, a
/// quote starts a string ending after its unescaped closing quote; any
/// other byte starts no scalar here.
pub open spec fn scalar_end(s: Seq<u8>, i: int) -> Option<int> {
    if !(0 <= i < s.len()) {
        None
    } else if is_digit(s[i]) || s[i] == MINUS {
        Some(num_end(s, i + 1))
    } else if s[i] == QUOTE {
        str_scan(s, i + 1, false)
    } else {
        None
    }
}

/// From position `i` the input continues as a flat run of scalar tokens
/// (numbers or strings) separated by commas, with no whitespace, closed
/// by a final bracket that is the last byte of the input.
pub open spec fn flat_scalars_from(s: Seq<u8>, i: int) -> bool
    decreases s.len() - i,
{
    match scalar_end(s, i) {
        None => false,
        Some(e) => i < e && e < s.len() && (if s[e] == COMMA {
            flat_scalars_from(s, e + 1)
        } else {
            s[e] == RBRACKET && e + 1 == s.len()
        }),
    }
}

/// The bytes emitted for the tail of a flat scalar array: each token
/// copied verbatim on its own line at the inner indentation, commas
/// ending their lines, and the closing bracket alone on the last line at
/// the outer indentation.
pub open spec fn flat_scalars_out(s: Seq<u8>, i: int, inner: Seq<u8>, outer: Seq<u8>) -> Seq<u8>
    decreases s.len() - i,
{
    match scalar_end(s, i) {
        None => Seq::empty(),
        Some(e) => if i < e && e < s.len() && s[e] == COMMA {
            inner + s.subrange(i, e) + seq![COMMA, NL] + flat_scalars_out(s, e + 1, inner, outer)
        } else {
            inner + s.subrange(i, e) + seq![NL] + outer + seq![RBRACKET]
        },
    }
}

/// The grammar machine, standing on an `Array` frame before a flat run of
/// scalar tokens, finishes successfully after `k` more steps with exactly
/// the flat-array tail appended.
proof fn lemma_flat_scalars_grammar(
    tab: Seq<u8>,
    s: Seq<u8>,
    outer: Seq<u8>,
    m: Machine,
    i: int,
) -> (k: nat)
    requires
        m.verdict is None,
        m.stack == seq![State::Array],
        m.pos == i,
        m.prefix == outer + tab,
        flat_scalars_from(s, i),
    ensures
        run(tab, s, m, k).verdict == Some(Ok::<(), JsonError>(())),
        run(tab, s, m, k).out == m.out + flat_scalars_out(s, i, outer + tab, outer),
        run(tab, s, m, k).prefix == outer,
    decreases s.len() - i,
{
    let inner = outer + tab;
    let e = scalar_end(s, i).unwrap();
    let m1 = step(tab, s, m);
    let m2 = step(tab, s, m1);
    let m3 = step(tab, s, m2);
    assert(skip_ws_from(s, i) == i);
    assert(m.stack.last() == State::Array);
    assert(m.stack.drop_last() =~= Seq::<State>::empty());
    assert(m1.stack =~= seq![State::Elem, State::Value]);
    assert(m1.pos == i && m1.out == m.out + inner && m1.verdict is None);
    assert(m1.stack.last() == State::Value);
    assert(m1.stack.drop_last() =~= seq![State::Elem]);
    assert(m2.stack =~= seq![State::Elem]);
    assert(m2.pos == e && m2.verdict is None);
    assert(m2.out =~= m.out + inner + s.subrange(i, e));
    assert(skip_ws_from(s, e) == e);
    assert(m2.stack.last() == State::Elem);
    assert(m2.stack.drop_last() =~= Seq::<State>::empty());
    assert(run(tab, s, m, 3) == run(tab, s, m1, 2));
    assert(run(tab, s, m1, 2) == run(tab, s, m2, 1));
    assert(run(tab, s, m2, 1) == run(tab, s, m3, 0));
    if s[e] == COMMA {
        assert(m3.stack =~= seq![State::Array]);
        assert(m3.pos == e + 1 && m3.verdict is None && m3.prefix == inner);
        assert(m3.out =~= m.out + inner + s.subrange(i, e) + seq![COMMA, NL]);
        let k2 = lemma_flat_scalars_grammar(tab, s, outer, m3, e + 1);
        lemma_run_compose(tab, s, m, 3, k2);
        assert(run(tab, s, m, 3 + k2) == run(tab, s, m3, k2));
        assert(run(tab, s, m3, k2).out =~= m.out + flat_scalars_out(s, i, inner, outer));
        3 + k2
    } else {
        let m4 = step(tab, s, m3);
        let m5 = step(tab, s, m4);
        assert(m3.stack =~= seq![State::Array]);
        assert(m3.pos == e && m3.verdict is None && m3.prefix == inner);
        assert(m3.out =~= m.out + inner + s.subrange(i, e) + seq![NL]);
        assert(m3.stack.last() == State::Array);
        assert(m3.stack.drop_last() =~= Seq::<State>::empty());
        assert(s[e] == RBRACKET);
        assert(pop_prefix(inner, tab) =~= outer);
        assert(m4.stack =~= Seq::<State>::empty());
        assert(m4.pos == e + 1 && m4.verdict is None);
        assert(m4.prefix =~= outer);
        assert(m4.out =~= m.out + inner + s.subrange(i, e) + seq![NL] + outer + seq![RBRACKET]);
        assert(m5.verdict == Some(Ok::<(), JsonError>(())));
        assert(m5.out == m4.out && m5.prefix == m4.prefix);
        assert(run(tab, s, m3, 2) == run(tab, s, m4, 1));
        assert(run(tab, s, m4, 1) == run(tab, s, m5, 0));
        lemma_run_compose(tab, s, m, 3, 2);
        assert(run(tab, s, m, 5) == run(tab, s, m3, 2));
        assert(run(tab, s, m, 5).out =~= m.out + flat_scalars_out(s, i, inner, outer));
        5
    }
}

/// The single-pass machine passes a stretch of plain bytes through
/// verbatim, one byte per step, reaching position `e` unchanged otherwise.
proof fn lemma_fast_plain_segment(tab: Seq<u8>, s: Seq<u8>, m: FastMachine, e: int) -> (k: nat)
    requires
        m.verdict is None,
        !m.pending,
        0 <= m.pos <= e <= s.len(),
        forall|j: int| m.pos <= j < e ==> is_plain(#[trigger] s[j]),
    ensures
        ({
            let mid = fast_run(tab, s, m, k);
            mid.pos == e && !mid.pending && mid.verdict is None && mid.prefix == m.prefix
                && mid.out == m.out + s.subrange(m.pos, e)
        }),
    decreases e - m.pos,
{
    if m.pos == e {
        assert(m.out + s.subrange(m.pos, e) =~= m.out);
        0
    } else {
        let m1 = fast_step(tab, s, m);
        assert(is_plain(s[m.pos]));
        assert(m1.pos == m.pos + 1 && !m1.pending && m1.verdict is None && m1.prefix == m.prefix);
        assert(m1.out =~= m.out + s.subrange(m.pos, m.pos + 1));
        let k2 = lemma_fast_plain_segment(tab, s, m1, e);
        lemma_fast_run_compose(tab, s, m, 1, k2);
        assert(fast_run(tab, s, m, 1) == fast_run(tab, s, m1, 0));
        assert(fast_run(tab, s, m, 1 + k2) == fast_run(tab, s, m1, k2));
        assert(m1.out + s.subrange(m1.pos, e) =~= m.out + s.subrange(m.pos, e));
        1 + k2
    }
}

/// The single-pass machine, with a fresh line pending before a flat run
/// of scalar tokens, finishes successfully after `k` more steps with
/// exactly the flat-array tail appended.
proof fn lemma_flat_scalars_fast(
    tab: Seq<u8>,
    s: Seq<u8>,
    outer: Seq<u8>,
    m: FastMachine,
    i: int,
) -> (k: nat)
    requires
        m.verdict is None,
        m.pending,
        m.pos == i,
        m.prefix == outer + tab,
        flat_scalars_from(s, i),
    ensures
        fast_run(tab, s, m, k).verdict == Some(Ok::<(), JsonError>(())),
        fast_run(tab, s, m, k).out == m.out + flat_scalars_out(s, i, outer + tab, outer),
        fast_run(tab, s, m, k).prefix == outer,
    decreases s.len() - i,
{
    let inner = outer + tab;
    let e = scalar_end(s, i).unwrap();
    // reach position e with the token copied: one step for a string, one
    // step per byte for a number
    let ka: nat = if s[i] == QUOTE {
        let m1 = fast_step(tab, s, m);
        assert(m1.pos == e && !m1.pending && m1.verdict is None && m1.prefix == inner);
        assert(m1.out =~= m.out + inner + s.subrange(i, e));
        assert(fast_run(tab, s, m, 1) == fast_run(tab, s, m1, 0));
        1
    } else {
        let m1 = fast_step(tab, s, m);
        assert(is_digit(s[i]) || s[i] == MINUS);
        assert(m1.pos == i + 1 && !m1.pending && m1.verdict is None && m1.prefix == inner);
        assert(m1.out =~= m.out + inner + s.subrange(i, i + 1));
        assert forall|j: int| i + 1 <= j < e implies is_plain(#[trigger] s[j]) by {
            lemma_num_end_between(s, i + 1, j);
        }
        let k2 = lemma_fast_plain_segment(tab, s, m1, e);
        lemma_fast_run_compose(tab, s, m, 1, k2);
        assert(fast_run(tab, s, m, 1) == fast_run(tab, s, m1, 0));
        assert(fast_run(tab, s, m, 1 + k2) == fast_run(tab, s, m1, k2));
        assert(m1.out + s.subrange(i + 1, e) =~= m.out + inner + s.subrange(i, e));
        1 + k2
    };
    let ma = fast_run(tab, s, m, ka);
    assert(ma.pos == e && !ma.pending && ma.verdict is None && ma.prefix == inner);
    assert(ma.out == m.out + inner + s.subrange(i, e));
    let mb = fast_step(tab, s, ma);
    if s[e] == COMMA {
        assert(mb.pos == e + 1 && mb.pending && mb.verdict is None && mb.prefix == inner);
        assert(mb.out =~= m.out + inner + s.subrange(i, e) + seq![COMMA, NL]);
        let k3 = lemma_flat_scalars_fast(tab, s, outer, mb, e + 1);
        lemma_fast_run_compose(tab, s, m, ka + 1, k3);
        lemma_fast_run_compose(tab, s, m, ka, 1);
        assert(fast_run(tab, s, ma, 1) == fast_run(tab, s, mb, 0));
        assert(fast_run(tab, s, m, ka + 1) == mb);
        assert(fast_run(tab, s, m, ka + 1 + k3) == fast_run(tab, s, mb, k3));
        assert(fast_run(tab, s, mb, k3).out =~= m.out + flat_scalars_out(s, i, inner, outer));
        ka + 1 + k3
    } else {
        assert(s[e] == RBRACKET);
        assert(pop_prefix(inner, tab) =~= outer);
        assert(mb.pos == e + 1 && !mb.pending && mb.verdict is None);
        assert(mb.prefix =~= outer);
        assert(mb.out =~= m.out + inner + s.subrange(i, e) + seq![NL] + outer + seq![RBRACKET]);
        let mc = fast_step(tab, s, mb);
        assert(mc.verdict == Some(Ok::<(), JsonError>(())));
        assert(mc.out == mb.out && mc.prefix == mb.prefix);
        lemma_fast_run_compose(tab, s, m, ka, 2);
        assert(fast_run(tab, s, ma, 2) == fast_run(tab, s, mb, 1));
        assert(fast_run(tab, s, mb, 1) == fast_run(tab, s, mc, 0));
        assert(fast_run(tab, s, m, ka + 2) == mc);
        assert(mc.out =~= m.out + flat_scalars_out(s, i, inner, outer));
        ka + 2
    }
}

/// Law (flat arrays, grammar-driven): a flat array of scalar tokens —
/// numbers or strings — with commas and no whitespace formats as the
/// opening bracket, each token copied verbatim on its own line one unit
/// deeper, commas at line ends, and the closing bracket at the initial
/// indentation.
pub proof fn lemma_flat_scalar_array_format(tab: Seq<u8>, outer: Seq<u8>, s: Seq<u8>, n: nat)
    requires
        s.len() > 0,
        s[0] == LBRACKET,
        flat_scalars_from(s, 1),
        run(tab, s, init_machine(outer), n).verdict is Some,
    ensures
        run(tab, s, init_machine(outer), n).verdict == Some(Ok::<(), JsonError>(())),
        run(tab, s, init_machine(outer), n).out == seq![LBRACKET, NL] + flat_scalars_out(
            s,
            1,
            outer + tab,
            outer,
        ),
        run(tab, s, init_machine(outer), n).prefix == outer,
{
    let m0 = init_machine(outer);
    let m1 = step(tab, s, m0);
    assert(skip_ws_from(s, 0) == 0);
    assert(m0.stack.last() == State::Value);
    assert(m0.stack.drop_last() =~= Seq::<State>::empty());
    assert(m1.stack =~= seq![State::Array]);
    assert(m1.pos == 1 && m1.verdict is None && m1.prefix == outer + tab);
    assert(m1.out =~= seq![LBRACKET, NL]);
    let k = lemma_flat_scalars_grammar(tab, s, outer, m1, 1);
    lemma_run_compose(tab, s, m0, 1, k);
    assert(run(tab, s, m0, 1) == run(tab, s, m1, 0));
    assert(run(tab, s, m0, 1 + k) == run(tab, s, m1, k));
    assert(run(tab, s, m1, k).out =~= seq![LBRACKET, NL] + flat_scalars_out(
        s,
        1,
        outer + tab,
        outer,
    ));
    lemma_run_verdict_unique(tab, s, m0, n, 1 + k);
}

/// Law (flat arrays, single-pass): the single-pass machine emits exactly
/// the same rendering of a flat scalar array.
pub proof fn lemma_flat_scalar_array_fast(tab: Seq<u8>, outer: Seq<u8>, s: Seq<u8>, n: nat)
    requires
        s.len() > 0,
        s[0] == LBRACKET,
        flat_scalars_from(s, 1),
        fast_run(tab, s, fast_init(outer), n).verdict is Some,
    ensures
        fast_run(tab, s, fast_init(outer), n).verdict == Some(Ok::<(), JsonError>(())),
        fast_run(tab, s, fast_init(outer), n).out == seq![LBRACKET, NL] + flat_scalars_out(
            s,
            1,
            outer + tab,
            outer,
        ),
        fast_run(tab, s, fast_init(outer), n).prefix == outer,
{
    let m0 = fast_init(outer);
    let m1 = fast_step(tab, s, m0);
    assert(m1.pos == 1 && m1.pending && m1.verdict is None && m1.prefix == outer + tab);
    assert(m1.out =~= seq![LBRACKET, NL]);
    let k = lemma_flat_scalars_fast(tab, s, outer, m1, 1);
    lemma_fast_run_compose(tab, s, m0, 1, k);
    assert(fast_run(tab, s, m0, 1) == fast_run(tab, s, m1, 0));
    assert(fast_run(tab, s, m0, 1 + k) == fast_run(tab, s, m1, k));
    assert(fast_run(tab, s, m1, k).out =~= seq![LBRACKET, NL] + flat_scalars_out(
        s,
        1,
        outer + tab,
        outer,
    ));
    lemma_fast_run_verdict_unique(tab, s, m0, n, 1 + k);
}

/// Law (algorithm equivalence, flat arrays): on a flat array of number
/// and string tokens both machines succeed and emit identical bytes.
pub proof fn lemma_flat_scalar_array_equivalence(
    tab: Seq<u8>,
    outer: Seq<u8>,
    s: Seq<u8>,
    n1: nat,
    n2: nat,
)
    requires
        s.len() > 0,
        s[0] == LBRACKET,
        flat_scalars_from(s, 1),
        run(tab, s, init_machine(outer), n1).verdict is Some,
        fast_run(tab, s, fast_init(outer), n2).verdict is Some,
    ensures
        run(tab, s, init_machine(outer), n1).verdict == fast_run(
            tab,
            s,
            fast_init(outer),
            n2,
        ).verdict,
        run(tab, s, init_machine(outer), n1).out == fast_run(tab, s, fast_init(outer), n2).out,
{
    lemma_flat_scalar_array_format(tab, outer, s, n1);
    lemma_flat_scalar_array_fast(tab, outer, s, n2);
}

/// All whitespace from `i` up to `b`, and `b` the first non-whitespace
/// position: the whitespace skipper lands exactly on `b`.
proof fn lemma_skip_ws_to(s: Seq<u8>, i: int, b: int)
    requires
        0 <= i <= b <= s.len(),
        forall|j: int| i <= j < b ==> is_ws(#[trigger] s[j]),
        b < s.len() ==> !is_ws(s[b]),
    ensures
        skip_ws_from(s, i) == b,
    decreases b - i,
{
    if i < b {
        assert(is_ws(s[i]));
        lemma_skip_ws_to(s, i + 1, b);
    }
}

/// Every byte of the indentation unit is a space.
pub open spec fn all_spaces(tab: Seq<u8>) -> bool {
    forall|i: int| 0 <= i < tab.len() ==> tab[i] == SP
}

/// From position `q` the input continues in the formatters' own rendered
/// shape for a flat scalar array: one unit of indentation, one scalar
/// token, then either a comma ending the line and the same shape again,
/// or a newline and the closing bracket as the last byte of the input.
pub open spec fn rendered_tail(s: Seq<u8>, q: int, tab: Seq<u8>) -> bool
    decreases s.len() - q,
{
    if q < 0 || q + tab.len() > s.len() {
        false
    } else {
        let a = q + tab.len();
        s.subrange(q, a) == tab && match scalar_end(s, a) {
            None => false,
            Some(e) => a < e && e + 2 <= s.len() && (if s[e] == COMMA {
                s[e + 1] == NL && rendered_tail(s, e + 2, tab)
            } else {
                s[e] == NL && s[e + 1] == RBRACKET && e + 2 == s.len()
            }),
        }
    }
}

/// The grammar machine, standing on an `Array` frame with only whitespace
/// between it and a rendered tail, reproduces the tail's bytes verbatim
/// and finishes successfully.
proof fn lemma_rendered_grammar(tab: Seq<u8>, s: Seq<u8>, m: Machine, p: int, q: int) -> (k: nat)
    requires
        m.verdict is None,
        m.stack == seq![State::Array],
        m.pos == p,
        m.prefix == tab,
        all_spaces(tab),
        0 <= p <= q,
        forall|j: int| p <= j < q ==> is_ws(#[trigger] s[j]),
        rendered_tail(s, q, tab),
    ensures
        run(tab, s, m, k).verdict == Some(Ok::<(), JsonError>(())),
        run(tab, s, m, k).out == m.out + s.subrange(q, s.len() as int),
        run(tab, s, m, k).prefix == Seq::<u8>::empty(),
    decreases s.len() - p,
{
    let a = q + tab.len();
    let e = scalar_end(s, a).unwrap();
    assert(s.subrange(q, a) == tab);
    assert forall|j: int| p <= j < a implies is_ws(#[trigger] s[j]) by {
        if q <= j {
            assert(s.subrange(q, a)[j - q] == s[j]);
            assert(tab[j - q] == SP);
        }
    }
    assert(is_digit(s[a]) || s[a] == MINUS || s[a] == QUOTE);
    assert(!is_ws(s[a]));
    lemma_skip_ws_to(s, p, a);
    let m1 = step(tab, s, m);
    let m2 = step(tab, s, m1);
    let m3 = step(tab, s, m2);
    assert(m.stack.last() == State::Array);
    assert(m.stack.drop_last() =~= Seq::<State>::empty());
    assert(s[a] != RBRACKET);
    assert(m1.stack =~= seq![State::Elem, State::Value]);
    assert(m1.pos == a && m1.verdict is None && m1.prefix == tab);
    assert(m1.out =~= m.out + s.subrange(q, a));
    assert(m1.stack.last() == State::Value);
    assert(m1.stack.drop_last() =~= seq![State::Elem]);
    assert(m2.stack =~= seq![State::Elem]);
    assert(m2.pos == e && m2.verdict is None && m2.prefix == tab);
    assert(m2.out =~= m.out + s.subrange(q, e));
    assert(m2.stack.last() == State::Elem);
    assert(m2.stack.drop_last() =~= Seq::<State>::empty());
    assert(run(tab, s, m, 3) == run(tab, s, m1, 2));
    assert(run(tab, s, m1, 2) == run(tab, s, m2, 1));
    assert(run(tab, s, m2, 1) == run(tab, s, m3, 0));
    if s[e] == COMMA {
        assert(skip_ws_from(s, e) == e);
        assert(m3.stack =~= seq![State::Array]);
        assert(m3.pos == e + 1 && m3.verdict is None && m3.prefix == tab);
        assert(m3.out =~= m.out + s.subrange(q, e + 2));
        let k2 = lemma_rendered_grammar(tab, s, m3, e + 1, e + 2);
        lemma_run_compose(tab, s, m, 3, k2);
        assert(run(tab, s, m, 3 + k2) == run(tab, s, m3, k2));
        assert(run(tab, s, m3, k2).out =~= m.out + s.subrange(q, s.len() as int));
        3 + k2
    } else {
        assert(s[e] == NL && s[e + 1] == RBRACKET && e + 2 == s.len());
        lemma_skip_ws_to(s, e, e + 1);
        let m4 = step(tab, s, m3);
        let m5 = step(tab, s, m4);
        assert(m3.stack =~= seq![State::Array]);
        assert(m3.pos == e + 1 && m3.verdict is None && m3.prefix == tab);
        assert(m3.out =~= m.out + s.subrange(q, e) + seq![NL]);
        assert(m3.stack.last() == State::Array);
        assert(m3.stack.drop_last() =~= Seq::<State>::empty());
        assert(pop_prefix(tab, tab) =~= Seq::<u8>::empty());
        assert(m4.stack =~= Seq::<State>::empty());
        assert(m4.pos == e + 2 && m4.verdict is None);
        assert(m4.prefix =~= Seq::<u8>::empty());
        assert(m4.out =~= m.out + s.subrange(q, s.len() as int));
        assert(m5.verdict == Some(Ok::<(), JsonError>(())));
        assert(m5.out == m4.out && m5.prefix == m4.prefix);
        assert(run(tab, s, m3, 2) == run(tab, s, m4, 1));
        assert(run(tab, s, m4, 1) == run(tab, s, m5, 0));
        lemma_run_compose(tab, s, m, 3, 2);
        assert(run(tab, s, m, 5) == run(tab, s, m3, 2));
        5
    }
}

/// Law (idempotence, flat arrays): an input that is already in the
/// rendered shape of a flat scalar array — the opening bracket on its own
/// line, each scalar token on a line behind one unit of spaces, commas at
/// line ends, and the closing bracket as the last line at the initial
/// indentation — is reproduced byte for byte by the grammar-driven
/// formatter: the pretty-printed form is a fixed point.
pub proof fn lemma_rendered_array_fixed_point(tab: Seq<u8>, s: Seq<u8>, n: nat)
    requires
        all_spaces(tab),
        s.len() >= 2,
        s[0] == LBRACKET,
        s[1] == NL,
        rendered_tail(s, 2, tab),
        run(tab, s, init_machine(Seq::<u8>::empty()), n).verdict is Some,
    ensures
        run(tab, s, init_machine(Seq::<u8>::empty()), n).verdict == Some(Ok::<(), JsonError>(())),
        run(tab, s, init_machine(Seq::<u8>::empty()), n).out == s,
        run(tab, s, init_machine(Seq::<u8>::empty()), n).prefix == Seq::<u8>::empty(),
{
    let m0 = init_machine(Seq::<u8>::empty());
    let m1 = step(tab, s, m0);
    assert(skip_ws_from(s, 0) == 0);
    assert(m0.stack.last() == State::Value);
    assert(m0.stack.drop_last() =~= Seq::<State>::empty());
    assert(m1.stack =~= seq![State::Array]);
    assert(m1.pos == 1 && m1.verdict is None);
    assert(m1.prefix =~= tab);
    assert(m1.out =~= s.subrange(0, 2));
    let k = lemma_rendered_grammar(tab, s, m1, 1, 2);
    lemma_run_compose(tab, s, m0, 1, k);
    assert(run(tab, s, m0, 1) == run(tab, s, m1, 0));
    assert(run(tab, s, m0, 1 + k) == run(tab, s, m1, k));
    assert(run(tab, s, m1, k).out =~= s);
    lemma_run_verdict_unique(tab, s, m0, n, 1 + k);
}

/// The single-pass machine skips a whitespace span byte by byte, leaving
/// everything but the position unchanged.
proof fn lemma_fast_ws_span(tab: Seq<u8>, s: Seq<u8>, m: FastMachine, b: int) -> (k: nat)
    requires
        m.verdict is None,
        0 <= m.pos <= b <= s.len(),
        forall|j: int| m.pos <= j < b ==> is_ws(#[trigger] s[j]),
    ensures
        ({
            let mid = fast_run(tab, s, m, k);
            mid.pos == b && mid.pending == m.pending && mid.verdict is None && mid.prefix
                == m.prefix && mid.out == m.out
        }),
    decreases b - m.pos,
{
    if m.pos == b {
        0
    } else {
        let m1 = fast_step(tab, s, m);
        assert(is_ws(s[m.pos]));
        assert(m1.pos == m.pos + 1 && m1.pending == m.pending && m1.verdict is None);
        assert(m1.out == m.out && m1.prefix == m.prefix);
        let k2 = lemma_fast_ws_span(tab, s, m1, b);
        lemma_fast_run_compose(tab, s, m, 1, k2);
        assert(fast_run(tab, s, m, 1) == fast_run(tab, s, m1, 0));
        assert(fast_run(tab, s, m, 1 + k2) == fast_run(tab, s, m1, k2));
        1 + k2
    }
}

/// The single-pass machine, with a fresh line pending and only whitespace
/// between it and a rendered tail, reproduces the tail's bytes verbatim
/// and finishes successfully.
proof fn lemma_rendered_fast(tab: Seq<u8>, s: Seq<u8>, m: FastMachine, p: int, q: int) -> (k: nat)
    requires
        m.verdict is None,
        m.pending,
        m.pos == p,
        m.prefix == tab,
        all_spaces(tab),
        0 <= p <= q,
        forall|j: int| p <= j < q ==> is_ws(#[trigger] s[j]),
        rendered_tail(s, q, tab),
    ensures
        fast_run(tab, s, m, k).verdict == Some(Ok::<(), JsonError>(())),
        fast_run(tab, s, m, k).out == m.out + s.subrange(q, s.len() as int),
        fast_run(tab, s, m, k).prefix == Seq::<u8>::empty(),
    decreases s.len() - p,
{
    let a = q + tab.len();
    let e = scalar_end(s, a).unwrap();
    assert(s.subrange(q, a) == tab);
    assert forall|j: int| p <= j < a implies is_ws(#[trigger] s[j]) by {
        if q <= j {
            assert(s.subrange(q, a)[j - q] == s[j]);
            assert(tab[j - q] == SP);
        }
    }
    assert(is_digit(s[a]) || s[a] == MINUS || s[a] == QUOTE);
    // past the whitespace and the indentation unit, up to the token head
    let kw_span = lemma_fast_ws_span(tab, s, m, a);
    let ma = fast_run(tab, s, m, kw_span);
    assert(ma.pos == a && ma.pending && ma.verdict is None && ma.prefix == tab);
    assert(ma.out == m.out);
    // the token itself: one step for a string, one step per byte for a number
    let ka: nat = if s[a] == QUOTE {
        let mb = fast_step(tab, s, ma);
        assert(mb.pos == e && !mb.pending && mb.verdict is None && mb.prefix == tab);
        assert(mb.out =~= m.out + s.subrange(q, e));
        lemma_fast_run_compose(tab, s, m, kw_span, 1);
        assert(fast_run(tab, s, ma, 1) == fast_run(tab, s, mb, 0));
        kw_span + 1
    } else {
        let mb = fast_step(tab, s, ma);
        assert(mb.pos == a + 1 && !mb.pending && mb.verdict is None && mb.prefix == tab);
        assert(mb.out =~= m.out + s.subrange(q, a + 1));
        assert(e == num_end(s, a + 1));
        assert forall|j: int| a + 1 <= j < e implies is_plain(#[trigger] s[j]) by {
            lemma_num_end_between(s, a + 1, j);
        }
        let k2 = lemma_fast_plain_segment(tab, s, mb, e);
        lemma_fast_run_compose(tab, s, m, kw_span + 1, k2);
        lemma_fast_run_compose(tab, s, m, kw_span, 1);
        assert(fast_run(tab, s, ma, 1) == fast_run(tab, s, mb, 0));
        assert(fast_run(tab, s, m, kw_span + 1) == mb);
        assert(fast_run(tab, s, m, kw_span + 1 + k2) == fast_run(tab, s, mb, k2));
        assert(mb.out + s.subrange(a + 1, e) =~= m.out + s.subrange(q, e));
        kw_span + 1 + k2
    };
    let mt = fast_run(tab, s, m, ka);
    assert(mt.pos == e && !mt.pending && mt.verdict is None && mt.prefix == tab);
    assert(mt.out == m.out + s.subrange(q, e));
    let mu = fast_step(tab, s, mt);
    if s[e] == COMMA {
        assert(mu.pos == e + 1 && mu.pending && mu.verdict is None && mu.prefix == tab);
        assert(mu.out =~= m.out + s.subrange(q, e + 2));
        let k3 = lemma_rendered_fast(tab, s, mu, e + 1, e + 2);
        lemma_fast_run_compose(tab, s, m, ka + 1, k3);
        lemma_fast_run_compose(tab, s, m, ka, 1);
        assert(fast_run(tab, s, mt, 1) == fast_run(tab, s, mu, 0));
        assert(fast_run(tab, s, m, ka + 1) == mu);
        assert(fast_run(tab, s, m, ka + 1 + k3) == fast_run(tab, s, mu, k3));
        assert(fast_run(tab, s, mu, k3).out =~= m.out + s.subrange(q, s.len() as int));
        ka + 1 + k3
    } else {
        assert(s[e] == NL && s[e + 1] == RBRACKET && e + 2 == s.len());
        let mv = fast_step(tab, s, mu);
        let mw = fast_step(tab, s, mv);
        assert(mu.pos == e + 1 && !mu.pending && mu.verdict is None && mu.prefix == tab);
        assert(mu.out == mt.out);
        assert(pop_prefix(tab, tab) =~= Seq::<u8>::empty());
        assert(mv.pos == e + 2 && !mv.pending && mv.verdict is None);
        assert(mv.prefix =~= Seq::<u8>::empty());
        assert(mv.out =~= m.out + s.subrange(q, s.len() as int));
        assert(mw.verdict == Some(Ok::<(), JsonError>(())));
        assert(mw.out == mv.out && mw.prefix == mv.prefix);
        lemma_fast_run_compose(tab, s, m, ka, 3);
        assert(fast_run(tab, s, mt, 3) == fast_run(tab, s, mu, 2));
        assert(fast_run(tab, s, mu, 2) == fast_run(tab, s, mv, 1));
        assert(fast_run(tab, s, mv, 1) == fast_run(tab, s, mw, 0));
        ka + 3
    }
}

/// Law (idempotence, flat arrays, single-pass): the rendered shape of a
/// flat scalar array is a fixed point of the single-pass formatter too.
pub proof fn lemma_rendered_array_fixed_point_fast(tab: Seq<u8>, s: Seq<u8>, n: nat)
    requires
        all_spaces(tab),
        s.len() >= 2,
        s[0] == LBRACKET,
        s[1] == NL,
        rendered_tail(s, 2, tab),
        fast_run(tab, s, fast_init(Seq::<u8>::empty()), n).verdict is Some,
    ensures
        fast_run(tab, s, fast_init(Seq::<u8>::empty()), n).verdict == Some(
            Ok::<(), JsonError>(()),
        ),
        fast_run(tab, s, fast_init(Seq::<u8>::empty()), n).out == s,
        fast_run(tab, s, fast_init(Seq::<u8>::empty()), n).prefix == Seq::<u8>::empty(),
{
    let m0 = fast_init(Seq::<u8>::empty());
    let m1 = fast_step(tab, s, m0);
    assert(m1.pos == 1 && m1.pending && m1.verdict is None);
    assert(m1.prefix =~= tab);
    assert(m1.out =~= s.subrange(0, 2));
    let k = lemma_rendered_fast(tab, s, m1, 1, 2);
    lemma_fast_run_compose(tab, s, m0, 1, k);
    assert(fast_run(tab, s, m0, 1) == fast_run(tab, s, m1, 0));
    assert(fast_run(tab, s, m0, 1 + k) == fast_run(tab, s, m1, k));
    assert(fast_run(tab, s, m1, k).out =~= s);
    lemma_fast_run_verdict_unique(tab, s, m0, n, 1 + k);
}

/// A stretch of number-class bytes ending at the first byte outside the
/// class scans exactly to that boundary.
proof fn lemma_num_end_at(u: Seq<u8>, j: int, b: int)
    requires
        0 <= j <= b <= u.len(),
        forall|x: int| j <= x < b ==> is_num_byte(#[trigger] u[x]),
        b < u.len() ==> !is_num_byte(u[b]),
    ensures
        num_end(u, j) == b,
    decreases b - j,
{
    if j < b {
        assert(is_num_byte(u[j]));
        lemma_num_end_at(u, j + 1, b);
    }
}

/// A successful string scan ends past its start and within the input.
proof fn lemma_str_scan_bounds(s: Seq<u8>, j: int, esc: bool)
    requires
        str_scan(s, j, esc) is Some,
    ensures
        j < str_scan(s, j, esc).unwrap() <= s.len(),
    decreases s.len() - j,
{
    if !(j < 0 || j >= s.len()) && !(s[j] == QUOTE && !esc) {
        lemma_str_scan_bounds(s, j + 1, s[j] == BACKSLASH && !esc);
    }
}

/// A string token embedded byte for byte at an offset `d` in another
/// sequence scans to the shifted end: the scan reads only the token's own
/// bytes.
proof fn lemma_str_scan_embed(s: Seq<u8>, u: Seq<u8>, d: int, j: int, esc: bool)
    requires
        0 <= j + d,
        str_scan(s, j, esc) is Some,
        str_scan(s, j, esc).unwrap() + d <= u.len(),
        forall|x: int| j <= x < str_scan(s, j, esc).unwrap() ==> u[#[trigger] (x + d)] == s[x],
    ensures
        str_scan(u, j + d, esc) == Some(str_scan(s, j, esc).unwrap() + d),
    decreases s.len() - j,
{
    lemma_str_scan_bounds(s, j, esc);
    let e = str_scan(s, j, esc).unwrap();
    assert(0 <= j < s.len());
    assert(u[j + d] == s[j]);
    if s[j] == QUOTE && !esc {
        assert(e == j + 1);
        assert(str_scan(u, j + d, esc) == Some(j + d + 1));
    } else {
        lemma_str_scan_embed(s, u, d, j + 1, s[j] == BACKSLASH && !esc);
        assert(str_scan(s, j, esc) == str_scan(s, j + 1, s[j] == BACKSLASH && !esc));
        assert(str_scan(u, j + d, esc) == str_scan(u, j + 1 + d, s[j] == BACKSLASH && !esc));
    }
}

/// The bytes that the flat-array law says the formatters emit are
/// themselves in the rendered shape: the output's tail from `q` spells a
/// rendered tail.
proof fn lemma_flat_out_rendered(tab: Seq<u8>, s: Seq<u8>, i: int, u: Seq<u8>, q: int)
    requires
        flat_scalars_from(s, i),
        0 <= q <= u.len(),
        u.subrange(q, u.len() as int) == flat_scalars_out(s, i, tab, Seq::<u8>::empty()),
    ensures
        rendered_tail(u, q, tab),
    decreases s.len() - i,
{
    let es = scalar_end(s, i).unwrap();
    let tl = es - i;
    let fo = flat_scalars_out(s, i, tab, Seq::<u8>::empty());
    let a = q + tab.len();
    let eu = a + tl;
    assert forall|y: int| 0 <= y < u.len() - q implies u[#[trigger] (q + y)] == fo[y] by {
        assert(u.subrange(q, u.len() as int)[y] == fo[y]);
    }
    if s[es] == COMMA {
        let rest = flat_scalars_out(s, es + 1, tab, Seq::<u8>::empty());
        assert(fo =~= tab + s.subrange(i, es) + seq![COMMA, NL] + rest);
        assert(u.len() - q == tab.len() + tl + 2 + rest.len());
        assert(u.subrange(q, a) =~= tab);
        assert forall|y: int| 0 <= y < tl implies u[#[trigger] (a + y)] == s[i + y] by {
            assert(u[q + (tab.len() + y)] == fo[tab.len() + y]);
        }
        let sep = tab.len() + tl;
        assert(u[q + sep] == fo[sep] && u[q + (sep + 1)] == fo[sep + 1]);
        assert(fo[sep] == COMMA && fo[sep + 1] == NL);
        assert(eu == q + sep);
        assert(u[eu] == COMMA && u[eu + 1] == NL);
        if is_digit(s[i]) || s[i] == MINUS {
            assert(u[a] == s[i]);
            assert forall|x: int| a + 1 <= x < eu implies is_num_byte(#[trigger] u[x]) by {
                lemma_num_end_between(s, i + 1, i + (x - a));
                assert(u[a + (x - a)] == s[i + (x - a)]);
            }
            lemma_num_end_at(u, a + 1, eu);
            assert(scalar_end(u, a) == Some(eu));
        } else {
            assert(s[i] == QUOTE && u[a] == QUOTE);
            assert(str_scan(s, i + 1, false) == Some(es));
            assert forall|x: int| i + 1 <= x < es implies u[#[trigger] (x + (a - i))] == s[x] by {
                assert(u[a + (x - i)] == s[i + (x - i)]);
            }
            lemma_str_scan_embed(s, u, a - i, i + 1, false);
            assert(scalar_end(u, a) == Some(eu));
        }
        assert forall|y: int| 0 <= y < rest.len() implies u.subrange(eu + 2, u.len() as int)[y]
            == rest[y] by {
            assert(u[q + (tab.len() + tl + 2 + y)] == fo[tab.len() + tl + 2 + y]);
            assert(fo[tab.len() + tl + 2 + y] == rest[y]);
        }
        assert(u.subrange(eu + 2, u.len() as int) =~= rest);
        lemma_flat_out_rendered(tab, s, es + 1, u, eu + 2);
        assert(rendered_tail(u, q, tab));
    } else {
        assert(fo =~= tab + s.subrange(i, es) + seq![NL] + Seq::<u8>::empty() + seq![RBRACKET]);
        assert(u.len() - q == tab.len() + tl + 2);
        assert(u.subrange(q, a) =~= tab);
        assert forall|y: int| 0 <= y < tl implies u[#[trigger] (a + y)] == s[i + y] by {
            assert(u[q + (tab.len() + y)] == fo[tab.len() + y]);
        }
        let sep = tab.len() + tl;
        assert(u[q + sep] == fo[sep] && u[q + (sep + 1)] == fo[sep + 1]);
        assert(fo[sep] == NL && fo[sep + 1] == RBRACKET);
        assert(eu == q + sep);
        assert(u[eu] == NL && u[eu + 1] == RBRACKET && eu + 2 == u.len());
        if is_digit(s[i]) || s[i] == MINUS {
            assert(u[a] == s[i]);
            assert forall|x: int| a + 1 <= x < eu implies is_num_byte(#[trigger] u[x]) by {
                lemma_num_end_between(s, i + 1, i + (x - a));
                assert(u[a + (x - a)] == s[i + (x - a)]);
            }
            lemma_num_end_at(u, a + 1, eu);
            assert(scalar_end(u, a) == Some(eu));
        } else {
            assert(s[i] == QUOTE && u[a] == QUOTE);
            assert(str_scan(s, i + 1, false) == Some(es));
            assert forall|x: int| i + 1 <= x < es implies u[#[trigger] (x + (a - i))] == s[x] by {
                assert(u[a + (x - i)] == s[i + (x - i)]);
            }
            lemma_str_scan_embed(s, u, a - i, i + 1, false);
            assert(scalar_end(u, a) == Some(eu));
        }
        assert(rendered_tail(u, q, tab));
    }
}

/// Law (idempotence, flat arrays, grammar-driven): formatting a flat
/// scalar array twice gives the bytes of formatting it once — the output
/// of the first call is in the rendered shape, which is a fixed point.
pub proof fn lemma_flat_scalar_array_idempotent(tab: Seq<u8>, s: Seq<u8>, n1: nat, n2: nat)
    requires
        all_spaces(tab),
        s.len() > 0,
        s[0] == LBRACKET,
        flat_scalars_from(s, 1),
        run(tab, s, init_machine(Seq::<u8>::empty()), n1).verdict is Some,
        run(
            tab,
            run(tab, s, init_machine(Seq::<u8>::empty()), n1).out,
            init_machine(Seq::<u8>::empty()),
            n2,
        ).verdict is Some,
    ensures
        run(
            tab,
            run(tab, s, init_machine(Seq::<u8>::empty()), n1).out,
            init_machine(Seq::<u8>::empty()),
            n2,
        ).verdict == Some(Ok::<(), JsonError>(())),
        run(
            tab,
            run(tab, s, init_machine(Seq::<u8>::empty()), n1).out,
            init_machine(Seq::<u8>::empty()),
            n2,
        ).out == run(tab, s, init_machine(Seq::<u8>::empty()), n1).out,
{
    lemma_flat_scalar_array_format(tab, Seq::<u8>::empty(), s, n1);
    let o = run(tab, s, init_machine(Seq::<u8>::empty()), n1).out;
    assert(Seq::<u8>::empty() + tab =~= tab);
    assert(o == seq![LBRACKET, NL] + flat_scalars_out(s, 1, tab, Seq::<u8>::empty()));
    assert(o[0] == LBRACKET && o[1] == NL);
    assert(o.subrange(2, o.len() as int) =~= flat_scalars_out(s, 1, tab, Seq::<u8>::empty()));
    lemma_flat_out_rendered(tab, s, 1, o, 2);
    lemma_rendered_array_fixed_point(tab, o, n2);
}

/// Law (idempotence, flat arrays, single-pass): the single-pass formatter
/// reproduces its own rendering of a flat scalar array the same way.
pub proof fn lemma_flat_scalar_array_idempotent_fast(tab: Seq<u8>, s: Seq<u8>, n1: nat, n2: nat)
    requires
        all_spaces(tab),
        s.len() > 0,
        s[0] == LBRACKET,
        flat_scalars_from(s, 1),
        fast_run(tab, s, fast_init(Seq::<u8>::empty()), n1).verdict is Some,
        fast_run(
            tab,
            fast_run(tab, s, fast_init(Seq::<u8>::empty()), n1).out,
            fast_init(Seq::<u8>::empty()),
            n2,
        ).verdict is Some,
    ensures
        fast_run(
            tab,
            fast_run(tab, s, fast_init(Seq::<u8>::empty()), n1).out,
            fast_init(Seq::<u8>::empty()),
            n2,
        ).verdict == Some(Ok::<(), JsonError>(())),
        fast_run(
            tab,
            fast_run(tab, s, fast_init(Seq::<u8>::empty()), n1).out,
            fast_init(Seq::<u8>::empty()),
            n2,
        ).out == fast_run(tab, s, fast_init(Seq::<u8>::empty()), n1).out,
{
    lemma_flat_scalar_array_fast(tab, Seq::<u8>::empty(), s, n1);
    let o = fast_run(tab, s, fast_init(Seq::<u8>::empty()), n1).out;
    assert(Seq::<u8>::empty() + tab =~= tab);
    assert(o == seq![LBRACKET, NL] + flat_scalars_out(s, 1, tab, Seq::<u8>::empty()));
    assert(o[0] == LBRACKET && o[1] == NL);
    assert(o.subrange(2, o.len() as int) =~= flat_scalars_out(s, 1, tab, Seq::<u8>::empty()));
    lemma_flat_out_rendered(tab, s, 1, o, 2);
    lemma_rendered_array_fixed_point_fast(tab, o, n2);
}

/// Law: an empty object with any insignificant whitespace between its
/// braces renders as its opening brace and a newline, then the closing
/// brace at the surrounding indentation — and both machines emit exactly
/// these bytes, so the two algorithms agree on such input.
pub proof fn lemma_spaced_empty_object(tab: Seq<u8>, outer: Seq<u8>, s: Seq<u8>, n1: nat, n2: nat)
    requires
        s.len() >= 2,
        s[0] == LBRACE,
        s[s.len() - 1] == RBRACE,
        forall|j: int| 1 <= j < s.len() - 1 ==> is_ws(#[trigger] s[j]),
        run(tab, s, init_machine(outer), n1).verdict is Some,
        fast_run(tab, s, fast_init(outer), n2).verdict is Some,
    ensures
        run(tab, s, init_machine(outer), n1).verdict == Some(Ok::<(), JsonError>(())),
        run(tab, s, init_machine(outer), n1).out == seq![LBRACE, NL] + outer + seq![RBRACE],
        fast_run(tab, s, fast_init(outer), n2).verdict == Some(Ok::<(), JsonError>(())),
        fast_run(tab, s, fast_init(outer), n2).out == run(tab, s, init_machine(outer), n1).out,
{
    let b = s.len() - 1;
    let m0 = init_machine(outer);
    let m1 = step(tab, s, m0);
    let m2 = step(tab, s, m1);
    let m3 = step(tab, s, m2);
    assert(skip_ws_from(s, 0) == 0);
    assert(m0.stack.last() == State::Value);
    assert(m0.stack.drop_last() =~= Seq::<State>::empty());
    assert(m1.stack =~= seq![State::Object]);
    assert(m1.out =~= seq![LBRACE, NL]);
    assert(m1.pos == 1 && m1.prefix == outer + tab && m1.verdict is None);
    lemma_skip_ws_to(s, 1, b);
    assert(m1.stack.last() == State::Object);
    assert(m1.stack.drop_last() =~= Seq::<State>::empty());
    assert(pop_prefix(outer + tab, tab) =~= outer);
    assert(m2.stack =~= Seq::<State>::empty());
    assert(m2.out =~= seq![LBRACE, NL] + outer + seq![RBRACE]);
    assert(m2.prefix =~= outer && m2.verdict is None);
    assert(m3.verdict == Some(Ok::<(), JsonError>(())));
    assert(m3.out == m2.out);
    assert(run(tab, s, m0, 3) == run(tab, s, m1, 2));
    assert(run(tab, s, m1, 2) == run(tab, s, m2, 1));
    assert(run(tab, s, m2, 1) == run(tab, s, m3, 0));
    lemma_run_verdict_unique(tab, s, m0, n1, 3);
    let f0 = fast_init(outer);
    let f1 = fast_step(tab, s, f0);
    assert(f1.pos == 1 && f1.pending && f1.verdict is None && f1.prefix == outer + tab);
    assert(f1.out =~= seq![LBRACE, NL]);
    let kw_span = lemma_fast_ws_span(tab, s, f1, b);
    let fw = fast_run(tab, s, f1, kw_span);
    assert(fw.pos == b && fw.pending && fw.verdict is None && fw.prefix == outer + tab);
    assert(fw.out == f1.out);
    let fb = fast_step(tab, s, fw);
    assert(fb.pos == s.len() && fb.verdict is None);
    assert(fb.out =~= seq![LBRACE, NL] + outer + seq![RBRACE]);
    let fc = fast_step(tab, s, fb);
    assert(fc.verdict == Some(Ok::<(), JsonError>(())));
    assert(fc.out == fb.out);
    lemma_fast_run_compose(tab, s, f0, 1, kw_span);
    assert(fast_run(tab, s, f0, 1) == fast_run(tab, s, f1, 0));
    assert(fast_run(tab, s, f0, 1 + kw_span) == fw);
    lemma_fast_run_compose(tab, s, f0, 1 + kw_span, 2);
    assert(fast_run(tab, s, fw, 2) == fast_run(tab, s, fb, 1));
    assert(fast_run(tab, s, fb, 1) == fast_run(tab, s, fc, 0));
    lemma_fast_run_verdict_unique(tab, s, f0, n2, 1 + kw_span + 2);
}

} // verus!
