//! The byte cursor and the token copiers: a peek over the input, the
//! whitespace skipper, and the three scanners that each consume exactly one
//! token and write its raw bytes to the sink verbatim.

use vstd::prelude::*;

use crate::model::is_num_byte;
use crate::model::BACKSLASH;
use crate::model::D0;
use crate::model::D9;
use crate::model::DOT;
use crate::model::LOW_E;
use crate::model::MINUS;
use crate::model::PLUS;
use crate::model::UP_E;
use crate::model::CR;
use crate::model::HT;
use crate::model::NL;
use crate::model::QUOTE;
use crate::model::SP;
use crate::model::is_ws;
use crate::model::lit_result;
use crate::model::mismatch_from;
use crate::model::num_end;
use crate::model::skip_ws_from;
use crate::model::str_scan;
use crate::model::JsonError;

verus! {

/// The next unconsumed byte, or `None` at end of input.  An explicit
/// option, never a sentinel byte: a NUL byte inside a string literal must
/// stay distinguishable from end of input.
pub fn peek_char(input: &[u8], pos: usize) -> (r: Option<u8>)
    requires
        pos <= input@.len(),
    ensures
        r == (if pos < input@.len() {
            Some(input@[pos as int])
        } else {
            None::<u8>
        }),
{
    if pos < input.len() {
        Some(input[pos])
    } else {
        None
    }
}

/// Advance the cursor past insignificant whitespace; stops at the first
/// other byte or at end of input.  Nothing is written: skipped whitespace
/// is discarded.
pub fn skip_whitespace(input: &[u8], pos: &mut usize)
    requires
        *old(pos) <= input@.len(),
    ensures
        *final(pos) == skip_ws_from(input@, *old(pos) as int),
        *old(pos) <= *final(pos) <= input@.len(),
{
    let ghost start = *pos as int;
    while *pos < input.len() && (input[*pos] == SP || input[*pos] == HT || input[*pos]
        == NL || input[*pos] == CR)
        invariant
            start <= *pos as int <= input@.len(),
            skip_ws_from(input@, start) == skip_ws_from(input@, *pos as int),
        decreases input@.len() - *pos,
    {
        *pos = *pos + 1;
    }
    proof {
        assert(!(*pos < input@.len() && is_ws(input@[*pos as int])));
        assert(skip_ws_from(input@, *pos as int) == *pos as int);
    }
}



/// The string copier.  The cursor must stand on the opening quote; the
/// quote and every following byte are copied verbatim until the first
/// unescaped closing quote, which is copied and consumed too.  A quote is
/// escaped exactly when the byte before it is an unpaired backslash, so an
/// escaped backslash followed by a quote terminates the token.  Escape
/// sequences are not validated; bytes pass through opaquely.  If the input
/// ends before a terminating quote, the bytes read so far stand in the
/// sink and the call fails with an end-of-stream error.
#[verifier::loop_isolation(false)]
pub fn write_string(w: &mut Vec<u8>, input: &[u8], pos: &mut usize) -> (r: Result<(), JsonError>)
    requires
        *old(pos) < input@.len(),
        input@[*old(pos) as int] == QUOTE,
    ensures
        match str_scan(input@, *old(pos) + 1, false) {
            Some(e) => r == Ok::<(), JsonError>(()) && *final(pos) == e && *old(pos) < e
                <= input@.len() && final(w)@ == old(w)@ + input@.subrange(*old(pos) as int, e),
            None => r == Err::<(), JsonError>(JsonError::UnexpectedEof) && *final(pos)
                == input@.len() && final(w)@ == old(w)@ + input@.subrange(
                *old(pos) as int,
                input@.len() as int,
            ),
        },
{
    let ghost base = w@;
    let ghost start = *pos as int;
    let c0 = input[*pos];
    w.push(c0);
    *pos = *pos + 1;
    let mut esc = false;
    proof {
        assert(w@ =~= base + input@.subrange(start, *pos as int));
    }
    loop
        invariant
            start + 1 <= *pos as int <= input@.len(),
            w@ == base + input@.subrange(start, *pos as int),
            str_scan(input@, start + 1, false) == str_scan(input@, *pos as int, esc),
        decreases input@.len() - *pos,
    {
        if *pos >= input.len() {
            return Err(JsonError::UnexpectedEof);
        }
        let c = input[*pos];
        w.push(c);
        *pos = *pos + 1;
        proof {
            assert(w@ =~= base + input@.subrange(start, *pos as int));
        }
        if c == QUOTE && !esc {
            return Ok(());
        }
        esc = c == BACKSLASH && !esc;
    }
}

/// The number copier.  The byte under the cursor is consumed and copied
/// unconditionally; after it, every byte in the number class (digits,
/// signs, decimal point, exponent letters) is consumed and copied, and the
/// first byte outside the class stops the scan.  End of input is not an
/// error here: a number may be the last token of the stream.  No numeric
/// format is validated; the bytes pass through unchanged.
#[verifier::loop_isolation(false)]
pub fn write_number(w: &mut Vec<u8>, input: &[u8], pos: &mut usize)
    requires
        *old(pos) < input@.len(),
    ensures
        *final(pos) == num_end(input@, *old(pos) + 1),
        final(w)@ == old(w)@ + input@.subrange(*old(pos) as int, *final(pos) as int),
        *old(pos) < *final(pos) <= input@.len(),
{
    let ghost base = w@;
    let ghost start = *pos as int;
    let c0 = input[*pos];
    w.push(c0);
    *pos = *pos + 1;
    proof {
        assert(w@ =~= base + input@.subrange(start, *pos as int));
    }
    while *pos < input.len() && (input[*pos] >= D0 && input[*pos] <= D9 || input[*pos] == MINUS
        || input[*pos] == PLUS || input[*pos] == DOT || input[*pos] == LOW_E || input[*pos]
        == UP_E)
        invariant
            start + 1 <= *pos as int <= input@.len(),
            w@ == base + input@.subrange(start, *pos as int),
            num_end(input@, start + 1) == num_end(input@, *pos as int),
        decreases input@.len() - *pos,
    {
        let c = input[*pos];
        w.push(c);
        *pos = *pos + 1;
        proof {
            assert(w@ =~= base + input@.subrange(start, *pos as int));
        }
    }
    proof {
        assert(!(*pos < input@.len() && is_num_byte(input@[*pos as int])));
        assert(num_end(input@, *pos as int) == *pos as int);
    }
}

/// The literal-keyword matcher.  Exactly `expect.len()` bytes are read
/// from the cursor and consumed; when they spell `expect`, the expected
/// spelling is written.  A differing byte aborts with a literal mismatch
/// carrying the first differing input byte, the comparison bytes staying
/// consumed; nothing is written then.  An input too short for the
/// comparison aborts with an end-of-stream error before anything is read,
/// the cursor standing where it stood and nothing written.
#[verifier::loop_isolation(false)]
pub fn write_expected(w: &mut Vec<u8>, input: &[u8], pos: &mut usize, expect: &[u8]) -> (r:
    Result<(), JsonError>)
    requires
        *old(pos) <= input@.len(),
    ensures
        r == lit_result(input@, *old(pos) as int, expect@),
        r is Ok ==> *final(pos) == *old(pos) + expect@.len() && final(w)@ == old(w)@ + expect@,
        r is Err ==> final(w)@ == old(w)@,
        *final(pos) == (if r == Err::<(), JsonError>(JsonError::UnexpectedEof) {
            *old(pos)
        } else {
            (*old(pos) + expect@.len()) as usize
        }),
{
    let ghost s = input@;
    let ghost p = *pos as int;
    if input.len() - *pos < expect.len() {
        return Err(JsonError::UnexpectedEof);
    }
    let mut j: usize = 0;
    while j < expect.len()
        invariant
            j <= expect@.len(),
            *pos as int == p,
            p + expect@.len() <= s.len(),
            s == input@,
            mismatch_from(s, p, expect@, 0) == mismatch_from(s, p, expect@, j as int),
        decreases expect@.len() - j,
    {
        if input[*pos + j] != expect[j] {
            proof {
                assert(mismatch_from(s, p, expect@, j as int) == j as int);
            }
            let c = input[*pos + j];
            *pos = *pos + expect.len();
            return Err(JsonError::LiteralMismatch(c));
        }
        j = j + 1;
    }
    proof {
        assert(mismatch_from(s, p, expect@, 0) == expect@.len());
    }
    let ghost base = w@;
    let mut k: usize = 0;
    while k < expect.len()
        invariant
            k <= expect@.len(),
            w@ == base + expect@.take(k as int),
        decreases expect@.len() - k,
    {
        let c = expect[k];
        w.push(c);
        k = k + 1;
        proof {
            assert(w@ =~= base + expect@.take(k as int));
        }
    }
    proof {
        assert(w@ =~= base + expect@);
    }
    *pos = *pos + expect.len();
    Ok(())
}

} // verus!
