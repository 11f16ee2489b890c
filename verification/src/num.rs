//! Decimal integer literals: the exact meaning of the id arguments
//! the dispatcher reads, and a verified parser for them.

use vstd::prelude::*;
use crate::store::Error;

verus! {

/// Is `c` an ASCII decimal digit?
pub open spec fn is_digit(c: char) -> bool {
    48 <= c as int <= 57
}

/// The numeric value of a digit character.
pub open spec fn digit_val(c: char) -> int {
    c as int - 48
}

pub open spec fn all_digits(s: Seq<char>) -> bool {
    forall|i: int| 0 <= i < s.len() ==> is_digit(#[trigger] s[i])
}

/// The value of a digit string, most significant digit first.
pub open spec fn digits_val(s: Seq<char>) -> int
    decreases s.len(),
{
    if s.len() == 0 {
        0
    } else {
        digits_val(s.drop_last()) * 10 + digit_val(s.last())
    }
}

/// The digits of an integer literal, the optional leading sign
/// stripped.
pub open spec fn int_body(s: Seq<char>) -> Seq<char> {
    if s.len() > 0 && (s[0] == '+' || s[0] == '-') {
        s.drop_first()
    } else {
        s
    }
}

pub open spec fn int_sign(s: Seq<char>) -> int {
    if s.len() > 0 && s[0] == '-' {
        -1
    } else {
        1
    }
}

/// A decimal integer literal: an optional `+` or `-` sign followed by
/// at least one digit and nothing else.
pub open spec fn is_int_literal(s: Seq<char>) -> bool {
    int_body(s).len() > 0 && all_digits(int_body(s))
}

/// The mathematical value of an integer literal.
pub open spec fn int_value(s: Seq<char>) -> int {
    int_sign(s) * digits_val(int_body(s))
}

pub proof fn lemma_digits_val_nonneg(s: Seq<char>)
    requires
        all_digits(s),
    ensures
        digits_val(s) >= 0,
    decreases s.len(),
{
    if s.len() > 0 {
        assert(forall|i: int| 0 <= i < s.drop_last().len() ==> is_digit(
            #[trigger] s.drop_last()[i],
        ));
        lemma_digits_val_nonneg(s.drop_last());
    }
}

/// A digit string is worth at least any of its prefixes: appending
/// digits never shrinks the value.
pub proof fn lemma_digits_val_prefix(s: Seq<char>, k: int)
    requires
        all_digits(s),
        0 <= k <= s.len(),
    ensures
        digits_val(s.take(k)) <= digits_val(s),
    decreases s.len() - k,
{
    if k < s.len() {
        lemma_digits_val_prefix(s, k + 1);
        let t = s.take(k + 1);
        assert(t.drop_last() =~= s.take(k));
        assert(digits_val(t) == digits_val(s.take(k)) * 10 + digit_val(s[k]));
        assert(forall|i: int| 0 <= i < s.take(k).len() ==> is_digit(#[trigger] s.take(k)[i]));
        lemma_digits_val_nonneg(s.take(k));
    } else {
        assert(s.take(k) =~= s);
    }
}

/// Parse a decimal integer the way the id arguments demand: an
/// optional sign, then digits only, and a value that fits the id
/// type.  Anything else is a `Parse` error.
pub fn parse_i32(s: &str) -> (r: Result<i32, Error>)
    ensures
        match r {
            Ok(n) => is_int_literal(s@) && int_value(s@) == n,
            Err(e) => e == Error::Parse && !(is_int_literal(s@) && i32::MIN <= int_value(s@)
                <= i32::MAX),
        },
{
    let len = s.unicode_len();
    let mut start: usize = 0;
    let mut neg = false;
    if len > 0 {
        let c0 = s.get_char(0);
        if c0 == '+' || c0 == '-' {
            start = 1;
            neg = c0 == '-';
        }
    }
    let ghost body = int_body(s@);
    proof {
        assert(body =~= s@.subrange(start as int, len as int));
    }
    if start >= len {
        return Err(Error::Parse);
    }
    let mut acc: u64 = 0;
    let mut i: usize = start;
    while i < len
        invariant
            start <= i <= len,
            len == s@.len(),
            start <= 1,
            body == s@.subrange(start as int, len as int),
            body == int_body(s@),
            neg ==> int_sign(s@) == -1,
            !neg ==> int_sign(s@) == 1,
            all_digits(body.take(i - start)),
            acc == digits_val(body.take(i - start)),
            acc <= 2147483648,
        decreases len - i,
    {
        let c = s.get_char(i);
        let d = c as u32;
        if d < 48 || d > 57 {
            proof {
                assert(body[i - start] == c);
                assert(!is_digit(c));
            }
            return Err(Error::Parse);
        }
        acc = acc * 10 + ((d - 48) as u64);
        proof {
            let k = i - start;
            let t = body.take(k + 1);
            assert(t.drop_last() =~= body.take(k as int));
            assert(t.last() == body[k as int]);
            assert(body[k as int] == c);
        }
        i += 1;
        if acc > 2147483648 {
            proof {
                if is_int_literal(s@) {
                    lemma_digits_val_prefix(body, i - start);
                }
            }
            return Err(Error::Parse);
        }
    }
    proof {
        assert(body.take(len - start) =~= body);
    }
    if neg {
        Ok((-(acc as i64)) as i32)
    } else {
        if acc > 2147483647 {
            return Err(Error::Parse);
        }
        Ok(acc as i32)
    }
}

} // verus!
