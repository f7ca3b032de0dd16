//! Validation of operator-entered amounts.
//!
//! The prompt loop hands each entered line to [`parse_amount`], which
//! accepts exactly the non-negative whole numbers that fit the ledger's
//! `u64` quantities and costs, and rejects everything else — in
//! particular anything negative or non-numeric.

use vstd::prelude::*;
use crate::text::chars_of_str;

verus! {

/// The entered text was not a non-negative whole number the ledger can hold.
#[derive(Clone, Copy, Debug, PartialEq, Eq, Structural)]
pub struct ParseError;

/// A decimal digit.
pub open spec fn is_digit(c: char) -> bool {
    '0' <= c && c <= '9'
}

/// The numeric value of a decimal digit.
pub open spec fn digit_val(c: char) -> int {
    c as int - '0' as int
}

/// Whether every character is a decimal digit.
pub open spec fn all_digits(s: Seq<char>) -> bool {
    forall|i: int| 0 <= i < s.len() ==> is_digit(s[i])
}

/// The number the digit string denotes, most significant digit first.
pub open spec fn digits_value(s: Seq<char>) -> int
    decreases s.len(),
{
    if s.len() == 0 {
        0
    } else {
        digits_value(s.drop_last()) * 10 + digit_val(s.last())
    }
}

/// The texts [`parse_amount`] accepts: at least one digit, digits only,
/// and a value that fits in `u64`.
pub open spec fn valid_amount(s: Seq<char>) -> bool {
    s.len() > 0 && all_digits(s) && digits_value(s) <= u64::MAX
}

pub(crate) proof fn lemma_digits_value_nonneg(s: Seq<char>)
    requires
        all_digits(s),
    ensures
        0 <= digits_value(s),
    decreases s.len(),
{
    if s.len() > 0 {
        assert(all_digits(s.drop_last()));
        lemma_digits_value_nonneg(s.drop_last());
    }
}

pub(crate) proof fn lemma_digits_value_take_step(s: Seq<char>, k: int)
    requires
        0 <= k < s.len(),
    ensures
        digits_value(s.take(k + 1)) == digits_value(s.take(k)) * 10 + digit_val(s[k]),
{
    assert(s.take(k + 1).drop_last() =~= s.take(k));
    assert(s.take(k + 1).last() == s[k]);
}

pub(crate) proof fn lemma_digits_value_take_monotone(s: Seq<char>, k: int)
    requires
        all_digits(s),
        0 <= k <= s.len(),
    ensures
        digits_value(s.take(k)) <= digits_value(s),
    decreases s.len() - k,
{
    if k < s.len() {
        lemma_digits_value_take_step(s, k);
        assert(all_digits(s.take(k)));
        lemma_digits_value_nonneg(s.take(k));
        lemma_digits_value_take_monotone(s, k + 1);
    } else {
        assert(s.take(k) =~= s);
    }
}

/// Parse an entered amount: `Ok` exactly on a non-empty all-digit text
/// whose value fits in `u64`, returning that value; `Err` on everything
/// else, a minus sign included.
pub fn parse_amount(s: &str) -> (r: Result<u64, ParseError>)
    ensures
        match r {
            Ok(v) => valid_amount(s@) && v == digits_value(s@),
            Err(_) => !valid_amount(s@),
        },
{
    let chars = chars_of_str(s);
    let n = chars.len();
    if n == 0 {
        return Err(ParseError);
    }
    let mut acc: u64 = 0;
    let mut i: usize = 0;
    while i < n
        invariant
            n == s@.len(),
            chars@ == s@,
            i <= n,
            all_digits(s@.take(i as int)),
            acc == digits_value(s@.take(i as int)),
        decreases n - i,
    {
        let c = chars[i];
        if c < '0' || c > '9' {
            proof {
                assert(!is_digit(s@[i as int]));
            }
            return Err(ParseError);
        }
        let d: u64 = (c as u32 - '0' as u32) as u64;
        if acc > (u64::MAX - d) / 10 {
            proof {
                let k = i as int;
                lemma_digits_value_take_step(s@, k);
                assert(acc * 10 + d > u64::MAX) by {
                    vstd::arithmetic::div_mod::lemma_fundamental_div_mod(
                        u64::MAX - d,
                        10,
                    );
                    vstd::arithmetic::div_mod::lemma_mod_bound(u64::MAX - d, 10);
                    vstd::arithmetic::mul::lemma_mul_inequality(
                        (u64::MAX - d) / 10 + 1,
                        acc as int,
                        10,
                    );
                };
                if all_digits(s@) {
                    lemma_digits_value_take_monotone(s@, k + 1);
                }
            }
            return Err(ParseError);
        }
        proof {
            lemma_digits_value_take_step(s@, i as int);
            assert(acc * 10 + d <= u64::MAX) by {
                vstd::arithmetic::div_mod::lemma_fundamental_div_mod(u64::MAX - d, 10);
                vstd::arithmetic::div_mod::lemma_mod_bound(u64::MAX - d, 10);
                vstd::arithmetic::mul::lemma_mul_inequality(
                    acc as int,
                    (u64::MAX - d) / 10,
                    10,
                );
            };
            assert(all_digits(s@.take(i as int + 1)));
        }
        acc = acc * 10 + d;
        i = i + 1;
    }
    proof {
        assert(s@.take(n as int) =~= s@);
    }
    Ok(acc)
}

} // verus!
