//! Numbers and values as text, for the descriptions that the actions and the
//! pattern give of themselves.

use crate::rangoli::texts;
use std::fmt::Display;
use vstd::prelude::*;
use vstd::string::{to_string_from_display_ensures, StringExecFns};

verus! {

/// The character for the digit `d`.
pub open spec fn digit(d: int) -> char {
    ('0' as int + d) as char
}

/// `n` in decimal notation.
pub open spec fn decimal(n: nat) -> Seq<char>
    decreases n,
{
    if n < 10 {
        seq![digit(n as int)]
    } else {
        decimal(n / 10).push(digit((n % 10) as int))
    }
}

/// `n` in decimal notation, with a minus sign where it is negative.
pub open spec fn signed_decimal(n: int) -> Seq<char> {
    if n < 0 {
        seq!['-'] + decimal((-n) as nat)
    } else {
        decimal(n as nat)
    }
}

/// `text` is what `value` shows itself as: one of the strings that its
/// `to_string` may return.
pub open spec fn shows<V: Display>(value: V, text: Seq<char>) -> bool {
    exists|s: String| #[trigger] to_string_from_display_ensures::<V>(&value, s) && s@ == text
}

/// `n` in decimal notation.
pub fn decimal_text(n: u32) -> (text: String)
    ensures
        text@ == decimal(n as nat),
{
    // The digits come out last first.
    let mut digits: Vec<char> = Vec::new();
    let mut rest = n;
    loop
        invariant_except_break
            decimal(n as nat) == decimal(rest as nat) + digits@.reverse(),
        ensures
            decimal(n as nat) == digits@.reverse(),
        decreases rest,
    {
        let ghost before = digits@;
        let d = (rest % 10) as u8;
        digits.push((48u8 + d) as char);
        proof {
            assert(digits@.reverse() =~= seq![digit(d as int)] + before.reverse());
            if rest >= 10 {
                assert(decimal(rest as nat) + before.reverse() =~= decimal((rest / 10) as nat)
                    + digits@.reverse());
            } else {
                assert(decimal(rest as nat) + before.reverse() =~= digits@.reverse());
            }
        }
        if rest < 10 {
            break;
        }
        rest = rest / 10;
    }
    let mut text = String::new();
    let mut i = digits.len();
    while i > 0
        invariant
            i <= digits@.len(),
            text@ == digits@.reverse().take(digits@.len() - i),
        decreases i,
    {
        i -= 1;
        text.push(digits[i]);
        proof {
            assert(text@ =~= digits@.reverse().take(digits@.len() - i));
        }
    }
    proof {
        assert(text@ =~= digits@.reverse());
    }
    text
}

/// `n` in decimal notation, with a minus sign where it is negative.
pub fn signed_decimal_text(n: i32) -> (text: String)
    ensures
        text@ == signed_decimal(n as int),
{
    if n < 0 {
        let magnitude = (-(n as i64)) as u32;
        let mut text = String::new();
        text.push('-');
        let digits = decimal_text(magnitude);
        text.append(digits.as_str());
        proof {
            assert(text@ =~= signed_decimal(n as int));
        }
        text
    } else {
        decimal_text(n as u32)
    }
}

/// `{:#?}` of a vector of strings is a function of the strings: this is its
/// name.
pub uninterp spec fn pretty_list(lines: Seq<Seq<char>>) -> Seq<char>;

/// `format!("{:#?}", ..)` of a vector of strings: the list notation that
/// the standard library gives it, one quoted line to a row.
#[verifier::external_body]
pub(crate) fn pretty_list_text(lines: &Vec<String>) -> (text: String)
    ensures
        text@ == pretty_list(texts(lines@)),
{
    format!("{:#?}", lines)
}

} // verus!
