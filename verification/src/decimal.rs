//! Integers written in decimal.

use vstd::prelude::*;
use vstd::string::*;

verus! {

/// The character for a digit below ten.
pub open spec fn digit(d: nat) -> char {
    (48 + d) as char
}

/// A natural number in decimal, without leading zeros.
pub open spec fn decimal(n: nat) -> Seq<char>
    decreases n,
{
    if n < 10 {
        seq![digit(n)]
    } else {
        decimal(n / 10) + seq![digit(n % 10)]
    }
}

/// An integer in decimal, with a sign if it is negative.
pub open spec fn signed_decimal(n: int) -> Seq<char> {
    if n < 0 {
        seq!['-'] + decimal((-n) as nat)
    } else {
        decimal(n as nat)
    }
}

fn digit_text(d: u64) -> (text: &'static str)
    requires
        d < 10,
    ensures
        text@ == seq![digit(d as nat)],
{
    proof {
        reveal_strlit("0");
        reveal_strlit("1");
        reveal_strlit("2");
        reveal_strlit("3");
        reveal_strlit("4");
        reveal_strlit("5");
        reveal_strlit("6");
        reveal_strlit("7");
        reveal_strlit("8");
        reveal_strlit("9");
    }
    match d {
        0 => "0",
        1 => "1",
        2 => "2",
        3 => "3",
        4 => "4",
        5 => "5",
        6 => "6",
        7 => "7",
        8 => "8",
        _ => "9",
    }
}

/// Appends `n` in decimal.
pub(crate) fn append_decimal(text: &mut String, n: u64)
    ensures
        final(text)@ == old(text)@ + decimal(n as nat),
    decreases n,
{
    if n >= 10 {
        append_decimal(text, n / 10);
    }
    text.append(digit_text(n % 10));
}

/// Appends `n` in decimal, with a sign if it is negative.
pub(crate) fn append_signed_decimal(text: &mut String, n: i64)
    ensures
        final(text)@ == old(text)@ + signed_decimal(n as int),
{
    if n < 0 {
        proof {
            reveal_strlit("-");
        }
        text.append("-");
        let magnitude: u64 = (0 - n as i128) as u64;
        append_decimal(text, magnitude);
    } else {
        append_decimal(text, n as u64);
    }
}

/// What is appended for a number are the digits that it is made of: they add up to it,
/// tens by tens, and the first of several is no zero. What was there before stays.
pub(crate) proof fn lemma_digits_add_up(n: u64)
    ensures
        forall|text: &mut String| #[trigger]
            call_ensures(append_decimal, (text, n), ()) ==> {
                let digits = final(text)@.skip(text@.len() as int);
                &&& final(text)@.len() > text@.len()
                &&& final(text)@.take(text@.len() as int) == text@
                &&& forall|i: int| 0 <= i < digits.len() ==> '0' <= #[trigger] digits[i] <= '9'
                &&& digits.len() > 1 ==> digits[0] != '0'
                &&& digits.fold_left(
                    0int,
                    |value: int, digit: char| 10 * value + (digit as u32 - '0' as u32),
                ) == n
            },
{
    lemma_decimal(n as nat);
    assert forall|before: Seq<char>| #[trigger] (before + decimal(n as nat)).skip(
        before.len() as int,
    ) == decimal(n as nat) && (before + decimal(n as nat)).take(before.len() as int)
        == before by {
        let after = before + decimal(n as nat);
        assert(after.skip(before.len() as int) =~= decimal(n as nat));
        assert(after.take(before.len() as int) =~= before);
    }
}

/// The digits of a number add up to it.
pub proof fn lemma_decimal(n: nat)
    ensures
        ({
            let digits = decimal(n);
            &&& digits.len() > 0
            &&& forall|i: int| 0 <= i < digits.len() ==> '0' <= #[trigger] digits[i] <= '9'
            &&& digits.len() > 1 ==> digits[0] != '0'
            &&& n > 0 ==> digits[0] != '0'
            &&& digits.fold_left(
                0int,
                |value: int, digit: char| 10 * value + (digit as u32 - '0' as u32),
            ) == n
        }),
    decreases n,
{
    let digits = decimal(n);
    reveal_with_fuel(Seq::fold_left, 2);
    if n >= 10 {
        lemma_decimal(n / 10);
        assert(digits.drop_last() =~= decimal(n / 10));
    } else {
        assert(digits.drop_last() =~= Seq::empty());
    }
}

/// A number below zero is written as its magnitude behind a sign.
pub(crate) proof fn lemma_sign(n: i64)
    ensures
        forall|text: &mut String| #[trigger]
            call_ensures(append_signed_decimal, (text, n), ()) ==> final(text)@ == text@ + if n
                < 0 {
                seq!['-'] + decimal((-n) as nat)
            } else {
                decimal(n as nat)
            },
{
}

} // verus!
