//! Avro's variable-length encoding of integers.

use vstd::arithmetic::div_mod::lemma_div_denominator;
use vstd::arithmetic::power::{lemma_pow0, lemma_pow1, lemma_pow_adds, lemma_pow_positive, pow};
use vstd::prelude::*;

verus! {

/// Maps integers to natural numbers, those of small magnitude to small ones.
pub open spec fn zigzag(value: int) -> nat {
    if value >= 0 {
        (2 * value) as nat
    } else {
        (-2 * value - 1) as nat
    }
}

/// Seven bits to a byte, the least significant ones first. All bytes but the
/// last have their top bit set.
pub open spec fn varint(n: nat) -> Seq<u8>
    decreases n,
{
    if n < 0x80 {
        seq![n as u8]
    } else {
        seq![(n % 0x80 + 0x80) as u8] + varint(n / 0x80)
    }
}

/// The encoding of an integer.
pub open spec fn long(value: int) -> Seq<u8> {
    varint(zigzag(value))
}

/// Appends the encoding of `value`.
pub fn write_long(out: &mut Vec<u8>, value: i64)
    ensures
        final(out)@ == old(out)@ + long(value as int),
{
    let mut rest: u64 = if value >= 0 {
        value as u64 * 2
    } else {
        (-(value + 1)) as u64 * 2 + 1
    };
    let ghost before = out@;
    assert(out@ + varint(rest as nat) =~= before + long(value as int));
    while rest >= 0x80
        invariant
            out@ + varint(rest as nat) == before + long(value as int),
        decreases rest,
    {
        let ghost shorter = out@;
        let byte: u8 = (rest % 0x80 + 0x80) as u8;
        out.push(byte);
        assert(out@ + varint((rest / 0x80) as nat) =~= shorter + varint(rest as nat));
        rest = rest / 0x80;
    }
    out.push(rest as u8);
    assert(out@ =~= before + long(value as int));
}

/// The number at the start of `bytes`, and how many bytes it takes.
pub open spec fn read_varint(bytes: Seq<u8>) -> Option<(nat, nat)>
    decreases bytes.len(),
{
    if bytes.len() == 0 {
        None
    } else if bytes[0] < 0x80 {
        Some((bytes[0] as nat, 1))
    } else {
        match read_varint(bytes.drop_first()) {
            Some((rest, len)) => Some(((bytes[0] - 0x80 + 0x80 * rest) as nat, len + 1)),
            None => None,
        }
    }
}

/// The integer that is mapped to `n`.
pub open spec fn unzigzag(n: nat) -> int {
    if n % 2 == 0 {
        n as int / 2
    } else {
        -(n as int / 2) - 1
    }
}

/// The integer at the start of `bytes`, and how many bytes it takes.
pub open spec fn read_long(bytes: Seq<u8>) -> Option<(int, nat)> {
    match read_varint(bytes) {
        Some((n, len)) => Some((unzigzag(n), len)),
        None => None,
    }
}

proof fn lemma_read_varint(n: nat, rest: Seq<u8>)
    ensures
        read_varint(varint(n) + rest) == Some((n, varint(n).len())),
    decreases n,
{
    let bytes = varint(n) + rest;
    if n >= 0x80 {
        lemma_read_varint(n / 0x80, rest);
        assert(bytes.drop_first() =~= varint(n / 0x80) + rest);
    }
}

/// An integer can be read back from its encoding, whatever follows it.
pub proof fn lemma_read_long(value: int, rest: Seq<u8>)
    ensures
        read_long(long(value) + rest) == Some((value, long(value).len())),
{
    lemma_read_varint(zigzag(value), rest);
}

/// The encoding of an `i64` takes between one and ten bytes.
pub proof fn lemma_long_len(value: i64)
    ensures
        1 <= long(value as int).len() <= 10,
{
    reveal_with_fuel(varint, 11);
}

/// The groups of seven bits that a number is made of.
proof fn lemma_varint_bits(n: nat)
    ensures
        ({
            let bytes = varint(n);
            let len = bytes.len();
            &&& len > 0
            &&& n < pow(128, len)
            &&& len > 1 ==> n >= pow(128, (len - 1) as nat)
            &&& forall|i: int|
                0 <= i < len ==> (#[trigger] bytes[i]) % 128 == n as int / pow(128, i as nat) % 128
            &&& forall|i: int| 0 <= i < len ==> ((#[trigger] bytes[i]) >= 128 <==> i < len - 1)
        }),
    decreases n,
{
    let bytes = varint(n);
    lemma_pow0(128);
    lemma_pow1(128);
    if n < 0x80 {
        assert(n as int / 1 % 128 == n);
    } else {
        let rest = varint(n / 0x80);
        let len = rest.len();
        lemma_varint_bits(n / 0x80);
        lemma_pow_adds(128, 1, len);
        assert(bytes.len() == len + 1);
        if len > 1 {
            lemma_pow_adds(128, 1, (len - 1) as nat);
        }
        assert forall|i: int| 0 <= i < bytes.len() implies (#[trigger] bytes[i]) % 128 == n as int
            / pow(128, i as nat) % 128 && (bytes[i] >= 128 <==> i < bytes.len() - 1) by {
            if i > 0 {
                let k = (i - 1) as nat;
                assert(bytes[i] == rest[i - 1]);
                lemma_pow_adds(128, 1, k);
                lemma_pow_positive(128, k);
                lemma_div_denominator(n as int, 128, pow(128, k));
            } else {
                assert(n as int / 1 == n);
            }
        }
    }
}

/// What is appended for an integer: the number itself doubled, or one less than
/// twice its magnitude if it is negative, seven bits to a byte. The least significant
/// bits come first, no byte is spent on leading zeros, and only the last byte has its
/// top bit clear. What was there before stays.
pub proof fn lemma_long_bits(value: i64)
    ensures
        forall|out: &mut Vec<u8>| #[trigger]
            call_ensures(write_long, (out, value), ()) ==> {
                let n: int = if value >= 0 {
                    2 * value
                } else {
                    -2 * value - 1
                };
                let len = final(out)@.len() - out@.len();
                let added = final(out)@.skip(out@.len() as int);
                &&& 1 <= len <= 10
                &&& final(out)@.take(out@.len() as int) == out@
                &&& n < pow(128, len as nat)
                &&& len > 1 ==> n >= pow(128, (len - 1) as nat)
                &&& forall|i: int|
                    0 <= i < len ==> (#[trigger] added[i]) % 128 == n / pow(128, i as nat) % 128
                &&& forall|i: int| 0 <= i < len ==> ((#[trigger] added[i]) >= 128 <==> i < len - 1)
            },
{
    lemma_varint_bits(zigzag(value as int));
    lemma_long_len(value);
    assert forall|before: Seq<u8>| #[trigger] (before + long(value as int)).skip(
        before.len() as int,
    ) == long(value as int) && (before + long(value as int)).take(before.len() as int)
        == before by {
        let after = before + long(value as int);
        assert(after.skip(before.len() as int) =~= long(value as int));
        assert(after.take(before.len() as int) =~= before);
    }
}

} // verus!
