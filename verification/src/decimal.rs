//! Decimal notation for integers: writing a number as digits and reading a
//! run of digits back.

use crate::lexical::{all_digits, is_decimal};
use vstd::prelude::*;

verus! {

/// The largest magnitude a 64-bit signed integer can have (that of its
/// minimum).
pub const MAX_MAGNITUDE: u64 = 9223372036854775808;

/// The number that a digit denotes.
pub open spec fn digit_of(c: char) -> nat {
    (c as int - '0' as int) as nat
}

/// The digit that denotes a number below ten.
pub open spec fn digit_char(d: nat) -> char {
    ('0' as int + d) as char
}

/// The number that a run of digits denotes; leading zeros are allowed.
pub open spec fn digits_value(s: Seq<char>) -> nat
    decreases s.len(),
{
    if s.len() == 0 {
        0
    } else {
        digits_value(s.drop_last()) * 10 + digit_of(s.last())
    }
}

/// The digits of a natural number, without leading zeros.
pub open spec fn nat_digits(n: nat) -> Seq<char>
    decreases n,
{
    if n < 10 {
        seq![digit_char(n)]
    } else {
        nat_digits(n / 10).push(digit_char(n % 10))
    }
}

/// The decimal notation of an integer: a `-` for a negative number, then the
/// digits of its magnitude.
pub open spec fn int_digits(n: int) -> Seq<char> {
    if n < 0 {
        seq!['-'] + nat_digits((-n) as nat)
    } else {
        nat_digits(n as nat)
    }
}

/// The integer that a text of the decimal-integer pattern denotes.
pub open spec fn decimal_value(s: Seq<char>) -> int {
    if s.len() > 0 && s[0] == '-' {
        -(digits_value(s.skip(1)) as int)
    } else {
        digits_value(s) as int
    }
}

/// The digits of a number are digits, and there is at least one.
pub proof fn lemma_nat_digits_shape(n: nat)
    ensures
        nat_digits(n).len() > 0,
        all_digits(nat_digits(n)),
    decreases n,
{
    if n >= 10 {
        lemma_nat_digits_shape(n / 10);
    }
}

/// Reading the digits of a number gives the number back.
pub proof fn lemma_digits_value_of_nat_digits(n: nat)
    ensures
        digits_value(nat_digits(n)) == n,
    decreases n,
{
    if n < 10 {
        assert(nat_digits(n).drop_last() =~= Seq::<char>::empty());
        assert(digits_value(nat_digits(n).drop_last()) == 0);
    } else {
        lemma_digits_value_of_nat_digits(n / 10);
        assert(nat_digits(n).drop_last() =~= nat_digits(n / 10));
    }
}

/// The notation of an integer matches the decimal-integer pattern and
/// denotes that integer.
pub proof fn lemma_int_digits(n: int)
    ensures
        is_decimal(int_digits(n)),
        decimal_value(int_digits(n)) == n,
{
    if n < 0 {
        let m = (-n) as nat;
        lemma_nat_digits_shape(m);
        lemma_digits_value_of_nat_digits(m);
        assert(int_digits(n).skip(1) =~= nat_digits(m));
    } else {
        lemma_nat_digits_shape(n as nat);
        lemma_digits_value_of_nat_digits(n as nat);
    }
}

/// A longer run of digits denotes no smaller a number than its prefix.
pub proof fn lemma_digits_value_grows(s: Seq<char>, k: int)
    requires
        0 <= k <= s.len(),
    ensures
        digits_value(s.take(k)) <= digits_value(s),
    decreases s.len(),
{
    if k < s.len() {
        lemma_digits_value_grows(s.drop_last(), k);
        assert(s.drop_last().take(k) =~= s.take(k));
    } else {
        assert(s.take(k) =~= s);
    }
}

fn push_nat(out: &mut String, n: u64)
    ensures
        final(out)@ == old(out)@ + nat_digits(n as nat),
    decreases n,
{
    if n >= 10 {
        push_nat(out, n / 10);
    }
    let d: u8 = (n % 10) as u8;
    out.push((48u8 + d) as char);
    assert(final(out)@ =~= old(out)@ + nat_digits(n as nat));
}

/// Appends the decimal notation of `n` to `out`.
pub(crate) fn push_decimal(out: &mut String, n: i64)
    ensures
        final(out)@ == old(out)@ + int_digits(n as int),
{
    if n < 0 {
        out.push('-');
        let magnitude: u64 = ((-(n + 1)) as u64) + 1;
        push_nat(out, magnitude);
        assert(final(out)@ =~= old(out)@ + int_digits(n as int));
    } else {
        push_nat(out, n as u64);
    }
}

/// Reads the digits `chars[from..to]` as a magnitude, or reports that it is
/// larger than any 64-bit signed integer's.
pub(crate) fn read_magnitude(chars: &Vec<char>, from: usize, to: usize) -> (r: Option<u64>)
    requires
        from <= to <= chars.len(),
        all_digits(chars@.subrange(from as int, to as int)),
    ensures
        match r {
            Some(m) => m as nat == digits_value(chars@.subrange(from as int, to as int)) && m
                <= MAX_MAGNITUDE,
            None => digits_value(chars@.subrange(from as int, to as int)) > MAX_MAGNITUDE,
        },
{
    let ghost run = chars@.subrange(from as int, to as int);
    let mut acc: u64 = 0;
    let mut j: usize = from;
    proof {
        assert(run.take(0) =~= Seq::<char>::empty());
    }
    while j < to
        invariant
            from <= j <= to <= chars.len(),
            run == chars@.subrange(from as int, to as int),
            all_digits(run),
            acc as nat == digits_value(run.take(j - from)),
            acc <= MAX_MAGNITUDE,
        decreases to - j,
    {
        let c: char = chars[j];
        assert(c == run[j - from]);
        let d: u64 = (c as u32 - '0' as u32) as u64;
        proof {
            let next = run.take(j - from + 1);
            assert(next.drop_last() =~= run.take(j - from));
            assert(next.last() == c);
            assert(digits_value(next) == acc * 10 + d);
            lemma_digits_value_grows(run, j - from + 1);
        }
        if acc > (MAX_MAGNITUDE - d) / 10 {
            return None;
        }
        acc = acc * 10 + d;
        j += 1;
    }
    proof {
        assert(run.take(to - from) =~= run);
    }
    Some(acc)
}

} // verus!
