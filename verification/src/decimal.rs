//! Decimal text of unsigned integers.

use vstd::prelude::*;

verus! {

/// The ASCII digit of a value below ten.
pub open spec fn digit_byte(d: nat) -> u8
    recommends
        d < 10,
{
    (0x30 + d) as u8
}

/// The decimal text of `n`: no sign, no leading zero but for zero itself.
pub open spec fn decimal(n: nat) -> Seq<u8>
    decreases n,
{
    if n < 10 {
        seq![digit_byte(n)]
    } else {
        decimal(n / 10).push(digit_byte(n % 10))
    }
}

/// Whether a byte is an ASCII digit.
pub open spec fn is_digit(b: u8) -> bool {
    0x30 <= b <= 0x39
}

/// Decimal text is one digit at least and digits only.
pub proof fn lemma_decimal_digits(n: nat)
    ensures
        decimal(n).len() >= 1,
        forall|i: int| 0 <= i < decimal(n).len() ==> is_digit(#[trigger] decimal(n)[i]),
    decreases n,
{
    if n >= 10 {
        lemma_decimal_digits(n / 10);
    }
}

/// Appends the decimal text of `n` to `out`.
pub fn push_decimal(out: &mut Vec<u8>, n: u64)
    ensures
        final(out)@ == old(out)@ + decimal(n as nat),
{
    let mut digits: Vec<u8> = Vec::new();
    let mut rest: u64 = n;
    assert(decimal(rest as nat) + reversed(digits@) =~= decimal(n as nat));
    // `digits` holds the low digits of `n`, the lowest first.
    while rest >= 10
        invariant
            decimal(n as nat) == decimal(rest as nat) + reversed(digits@),
        decreases rest,
    {
        let d: u8 = (rest % 10) as u8;
        let ghost prev = digits@;
        let ghost prev_rest = rest;
        digits.push(0x30u8 + d);
        rest = rest / 10;
        proof {
            lemma_reversed_push(prev, digit_byte((prev_rest % 10) as nat));
            assert(decimal(prev_rest as nat) + reversed(prev) =~= decimal(rest as nat) + reversed(
                digits@,
            ));
        }
    }
    out.push(0x30u8 + rest as u8);
    let mut i: usize = digits.len();
    let ghost start = old(out)@;
    assert(digits@.take(i as int) =~= digits@);
    assert(out@ + reversed(digits@) =~= start + (decimal(rest as nat) + reversed(digits@)));
    while i > 0
        invariant
            i <= digits@.len(),
            out@ + reversed(digits@.take(i as int)) == start + decimal(n as nat),
        decreases i,
    {
        i = i - 1;
        let ghost before = out@;
        out.push(digits[i]);
        proof {
            assert(digits@.take(i + 1).drop_last() =~= digits@.take(i as int));
            assert(before + reversed(digits@.take(i + 1)) =~= out@ + reversed(
                digits@.take(i as int),
            ));
        }
    }
    assert(digits@.take(0) =~= Seq::<u8>::empty());
    assert(out@ + reversed(Seq::<u8>::empty()) =~= out@);
}

/// A sequence read from its end to its start.
pub open spec fn reversed(s: Seq<u8>) -> Seq<u8>
    decreases s.len(),
{
    if s.len() == 0 {
        Seq::<u8>::empty()
    } else {
        seq![s.last()] + reversed(s.drop_last())
    }
}

proof fn lemma_reversed_push(s: Seq<u8>, b: u8)
    ensures
        reversed(s.push(b)) == seq![b] + reversed(s),
{
    assert(s.push(b).drop_last() =~= s);
}

/// The number that a sequence of digits spells.
pub open spec fn digits_value(s: Seq<u8>) -> nat
    decreases s.len(),
{
    if s.len() == 0 {
        0
    } else {
        digits_value(s.drop_last()) * 10 + (s.last() - 0x30) as nat
    }
}

/// Reading decimal text gives the number back.
pub proof fn lemma_decimal_value(n: nat)
    ensures
        digits_value(decimal(n)) == n,
    decreases n,
{
    if n < 10 {
        assert(decimal(n).drop_last() =~= Seq::<u8>::empty());
        assert(digits_value(decimal(n).drop_last()) == 0);
    } else {
        lemma_decimal_value(n / 10);
        assert(decimal(n).drop_last() =~= decimal(n / 10));
    }
}

/// Two numbers with the same decimal text are the same number.
pub proof fn lemma_decimal_injective(a: nat, b: nat)
    requires
        decimal(a) == decimal(b),
    ensures
        a == b,
{
    lemma_decimal_value(a);
    lemma_decimal_value(b);
}

} // verus!
