//! Numbers written as ASCII digits in a radix from 2 to 16, padded with zeros
//! on the left, as the archive format and the entry names need them.

use vstd::arithmetic::div_mod::{
    lemma_div_decreases, lemma_div_is_ordered, lemma_fundamental_div_mod, lemma_small_mod,
};
use vstd::prelude::*;

verus! {

/// The ASCII character of a digit: `0` to `9`, then `a` to `f`.
pub open spec fn digit_char(d: nat) -> u8 {
    if d < 10 {
        (48 + d) as u8
    } else {
        (87 + d) as u8
    }
}

/// The digit that an ASCII character stands for; 0 for any other byte.
pub open spec fn digit_value(c: u8) -> nat {
    if 48 <= c <= 57 {
        (c - 48) as nat
    } else if 97 <= c <= 102 {
        (c - 87) as nat
    } else {
        0
    }
}

/// `value` in radix `base`, most significant digit first, without leading zeros.
pub open spec fn digits(value: nat, base: nat) -> Seq<u8>
    decreases value,
    when base >= 2
    via digits_decreases
{
    if value < base {
        seq![digit_char(value)]
    } else {
        digits(value / base, base).push(digit_char(value % base))
    }
}

#[via_fn]
proof fn digits_decreases(value: nat, base: nat) {
    if value >= base {
        lemma_div_decreases(value as int, base as int);
    }
}

/// `value` in radix `base`, filled up with `0` on the left to `width` characters.
/// A number with more digits than `width` is not shortened.
pub open spec fn zero_padded(value: nat, base: nat, width: nat) -> Seq<u8> {
    let d = digits(value, base);
    if d.len() >= width {
        d
    } else {
        Seq::new((width - d.len()) as nat, |i: int| 48u8) + d
    }
}

/// The number that a sequence of digit characters denotes in radix `base`.
pub open spec fn number(s: Seq<u8>, base: nat) -> nat
    decreases s.len(),
{
    if s.len() == 0 {
        0
    } else {
        number(s.drop_last(), base) * base + digit_value(s.last())
    }
}

/// A number has at least one digit.
pub proof fn lemma_digits_nonempty(value: nat, base: nat)
    requires
        base >= 2,
    ensures
        digits(value, base).len() >= 1,
    decreases value,
{
    if value >= base {
        lemma_div_decreases(value as int, base as int);
        lemma_digits_nonempty(value / base, base);
    }
}

/// A larger number never has fewer digits.
pub proof fn lemma_digits_monotonic(a: nat, b: nat, base: nat)
    requires
        base >= 2,
        a <= b,
    ensures
        digits(a, base).len() <= digits(b, base).len(),
    decreases b,
{
    if b < base {
    } else if a < base {
        lemma_digits_nonempty(b / base, base);
    } else {
        lemma_div_decreases(b as int, base as int);
        lemma_div_is_ordered(a as int, b as int, base as int);
        lemma_digits_monotonic(a / base, b / base, base);
    }
}

/// Reading the digits of a number gives the number back.
pub proof fn lemma_number_of_digits(value: nat, base: nat)
    requires
        2 <= base <= 16,
    ensures
        number(digits(value, base), base) == value,
    decreases value,
{
    if value < base {
        let s = seq![digit_char(value)];
        assert(s.drop_last() =~= Seq::<u8>::empty());
        assert(number(s.drop_last(), base) == 0);
        assert(number(s.drop_last(), base) * base == 0) by (nonlinear_arith)
            requires
                number(s.drop_last(), base) == 0,
        ;
        assert(s.last() == digit_char(value));
    } else {
        lemma_div_decreases(value as int, base as int);
        lemma_number_of_digits(value / base, base);
        let high = digits(value / base, base);
        let s = high.push(digit_char(value % base));
        assert(s.drop_last() =~= high);
        assert(s.last() == digit_char(value % base));
        lemma_fundamental_div_mod(value as int, base as int);
        assert((value / base) * base == base * (value / base)) by (nonlinear_arith);
    }
}

/// Zeros on the left do not change the number that is read.
pub proof fn lemma_number_ignores_padding(zeros: nat, s: Seq<u8>, base: nat)
    ensures
        number(Seq::new(zeros, |i: int| 48u8) + s, base) == number(s, base),
    decreases s.len(),
{
    let pad = Seq::new(zeros, |i: int| 48u8);
    if s.len() == 0 {
        assert(pad + s =~= pad);
        lemma_number_of_zeros(zeros, base);
    } else {
        assert((pad + s).drop_last() =~= pad + s.drop_last());
        lemma_number_ignores_padding(zeros, s.drop_last(), base);
    }
}

/// A run of `0` characters reads as zero.
pub proof fn lemma_number_of_zeros(zeros: nat, base: nat)
    ensures
        number(Seq::new(zeros, |i: int| 48u8), base) == 0,
    decreases zeros,
{
    let pad = Seq::new(zeros, |i: int| 48u8);
    if zeros > 0 {
        assert(pad.drop_last() =~= Seq::new((zeros - 1) as nat, |i: int| 48u8));
        lemma_number_of_zeros((zeros - 1) as nat, base);
        assert(number(pad.drop_last(), base) * base == 0) by (nonlinear_arith)
            requires
                number(pad.drop_last(), base) == 0,
        ;
    }
}

/// Reading a zero-padded number gives the number back, whatever the width.
pub proof fn lemma_number_of_zero_padded(value: nat, base: nat, width: nat)
    requires
        2 <= base <= 16,
    ensures
        number(zero_padded(value, base, width), base) == value,
{
    lemma_number_of_digits(value, base);
    let d = digits(value, base);
    if d.len() < width {
        lemma_number_ignores_padding((width - d.len()) as nat, d, base);
    }
}

fn digit(d: u64) -> (c: u8)
    requires
        d < 16,
    ensures
        c == digit_char(d as nat),
{
    if d < 10 {
        48u8 + d as u8
    } else {
        87u8 + d as u8
    }
}

/// Appends the digits of `value` in radix `base` to `out`.
pub fn push_digits(out: &mut Vec<u8>, value: u64, base: u64)
    requires
        2 <= base <= 16,
    ensures
        final(out)@ == old(out)@ + digits(value as nat, base as nat),
    decreases value,
{
    if value >= base {
        proof {
            lemma_div_decreases(value as int, base as int);
        }
        push_digits(out, value / base, base);
    }
    out.push(digit(value % base));
    proof {
        let tail = digits(value as nat, base as nat);
        if value >= base {
            let high = digits((value / base) as nat, base as nat);
            assert(tail == high.push(digit_char((value % base) as nat)));
            assert(out@ =~= old(out)@ + tail);
        } else {
            lemma_small_mod(value as nat, base as nat);
            assert(out@ =~= old(out)@ + tail);
        }
    }
}

/// How many digits `value` has in radix `base`.
pub fn digit_count(value: u64, base: u64) -> (n: usize)
    requires
        2 <= base <= 16,
    ensures
        n == digits(value as nat, base as nat).len(),
{
    let mut buf: Vec<u8> = Vec::new();
    push_digits(&mut buf, value, base);
    buf.len()
}

/// Appends `value` in radix `base` to `out`, filled up with `0` on the left to
/// at least `width` characters.
pub fn push_zero_padded(out: &mut Vec<u8>, value: u64, base: u64, width: usize)
    requires
        2 <= base <= 16,
    ensures
        final(out)@ == old(out)@ + zero_padded(value as nat, base as nat, width as nat),
{
    let have = digit_count(value, base);
    let ghost before = out@;
    let mut filled: usize = have;
    while filled < width
        invariant
            have <= filled,
            filled <= width || filled == have,
            out@ == before + Seq::new((filled - have) as nat, |i: int| 48u8),
        decreases width - filled,
    {
        out.push(48u8);
        filled = filled + 1;
    }
    push_digits(out, value, base);
}

} // verus!
