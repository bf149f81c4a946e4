use vstd::arithmetic::div_mod::{
    lemma_basic_div, lemma_div_decreases, lemma_div_non_zero, lemma_fundamental_div_mod,
    lemma_fundamental_div_mod_converse, lemma_mod_pos_bound, lemma_multiply_divide_lt,
    lemma_small_mod,
};
use vstd::arithmetic::mul::lemma_mul_is_commutative;
use vstd::prelude::*;

verus! {

/// The character `0`.
pub const ZERO: u8 = 0x30;

/// The character `9`.
pub const NINE: u8 = 0x39;

/// The character `A`.
pub const UPPER_A: u8 = 0x41;

/// The character `Z`.
pub const UPPER_Z: u8 = 0x5a;

/// The character `a`.
pub const LOWER_A: u8 = 0x61;

/// The character `z`.
pub const LOWER_Z: u8 = 0x7a;

/// The bases in which an unsigned integer can be written and read.
#[derive(Clone, Copy, Debug)]
pub enum Radix {
    Binary,
    Octal,
    Decimal,
    Hex,
}

impl Radix {
    /// The number of distinct digits of this radix.
    pub open spec fn base(self) -> nat {
        match self {
            Radix::Binary => 2,
            Radix::Octal => 8,
            Radix::Decimal => 10,
            Radix::Hex => 16,
        }
    }

    /// The base as a machine integer.
    pub fn as_u64(self) -> (base: u64)
        ensures
            base == self.base(),
    {
        match self {
            Radix::Binary => 2,
            Radix::Octal => 8,
            Radix::Decimal => 10,
            Radix::Hex => 16,
        }
    }
}

/// The character that stands for the digit `digit`: `0` to `9`, and `a` to `f`
/// for ten to fifteen.
pub open spec fn digit_byte(digit: nat) -> u8
    recommends
        digit < 16,
{
    if digit < 10 {
        (ZERO + digit) as u8
    } else {
        (LOWER_A + digit - 10) as u8
    }
}

/// The digit that `byte` stands for, in either case of the letters, if it
/// stands for one.
pub open spec fn digit_value(byte: u8) -> Option<nat> {
    if ZERO <= byte <= NINE {
        Some((byte - ZERO) as nat)
    } else if LOWER_A <= byte <= LOWER_Z {
        Some((byte - LOWER_A + 10) as nat)
    } else if UPPER_A <= byte <= UPPER_Z {
        Some((byte - UPPER_A + 10) as nat)
    } else {
        None
    }
}

/// `byte` is a digit of the base `base`.
pub open spec fn is_digit(byte: u8, base: nat) -> bool {
    digit_value(byte) matches Some(digit) && digit < base
}

/// Every byte of `text` is a digit of the base `base`.
pub open spec fn all_digits(text: Seq<u8>, base: nat) -> bool {
    forall|i: int| 0 <= i < text.len() ==> is_digit(#[trigger] text[i], base)
}

/// The digits of `value` in positional notation, most significant first,
/// without leading zeros; zero is the single digit `0`.
pub open spec fn digits_of(value: nat, base: nat) -> Seq<u8>
    decreases value,
{
    if base < 2 || value < base {
        seq![digit_byte(value)]
    } else {
        proof {
            lemma_div_decreases(value as int, base as int);
        }
        digits_of(value / base, base).push(digit_byte(value % base))
    }
}

/// The number that the digits of `text` denote in positional notation. A byte
/// that is no digit counts as zero.
pub open spec fn value_of(text: Seq<u8>, base: nat) -> nat
    decreases text.len(),
{
    if text.len() == 0 {
        0
    } else {
        let digit = match digit_value(text.last()) {
            Some(digit) => digit,
            None => 0,
        };
        value_of(text.drop_last(), base) * base + digit
    }
}

/// `text` is the one way to write its value that the formatting side
/// produces: lower-case digits and no leading zero.
pub open spec fn is_canonical(text: Seq<u8>, base: nat) -> bool {
    &&& text.len() >= 1
    &&& all_digits(text, base)
    &&& forall|i: int|
        0 <= i < text.len() ==> #[trigger] text[i] == digit_byte(digit_value(text[i]).unwrap())
    &&& text.len() > 1 ==> text[0] != ZERO
}

/// A digit and its character determine each other.
pub proof fn lemma_digit_byte_value(digit: nat)
    requires
        digit < 16,
    ensures
        digit_value(digit_byte(digit)) == Some(digit),
        digit > 0 ==> digit_byte(digit) != ZERO,
        digit_byte(0) == ZERO,
{
}

/// The last digit of a number is its remainder by the base, and the digits in
/// front of it are those of the quotient, where that is not zero.
pub proof fn lemma_digits_of_step(value: nat, base: nat)
    requires
        2 <= base,
    ensures
        value % base < base,
        value / base <= value,
        value > 0 ==> value / base < value,
        value / base > 0 <==> value >= base,
        digits_of(value, base) == (if value / base > 0 {
            digits_of(value / base, base)
        } else {
            Seq::empty()
        }).push(digit_byte(value % base)),
{
    lemma_mod_pos_bound(value as int, base as int);
    if value < base {
        lemma_small_mod(value, base);
        lemma_basic_div(value as int, base as int);
        assert(digits_of(value, base) =~= Seq::<u8>::empty().push(digit_byte(value)));
    } else {
        lemma_div_non_zero(value as int, base as int);
        lemma_div_decreases(value as int, base as int);
    }
}

/// The digits of a number are canonical and denote that number.
pub proof fn lemma_digits_of_canonical(value: nat, base: nat)
    requires
        2 <= base <= 16,
    ensures
        is_canonical(digits_of(value, base), base),
        value_of(digits_of(value, base), base) == value,
        value > 0 ==> digits_of(value, base)[0] != ZERO,
    decreases value,
{
    let text = digits_of(value, base);
    if value < base {
        lemma_digit_byte_value(value);
        assert(text.drop_last() =~= Seq::<u8>::empty());
        assert(value_of(text.drop_last(), base) * base == 0) by (nonlinear_arith)
            requires
                value_of(text.drop_last(), base) == 0,
        ;
    } else {
        let high = value / base;
        let low = value % base;
        let head = digits_of(high, base);
        lemma_div_decreases(value as int, base as int);
        lemma_fundamental_div_mod(value as int, base as int);
        lemma_mod_pos_bound(value as int, base as int);
        lemma_mul_is_commutative(base as int, high as int);
        lemma_digits_of_canonical(high, base);
        lemma_digit_byte_value(low);
        assert(high > 0) by {
            if high == 0 {
                assert(base * high == 0) by (nonlinear_arith)
                    requires
                        high == 0,
                ;
            }
        }
        assert(text.drop_last() =~= head);
        assert(text.last() == digit_byte(low));
        assert(text[0] == head[0]);
        assert forall|i: int| 0 <= i < text.len() implies is_digit(#[trigger] text[i], base)
            && text[i] == digit_byte(digit_value(text[i]).unwrap()) by {
            if i < head.len() {
                assert(text[i] == head[i]);
            }
        }
    }
}

/// A text denotes at least what any of its prefixes denotes.
pub proof fn lemma_value_of_prefix(text: Seq<u8>, len: int, base: nat)
    requires
        0 <= len <= text.len(),
        1 <= base,
    ensures
        value_of(text.take(len), base) <= value_of(text, base),
    decreases text.len() - len,
{
    if len == text.len() {
        assert(text.take(len) =~= text);
    } else {
        let front = text.drop_last();
        lemma_value_of_prefix(front, len, base);
        assert(front.take(len) =~= text.take(len));
        assert(value_of(front, base) <= value_of(front, base) * base) by (nonlinear_arith)
            requires
                1 <= base,
        ;
    }
}

/// A canonical text is exactly the digits of the number it denotes: no other
/// canonical text denotes the same number.
pub proof fn lemma_canonical_is_digits_of(text: Seq<u8>, base: nat)
    requires
        2 <= base <= 16,
        is_canonical(text, base),
    ensures
        digits_of(value_of(text, base), base) == text,
    decreases text.len(),
{
    let front = text.drop_last();
    let low = digit_value(text.last()).unwrap();
    assert(is_digit(text[text.len() - 1], base));
    if front.len() == 0 {
        assert(value_of(front, base) * base == 0) by (nonlinear_arith)
            requires
                value_of(front, base) == 0,
        ;
        assert(text =~= seq![digit_byte(low)]);
    } else {
        assert forall|i: int| 0 <= i < front.len() implies is_digit(#[trigger] front[i], base)
            && front[i] == digit_byte(digit_value(front[i]).unwrap()) by {
            assert(front[i] == text[i]);
        }
        assert(front[0] == text[0]);
        lemma_canonical_is_digits_of(front, base);
        let high = value_of(front, base);
        assert(high >= 1) by {
            lemma_value_of_prefix(front, 1, base);
            let first = front.take(1);
            assert(first.drop_last() =~= Seq::<u8>::empty());
            assert(first.last() == front[0]);
            assert(is_digit(front[0], base));
            assert(value_of(first.drop_last(), base) * base == 0) by (nonlinear_arith)
                requires
                    value_of(first.drop_last(), base) == 0,
            ;
        }
        let value = high * base + low;
        assert(value >= base) by (nonlinear_arith)
            requires
                value == high * base + low,
                high >= 1,
        ;
        lemma_fundamental_div_mod_converse(value as int, base as int, high as int, low as int);
        assert(digits_of(value, base) == digits_of(high, base).push(digit_byte(low)));
        assert(text =~= front.push(text.last()));
    }
}

/// `base` multiplied by itself `exponent` times.
pub open spec fn power(base: nat, exponent: nat) -> nat
    decreases exponent,
{
    if exponent == 0 {
        1
    } else {
        base * power(base, (exponent - 1) as nat)
    }
}

/// A number below the `count`-th power of the base has at most `count` digits.
pub proof fn lemma_digits_len(value: nat, base: nat, count: nat)
    requires
        2 <= base,
        1 <= count,
        value < power(base, count),
    ensures
        1 <= digits_of(value, base).len() <= count,
    decreases value,
{
    if value >= base {
        assert(power(base, 1) == base) by {
            reveal_with_fuel(power, 2);
            assert(base * 1 == base) by (nonlinear_arith);
        }
        let rest = power(base, (count - 1) as nat);
        lemma_multiply_divide_lt(value as int, base as int, rest as int);
        lemma_div_decreases(value as int, base as int);
        lemma_digits_len(value / base, base, (count - 1) as nat);
    }
}

impl Radix {
    /// The largest number of digits that a 64-bit number has in this radix.
    pub open spec fn max_digits(self) -> nat {
        match self {
            Radix::Binary => 64,
            Radix::Octal => 22,
            Radix::Decimal => 20,
            Radix::Hex => 16,
        }
    }
}

/// No 64-bit number has more digits than `Radix::max_digits` says.
pub proof fn lemma_digits_len_u64(value: u64, radix: Radix)
    ensures
        1 <= digits_of(value as nat, radix.base()).len() <= radix.max_digits(),
{
    match radix {
        Radix::Binary => {
            assert(power(2, 64) == 0x1_0000_0000_0000_0000) by {
                reveal_with_fuel(power, 65);
            }
        },
        Radix::Octal => {
            assert(power(8, 22) == 0x4_0000_0000_0000_0000) by {
                reveal_with_fuel(power, 23);
            }
        },
        Radix::Decimal => {
            assert(power(10, 20) == 100_000_000_000_000_000_000) by {
                reveal_with_fuel(power, 21);
            }
        },
        Radix::Hex => {
            assert(power(16, 16) == 0x1_0000_0000_0000_0000) by {
                reveal_with_fuel(power, 17);
            }
        },
    }
    lemma_digits_len(value as nat, radix.base(), radix.max_digits());
}

} // verus!
