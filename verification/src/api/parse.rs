use crate::api::write::{signed_text, spec_to_count, unsigned_text, Args, MINUS, PLUS};
use crate::digits::{
    all_digits, digit_value, digits_of, is_canonical, is_digit, lemma_canonical_is_digits_of,
    lemma_digits_of_canonical, lemma_value_of_prefix, value_of, Radix, LOWER_A, LOWER_Z, NINE,
    UPPER_A, UPPER_Z, ZERO,
};
use vstd::prelude::*;
use vstd::slice::slice_subrange;

verus! {

/// The number that a run of digits denotes: `digits` is not empty, holds
/// digits of the base only, and denotes no more than `limit`.
pub open spec fn number(digits: Seq<u8>, base: nat, limit: nat) -> Option<nat> {
    if digits.len() > 0 && all_digits(digits, base) && value_of(digits, base) <= limit {
        Some(value_of(digits, base))
    } else {
        None
    }
}

/// `text` without the `+` that may stand in front of a number.
pub open spec fn without_plus(text: Seq<u8>) -> Seq<u8> {
    if text.len() > 0 && text[0] == PLUS {
        text.skip(1)
    } else {
        text
    }
}

/// The unsigned 64-bit number that the whole of `text` denotes in the base
/// `radix`, if it denotes one: digits, behind an optional `+`.
pub open spec fn unsigned_value(text: Seq<u8>, radix: Radix) -> Option<u64> {
    match number(without_plus(text), radix.base(), u64::MAX as nat) {
        Some(value) => Some(value as u64),
        None => None,
    }
}

/// The signed 64-bit number that the whole of `text` denotes in decimal, if it
/// denotes one: digits, behind an optional `+` or `-`.
pub open spec fn signed_value(text: Seq<u8>) -> Option<i64> {
    if text.len() > 0 && text[0] == MINUS {
        match number(text.skip(1), 10, (i64::MAX + 1) as nat) {
            Some(distance) => Some((-distance) as i64),
            None => None,
        }
    } else {
        match number(without_plus(text), 10, i64::MAX as nat) {
            Some(value) => Some(value as i64),
            None => None,
        }
    }
}

/// The digit that a character stands for.
fn digit_of(byte: u8) -> (digit: Option<u64>)
    ensures
        match digit {
            Some(digit) => digit_value(byte) == Some(digit as nat),
            None => digit_value(byte) is None,
        },
{
    if ZERO <= byte && byte <= NINE {
        Some((byte - ZERO) as u64)
    } else if LOWER_A <= byte && byte <= LOWER_Z {
        Some((byte - LOWER_A) as u64 + 10)
    } else if UPPER_A <= byte && byte <= UPPER_Z {
        Some((byte - UPPER_A) as u64 + 10)
    } else {
        None
    }
}

/// Reads a run of digits.
fn parse_digits(digits: &[u8], radix: Radix) -> (value: Option<u64>)
    ensures
        value == match number(digits@, radix.base(), u64::MAX as nat) {
            Some(value) => Some(value as u64),
            None => None,
        },
{
    if digits.len() == 0 {
        return None;
    }
    let base: u64 = radix.as_u64();
    let mut value: u64 = 0;
    let mut i: usize = 0;
    while i < digits.len()
        invariant
            0 <= i <= digits.len(),
            base == radix.base(),
            all_digits(digits@.take(i as int), radix.base()),
            value == value_of(digits@.take(i as int), radix.base()),
        decreases digits.len() - i,
    {
        let ghost front = digits@.take(i as int);
        let ghost longer = digits@.take(i + 1);
        proof {
            assert(longer.drop_last() =~= front);
            assert(longer.last() == digits@[i as int]);
            lemma_value_of_prefix(digits@, i + 1, radix.base());
        }
        let digit: u64 = match digit_of(digits[i]) {
            Some(digit) => digit,
            None => {
                assert(!is_digit(digits@[i as int], radix.base()));
                return None;
            },
        };
        if digit >= base {
            assert(!is_digit(digits@[i as int], radix.base()));
            return None;
        }
        let scaled: u64 = match value.checked_mul(base) {
            Some(scaled) => scaled,
            None => {
                return None;
            },
        };
        value = match scaled.checked_add(digit) {
            Some(sum) => sum,
            None => {
                return None;
            },
        };
        assert forall|j: int| 0 <= j < longer.len() implies is_digit(
            #[trigger] longer[j],
            radix.base(),
        ) by {
            if j < i {
                assert(longer[j] == front[j]);
            }
        }
        i += 1;
    }
    assert(digits@.take(i as int) =~= digits@);
    Some(value)
}

/// The part of `source` behind a `+` in front, or all of it.
fn skip_plus(source: &[u8]) -> (rest: &[u8])
    ensures
        rest@ == without_plus(source@),
{
    if source.len() > 0 && source[0] == PLUS {
        slice_subrange(source, 1, source.len())
    } else {
        source
    }
}

/// Reads the whole of `source` as an unsigned number in the base `radix`.
/// There is no number where `source` is empty, holds anything but digits
/// behind an optional `+`, or denotes more than 64 bits hold.
pub fn parse_unsigned(source: &[u8], radix: Radix) -> (value: Option<u64>)
    ensures
        value == unsigned_value(source@, radix),
{
    parse_digits(skip_plus(source), radix)
}

/// Reads the whole of `source` as an unsigned decimal number.
pub fn parse_u64(source: &[u8]) -> (value: Option<u64>)
    ensures
        value == unsigned_value(source@, Radix::Decimal),
{
    parse_unsigned(source, Radix::Decimal)
}

/// Reads the whole of `source` as a signed decimal number. There is no
/// number where `source` is empty, holds anything but digits behind an
/// optional sign, or denotes a number out of the range of 64 bits.
pub fn parse_i64(source: &[u8]) -> (value: Option<i64>)
    ensures
        value == signed_value(source@),
{
    if source.len() > 0 && source[0] == MINUS {
        match parse_digits(slice_subrange(source, 1, source.len()), Radix::Decimal) {
            Some(distance) => {
                if distance <= i64::MAX as u64 {
                    Some(-(distance as i64))
                } else if distance == i64::MAX as u64 + 1 {
                    Some(i64::MIN)
                } else {
                    None
                }
            },
            None => None,
        }
    } else {
        match parse_digits(skip_plus(source), Radix::Decimal) {
            Some(value) => {
                if value <= i64::MAX as u64 {
                    Some(value as i64)
                } else {
                    None
                }
            },
            None => None,
        }
    }
}

/// A signed decimal text in the one form that the formatting side produces:
/// canonical digits, behind a `-` where the number is negative. Zero has no
/// sign.
pub open spec fn is_canonical_signed(text: Seq<u8>) -> bool {
    if text.len() > 0 && text[0] == MINUS {
        is_canonical(text.skip(1), 10) && text.skip(1) != seq![ZERO]
    } else {
        is_canonical(text, 10)
    }
}

/// Reading back what was written: the text of an unsigned number, laid out
/// without a width and without a prefix, reads as that number in the same
/// base.
pub proof fn lemma_read_back_unsigned(value: u64, radix: Radix, args: Args)
    requires
        spec_to_count(args.width) is Implied,
        !args.alternate,
    ensures
        unsigned_value(unsigned_text(value, radix, args), radix) == Some(value),
{
    let digits = digits_of(value as nat, radix.base());
    let text = unsigned_text(value, radix, args);
    lemma_digits_of_canonical(value as nat, radix.base());
    assert(is_digit(digits[0], radix.base()));
    if args.always_sign {
        assert(text =~= seq![PLUS] + digits);
        assert(text.skip(1) =~= digits);
    } else {
        assert(text =~= digits);
    }
}

/// Writing back what was read: where `text` reads as a number, the natural
/// text of that number is canonical and reads as the same number in the same
/// base, and it is `text` itself where `text` is canonical.
pub proof fn lemma_write_back_unsigned(text: Seq<u8>, radix: Radix)
    requires
        unsigned_value(text, radix) is Some,
    ensures
        ({
            let value = unsigned_value(text, radix).unwrap();
            let again = unsigned_text(value, radix, Args::natural());
            &&& is_canonical(again, radix.base())
            &&& unsigned_value(again, radix) == Some(value)
            &&& is_canonical(text, radix.base()) ==> again == text
        }),
{
    let value = unsigned_value(text, radix).unwrap();
    let again = unsigned_text(value, radix, Args::natural());
    lemma_read_back_unsigned(value, radix, Args::natural());
    lemma_digits_of_canonical(value as nat, radix.base());
    assert(again =~= digits_of(value as nat, radix.base()));
    if is_canonical(text, radix.base()) {
        assert(is_digit(text[0], radix.base()));
        lemma_canonical_is_digits_of(text, radix.base());
    }
}

/// Reading back what was written: the text of a signed number, laid out
/// without a width, reads as that number.
pub proof fn lemma_read_back_signed(value: i64, args: Args)
    requires
        spec_to_count(args.width) is Implied,
    ensures
        signed_value(signed_text(value, args)) == Some(value),
{
    let distance: nat = if value < 0 {
        (-value) as nat
    } else {
        value as nat
    };
    let digits = digits_of(distance, 10);
    let text = signed_text(value, args);
    lemma_digits_of_canonical(distance, 10);
    assert(is_digit(digits[0], 10));
    if value < 0 {
        assert(text =~= seq![MINUS] + digits);
        assert(text.skip(1) =~= digits);
    } else if args.always_sign {
        assert(text =~= seq![PLUS] + digits);
        assert(text.skip(1) =~= digits);
    } else {
        assert(text =~= digits);
    }
}

/// Writing back what was read: where `text` reads as a signed number, the
/// natural text of that number is canonical and reads as the same number, and
/// it is `text` itself where `text` is canonical.
pub proof fn lemma_write_back_signed(text: Seq<u8>)
    requires
        signed_value(text) is Some,
    ensures
        ({
            let value = signed_value(text).unwrap();
            let again = signed_text(value, Args::natural());
            &&& is_canonical_signed(again)
            &&& signed_value(again) == Some(value)
            &&& is_canonical_signed(text) ==> again == text
        }),
{
    let value = signed_value(text).unwrap();
    let again = signed_text(value, Args::natural());
    let distance: nat = if value < 0 {
        (-value) as nat
    } else {
        value as nat
    };
    let digits = digits_of(distance, 10);
    lemma_read_back_signed(value, Args::natural());
    lemma_digits_of_canonical(distance, 10);
    assert(is_digit(digits[0], 10));
    if value < 0 {
        assert(again =~= seq![MINUS] + digits);
        assert(again.skip(1) =~= digits);
        assert(digits != seq![ZERO]);
    } else {
        assert(again =~= digits);
    }
    if is_canonical_signed(text) {
        if text.len() > 0 && text[0] == MINUS {
            let rest = text.skip(1);
            lemma_canonical_is_digits_of(rest, 10);
            assert(value_of(rest, 10) != 0) by {
                if value_of(rest, 10) == 0 {
                    assert(digits_of(0, 10) =~= seq![ZERO]);
                }
            }
            assert(text =~= seq![MINUS] + rest);
        } else {
            assert(is_digit(text[0], 10));
            lemma_canonical_is_digits_of(text, 10);
        }
    }
}

/// Malformed text does not read as an unsigned number: the empty text, a
/// sign alone, text with a byte that is no digit of the base anywhere but for
/// a `+` in front, any text with such a byte put behind it, and digits that
/// denote more than 64 bits hold.
pub proof fn lemma_unsigned_rejects_malformed(text: Seq<u8>, radix: Radix, at: int, byte: u8)
    ensures
        unsigned_value(Seq::empty(), radix) is None,
        unsigned_value(seq![PLUS], radix) is None,
        unsigned_value(seq![MINUS], radix) is None,
        0 <= at < text.len() && !is_digit(text[at], radix.base()) && !(at == 0 && text[0] == PLUS)
            ==> unsigned_value(text, radix) is None,
        !is_digit(byte, radix.base()) ==> unsigned_value(text.push(byte), radix) is None,
        value_of(without_plus(text), radix.base()) > u64::MAX ==> unsigned_value(text, radix)
            is None,
{
    assert(seq![PLUS].skip(1).len() == 0);
    assert(!is_digit(seq![MINUS][0], radix.base()));
    if 0 <= at < text.len() && !is_digit(text[at], radix.base()) && !(at == 0 && text[0] == PLUS) {
        let digits = without_plus(text);
        if text[0] == PLUS {
            assert(digits[at - 1] == text[at]);
        } else {
            assert(digits[at] == text[at]);
        }
    }
    if !is_digit(byte, radix.base()) {
        let longer = text.push(byte);
        let digits = without_plus(longer);
        if digits.len() > 0 {
            assert(digits.last() == byte);
            assert(!is_digit(digits[digits.len() - 1], radix.base()));
        }
    }
}

/// Malformed text does not read as a signed number: the empty text, a sign
/// alone, text with a byte that is no decimal digit anywhere but for a sign in
/// front, any text with such a byte put behind it, and digits that denote a
/// number out of the range of 64 bits.
pub proof fn lemma_signed_rejects_malformed(text: Seq<u8>, at: int, byte: u8)
    ensures
        signed_value(Seq::empty()) is None,
        signed_value(seq![PLUS]) is None,
        signed_value(seq![MINUS]) is None,
        0 <= at < text.len() && !is_digit(text[at], 10) && !(at == 0 && (text[0] == PLUS || text[0]
            == MINUS)) ==> signed_value(text) is None,
        !is_digit(byte, 10) ==> signed_value(text.push(byte)) is None,
        text.len() > 0 && text[0] == MINUS && value_of(text.skip(1), 10) > i64::MAX + 1
            ==> signed_value(text) is None,
        !(text.len() > 0 && text[0] == MINUS) && value_of(without_plus(text), 10) > i64::MAX
            ==> signed_value(text) is None,
{
    assert(seq![PLUS].skip(1).len() == 0);
    assert(seq![MINUS].skip(1).len() == 0);
    if 0 <= at < text.len() && !is_digit(text[at], 10) && !(at == 0 && (text[0] == PLUS || text[0]
        == MINUS)) {
        if text[0] == PLUS || text[0] == MINUS {
            assert(text.skip(1)[at - 1] == text[at]);
        } else {
            assert(without_plus(text)[at] == text[at]);
        }
    }
    if !is_digit(byte, 10) {
        let longer = text.push(byte);
        if longer[0] == PLUS || longer[0] == MINUS {
            let digits = longer.skip(1);
            if digits.len() > 0 {
                assert(digits.last() == byte);
                assert(!is_digit(digits[digits.len() - 1], 10));
            }
        } else {
            assert(longer.last() == byte);
            assert(!is_digit(longer[longer.len() - 1], 10));
        }
    }
}

} // verus!
