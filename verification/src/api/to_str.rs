use crate::api::write::{render_signed, render_unsigned, signed_text, unsigned_text, Args, MINUS};
use crate::digits::{digits_of, lemma_digits_len, lemma_digits_len_u64, power, Radix};
use crate::writer::{BytesWriter, NUL};
use vstd::prelude::*;

verus! {

/// The room that `u64_to_str` is given: 20 digits and the terminator.
pub const U64_STR_LEN: usize = 21;

/// The room that `i64_to_str` is given.
pub const I64_STR_LEN: usize = 22;

/// Writes `value` in decimal at the front of `buf`, and a `NUL` behind it.
/// Returns the number of characters in front of the `NUL`. The bytes behind
/// the `NUL` stay as they are.
pub fn u64_to_str(buf: &mut [u8; U64_STR_LEN], value: u64) -> (len: usize)
    ensures
        len + 1 <= U64_STR_LEN,
        final(buf)@.take(len as int) == unsigned_text(value, Radix::Decimal, Args::natural()),
        final(buf)@[len as int] == NUL,
        final(buf)@.skip(len + 1) == old(buf)@.skip(len + 1),
{
    let text = render_unsigned(value, Radix::Decimal, &Args::natural());
    proof {
        lemma_digits_len_u64(value, Radix::Decimal);
        assert(text@ =~= digits_of(value as nat, 10));
    }
    let len: usize = text.len() as usize;
    let end: [u8; 1] = [NUL];
    let mut writer = BytesWriter::new(buf);
    text.write_to(&mut writer);
    writer.write_str(&end);
    len
}

/// Writes `value` in decimal at the front of `buf`, with a `-` in front of a
/// negative one, and a `NUL` behind it. Returns the number of characters in
/// front of the `NUL`. The bytes behind the `NUL` stay as they are.
pub fn i64_to_str(buf: &mut [u8; I64_STR_LEN], value: i64) -> (len: usize)
    ensures
        len + 1 <= I64_STR_LEN,
        final(buf)@.take(len as int) == signed_text(value, Args::natural()),
        final(buf)@[len as int] == NUL,
        final(buf)@.skip(len + 1) == old(buf)@.skip(len + 1),
{
    let text = render_signed(value, &Args::natural());
    proof {
        let distance: nat = if value < 0 {
            (-value) as nat
        } else {
            value as nat
        };
        assert(power(10, 19) == 10_000_000_000_000_000_000) by {
            reveal_with_fuel(power, 20);
        }
        lemma_digits_len(distance, 10, 19);
        if value < 0 {
            assert(text@ =~= seq![MINUS] + digits_of(distance, 10));
        } else {
            assert(text@ =~= digits_of(distance, 10));
        }
    }
    let len: usize = text.len() as usize;
    let end: [u8; 1] = [NUL];
    let mut writer = BytesWriter::new(buf);
    text.write_to(&mut writer);
    writer.write_str(&end);
    len
}

} // verus!
