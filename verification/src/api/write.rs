use crate::digits::{
    digit_byte, digits_of, lemma_digits_len_u64, lemma_digits_of_step, Radix, LOWER_A, ZERO,
};
use crate::writer::{fitting, BytesWriter, NUL};
use vstd::prelude::*;

verus! {

/// The blank that pads to a width.
pub const SPACE: u8 = 0x20;

/// The sign of a number that is not negative, where a sign is asked for.
pub const PLUS: u8 = 0x2b;

/// The sign of a negative number.
pub const MINUS: u8 = 0x2d;

/// The letter that follows `0` in the prefix of a binary number.
pub const LOWER_B: u8 = 0x62;

/// The letter that follows `0` in the prefix of an octal number.
pub const LOWER_O: u8 = 0x6f;

/// The letter that follows `0` in the prefix of a hexadecimal number.
pub const LOWER_X: u8 = 0x78;

/// How one value is to be laid out. `width` and `precision` hold `u32::MAX`
/// where the caller leaves them open, which is not the same as zero.
#[derive(Clone, Copy, Debug)]
pub struct Args {
    pub width: u32,
    pub precision: u32,
    pub alternate: bool,
    pub zero_padded: bool,
    pub left_justified: bool,
    pub always_sign: bool,
}

impl Args {
    /// The layout without any request: no width, no precision, no flag.
    pub open spec fn spec_natural() -> Args {
        Args {
            width: u32::MAX,
            precision: u32::MAX,
            alternate: false,
            zero_padded: false,
            left_justified: false,
            always_sign: false,
        }
    }

    /// The layout without any request: no width, no precision, no flag.
    #[verifier::when_used_as_spec(spec_natural)]
    pub fn natural() -> (args: Args)
        ensures
            args == Args::spec_natural(),
    {
        Args {
            width: u32::MAX,
            precision: u32::MAX,
            alternate: false,
            zero_padded: false,
            left_justified: false,
            always_sign: false,
        }
    }
}

/// A width or a precision: left open, or given.
#[derive(Clone, Copy, Debug)]
pub enum Count {
    Implied,
    Is(usize),
}

/// A width or a precision as the caller wrote it: open where it is
/// `u32::MAX`, given otherwise.
pub open spec fn spec_to_count(raw: u32) -> Count {
    if raw == u32::MAX {
        Count::Implied
    } else {
        Count::Is(raw as usize)
    }
}

/// Reads a width or a precision as the caller wrote it.
#[verifier::when_used_as_spec(spec_to_count)]
pub fn to_count(raw: u32) -> (count: Count)
    ensures
        count == spec_to_count(raw),
{
    if raw == u32::MAX {
        Count::Implied
    } else {
        Count::Is(raw as usize)
    }
}

/// The fill around the content of a field: blanks in front, zeros between
/// the sign and the digits, blanks behind. At most one of the three is not
/// zero.
#[derive(Clone, Copy, Debug)]
pub struct Padding {
    pub before: u32,
    pub zeros: u32,
    pub after: u32,
}

/// The number of fill characters that bring `content` characters up to the
/// width of `args`.
pub open spec fn fill_len(content: nat, args: Args) -> nat {
    match spec_to_count(args.width) {
        Count::Implied => 0,
        Count::Is(width) => if content < width {
            (width - content) as nat
        } else {
            0
        },
    }
}

/// Where the fill goes: behind the content where `left_justified` is set,
/// whatever `zero_padded` says; else as zeros in front of the digits where
/// `zero_padded` is set; else as blanks in front of everything.
pub open spec fn spec_padding(content: nat, args: Args) -> Padding {
    let fill = fill_len(content, args) as u32;
    if args.left_justified {
        Padding { before: 0, zeros: 0, after: fill }
    } else if args.zero_padded {
        Padding { before: 0, zeros: fill, after: 0 }
    } else {
        Padding { before: fill, zeros: 0, after: 0 }
    }
}

/// Computes the fill around `content` characters of sign, prefix and digits.
pub fn padding(content: usize, args: &Args) -> (pad: Padding)
    ensures
        pad == spec_padding(content as nat, *args),
{
    let fill: u32 = match to_count(args.width) {
        Count::Implied => 0,
        Count::Is(width) => if content < width {
            (width - content) as u32
        } else {
            0
        },
    };
    if args.left_justified {
        Padding { before: 0, zeros: 0, after: fill }
    } else if args.zero_padded {
        Padding { before: 0, zeros: fill, after: 0 }
    } else {
        Padding { before: fill, zeros: 0, after: 0 }
    }
}

/// `count` times the character `byte`.
pub open spec fn repeated(byte: u8, count: nat) -> Seq<u8> {
    Seq::new(count, |i: int| byte)
}

/// The sign in front of a number: `-` for a negative one, `+` for another
/// where `always_sign` is set, nothing otherwise.
pub open spec fn sign_text(negative: bool, args: Args) -> Seq<u8> {
    if negative {
        seq![MINUS]
    } else if args.always_sign {
        seq![PLUS]
    } else {
        Seq::empty()
    }
}

/// The sign that goes in front of a number, if one does.
pub fn sign_byte(negative: bool, args: &Args) -> (sign: Option<u8>)
    ensures
        sign_text(negative, *args) == match sign {
            Some(sign) => seq![sign],
            None => Seq::empty(),
        },
        sign matches Some(sign) ==> sign == MINUS || sign == PLUS,
{
    if negative {
        Some(MINUS)
    } else if args.always_sign {
        Some(PLUS)
    } else {
        None
    }
}

/// The prefix that names the base, where `alternate` is set: `0b`, `0o` or
/// `0x`. Decimal numbers have none.
pub open spec fn prefix_text(radix: Radix, args: Args) -> Seq<u8> {
    if args.alternate {
        match radix {
            Radix::Binary => seq![ZERO, LOWER_B],
            Radix::Octal => seq![ZERO, LOWER_O],
            Radix::Decimal => Seq::empty(),
            Radix::Hex => seq![ZERO, LOWER_X],
        }
    } else {
        Seq::empty()
    }
}

/// Sign, prefix and digits with the fill that `args` asks for.
pub open spec fn padded(sign: Seq<u8>, prefix: Seq<u8>, digits: Seq<u8>, args: Args) -> Seq<u8> {
    let pad = spec_padding(sign.len() + prefix.len() + digits.len(), args);
    repeated(SPACE, pad.before as nat) + sign + prefix + repeated(ZERO, pad.zeros as nat) + digits
        + repeated(SPACE, pad.after as nat)
}

/// The text of the unsigned number `value` in the base `radix` under `args`.
pub open spec fn unsigned_text(value: u64, radix: Radix, args: Args) -> Seq<u8> {
    padded(
        sign_text(false, args),
        prefix_text(radix, args),
        digits_of(value as nat, radix.base()),
        args,
    )
}

/// The distance of `value` from zero.
pub open spec fn magnitude(value: i64) -> nat {
    if value < 0 {
        (-value) as nat
    } else {
        value as nat
    }
}

/// The text of the signed number `value`, in decimal, under `args`.
pub open spec fn signed_text(value: i64, args: Args) -> Seq<u8> {
    padded(
        sign_text(value < 0, args),
        Seq::empty(),
        digits_of(magnitude(value), Radix::Decimal.base()),
        args,
    )
}

/// One value laid out under one configuration: a text of any length, held in
/// fixed space. Its characters are read by index, so that a sink of any kind
/// can take them one at a time.
pub struct Rendered {
    pad: Padding,
    /// `PLUS`, `MINUS`, or `NUL` where the text has no sign.
    sign: u8,
    /// The letter of the prefix, or `NUL` where the text has none.
    mark: u8,
    /// The digits stand at the end of this array, from `start` on.
    digits: [u8; 64],
    start: usize,
}

impl View for Rendered {
    type V = Seq<u8>;

    closed spec fn view(&self) -> Seq<u8> {
        repeated(SPACE, self.pad.before as nat) + self.sign_part() + self.prefix_part() + repeated(
            ZERO,
            self.pad.zeros as nat,
        ) + self.digits@.skip(self.start as int) + repeated(SPACE, self.pad.after as nat)
    }
}

impl Rendered {
    #[verifier::type_invariant]
    spec fn well_formed(self) -> bool {
        self.start < 64
    }

    spec fn sign_part(self) -> Seq<u8> {
        if self.sign == NUL {
            Seq::empty()
        } else {
            seq![self.sign]
        }
    }

    spec fn prefix_part(self) -> Seq<u8> {
        if self.mark == NUL {
            Seq::empty()
        } else {
            seq![ZERO, self.mark]
        }
    }

    /// The number of characters of the text.
    pub fn len(&self) -> (len: u64)
        ensures
            len == self@.len(),
    {
        proof {
            use_type_invariant(self);
        }
        let sign: u64 = if self.sign == NUL {
            0
        } else {
            1
        };
        let prefix: u64 = if self.mark == NUL {
            0
        } else {
            2
        };
        let digits: u64 = (64 - self.start) as u64;
        self.pad.before as u64 + sign + prefix + self.pad.zeros as u64 + digits
            + self.pad.after as u64
    }

    /// The character at `index`, or nothing where the text has ended.
    pub fn byte_at(&self, index: u64) -> (byte: Option<u8>)
        ensures
            byte == if index < self@.len() {
                Some(self@[index as int])
            } else {
                None
            },
    {
        proof {
            use_type_invariant(self);
        }
        let ghost blanks = repeated(SPACE, self.pad.before as nat);
        let ghost zeros = repeated(ZERO, self.pad.zeros as nat);
        let ghost digits = self.digits@.skip(self.start as int);
        let ghost tail = repeated(SPACE, self.pad.after as nat);
        assert(self@ == blanks + self.sign_part() + self.prefix_part() + zeros + digits + tail);
        let mut at: u64 = index;
        if at < self.pad.before as u64 {
            return Some(SPACE);
        }
        at = at - self.pad.before as u64;
        if self.sign != NUL {
            if at == 0 {
                return Some(self.sign);
            }
            at = at - 1;
        }
        if self.mark != NUL {
            if at == 0 {
                return Some(ZERO);
            }
            if at == 1 {
                return Some(self.mark);
            }
            at = at - 2;
        }
        if at < self.pad.zeros as u64 {
            return Some(ZERO);
        }
        at = at - self.pad.zeros as u64;
        let count: u64 = (64 - self.start) as u64;
        if at < count {
            return Some(self.digits[self.start + at as usize]);
        }
        at = at - count;
        if at < self.pad.after as u64 {
            Some(SPACE)
        } else {
            None
        }
    }

    /// Writes the text into the free region of `writer`, as far as it fits.
    pub fn write_to(&self, writer: &mut BytesWriter<'_>)
        ensures
            final(writer).bytes@ == old(writer).bytes@.skip(
                fitting(self@.len(), old(writer).room()) as int,
            ),
            final(old(writer).bytes)@ == self@.take(
                fitting(self@.len(), old(writer).room()) as int,
            ) + final(final(writer).bytes)@,
    {
        let total: u64 = self.len();
        let room: usize = writer.remaining();
        let count: usize = if total < room as u64 {
            total as usize
        } else {
            room
        };
        let head = writer.claim(count);
        let mut i: usize = 0;
        while i < count
            invariant
                0 <= i <= count,
                count <= self@.len(),
                head@.len() == count,
                head@.take(i as int) == self@.take(i as int),
            decreases count - i,
        {
            match self.byte_at(i as u64) {
                Some(byte) => {
                    head[i] = byte;
                },
                None => {},
            }
            i += 1;
        }
    }
}

/// The character of one digit.
fn digit_char(digit: u64) -> (byte: u8)
    requires
        digit < 16,
    ensures
        byte == digit_byte(digit as nat),
{
    if digit < 10 {
        ZERO + digit as u8
    } else {
        LOWER_A + (digit as u8 - 10)
    }
}

/// Lays out a number given by its sign and its distance from zero.
fn render(negative: bool, distance: u64, radix: Radix, args: &Args) -> (text: Rendered)
    ensures
        text@ == padded(
            sign_text(negative, *args),
            prefix_text(radix, *args),
            digits_of(distance as nat, radix.base()),
            *args,
        ),
{
    let base: u64 = radix.as_u64();
    let ghost whole = digits_of(distance as nat, radix.base());
    proof {
        lemma_digits_len_u64(distance, radix);
        lemma_digits_of_step(distance as nat, radix.base());
    }
    let mut digits: [u8; 64] = [NUL; 64];
    let mut start: usize = 63;
    digits[63] = digit_char(distance % base);
    let mut rest: u64 = distance / base;
    assert(digits@.skip(63) =~= seq![digit_byte((distance % base) as nat)]);
    assert(whole =~= (if rest > 0 {
        digits_of(rest as nat, radix.base())
    } else {
        Seq::empty()
    }) + digits@.skip(63));
    while rest > 0
        invariant
            start < 64,
            base == radix.base(),
            whole.len() <= 64,
            whole == (if rest > 0 {
                digits_of(rest as nat, radix.base())
            } else {
                Seq::empty()
            }) + digits@.skip(start as int),
        decreases rest,
    {
        let ghost behind = digits@.skip(start as int);
        let ghost front = if rest / base > 0 {
            digits_of((rest / base) as nat, radix.base())
        } else {
            Seq::empty()
        };
        proof {
            lemma_digits_len_u64(rest, radix);
            lemma_digits_of_step(rest as nat, radix.base());
            assert(whole =~= front + (seq![digit_byte((rest % base) as nat)] + behind));
        }
        start = start - 1;
        digits[start] = digit_char(rest % base);
        assert(digits@.skip(start as int) =~= seq![digit_byte((rest % base) as nat)] + behind);
        rest = rest / base;
    }
    let sign: u8 = match sign_byte(negative, args) {
        Some(sign) => sign,
        None => NUL,
    };
    let mark: u8 = if args.alternate {
        match radix {
            Radix::Binary => LOWER_B,
            Radix::Octal => LOWER_O,
            Radix::Decimal => NUL,
            Radix::Hex => LOWER_X,
        }
    } else {
        NUL
    };
    let sign_len: usize = if sign == NUL {
        0
    } else {
        1
    };
    let prefix_len: usize = if mark == NUL {
        0
    } else {
        2
    };
    let pad = padding(sign_len + prefix_len + (64 - start), args);
    let text = Rendered { pad, sign, mark, digits, start };
    assert(text.sign_part() =~= sign_text(negative, *args));
    assert(text.prefix_part() =~= prefix_text(radix, *args));
    assert(digits@.skip(start as int) =~= whole);
    text
}

/// Lays out the unsigned number `value` in the base `radix`.
pub fn render_unsigned(value: u64, radix: Radix, args: &Args) -> (text: Rendered)
    ensures
        text@ == unsigned_text(value, radix, *args),
{
    render(false, value, radix, args)
}

/// Lays out the signed number `value` in decimal.
pub fn render_signed(value: i64, args: &Args) -> (text: Rendered)
    ensures
        text@ == signed_text(value, *args),
{
    let distance: u64 = if value < 0 {
        (-(value + 1)) as u64 + 1
    } else {
        value as u64
    };
    render(value < 0, distance, Radix::Decimal, args)
}

/// One part of a message: literal text, or a number with its layout.
#[derive(Clone, Copy, Debug)]
pub enum Piece<'a> {
    Text(&'a [u8]),
    Unsigned(u64, Radix, Args),
    Signed(i64, Args),
}

impl<'a> Piece<'a> {
    /// What this part of the message reads as.
    pub open spec fn text(self) -> Seq<u8> {
        match self {
            Piece::Text(text) => text@,
            Piece::Unsigned(value, radix, args) => unsigned_text(value, radix, args),
            Piece::Signed(value, args) => signed_text(value, args),
        }
    }
}

/// What a message reads as: the texts of its parts, in their order.
pub open spec fn pieces_text(pieces: Seq<Piece<'_>>) -> Seq<u8>
    decreases pieces.len(),
{
    if pieces.len() == 0 {
        Seq::empty()
    } else {
        pieces_text(pieces.drop_last()) + pieces.last().text()
    }
}

/// Two writes in a row take what one write of both texts would take.
proof fn lemma_write_twice(
    region: Seq<u8>,
    between: Seq<u8>,
    rest: Seq<u8>,
    first: Seq<u8>,
    second: Seq<u8>,
)
    requires
        between == region.skip(fitting(first.len(), region.len()) as int),
        rest == between.skip(fitting(second.len(), between.len()) as int),
    ensures
        rest == region.skip(fitting((first + second).len(), region.len()) as int),
        (first + second).take(fitting((first + second).len(), region.len()) as int) == first.take(
            fitting(first.len(), region.len()) as int,
        ) + second.take(fitting(second.len(), between.len()) as int),
{
}

/// Writes a message into the free region of `writer`, part by part, as far
/// as it fits.
pub fn write_fmt(writer: &mut BytesWriter<'_>, pieces: &[Piece<'_>])
    ensures
        final(writer).bytes@ == old(writer).bytes@.skip(
            fitting(pieces_text(pieces@).len(), old(writer).room()) as int,
        ),
        final(old(writer).bytes)@ == pieces_text(pieces@).take(
            fitting(pieces_text(pieces@).len(), old(writer).room()) as int,
        ) + final(final(writer).bytes)@,
{
    let mut i: usize = 0;
    assert(pieces@.take(0) =~= Seq::empty());
    while i < pieces.len()
        invariant
            0 <= i <= pieces.len(),
            writer.bytes@ == old(writer).bytes@.skip(
                fitting(pieces_text(pieces@.take(i as int)).len(), old(writer).room()) as int,
            ),
            final(old(writer).bytes)@ == pieces_text(pieces@.take(i as int)).take(
                fitting(pieces_text(pieces@.take(i as int)).len(), old(writer).room()) as int,
            ) + final(writer.bytes)@,
        decreases pieces.len() - i,
    {
        let ghost done = pieces_text(pieces@.take(i as int));
        let ghost between = writer.bytes@;
        proof {
            assert(pieces@.take(i + 1).drop_last() =~= pieces@.take(i as int));
            assert(pieces@.take(i + 1).last() == pieces@[i as int]);
            lemma_write_twice(
                old(writer).bytes@,
                between,
                between.skip(fitting(pieces@[i as int].text().len(), between.len()) as int),
                done,
                pieces@[i as int].text(),
            );
        }
        match pieces[i] {
            Piece::Text(text) => {
                writer.write_str(text);
            },
            Piece::Unsigned(value, radix, args) => {
                render_unsigned(value, radix, &args).write_to(writer);
            },
            Piece::Signed(value, args) => {
                render_signed(value, &args).write_to(writer);
            },
        }
        i += 1;
    }
    assert(pieces@.take(i as int) =~= pieces@);
}

/// The width that leaves room for one character less: an open width stays
/// open, and a width of zero stays zero.
pub open spec fn narrower(width: u32) -> u32 {
    if width == u32::MAX || width == 0 {
        width
    } else {
        (width - 1) as u32
    }
}

/// A sign in front of a number takes one column of the field and changes
/// nothing else: it stands right behind the blanks in front, and without it
/// the text is the one laid out without a sign in a field one character
/// narrower.
proof fn lemma_sign_takes_one_column(
    sign: u8,
    prefix: Seq<u8>,
    digits: Seq<u8>,
    args: Args,
    less: Args,
)
    requires
        less.width == narrower(args.width),
        less.left_justified == args.left_justified,
        less.zero_padded == args.zero_padded,
    ensures
        ({
            let text = padded(seq![sign], prefix, digits, args);
            let plain = padded(Seq::empty(), prefix, digits, less);
            let at = spec_padding(1 + prefix.len() + digits.len(), args).before as int;
            &&& text.len() == plain.len() + 1
            &&& 0 <= at < text.len()
            &&& text[at] == sign
            &&& text.take(at) == repeated(SPACE, at as nat)
            &&& text.take(at) + text.skip(at + 1) == plain
            &&& (args.left_justified || args.zero_padded || spec_to_count(args.width) is Implied)
                ==> at == 0
        }),
{
    let content = 1 + prefix.len() + digits.len();
    let fill = fill_len(content, args);
    let text = padded(seq![sign], prefix, digits, args);
    let plain = padded(Seq::empty(), prefix, digits, less);
    let blanks = repeated(SPACE, fill);
    let zeros = repeated(ZERO, fill);
    let none = Seq::<u8>::empty();
    assert(fill == fill_len((content - 1) as nat, less));
    assert(repeated(SPACE, 0) =~= none);
    assert(repeated(ZERO, 0) =~= none);
    if args.left_justified {
        assert(text =~= seq![sign] + prefix + digits + blanks);
        assert(plain =~= prefix + digits + blanks);
        assert(text.take(0) + text.skip(1) =~= plain);
        assert(text.take(0) =~= repeated(SPACE, 0));
    } else if args.zero_padded {
        assert(text =~= seq![sign] + prefix + zeros + digits);
        assert(plain =~= prefix + zeros + digits);
        assert(text.take(0) + text.skip(1) =~= plain);
        assert(text.take(0) =~= repeated(SPACE, 0));
    } else {
        assert(text =~= blanks + seq![sign] + prefix + digits);
        assert(plain =~= blanks + prefix + digits);
        assert(text.take(fill as int) =~= blanks);
        assert(text.skip(fill as int + 1) =~= prefix + digits);
        assert(text.take(fill as int) + text.skip(fill as int + 1) =~= plain);
    }
}

/// With `always_sign` set, the text of an unsigned number has a `+` right
/// behind the blanks in front, before prefix, zeros and digits. Nothing else
/// changes: without the `+`, it is the text laid out without the flag in a
/// field one character narrower. Where there are no blanks in front, the `+`
/// is the first character.
pub proof fn lemma_always_sign_unsigned(value: u64, radix: Radix, args: Args)
    requires
        args.always_sign,
    ensures
        ({
            let text = unsigned_text(value, radix, args);
            let plain = unsigned_text(
                value,
                radix,
                Args { always_sign: false, width: narrower(args.width), ..args },
            );
            &&& text.len() == plain.len() + 1
            &&& (args.left_justified || args.zero_padded || spec_to_count(args.width) is Implied)
                ==> text == seq![PLUS] + plain
            &&& exists|at: int|
                0 <= at < text.len() && text[at] == PLUS && text.take(at) == repeated(
                    SPACE,
                    at as nat,
                ) && text.take(at) + text.skip(at + 1) == plain
        }),
{
    let digits = digits_of(value as nat, radix.base());
    let prefix = prefix_text(radix, args);
    let less = Args { always_sign: false, width: narrower(args.width), ..args };
    let text = unsigned_text(value, radix, args);
    let plain = unsigned_text(value, radix, less);
    lemma_sign_takes_one_column(PLUS, prefix, digits, args, less);
    assert(prefix_text(radix, less) == prefix);
    assert(text == padded(seq![PLUS], prefix, digits, args));
    assert(plain == padded(Seq::empty(), prefix, digits, less));
    let at = spec_padding(1 + prefix.len() + digits.len(), args).before as int;
    if at == 0 {
        assert(text =~= seq![PLUS] + plain) by {
            assert(text.take(0) =~= Seq::<u8>::empty());
            assert(text =~= seq![text[0]] + text.skip(1));
        }
    }
}

/// With `always_sign` set, the text of a signed number that is not negative
/// has a `+` right behind the blanks in front, before zeros and digits.
/// Nothing else changes: without the `+`, it is the text laid out without the
/// flag in a field one character narrower. Where there are no blanks in
/// front, the `+` is the first character.
pub proof fn lemma_always_sign_signed(value: i64, args: Args)
    requires
        args.always_sign,
        0 <= value,
    ensures
        ({
            let text = signed_text(value, args);
            let plain = signed_text(
                value,
                Args { always_sign: false, width: narrower(args.width), ..args },
            );
            &&& text.len() == plain.len() + 1
            &&& (args.left_justified || args.zero_padded || spec_to_count(args.width) is Implied)
                ==> text == seq![PLUS] + plain
            &&& exists|at: int|
                0 <= at < text.len() && text[at] == PLUS && text.take(at) == repeated(
                    SPACE,
                    at as nat,
                ) && text.take(at) + text.skip(at + 1) == plain
        }),
{
    let digits = digits_of(magnitude(value), 10);
    let less = Args { always_sign: false, width: narrower(args.width), ..args };
    let text = signed_text(value, args);
    let plain = signed_text(value, less);
    lemma_sign_takes_one_column(PLUS, Seq::empty(), digits, args, less);
    assert(text == padded(seq![PLUS], Seq::empty(), digits, args));
    assert(plain == padded(Seq::empty(), Seq::empty(), digits, less));
    let at = spec_padding(1 + digits.len(), args).before as int;
    if at == 0 {
        assert(text =~= seq![PLUS] + plain) by {
            assert(text.take(0) =~= Seq::<u8>::empty());
            assert(text =~= seq![text[0]] + text.skip(1));
        }
    }
}

} // verus!
