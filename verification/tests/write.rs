use numtext::api::write::{
    padding, render_signed, render_unsigned, sign_byte, to_count, write_fmt, Args, Count, Piece,
    Rendered,
};
use numtext::digits::Radix;
use numtext::writer::BytesWriter;

fn natural() -> Args {
    Args::natural()
}

fn collect(text: &Rendered) -> Vec<u8> {
    let mut bytes = Vec::new();
    let mut index = 0u64;
    while let Some(byte) = text.byte_at(index) {
        bytes.push(byte);
        index += 1;
    }
    assert_eq!(index, text.len());
    bytes
}

fn unsigned(value: u64, radix: Radix, args: Args) -> Vec<u8> {
    collect(&render_unsigned(value, radix, &args))
}

fn signed(value: i64, args: Args) -> Vec<u8> {
    collect(&render_signed(value, &args))
}

#[test]
fn to_count_reads_the_sentinel_as_implied() {
    assert!(matches!(to_count(u32::MAX), Count::Implied));
    assert!(matches!(to_count(0), Count::Is(0)));
    assert!(matches!(to_count(6), Count::Is(6)));
    assert!(matches!(to_count(u32::MAX - 1), Count::Is(4294967294)));
}

#[test]
fn always_sign_prepends_plus() {
    let args = Args { always_sign: true, ..natural() };
    assert_eq!(unsigned(7, Radix::Decimal, args), b"+7");
    assert_eq!(signed(7, args), b"+7");
    assert_eq!(signed(0, args), b"+0");
    assert_eq!(signed(-7, args), b"-7");
}

#[test]
fn zero_padded_fills_with_zeros_in_front() {
    let args = Args { width: 6, zero_padded: true, ..natural() };
    assert_eq!(unsigned(42, Radix::Decimal, args), b"000042");
    assert_eq!(signed(-42, args), b"-00042");
}

#[test]
fn left_justified_fills_with_blanks_behind() {
    let args = Args { width: 6, left_justified: true, ..natural() };
    assert_eq!(unsigned(42, Radix::Decimal, args), b"42    ");
    assert_eq!(signed(-42, args), b"-42   ");
}

#[test]
fn left_justified_wins_over_zero_padded() {
    let args = Args { width: 6, left_justified: true, zero_padded: true, ..natural() };
    assert_eq!(unsigned(42, Radix::Decimal, args), b"42    ");
}

#[test]
fn width_alone_fills_with_blanks_in_front() {
    let args = Args { width: 6, ..natural() };
    assert_eq!(unsigned(42, Radix::Decimal, args), b"    42");
    assert_eq!(signed(-42, args), b"   -42");
}

#[test]
fn a_width_of_zero_and_a_narrow_width_add_nothing() {
    assert_eq!(unsigned(12345, Radix::Decimal, Args { width: 0, ..natural() }), b"12345");
    assert_eq!(unsigned(12345, Radix::Decimal, Args { width: 3, ..natural() }), b"12345");
    assert_eq!(unsigned(12345, Radix::Decimal, Args { width: 5, ..natural() }), b"12345");
}

#[test]
fn precision_does_not_change_an_integer() {
    assert_eq!(unsigned(42, Radix::Decimal, Args { precision: 0, ..natural() }), b"42");
    assert_eq!(signed(-42, Args { precision: 9, ..natural() }), b"-42");
}

#[test]
fn natural_forms_in_every_base() {
    assert_eq!(unsigned(0, Radix::Decimal, natural()), b"0");
    assert_eq!(unsigned(255, Radix::Hex, natural()), b"ff");
    assert_eq!(unsigned(255, Radix::Octal, natural()), b"377");
    assert_eq!(unsigned(5, Radix::Binary, natural()), b"101");
    assert_eq!(unsigned(u64::MAX, Radix::Decimal, natural()), b"18446744073709551615");
    assert_eq!(unsigned(u64::MAX, Radix::Hex, natural()), b"ffffffffffffffff");
    assert_eq!(unsigned(u64::MAX, Radix::Octal, natural()), b"1777777777777777777777");
    assert_eq!(
        unsigned(u64::MAX, Radix::Binary, natural()),
        b"1111111111111111111111111111111111111111111111111111111111111111"
    );
    assert_eq!(signed(i64::MIN, natural()), b"-9223372036854775808");
    assert_eq!(signed(i64::MAX, natural()), b"9223372036854775807");
}

#[test]
fn alternate_names_the_base() {
    let args = Args { alternate: true, ..natural() };
    assert_eq!(unsigned(255, Radix::Hex, args), b"0xff");
    assert_eq!(unsigned(8, Radix::Octal, args), b"0o10");
    assert_eq!(unsigned(5, Radix::Binary, args), b"0b101");
    assert_eq!(unsigned(5, Radix::Decimal, args), b"5");
}

#[test]
fn sign_prefix_zeros_and_digits_come_in_this_order() {
    let args = Args {
        width: 10,
        alternate: true,
        zero_padded: true,
        always_sign: true,
        ..natural()
    };
    assert_eq!(unsigned(255, Radix::Hex, args), b"+0x00000ff");
    let blanks = Args { zero_padded: false, ..args };
    assert_eq!(unsigned(255, Radix::Hex, blanks), b"     +0xff");
    let left = Args { left_justified: true, ..args };
    assert_eq!(unsigned(255, Radix::Hex, left), b"+0xff     ");
}

#[test]
fn padding_puts_the_fill_on_one_side() {
    let wide = Args { width: 8, ..natural() };
    let pad = padding(3, &wide);
    assert_eq!((pad.before, pad.zeros, pad.after), (5, 0, 0));
    let pad = padding(3, &Args { zero_padded: true, ..wide });
    assert_eq!((pad.before, pad.zeros, pad.after), (0, 5, 0));
    let pad = padding(3, &Args { left_justified: true, zero_padded: true, ..wide });
    assert_eq!((pad.before, pad.zeros, pad.after), (0, 0, 5));
    let pad = padding(9, &wide);
    assert_eq!((pad.before, pad.zeros, pad.after), (0, 0, 0));
    let pad = padding(3, &natural());
    assert_eq!((pad.before, pad.zeros, pad.after), (0, 0, 0));
}

#[test]
fn byte_at_ends_with_the_text() {
    let text = render_unsigned(42, Radix::Decimal, &Args { width: 4, ..natural() });
    assert_eq!(text.len(), 4);
    assert_eq!(text.byte_at(0), Some(b' '));
    assert_eq!(text.byte_at(2), Some(b'4'));
    assert_eq!(text.byte_at(3), Some(b'2'));
    assert_eq!(text.byte_at(4), None);
    assert_eq!(text.byte_at(u64::MAX), None);
}

#[test]
fn a_very_wide_field_is_read_without_being_stored() {
    let text = render_unsigned(1, Radix::Decimal, &Args { width: u32::MAX - 1, ..natural() });
    assert_eq!(text.len(), 4294967294);
    assert_eq!(text.byte_at(0), Some(b' '));
    assert_eq!(text.byte_at(4294967292), Some(b' '));
    assert_eq!(text.byte_at(4294967293), Some(b'1'));
    assert_eq!(text.byte_at(4294967294), None);
}

#[test]
fn write_to_truncates_at_the_end_of_the_region() {
    let mut region = [b'.'; 8];
    let mut writer = BytesWriter::new(&mut region[..3]);
    render_unsigned(12345, Radix::Decimal, &natural()).write_to(&mut writer);
    assert_eq!(writer.remaining(), 0);
    assert_eq!(&region, b"123.....");
}

#[test]
fn write_to_leaves_the_rest_of_the_region_alone() {
    let mut region = [b'.'; 8];
    let mut writer = BytesWriter::new(&mut region);
    render_signed(-5, &Args { width: 4, ..natural() }).write_to(&mut writer);
    assert_eq!(writer.remaining(), 4);
    assert_eq!(&region, b"  -5....");
}

#[test]
fn write_fmt_writes_the_pieces_in_order() {
    let mut region = [0u8; 16];
    let mut writer = BytesWriter::new(&mut region);
    let pieces = [
        Piece::Text(b"x="),
        Piece::Unsigned(255, Radix::Hex, Args { alternate: true, ..natural() }),
        Piece::Text(b";"),
    ];
    write_fmt(&mut writer, &pieces);
    assert_eq!(writer.remaining(), 9);
    assert_eq!(&region[..8], b"x=0xff;\0");
}

#[test]
fn natural_leaves_everything_open() {
    let args = Args::natural();
    assert_eq!(args.width, u32::MAX);
    assert_eq!(args.precision, u32::MAX);
    assert!(!args.alternate && !args.zero_padded && !args.left_justified && !args.always_sign);
}

#[test]
fn sign_byte_follows_the_number_and_the_flag() {
    let plain = Args::natural();
    let signed = Args { always_sign: true, ..plain };
    assert_eq!(sign_byte(true, &plain), Some(b'-'));
    assert_eq!(sign_byte(true, &signed), Some(b'-'));
    assert_eq!(sign_byte(false, &signed), Some(b'+'));
    assert_eq!(sign_byte(false, &plain), None);
}
