use numtext::api::write::{Args, Piece};
use numtext::cstr::{cstr, SmallCString};
use numtext::digits::Radix;

fn natural() -> Args {
    Args::natural()
}

#[test]
fn new_truncates_to_the_capacity() {
    let string = SmallCString::<5>::new(b"hello world");
    assert_eq!(string.as_c(), b"hell\0");
}

#[test]
fn new_zero_fills_behind_a_short_text() {
    let string = SmallCString::<8>::new(b"abc");
    assert_eq!(string.as_c(), b"abc\0\0\0\0\0");
}

#[test]
fn new_stops_at_an_embedded_nul() {
    let string = SmallCString::<8>::new(b"ab\0cdef");
    assert_eq!(string.as_c(), b"ab\0\0\0\0\0\0");
}

#[test]
fn new_of_nothing_is_the_empty_string() {
    let string = SmallCString::<3>::new(b"");
    assert_eq!(string.as_c(), b"\0\0\0");
}

#[test]
fn new_with_capacity_one_holds_the_terminator_alone() {
    let string = SmallCString::<1>::new(b"xyz");
    assert_eq!(string.as_c(), b"\0");
}

#[test]
fn new_fills_exactly_up_to_the_terminator() {
    let string = SmallCString::<4>::new(b"abc");
    assert_eq!(string.as_c(), b"abc\0");
}

#[test]
fn cstr_is_new() {
    let string = cstr::<5>(b"hello world");
    assert_eq!(string.as_c(), SmallCString::<5>::new(b"hello world").as_c());
    let short = cstr::<32>(b"panicked: %s");
    assert_eq!(&short.as_c()[..13], b"panicked: %s\0");
}

#[test]
fn from_format_truncates_to_the_capacity() {
    let pieces = [Piece::Unsigned(12345, Radix::Decimal, natural())];
    let string = SmallCString::<4>::from_format(&pieces);
    assert_eq!(string.as_c(), b"123\0");
}

#[test]
fn from_format_joins_the_pieces() {
    let pieces = [
        Piece::Text(b"index "),
        Piece::Unsigned(7, Radix::Decimal, natural()),
        Piece::Text(b" out of range for "),
        Piece::Signed(-3, natural()),
    ];
    let string = SmallCString::<40>::from_format(&pieces);
    assert_eq!(&string.as_c()[..30], b"index 7 out of range for -3\0\0\0");
    assert!(string.as_c()[27..].iter().all(|byte| *byte == 0));
}

#[test]
fn from_format_keeps_the_last_byte_when_a_piece_is_cut() {
    let pieces = [Piece::Text(b"ab"), Piece::Text(b"cdef"), Piece::Text(b"gh")];
    let string = SmallCString::<5>::from_format(&pieces);
    assert_eq!(string.as_c(), b"abcd\0");
}

#[test]
fn from_format_of_no_pieces_is_the_empty_string() {
    let string = SmallCString::<2>::from_format(&[]);
    assert_eq!(string.as_c(), b"\0\0");
}

#[test]
fn from_format_does_not_stop_at_a_nul_inside() {
    let pieces = [Piece::Text(b"a\0b")];
    let string = SmallCString::<6>::from_format(&pieces);
    assert_eq!(string.as_c(), b"a\0b\0\0\0");
}
