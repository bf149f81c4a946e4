use numtext::digits::Radix;

#[test]
fn as_u64_gives_the_base() {
    assert_eq!(Radix::Binary.as_u64(), 2);
    assert_eq!(Radix::Octal.as_u64(), 8);
    assert_eq!(Radix::Decimal.as_u64(), 10);
    assert_eq!(Radix::Hex.as_u64(), 16);
}
