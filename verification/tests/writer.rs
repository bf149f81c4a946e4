use numtext::writer::BytesWriter;

#[test]
fn write_str_truncates_at_the_end_of_the_region() {
    let mut region = [0u8; 4];
    let mut writer = BytesWriter::new(&mut region);
    writer.write_str(b"ab");
    assert_eq!(writer.remaining(), 2);
    writer.write_str(b"cde");
    assert_eq!(writer.remaining(), 0);
    writer.write_str(b"f");
    assert_eq!(writer.bytes.len(), 0);
    assert_eq!(&region, b"abcd");
}

#[test]
fn write_str_leaves_the_free_bytes_alone() {
    let mut region = [b'.'; 6];
    let mut writer = BytesWriter::new(&mut region);
    writer.write_str(b"ab");
    writer.write_str(b"");
    assert_eq!(writer.bytes, b"....");
    assert_eq!(&region, b"ab....");
}

#[test]
fn write_str_into_an_empty_region_drops_everything() {
    let mut region: [u8; 0] = [];
    let mut writer = BytesWriter::new(&mut region);
    writer.write_str(b"abc");
    assert_eq!(writer.remaining(), 0);
}

#[test]
fn new_holds_the_whole_region() {
    let mut region = [1u8, 2, 3];
    let writer = BytesWriter::new(&mut region);
    assert_eq!(writer.remaining(), 3);
    assert_eq!(writer.bytes, &[1u8, 2, 3]);
}
