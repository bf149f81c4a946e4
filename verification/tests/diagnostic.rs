use numtext::api::write::{Args, Piece};
use numtext::diagnostic::{capture, extract_message, Location, Message, LEVEL_FATAL};
use numtext::digits::Radix;

fn text_of(region: &[u8]) -> &[u8] {
    let end = region.iter().position(|byte| *byte == 0).unwrap();
    assert!(region[end..].iter().all(|byte| *byte == 0));
    &region[..end]
}

#[test]
fn capture_without_location_and_message_uses_the_placeholders() {
    let record = capture(None, &Message::Opaque);
    assert_eq!(record.file.as_c().len(), 128);
    assert_eq!(text_of(record.file.as_c()), b"<unknown>");
    assert_eq!(record.line, 0);
    assert_eq!(record.level, 60);
    assert_eq!(record.format.as_c().len(), 32);
    assert_eq!(text_of(record.format.as_c()), b"panicked: %s");
    assert_eq!(record.message.as_c().len(), 256);
    assert_eq!(text_of(record.message.as_c()), b"Box<dyn Any>");
}

#[test]
fn capture_takes_over_location_and_text() {
    let location = Location { file: b"src/main.c", line: 17 };
    let record = capture(Some(location), &Message::Text(b"out of memory"));
    assert_eq!(text_of(record.file.as_c()), b"src/main.c");
    assert_eq!(record.line, 17);
    assert_eq!(record.level, LEVEL_FATAL);
    assert_eq!(text_of(record.format.as_c()), b"panicked: %s");
    assert_eq!(text_of(record.message.as_c()), b"out of memory");
}

#[test]
fn capture_cuts_a_long_file_name() {
    let name = [b'a'; 300];
    let record = capture(Some(Location { file: &name, line: u32::MAX }), &Message::Opaque);
    assert_eq!(text_of(record.file.as_c()), &name[..127]);
    assert_eq!(record.line, u32::MAX);
}

#[test]
fn capture_formats_a_structured_message() {
    let pieces = [
        Piece::Text(b"index out of bounds: the len is "),
        Piece::Unsigned(3, Radix::Decimal, Args::natural()),
        Piece::Text(b" but the index is "),
        Piece::Signed(-1, Args::natural()),
    ];
    let record = capture(None, &Message::Format(&pieces));
    assert_eq!(
        text_of(record.message.as_c()),
        b"index out of bounds: the len is 3 but the index is -1"
    );
}

#[test]
fn extract_message_cuts_a_long_message() {
    let long = [b'x'; 1000];
    let message = extract_message(&Message::Text(&long));
    assert_eq!(text_of(message.as_c()), &long[..255]);
    let wide = [Piece::Unsigned(1, Radix::Decimal, Args { width: 100000, ..Args::natural() })];
    let message = extract_message(&Message::Format(&wide));
    assert_eq!(text_of(message.as_c()), &[b' '; 255]);
}

#[test]
fn extract_message_ends_plain_text_at_its_first_nul() {
    let message = extract_message(&Message::Text(b"ab\0cd"));
    assert_eq!(text_of(message.as_c()), b"ab");
}

#[test]
fn extract_message_of_an_empty_message_is_empty() {
    assert_eq!(text_of(extract_message(&Message::Text(b"")).as_c()), b"");
    assert_eq!(text_of(extract_message(&Message::Format(&[])).as_c()), b"");
}
