use crate::api::write::{pieces_text, Piece};
use crate::cstr::{cstr, lemma_nul_position, truncated, until_nul, zero_filled, SmallCString};
use crate::writer::NUL;
use vstd::prelude::*;
use vstd::string::StringSliceAdditionalSpecFns;

verus! {

/// The severity under which a fatal termination is logged.
pub const LEVEL_FATAL: u32 = 60;

/// Where in the source a termination came from.
#[derive(Clone, Copy, Debug)]
pub struct Location<'a> {
    pub file: &'a [u8],
    pub line: u32,
}

/// What a termination has to say.
#[derive(Clone, Copy, Debug)]
pub enum Message<'a> {
    /// A message that still has to be formatted.
    Format(&'a [Piece<'a>]),
    /// A message in plain text.
    Text(&'a [u8]),
    /// Neither of the two.
    Opaque,
}

/// All that is handed to the log when the program ends abnormally.
pub struct Record {
    pub file: SmallCString<128>,
    pub line: u32,
    pub level: u32,
    pub format: SmallCString<32>,
    pub message: SmallCString<256>,
}

/// The file name that stands in where the location is not known.
pub open spec fn unknown_file() -> Seq<u8> {
    "<unknown>".spec_bytes()
}

/// The message that stands in where the termination carries none.
pub open spec fn opaque_message() -> Seq<u8> {
    "Box<dyn Any>".spec_bytes()
}

/// The template by which the log formats the message.
pub open spec fn template() -> Seq<u8> {
    "panicked: %s".spec_bytes()
}

/// The text of a message before it is cut to its storage.
pub open spec fn message_text(message: Message<'_>) -> Seq<u8> {
    match message {
        Message::Format(pieces) => pieces_text(pieces@),
        Message::Text(text) => until_nul(text@),
        Message::Opaque => opaque_message(),
    }
}

/// Renders the message of a termination into fixed storage: a message that
/// needs formatting is formatted, plain text is copied up to its first `NUL`,
/// and a fixed text stands in where there is neither. What does not fit into
/// 255 characters is dropped.
pub fn extract_message(message: &Message<'_>) -> (text: SmallCString<256>)
    ensures
        text.bytes() == zero_filled(truncated(message_text(*message), 255), 256),
{
    match message {
        Message::Format(pieces) => SmallCString::from_format(pieces),
        Message::Text(text) => cstr(text),
        Message::Opaque => {
            proof {
                reveal_strlit("Box<dyn Any>");
                vstd::string::is_ascii_spec_bytes("Box<dyn Any>");
                lemma_nul_position(opaque_message(), 12);
                assert(until_nul(opaque_message()) =~= opaque_message());
            }
            cstr("Box<dyn Any>".as_bytes())
        },
    }
}

/// Puts together what is logged when the program ends abnormally: the file
/// name cut to 127 characters and the line, or `<unknown>` and line 0 where
/// the location is not known; the fatal level; the template; and the message.
pub fn capture(location: Option<Location<'_>>, message: &Message<'_>) -> (record: Record)
    ensures
        record.file.bytes() == zero_filled(
            match location {
                Some(location) => truncated(until_nul(location.file@), 127),
                None => unknown_file(),
            },
            128,
        ),
        record.line == match location {
            Some(location) => location.line,
            None => 0,
        },
        record.level == LEVEL_FATAL,
        record.format.bytes() == zero_filled(template(), 32),
        record.message.bytes() == zero_filled(truncated(message_text(*message), 255), 256),
{
    proof {
        reveal_strlit("<unknown>");
        reveal_strlit("panicked: %s");
        vstd::string::is_ascii_spec_bytes("<unknown>");
        vstd::string::is_ascii_spec_bytes("panicked: %s");
        lemma_nul_position(unknown_file(), 9);
        lemma_nul_position(template(), 12);
        assert(truncated(until_nul(unknown_file()), 127) =~= unknown_file());
        assert(truncated(until_nul(template()), 31) =~= template());
    }
    let (file, line): (&[u8], u32) = match location {
        Some(location) => (location.file, location.line),
        None => ("<unknown>".as_bytes(), 0),
    };
    let message = extract_message(message);
    let file = cstr::<128>(file);
    let format = cstr::<32>("panicked: %s".as_bytes());
    Record { file, line, level: LEVEL_FATAL, format, message }
}

} // verus!
