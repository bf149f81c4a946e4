pub mod parse;
pub mod to_str;
pub mod write;
