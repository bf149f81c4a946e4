pub mod api;
pub mod cstr;
pub mod diagnostic;
pub mod digits;
pub mod writer;
