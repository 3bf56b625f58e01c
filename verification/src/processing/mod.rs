pub mod utf8;
pub mod ansi;
pub mod text;
pub mod send;
