//! Small utilities: string case conversion, Roman numeral parsing.

pub mod strings;
