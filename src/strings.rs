//! String utilities: camelCase conversion and Roman numeral parsing.

pub mod chars;
pub mod camel_case_converter;
pub mod roman_number_converter;
