use rust_utils::strings::roman_number_converter::{
    roman_number_to_int, validate_roman_number, RomanError,
};

#[test]
fn test_error_when_not_roman_number() {
    assert_eq!(
        roman_number_to_int("XQI").map_err(|e| e.message()),
        Err("String with the character Q is not a roman digit number.".to_string())
    );
}

#[test]
fn test_error_when_empty_string() {
    assert_eq!(
        roman_number_to_int("").map_err(|e| e.message()),
        Err("String shouldn't be empty".to_string())
    );
    assert_eq!(
        roman_number_to_int("     ").map_err(|e| e.message()),
        Err("String shouldn't be empty".to_string())
    );
}

// The parser follows the permissive scan: text that breaks the classical
// grammar but holds only Roman digits is read, not refused.
#[test]
fn test_error_when_invalid_roman_syntax() {
    assert_eq!(roman_number_to_int("IIII"), Ok(4));
    assert_eq!(roman_number_to_int("IC"), Ok(99));
    assert_eq!(roman_number_to_int("VV"), Ok(10));
    assert!(!validate_roman_number("IIII"));
    assert!(!validate_roman_number("IC"));
    assert!(!validate_roman_number("VV"));
}

#[test]
fn test_single_digit() {
    assert_eq!(roman_number_to_int("X").unwrap(), 10);
    assert_eq!(roman_number_to_int("V").unwrap(), 5);
    assert_eq!(roman_number_to_int("I").unwrap(), 1);
    assert_eq!(roman_number_to_int("L").unwrap(), 50);
    assert_eq!(roman_number_to_int("C").unwrap(), 100);
    assert_eq!(roman_number_to_int("D").unwrap(), 500);
    assert_eq!(roman_number_to_int("M").unwrap(), 1000);
}

#[test]
fn test_addition() {
    assert_eq!(roman_number_to_int("XII").unwrap(), 12);
    assert_eq!(roman_number_to_int("VI").unwrap(), 6);
    assert_eq!(roman_number_to_int("III").unwrap(), 3);
    assert_eq!(roman_number_to_int("LV").unwrap(), 55);
    assert_eq!(roman_number_to_int("CC").unwrap(), 200);
    assert_eq!(roman_number_to_int("DV").unwrap(), 505);
    assert_eq!(roman_number_to_int("MII").unwrap(), 1002);
}

#[test]
fn test_subtraction() {
    assert_eq!(roman_number_to_int("IX").unwrap(), 9);
    assert_eq!(roman_number_to_int("IV").unwrap(), 4);
    assert_eq!(roman_number_to_int("XL").unwrap(), 40);
    assert_eq!(roman_number_to_int("XC").unwrap(), 90);
    assert_eq!(roman_number_to_int("CD").unwrap(), 400);
    assert_eq!(roman_number_to_int("CM").unwrap(), 900);
}

#[test]
fn test_multiple_actions() {
    assert_eq!(roman_number_to_int("MDCLXVI").unwrap(), 1666);
    assert_eq!(roman_number_to_int("MMMCMXCIX").unwrap(), 3999);
}

#[test]
fn roman_empty_and_blank_are_empty_input() {
    assert_eq!(roman_number_to_int(""), Err(RomanError::EmptyInput));
    assert_eq!(roman_number_to_int("   "), Err(RomanError::EmptyInput));
    assert_eq!(roman_number_to_int("\t\n \u{3000}"), Err(RomanError::EmptyInput));
}

#[test]
fn roman_invalid_symbol_reports_first_offender() {
    assert_eq!(roman_number_to_int("XQI"), Err(RomanError::InvalidSymbol('Q')));
    assert_eq!(roman_number_to_int("iv"), Err(RomanError::InvalidSymbol('i')));
    assert_eq!(roman_number_to_int("XIZ"), Err(RomanError::InvalidSymbol('Z')));
    assert_eq!(roman_number_to_int("X IV"), Err(RomanError::InvalidSymbol(' ')));
    assert_eq!(roman_number_to_int("AQ"), Err(RomanError::InvalidSymbol('A')));
}

#[test]
fn roman_scenarios() {
    assert_eq!(roman_number_to_int("XII"), Ok(12));
    assert_eq!(roman_number_to_int("IX"), Ok(9));
    assert_eq!(roman_number_to_int("MDCLXVI"), Ok(1666));
    assert_eq!(roman_number_to_int("MMMCMXCIX"), Ok(3999));
}

#[test]
fn roman_surrounding_white_space_is_trimmed() {
    assert_eq!(roman_number_to_int("  XIV \n"), Ok(14));
    assert_eq!(roman_number_to_int("\u{a0}MCM\u{2028}"), Ok(1900));
}

#[test]
fn roman_error_messages() {
    assert_eq!(RomanError::EmptyInput.message(), "String shouldn't be empty");
    assert_eq!(
        RomanError::InvalidSymbol('7').message(),
        "String with the character 7 is not a roman digit number."
    );
}

#[test]
fn roman_permissive_scan_beyond_classical_range() {
    assert_eq!(roman_number_to_int("MMMM"), Ok(4000));
    assert_eq!(roman_number_to_int("IM"), Ok(999));
    assert_eq!(roman_number_to_int("IIX"), Ok(10));
}

#[test]
fn validate_accepts_classical_numerals() {
    assert!(validate_roman_number("I"));
    assert!(validate_roman_number("XIV"));
    assert!(validate_roman_number("XCIX"));
    assert!(validate_roman_number("MDCLXVI"));
    assert!(validate_roman_number("MMMCMXCIX"));
    assert!(validate_roman_number("MMMDCCCLXXXVIII"));
    assert!(validate_roman_number("  MCM\t"));
}

#[test]
fn validate_refuses_other_text() {
    assert!(!validate_roman_number(""));
    assert!(!validate_roman_number("   "));
    assert!(!validate_roman_number("XQI"));
    assert!(!validate_roman_number("MMMM"));
    assert!(!validate_roman_number("IM"));
    assert!(!validate_roman_number("XXXX"));
    assert!(!validate_roman_number("VX"));
    assert!(!validate_roman_number("IIX"));
    assert!(!validate_roman_number("MMMDCCCLXXXVIIII"));
    assert!(!validate_roman_number("xiv"));
}
