use entity_editor::schema::{infer_dtype, DataType};
use entity_editor::text::{eq_ignore_ascii_case, is_f64_str, is_i64_str, parse_trimmed_u32};

fn strings(v: &[&str]) -> Vec<String> {
    v.iter().map(|s| s.to_string()).collect()
}

#[test]
fn integers_infer_int() {
    assert_eq!(infer_dtype(&strings(&["1", "2", "3"])), DataType::Int);
}

#[test]
fn decimals_and_blanks_infer_float() {
    assert_eq!(infer_dtype(&strings(&["1.5", "2", ""])), DataType::Float);
}

#[test]
fn words_infer_text() {
    assert_eq!(infer_dtype(&strings(&["1", "abc"])), DataType::Text);
}

#[test]
fn no_samples_infer_text() {
    assert_eq!(infer_dtype(&[]), DataType::Text);
}

#[test]
fn blanks_alone_infer_float() {
    assert_eq!(infer_dtype(&strings(&["", ""])), DataType::Float);
}

#[test]
fn i64_bounds() {
    assert!(is_i64_str("9223372036854775807"));
    assert!(!is_i64_str("9223372036854775808"));
    assert!(is_i64_str("-9223372036854775808"));
    assert!(!is_i64_str("-9223372036854775809"));
    assert!(is_i64_str("+5"));
    assert!(is_i64_str("007"));
    assert!(!is_i64_str("-"));
    assert!(!is_i64_str(""));
    assert!(!is_i64_str(" 1"));
    assert!(!is_i64_str("1.0"));
    assert_eq!(infer_dtype(&strings(&["9223372036854775808"])), DataType::Float);
}

#[test]
fn f64_grammar() {
    for s in ["1", "1.", ".5", "-1.5e10", "1E+5", "2e-3", "inf", "-Infinity", "NaN", "+nan", "00.00"] {
        assert!(is_f64_str(s), "{s}");
        assert_eq!(is_f64_str(s), s.parse::<f64>().is_ok(), "{s}");
    }
    for s in ["", ".", "e5", "1e", "1e+", "1.2.3", "abc", " 1", "1_0", "infinit", "--1", "0x10"] {
        assert!(!is_f64_str(s), "{s}");
        assert_eq!(is_f64_str(s), s.parse::<f64>().is_ok(), "{s}");
    }
}

#[test]
fn ascii_case_insensitive_match() {
    assert!(eq_ignore_ascii_case("CharacterUnique", "characterUNIQUE"));
    assert!(!eq_ignore_ascii_case("Unique", "CharacterUnique"));
    assert!(eq_ignore_ascii_case("Ä1", "Ä1"));
    assert!(!eq_ignore_ascii_case("ä", "Ä"));
}

#[test]
fn trimmed_u32_parse() {
    assert_eq!(parse_trimmed_u32(" 42 "), Some(42));
    assert_eq!(parse_trimmed_u32("+7"), Some(7));
    assert_eq!(parse_trimmed_u32("4294967295"), Some(4294967295));
    assert_eq!(parse_trimmed_u32("4294967296"), None);
    assert_eq!(parse_trimmed_u32("-1"), None);
    assert_eq!(parse_trimmed_u32("\u{3000}9\t"), Some(9));
    assert_eq!(parse_trimmed_u32(""), None);
    assert_eq!(parse_trimmed_u32("1 2"), None);
}
