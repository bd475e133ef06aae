use template_dedent::cook;
use template_dedent::EscapeError;

#[test]
fn test_keep_plain_text() {
    assert_eq!(cook("foo").unwrap().unwrap(), "foo");
}

#[test]
fn test_expand_simple_escapes() {
    assert_eq!(
        cook("\\` \\$ \\{ \\' \\\" \\\\ \\b \\f \\n \\r \\t \\v \\0")
            .unwrap()
            .unwrap(),
        "` $ { ' \" \\ \x08 \x0C \n \r \t \x0B \0"
    );
}

#[test]
fn test_expand_identity_escapes() {
    assert_eq!(cook("\\a \\% \\( \\)").unwrap().unwrap(), "a % ( )");
}

#[test]
fn test_teject_non_octal_8() {
    assert_eq!(
        cook("\\8").unwrap_err().message(),
        "\\8 and \\9 are not allowed in template strings."
    );
}

#[test]
fn test_reject_non_octal_9() {
    assert_eq!(
        cook("\\9").unwrap_err().message(),
        "\\8 and \\9 are not allowed in template strings."
    );
}

#[test]
fn test_reject_octal_single_digit() {
    assert_eq!(
        cook("\\7").unwrap_err().message(),
        "Octal escape sequences are not allowed in template strings."
    );
}

#[test]
fn test_reject_octal_leading_zero() {
    assert_eq!(
        cook("\\01").unwrap_err().message(),
        "Octal escape sequences are not allowed in template strings."
    );
}

#[test]
fn test_expand_hex_escapes() {
    assert_eq!(
        cook("\\x00 \\x61 \\xA0").unwrap().unwrap(),
        "\x00 \x61 \u{A0}"
    );
}

#[test]
fn test_reject_incomplete_hex_single_digit_non_eof() {
    assert_eq!(
        cook("\\x8%").unwrap_err().message(),
        "Invalid hexadecimal escape sequence"
    );
}

#[test]
fn test_reject_incomplete_hex_single_digit_eof() {
    assert_eq!(
        cook("\\x8").unwrap_err().message(),
        "Invalid hexadecimal escape sequence"
    );
}

#[test]
fn test_reject_incomplete_hex_no_digit_non_eof() {
    assert_eq!(
        cook("\\x%%").unwrap_err().message(),
        "Invalid hexadecimal escape sequence"
    );
}

#[test]
fn test_reject_incomplete_hex_no_digit_eof() {
    assert_eq!(
        cook("\\x").unwrap_err().message(),
        "Invalid hexadecimal escape sequence"
    );
}

#[test]
fn test_expand_simple_unicode_escapes() {
    assert_eq!(
        cook("\\u0000 \\u3030").unwrap().unwrap(),
        "\u{0000} \u{3030}"
    );
}

#[test]
fn test_expand_braced_unicode_escapes() {
    assert_eq!(cook("\\u{12345}").unwrap().unwrap(), "\u{12345}");
}

#[test]
fn test_expand_surrogate_codepoint_escapes() {
    assert_eq!(cook("\\uDCBA \\uDEF0 \\u{DCBA} \\u{DEF0}").unwrap(), None);
}

#[test]
fn test_expand_short_unicode_escapes() {
    assert_eq!(cook("\\u{A}").unwrap().unwrap(), "\u{A}");
}

#[test]
fn test_expands_long_unicode_escapes() {
    assert_eq!(cook("\\u{000000000012345}").unwrap().unwrap(), "\u{12345}");
}

#[test]
fn test_reject_incomplete_unicode_escapes_2_digits_out_of_4() {
    assert_eq!(
        cook("\\uA0$").unwrap_err().message(),
        "Invalid Unicode escape sequence"
    );
}

#[test]
fn test_reject_incomplete_unicode_escapes_missing_closing_braces() {
    assert_eq!(
        cook("\\u{A").unwrap_err().message(),
        "Invalid Unicode escape sequence"
    );
}

#[test]
fn test_reject_incomplete_unicode_escapes_invalid_character_in_the_braces() {
    assert_eq!(
        cook("\\u{A B}").unwrap_err().message(),
        "Invalid Unicode escape sequence"
    );
}

#[test]
fn test_reject_large_unicode_escapes() {
    assert_eq!(
        cook("\\u{ABCDEF}").unwrap_err().message(),
        "Undefined Unicode code-point"
    );
}

#[test]
fn test_remove_line_continuation() {
    assert_eq!(
        cook("[\\\n] [\\\u{2028}] [\\\u{2029}]").unwrap().unwrap(),
        "[] [] []"
    );
}

#[test]
fn plain_text_without_backslash_is_kept() {
    assert_eq!(cook("a b\tc\n\u{2028}ü😀").unwrap().unwrap(), "a b\tc\n\u{2028}ü😀");
    assert_eq!(cook("").unwrap().unwrap(), "");
}

#[test]
fn incomplete_hex_escapes_are_rejected() {
    assert_eq!(cook("\\x8"), Err(EscapeError::InvalidHexEscape));
    assert_eq!(cook("\\x"), Err(EscapeError::InvalidHexEscape));
    assert_eq!(cook("\\xg1"), Err(EscapeError::InvalidHexEscape));
}

#[test]
fn hex_escape_gives_the_byte_value() {
    assert_eq!(cook("\\x61").unwrap().unwrap(), "a");
    assert_eq!(cook("\\xff\\xFF").unwrap().unwrap(), "\u{ff}\u{ff}");
}

#[test]
fn four_digit_unicode_escape() {
    assert_eq!(cook("\\u0041").unwrap().unwrap(), "A");
    assert_eq!(cook("x\\u00e9y").unwrap().unwrap(), "x\u{e9}y");
}

#[test]
fn octal_and_non_octal_escapes_are_rejected() {
    assert_eq!(cook("\\7"), Err(EscapeError::LegacyOctalEscape));
    assert_eq!(cook("\\1"), Err(EscapeError::LegacyOctalEscape));
    assert_eq!(cook("\\01"), Err(EscapeError::LegacyOctalEscape));
    assert_eq!(cook("\\09"), Err(EscapeError::LegacyOctalEscape));
    assert_eq!(cook("\\8"), Err(EscapeError::NonOctalEscape));
    assert_eq!(cook("\\9"), Err(EscapeError::NonOctalEscape));
}

#[test]
fn nul_escape_followed_by_a_non_digit() {
    assert_eq!(cook("\\0a").unwrap().unwrap(), "\0a");
    assert_eq!(cook("\\0").unwrap().unwrap(), "\0");
}

#[test]
fn braced_unicode_escape_limits() {
    assert_eq!(cook("\\u{ABCDEF}"), Err(EscapeError::UndefinedCodePoint));
    assert_eq!(cook("\\u{110000}"), Err(EscapeError::UndefinedCodePoint));
    assert_eq!(cook("\\u{FFFFFFFFFFFF}"), Err(EscapeError::UndefinedCodePoint));
    assert_eq!(cook("\\u{10FFFF}").unwrap().unwrap(), "\u{10FFFF}");
    assert_eq!(cook("\\u{}"), Err(EscapeError::InvalidUnicodeEscape));
    assert_eq!(cook("\\u"), Err(EscapeError::InvalidUnicodeEscape));
    assert_eq!(cook("\\u{12"), Err(EscapeError::InvalidUnicodeEscape));
}

#[test]
fn opening_surrogate_pairs_with_a_completing_one_after_it() {
    // an opening value (0xDC00..=0xDFFF) followed by a completing one (0xD800..=0xDBFF)
    assert_eq!(cook("\\uDC00\\uD800").unwrap().unwrap(), "\u{10000}");
    assert_eq!(cook("\\uDFFF\\u{DBFF}").unwrap().unwrap(), "\u{10FFFF}");
    assert_eq!(cook("<\\uDC01\\uD802>").unwrap().unwrap(), "<\u{10402}>");
}

#[test]
fn unpaired_surrogates_degrade_the_result() {
    assert_eq!(cook("\\uD800").unwrap(), None);
    assert_eq!(cook("\\uDC00").unwrap(), None);
    assert_eq!(cook("\\uD800\\uDC00").unwrap(), None);
    assert_eq!(cook("\\uDC00x\\uD800").unwrap(), None);
    assert_eq!(cook("\\uDC00\\uDC00\\uD800").unwrap(), None);
}

#[test]
fn a_hard_error_after_a_degradation_still_fails() {
    assert_eq!(cook("\\uDCBA \\8"), Err(EscapeError::NonOctalEscape));
    assert_eq!(cook("ok \\x1"), Err(EscapeError::InvalidHexEscape));
}

#[test]
fn line_continuations_with_cr_and_crlf() {
    assert_eq!(cook("[\\\r] [\\\r\n]").unwrap().unwrap(), "[] []");
}

#[test]
fn trailing_backslash_reads_nothing() {
    assert_eq!(cook("ab\\").unwrap().unwrap(), "ab");
}

#[test]
fn error_messages() {
    assert_eq!(
        EscapeError::LegacyOctalEscape.message(),
        "Octal escape sequences are not allowed in template strings."
    );
    assert_eq!(
        EscapeError::NonOctalEscape.message(),
        "\\8 and \\9 are not allowed in template strings."
    );
    assert_eq!(EscapeError::InvalidHexEscape.message(), "Invalid hexadecimal escape sequence");
    assert_eq!(EscapeError::UndefinedCodePoint.message(), "Undefined Unicode code-point");
    assert_eq!(EscapeError::InvalidUnicodeEscape.message(), "Invalid Unicode escape sequence");
}
