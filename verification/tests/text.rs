use redbook::text::{
    chars_of, decimal_text, find_from, holds, is_ascii_alphanumeric,
    is_ascii_digit, is_blank, is_white_space, join, leading_number_of, pad, place, replace,
    same_ignoring_case, same_text, same_texts, split_text, strip_prefix, take_within, text_of,
    to_ascii_lower, trim, two_digit_text, Place,
};

fn strings(parts: &[&str]) -> Vec<String> {
    parts.iter().map(|part| part.to_string()).collect()
}

#[test]
fn white_space_is_that_of_unicode() {
    for c in '\u{0}'..=char::MAX {
        assert_eq!(is_white_space(c), c.is_whitespace());
    }
}

#[test]
fn ascii_classes_are_those_of_std() {
    for c in '\u{0}'..='\u{2ff}' {
        assert_eq!(is_ascii_digit(c), c.is_ascii_digit());
        assert_eq!(is_ascii_alphanumeric(c), c.is_ascii_alphanumeric());
        assert_eq!(to_ascii_lower(c), c.to_ascii_lowercase());
    }
}

#[test]
fn trims_both_ends() {
    for text in ["", " ", "\u{3000}a b\t\n", "a", " a", "a ", "\u{200b} x"] {
        assert_eq!(trim(text), text.trim());
        assert_eq!(is_blank(text), text.trim().is_empty());
    }
}

#[test]
fn takes_characters_apart_and_together() {
    let chars = chars_of("añ→𝄞");
    assert_eq!(chars, vec!['a', 'ñ', '→', '𝄞']);
    assert_eq!(text_of(&chars, 1, 3), "ñ→");
    assert_eq!(text_of(&chars, 2, 2), "");
}

#[test]
fn texts_stand_in_the_order_of_std() {
    let samples = ["", "a", "ab", "b", "B", "é", "𝄞", "\u{ffff}", "aa"];
    for left in samples {
        for right in samples {
            let found = place(left, right);
            assert_eq!(found == Place::Before, left < right);
            assert_eq!(found == Place::Same, left == right);
            assert_eq!(found == Place::After, left > right);
            assert_eq!(same_text(left, right), left == right);
        }
    }
}

#[test]
fn case_does_not_count_for_ascii() {
    assert!(same_ignoring_case("GBAYE0000351", "gbaye0000351"));
    assert!(!same_ignoring_case("É", "é"));
    assert!(!same_ignoring_case("ab", "abc"));
    assert!(same_ignoring_case("", ""));
}

#[test]
fn numbers_in_decimal() {
    for n in [0u64, 7, 9, 10, 42, 99, 100, 65_535, u64::MAX] {
        assert_eq!(decimal_text(n), n.to_string());
        assert_eq!(two_digit_text(n), format!("{n:02}"));
    }
}

#[test]
fn leading_numbers_fit_or_are_none() {
    assert_eq!(leading_number_of("7/12"), Some(7));
    assert_eq!(leading_number_of("007"), Some(7));
    assert_eq!(leading_number_of("65535x"), Some(65_535));
    assert_eq!(leading_number_of("65536"), None);
    assert_eq!(leading_number_of("99999999999999999999"), None);
    assert_eq!(leading_number_of("A1"), None);
    assert_eq!(leading_number_of(""), None);
}

#[test]
fn joins_and_splits() {
    assert_eq!(join(&strings(&["a", "", "c"]), " / "), "a /  / c");
    assert_eq!(join(&strings(&[]), ","), "");
    assert_eq!(join(&strings(&["a"]), ","), "a");
    assert_eq!(split_text("a..b.", '.'), strings(&["a", "", "b", ""]));
    assert_eq!(split_text("", '.'), strings(&[""]));
}

#[test]
fn finds_and_replaces() {
    let chars = chars_of("abcabc");
    assert_eq!(find_from(&chars, &chars_of("bc"), 0), Some(1));
    assert_eq!(find_from(&chars, &chars_of("bc"), 2), Some(4));
    assert_eq!(find_from(&chars, &chars_of("bc"), 5), None);
    assert_eq!(find_from(&chars, &chars_of(""), 6), Some(6));
    assert_eq!(find_from(&chars, &chars_of("abcabcd"), 0), None);
    assert!(holds(&chars, &chars_of("ca")));
    assert!(!holds(&chars, &chars_of("cb")));
    assert_eq!(replace("{w}x{h}{w}", "{w}", "12"), "12x{h}12");
    assert_eq!(replace("aaa", "aa", "b"), "ba");
    assert_eq!(replace("abc", "x", "y"), "abc");
}

#[test]
fn lists_are_the_same_string_by_string() {
    assert!(same_texts(&strings(&["a", "b"]), &strings(&["a", "b"])));
    assert!(same_texts(&strings(&[]), &strings(&[])));
    assert!(!same_texts(&strings(&["a b"]), &strings(&["a", "b"])));
    assert!(!same_texts(&strings(&["a", "c"]), &strings(&["a", "b"])));
}

#[test]
fn pads_by_characters() {
    assert_eq!(pad("é", 3), format!("{:<3}", "é"));
    assert_eq!(pad("ARTIST", 16), format!("{:<16}", "ARTIST"));
    assert_eq!(pad("abc", 2), "abc");
}

#[test]
fn strips_a_prefix_as_often_as_it_is_there() {
    assert_eq!(strip_prefix("/v1/v1/catalog", "/v1"), "/catalog");
    assert_eq!(strip_prefix("/catalog", "/v1"), "/catalog");
    assert_eq!(strip_prefix("", "/v1"), "");
}

#[test]
fn takes_whole_characters_within_a_limit() {
    let text = "aé→𝄞";
    for limit in 0..12 {
        let (start, bytes) = take_within(text, limit);
        let mut end = limit.min(text.len());
        while !text.is_char_boundary(end) {
            end -= 1;
        }
        assert_eq!(start, &text[..end]);
        assert_eq!(bytes, end);
    }
}
