use redbook::similarity::{overlap, similar};
use redbook::text::chars_of;

#[test]
fn names_are_alike_whatever_their_case_and_punctuation() {
    assert!(similar("Simon & Garfunkel", "simon garfunkel"));
    assert!(similar("Abbey Road (Remastered)", "ABBEY ROAD"));
    assert!(similar("Ábbey", "ábbey road"));
    assert!(similar("日本", "「日本」"));
    assert!(!similar("Abbey Road", "Let It Be"));
    assert!(!similar("!!!", "!!!"));
    assert!(!similar("", "anything"));
}

#[test]
fn likeness_does_not_depend_on_the_order() {
    for (left, right) in [("AB", "xabx"), ("İstanbul", "i̇stanbul"), ("a-b", "b-a"), ("ß", "SS")] {
        assert_eq!(similar(left, right), similar(right, left));
    }
}

#[test]
fn overlap_goes_by_what_is_given() {
    assert!(overlap(&chars_of("abc"), &chars_of("b")));
    assert!(overlap(&chars_of("b"), &chars_of("abc")));
    assert!(!overlap(&chars_of("B"), &chars_of("abc")));
    assert!(!overlap(&chars_of(""), &chars_of("abc")));
    assert!(!overlap(&chars_of("abc"), &chars_of("")));
}
