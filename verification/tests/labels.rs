use lemma::label_order::cmp_utf16be;
use lemma::text::{extract_quoted_after, split_lines};
use lemma::utf16::utf16be_bytes;
use std::cmp::Ordering;

#[test]
fn utf16_units_of_bmp_and_supplementary_chars() {
    assert_eq!(utf16be_bytes("a€𝄞"), vec![0x61, 0x20AC, 0xD834, 0xDD1E]);
    assert_eq!(utf16be_bytes("Έ"), vec![0x0388]);
    assert_eq!(utf16be_bytes(""), Vec::<u16>::new());
}

#[test]
fn labels_compare_by_raw_code_units() {
    assert_eq!(cmp_utf16be("Α", "α"), Ordering::Less);
    assert_eq!(cmp_utf16be("ab", "a"), Ordering::Greater);
    assert_eq!(cmp_utf16be("λέξη", "λέξη"), Ordering::Equal);
    // U+FF61 sorts after a surrogate pair by code unit, before it by scalar value
    assert_eq!(cmp_utf16be("\u{FF61}", "𝄞"), Ordering::Greater);
}

#[test]
fn label_order_is_antisymmetric() {
    for (a, b) in [("Έδειχναν", "έδειχναν"), ("a", "ab"), ("ω", "Ω")] {
        assert_eq!(cmp_utf16be(a, b), cmp_utf16be(b, a).reverse());
        assert_ne!(cmp_utf16be(a, b), Ordering::Equal);
    }
}

#[test]
fn quoted_label_after_marker() {
    assert_eq!(extract_quoted_after("x { label = \"abc\", y }", "label = ").as_deref(), Some("abc"));
    assert_eq!(extract_quoted_after("label = \"a\\\"b\\\\c\" ", "label = ").as_deref(), Some("a\"b\\c"));
    assert_eq!(extract_quoted_after("no marker here", "label = "), None);
    assert_eq!(extract_quoted_after("label = 42", "label = "), None);
    assert_eq!(extract_quoted_after("label = \"open", "label = "), None);
    assert_eq!(extract_quoted_after("label = \"ends\\", "label = "), None);
    // only the first occurrence of the marker counts
    assert_eq!(extract_quoted_after("label = 1, label = \"b\"", "label = "), None);
    assert_eq!(extract_quoted_after("{ routing_label = \"AB\" }", "label = ").as_deref(), Some("AB"));
}

#[test]
fn lines_split_like_str_lines() {
    let text = "a\r\nb\n\nc\r";
    let expected: Vec<String> = text.lines().map(|l| l.to_string()).collect();
    assert_eq!(split_lines(text), expected);
    assert_eq!(split_lines(text), vec!["a", "b", "", "c\r"]);
    assert_eq!(split_lines("x\n"), vec!["x"]);
    assert!(split_lines("").is_empty());
}
