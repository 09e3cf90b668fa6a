use lemma::punctuation::{variants_for, LEADING, TRAILING};

#[test]
fn generates_trailing_comma_and_period() {
    let v = variants_for("λέξη");
    assert!(v.contains(&"λέξη,".to_string()));
    assert!(v.contains(&"λέξη.".to_string()));
}

#[test]
fn generates_trailing_ano_teleia() {
    let v = variants_for("λέξη");
    assert!(v.contains(&format!("λέξη{}", "\u{0387}")));
}

#[test]
fn generates_leading_guillemet() {
    let v = variants_for("λέξη");
    assert!(v.contains(&"«λέξη".to_string()));
}

#[test]
fn variant_count_matches_mark_lists() {
    let v = variants_for("λέξη");
    assert_eq!(v.len(), TRAILING.len() + LEADING.len());
}

#[test]
fn variants_come_in_mark_order() {
    let v = variants_for("καλά");
    assert_eq!(v.len(), 18);
    assert_eq!(v[0], "καλά,");
    assert_eq!(v[11], "καλά-");
    assert_eq!(v[12], "«καλά");
    assert_eq!(v[17], "\u{2013}καλά");
    for (k, p) in TRAILING.iter().enumerate() {
        assert_eq!(v[k], format!("καλά{}", p));
    }
    for (k, p) in LEADING.iter().enumerate() {
        assert_eq!(v[TRAILING.len() + k], format!("{}καλά", p));
    }
}

#[test]
fn variants_of_empty_form_are_the_marks() {
    let v = variants_for("");
    assert_eq!(v[1], ".");
    assert_eq!(v[13], "(");
}
