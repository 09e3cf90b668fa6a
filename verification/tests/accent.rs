use lemma::accent::{enclitic_double_accent, is_proparoxytone, stress_position_from_end};

#[test]
fn chartofylaka_is_proparoxytone_and_doubles() {
    assert!(is_proparoxytone("χαρτοφύλακα"));
    assert_eq!(enclitic_double_accent("χαρτοφύλακα").as_deref(), Some("χαρτοφύλακά"));
}

#[test]
fn anthropos_is_proparoxytone_and_doubles() {
    assert!(is_proparoxytone("άνθρωπος"));
    assert_eq!(enclitic_double_accent("άνθρωπος").as_deref(), Some("άνθρωπός"));
}

#[test]
fn paroxytone_word_is_not_eligible() {
    assert!(!is_proparoxytone("λέξη"));
    assert_eq!(enclitic_double_accent("λέξη"), None);
}

#[test]
fn oxytone_word_is_not_eligible() {
    assert!(!is_proparoxytone("καλός"));
    assert_eq!(enclitic_double_accent("καλός"), None);
}

#[test]
fn unaccented_word_is_not_eligible() {
    assert_eq!(stress_position_from_end("ανθρωπος"), None);
    assert_eq!(enclitic_double_accent("ανθρωπος"), None);
}

#[test]
fn digraph_final_syllable_takes_accent_on_second_letter() {
    // "άνθρωποι": the final syllable is the digraph "οι"; the added accent
    // lands on its second letter.
    assert!(is_proparoxytone("άνθρωποι"));
    assert_eq!(enclitic_double_accent("άνθρωποι").as_deref(), Some("άνθρωποί"));
}

#[test]
fn synizesis_keeps_podia_paroxytone() {
    // "πόδια" is πό-δια: the unstressed ι glides into the following vowel.
    assert_eq!(stress_position_from_end("πόδια"), Some(2));
    assert!(!is_proparoxytone("πόδια"));
}

#[test]
fn stress_positions_of_plain_words() {
    assert_eq!(stress_position_from_end("καλός"), Some(1));
    assert_eq!(stress_position_from_end("λέξη"), Some(2));
    assert_eq!(stress_position_from_end("χαρτοφύλακα"), Some(3));
    assert_eq!(stress_position_from_end("χαρτοφυλάκων"), Some(2));
    assert_eq!(stress_position_from_end(""), None);
    assert_eq!(stress_position_from_end("abc"), None);
}

#[test]
fn accented_first_letter_of_digraph_spells_hiatus() {
    // νε-ρά-ι-δα: the tonos on α keeps α and ι apart, four syllables.
    assert_eq!(stress_position_from_end("νεράιδα"), Some(3));
    assert_eq!(enclitic_double_accent("νεράιδα").as_deref(), Some("νεράιδά"));
}

#[test]
fn diaeresis_splits_a_digraph() {
    // κο-ρο-ΐ-δο: ϊ never merges with the vowel before it.
    assert_eq!(stress_position_from_end("κοροΐδο"), Some(2));
    // the ου digraph is one syllable: ά-κου-σα
    assert_eq!(stress_position_from_end("άκουσα"), Some(3));
    assert_eq!(enclitic_double_accent("άκουσα").as_deref(), Some("άκουσά"));
}

#[test]
fn capitalised_proparoxytone_doubles() {
    assert_eq!(enclitic_double_accent("Άνθρωπος").as_deref(), Some("Άνθρωπός"));
    assert_eq!(enclitic_double_accent("ΆΝΘΡΩΠΟΣ").as_deref(), Some("ΆΝΘΡΩΠΌΣ"));
}

#[test]
fn final_letter_without_acute_form_gives_none() {
    // Ϊ has no precomposed acute form.
    assert!(is_proparoxytone("άβαΪ"));
    assert_eq!(enclitic_double_accent("άβαΪ"), None);
}

#[test]
fn double_accent_cannot_be_applied_twice() {
    let once = enclitic_double_accent("χαρτοφύλακα").unwrap();
    assert!(is_proparoxytone(&once));
    assert_eq!(stress_position_from_end(&once), Some(3));
    assert_eq!(enclitic_double_accent(&once), None);
}

#[test]
fn unstressed_exactly_when_no_tonos() {
    assert_eq!(stress_position_from_end("σπιτι"), None);
    assert!(stress_position_from_end("σπίτι").is_some());
    // an accented ι never glides, so its tonos is always counted
    assert_eq!(stress_position_from_end("δίαδ"), Some(2));
}
