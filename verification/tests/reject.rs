use mask::reject::{is_rejected, is_whitespace};

#[test]
fn rejects_generic_contract_words() {
    assert!(is_rejected("Affiliate"));
    assert!(is_rejected("CUSTOMERS"));
    assert!(is_rejected("  person's "));
    assert!(is_rejected("e-mail"));
    assert!(is_rejected("You"));
}

#[test]
fn keeps_names_and_phrases() {
    assert!(!is_rejected("Priya Nair"));
    assert!(!is_rejected("the customer"));
    assert!(!is_rejected("Director of Operations"));
    assert!(!is_rejected(""));
}

#[test]
fn rejection_ignores_case_and_spacing() {
    assert_eq!(is_rejected("web\u{a0}page"), is_rejected("web page"));
    assert!(is_rejected("\tWEBSITE\n"));
    assert!(is_rejected("Links"));
}

#[test]
fn whitespace_is_unicode_whitespace() {
    assert!(is_whitespace(' '));
    assert!(is_whitespace('\u{a0}'));
    assert!(is_whitespace('\u{3000}'));
    assert!(!is_whitespace('x'));
    assert!(!is_whitespace('\u{200b}'));
}
