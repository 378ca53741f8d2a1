use mask::gaze::ClassLabel;
use mask::gliner::Mention;
use mask::inspect::Finding;
use mask::vault::{confirms, sort_mappings, DEFAULT_SNAPSHOT};
use mask::{TokenFormatter, Vault, VaultMapping};

fn mapping(token: &str, value: &str, class: &str) -> VaultMapping {
    VaultMapping { token: token.to_string(), value: value.to_string(), class: class.to_string() }
}

#[test]
fn vault_is_configured_step_by_step() {
    let vault = Vault::open(DEFAULT_SNAPSHOT);
    assert_eq!(vault.snapshot, "data/gaze.snapshot");
    assert!(vault.labels.is_empty());
    assert!(!vault.uses_recognizer());
    let vault = vault.with_labels(&["person", "email"]).with_token_formatter(TokenFormatter);
    assert_eq!(vault.labels, vec!["person".to_string(), "email".to_string()]);
    assert!(vault.uses_recognizer());
    assert_eq!(vault.token_formatter, Some(TokenFormatter));
}

#[test]
fn mentions_count_only_with_labels() {
    let text = "Jonah Hale is a labor economist.";
    let mentions = vec![Mention { char_start: 0, char_end: 10, field: "person".to_string(), text: "Jonah Hale".to_string() }];
    let bare = Vault::open("s");
    assert!(bare.encode(text, &mentions).is_empty());
    let labelled = Vault::open("s").with_labels(&["person"]);
    let spans = labelled.encode(text, &mentions);
    assert_eq!(spans.len(), 1);
    assert_eq!((spans[0].start, spans[0].end), (0, 10));
}

#[test]
fn findings_are_masked_with_mentions() {
    let text = "Jonah Hale is a labor economist.";
    let mentions = vec![Mention { char_start: 0, char_end: 10, field: "person".to_string(), text: "Jonah Hale".to_string() }];
    let findings = vec![Finding { kind: "occupation".to_string(), evidence: vec!["labor economist".to_string()] }];
    let vault = Vault::open("s").with_labels(&["person"]);
    let spans = vault.encode_with_findings(text, &findings, &mentions);
    let ranges: Vec<(usize, usize)> = spans.iter().map(|s| (s.start, s.end)).collect();
    assert_eq!(ranges, vec![(16, 31), (0, 10)]);
    assert_eq!(spans[0].class, ClassLabel::Other("occupation".to_string()));
    assert_eq!(spans[0].raw, "labor economist");
}

#[test]
fn tokens_are_shown_and_restored_through_the_formatter() {
    let plain = Vault::open("s");
    let formatted = Vault::open("s").with_token_formatter(TokenFormatter);
    let clean = "Hi <0a1b2c3d:Name_1>";
    assert_eq!(plain.present("0a1b2c3d", clean), clean);
    assert_eq!(formatted.present("0a1b2c3d", clean), "Hi <Name_1>");
    let tokens = vec!["<0a1b2c3d:Name_1>".to_string()];
    let matches = vec![(3usize, 11usize)];
    assert_eq!(formatted.decode("0a1b2c3d", &tokens, &matches, "Hi <Name_1>"), clean);
    assert_eq!(plain.decode("0a1b2c3d", &tokens, &matches, "Hi <Name_1>"), "Hi <Name_1>");
}

#[test]
fn labels_are_the_matched_text() {
    let vault = Vault::open("s");
    let text = "Zoë met <Name_1> and <Name_2>";
    assert_eq!(&text[9..17], "<Name_1>");
    let labels = vault.labels(text, &vec![(9, 17), (22, 30)]);
    assert_eq!(labels, vec!["<Name_1>".to_string(), "<Name_2>".to_string()]);
}

#[test]
fn mappings_are_listed_by_class_token_and_value() {
    let vault = Vault::open("s").with_token_formatter(TokenFormatter);
    let entries = vec![
        ("<h:Name_2>".to_string(), "b".to_string(), "Name".to_string()),
        ("<h:Email_1>".to_string(), "e".to_string(), "Email".to_string()),
        ("<h:Name_1>".to_string(), "a".to_string(), "Name".to_string()),
    ];
    assert_eq!(
        vault.mappings("h", entries.clone()),
        vec![mapping("<Email_1>", "e", "Email"), mapping("<Name_1>", "a", "Name"), mapping("<Name_2>", "b", "Name")]
    );
    let plain = Vault::open("s");
    assert_eq!(plain.mappings("h", entries)[0], mapping("<h:Email_1>", "e", "Email"));
}

#[test]
fn sort_orders_by_bytes() {
    let sorted = sort_mappings(vec![
        mapping("b", "2", "Z"),
        mapping("a", "9", "Z"),
        mapping("a", "1", "Z"),
        mapping("z", "z", "A"),
        mapping("é", "x", "Z"),
    ]);
    assert_eq!(
        sorted,
        vec![mapping("z", "z", "A"), mapping("a", "1", "Z"), mapping("a", "9", "Z"), mapping("b", "2", "Z"), mapping("é", "x", "Z")]
    );
}

#[test]
fn reset_needs_a_yes() {
    assert!(confirms("y\n"));
    assert!(confirms("  YES "));
    assert!(!confirms("no"));
    assert!(!confirms(""));
    assert!(!confirms("yess"));
}

#[test]
fn restore_map_order_does_not_depend_on_entry_order() {
    let entries = vec![
        mapping("<Name_2>", "b", "Name"),
        mapping("<Email_1>", "e", "Email"),
        mapping("<Name_1>", "a", "Name"),
    ];
    let mut reversed = entries.clone();
    reversed.reverse();
    assert_eq!(sort_mappings(entries), sort_mappings(reversed));
}
