use mask::gaze::{pii_class, tokenize_rules, ClassLabel, RuleSpec};
use mask::gliner::{dylib_name, ort_archive_stem, select_spans, spans_on_boundaries, spans_spliceable, splice_tokens, Mention};

fn mention(start: usize, end: usize, field: &str, text: &str) -> Mention {
    Mention { char_start: start, char_end: end, field: field.to_string(), text: text.to_string() }
}

#[test]
fn classes_follow_labels() {
    assert_eq!(pii_class("Person"), ClassLabel::Name);
    assert_eq!(pii_class("name"), ClassLabel::Name);
    assert_eq!(pii_class("ORG"), ClassLabel::Organization);
    assert_eq!(pii_class("organization"), ClassLabel::Organization);
    assert_eq!(pii_class("location"), ClassLabel::Location);
    assert_eq!(pii_class("Email"), ClassLabel::Email);
    assert_eq!(pii_class("Job Title"), ClassLabel::Other("job title".to_string()));
}

#[test]
fn rules_tokenize_each_label_then_preserve() {
    let rules = tokenize_rules(&vec!["person", "email"]);
    assert_eq!(
        rules,
        vec![
            RuleSpec::Tokenize(ClassLabel::Name),
            RuleSpec::Tokenize(ClassLabel::Email),
            RuleSpec::PreserveByDefault,
        ]
    );
    assert_eq!(tokenize_rules(&Vec::new()), vec![RuleSpec::PreserveByDefault]);
}

#[test]
fn selection_drops_invalid_and_overlapping_spans() {
    let text = "Priya Nair met Jonah Hale and the Affiliate.";
    let mentions = vec![
        mention(15, 25, "person", "Jonah Hale"),
        mention(0, 10, "person", "Priya Nair"),
        mention(34, 43, "organization", "Affiliate"),
        mention(40, 99, "person", "out of range"),
        mention(5, 5, "person", ""),
    ];
    let extra = vec![(0usize, 5usize, "person".to_string(), "Priya".to_string())];
    let spans = select_spans(text, &mentions, &extra);
    let ranges: Vec<(usize, usize)> = spans.iter().map(|s| (s.start, s.end)).collect();
    assert_eq!(ranges, vec![(15, 25), (0, 10)]);
    assert_eq!(spans[1].raw, "Priya Nair");
    assert_eq!(spans[1].class, ClassLabel::Name);
}

#[test]
fn longer_span_wins_on_equal_start() {
    let text = "Acme Robotics Corp";
    let mentions = vec![mention(0, 4, "organization", "Acme"), mention(0, 13, "organization", "Acme Robotics")];
    let spans = select_spans(text, &mentions, &Vec::new());
    assert_eq!(spans.len(), 1);
    assert_eq!((spans[0].start, spans[0].end), (0, 13));
}

#[test]
fn extras_must_sit_on_char_boundaries() {
    let text = "Zoë is here";
    // 'ë' takes two bytes (2..4); 3 is inside it.
    let extra = vec![
        (0usize, 3usize, "person".to_string(), "Zo?".to_string()),
        (0usize, 4usize, "person".to_string(), "Zoë".to_string()),
    ];
    let spans = select_spans(text, &Vec::new(), &extra);
    assert_eq!(spans.len(), 1);
    assert_eq!((spans[0].start, spans[0].end), (0, 4));
    assert_eq!(spans[0].raw, "Zoë");
}

#[test]
fn tokens_replace_chosen_spans() {
    let text = "Priya Nair met Jonah Hale.";
    let mentions = vec![mention(0, 10, "person", "Priya Nair"), mention(15, 25, "person", "Jonah Hale")];
    let spans = select_spans(text, &mentions, &Vec::new());
    assert!(spans_on_boundaries(text, &spans));
    let tokens = vec!["<h:Name_2>".to_string(), "<h:Name_1>".to_string()];
    assert_eq!(splice_tokens(text, &spans, &tokens), "<h:Name_1> met <h:Name_2>.");
    assert_eq!(splice_tokens(text, &Vec::new(), &Vec::new()), text);
}

#[test]
fn mention_off_a_boundary_is_reported() {
    let text = "Zoë";
    let spans = select_spans(text, &vec![mention(0, 3, "person", "Zo")], &Vec::new());
    assert_eq!(spans.len(), 1);
    assert!(!spans_on_boundaries(text, &spans));
}

#[test]
fn runtime_library_names() {
    assert_eq!(dylib_name("windows"), "onnxruntime.dll");
    assert_eq!(dylib_name("macos"), "libonnxruntime.dylib");
    assert_eq!(dylib_name("linux"), "libonnxruntime.so");
    assert_eq!(ort_archive_stem("linux", "x86_64"), Some("onnxruntime-linux-x64-1.23.2"));
    assert_eq!(ort_archive_stem("macos", "aarch64"), Some("onnxruntime-osx-arm64-1.23.2"));
    assert_eq!(ort_archive_stem("windows", "x86_64"), None);
}

#[test]
fn spliceable_spans_are_checked() {
    let text = "Priya Nair met Jonah Hale.";
    let mentions = vec![mention(0, 10, "person", "Priya Nair"), mention(15, 25, "person", "Jonah Hale")];
    let spans = select_spans(text, &mentions, &Vec::new());
    assert!(spans_spliceable(text, &spans));
    let mut reordered = spans.clone();
    reordered.reverse();
    assert!(!spans_spliceable(text, &reordered));
}
