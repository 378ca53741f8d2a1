use mask::token_formatter::check_matches;
use mask::TokenFormatter;

const HEX: &str = "0a1b2c3d";

#[test]
fn compact_tokens_round_trip() {
    let token = "<0a1b2c3d:Name_1>".to_string();
    let formatter = TokenFormatter;

    let formatted = formatter.format(HEX, &token);
    let matches = vec![(0usize, formatted.len())];
    let unformatted = formatter.unformat(HEX, &vec![token.clone()], &matches, &formatted);

    assert_eq!(formatted, "<Name_1>");
    assert_eq!(unformatted, token);
}

#[test]
fn format_drops_the_session_prefix_everywhere() {
    let formatter = TokenFormatter;
    let text = "<0a1b2c3d:Name_1> wrote to <0a1b2c3d:Email_2>; <ffffffff:Name_1> is another session";
    assert_eq!(
        formatter.format(HEX, text),
        "<Name_1> wrote to <Email_2>; <ffffffff:Name_1> is another session"
    );
    assert_eq!(formatter.format(HEX, "no tokens"), "no tokens");
}

#[test]
fn unformat_restores_compact_full_and_bare_labels() {
    let formatter = TokenFormatter;
    let tokens = vec!["<0a1b2c3d:Name_1>".to_string(), "<0a1b2c3d:Email_2>".to_string()];
    let text = "Hi <Name_1>, write Email_2 or <0a1b2c3d:Name_1>; <Other_9> stays";
    // Byte ranges of the token-shaped labels, in order.
    let matches = vec![(3usize, 11usize), (19, 26), (30, 47), (49, 58)];
    assert_eq!(&text[3..11], "<Name_1>");
    assert_eq!(&text[19..26], "Email_2");
    assert_eq!(&text[30..47], "<0a1b2c3d:Name_1>");
    assert_eq!(&text[49..58], "<Other_9>");
    assert_eq!(
        formatter.unformat(HEX, &tokens, &matches, text),
        "Hi <0a1b2c3d:Name_1>, write <0a1b2c3d:Email_2> or <0a1b2c3d:Name_1>; <Other_9> stays"
    );
}

#[test]
fn unformat_prefers_the_last_token_listed() {
    let formatter = TokenFormatter;
    let tokens = vec!["<0a1b2c3d:Name_1>".to_string(), "<0a1b2c3d:Name_1>".to_string()];
    let out = formatter.unformat(HEX, &tokens, &vec![(0, 8)], "<Name_1>");
    assert_eq!(out, "<0a1b2c3d:Name_1>");
    let none = formatter.unformat(HEX, &Vec::new(), &vec![(0, 8)], "<Name_1>");
    assert_eq!(none, "<Name_1>");
}

#[test]
fn casefold_lowercases_unicode() {
    assert_eq!(TokenFormatter::casefold("PRIYA Nair"), "priya nair");
    assert_eq!(TokenFormatter::casefold("ÉLODIE"), "élodie");
}

#[test]
fn matches_must_be_ordered_on_boundaries() {
    let text = "Zoë <Name_1> <Name_2>";
    assert!(check_matches(text, &vec![(5, 13), (14, 22)]));
    assert!(!check_matches(text, &vec![(14, 22), (5, 13)]));
    assert!(!check_matches(text, &vec![(3, 13)]));
    assert!(!check_matches(text, &vec![(5, 40)]));
    assert!(check_matches(text, &Vec::new()));
}

#[test]
fn whole_text_round_trip() {
    let formatter = TokenFormatter;
    let text = "Hi <0a1b2c3d:Name_1> and <0a1b2c3d:Email_2>!";
    let tokens = vec!["<0a1b2c3d:Name_1>".to_string(), "<0a1b2c3d:Email_2>".to_string()];
    let shown = formatter.format(HEX, text);
    assert_eq!(shown, "Hi <Name_1> and <Email_2>!");
    assert!(!shown.contains("<0a1b2c3d:"));
    assert_eq!(&shown[3..11], "<Name_1>");
    assert_eq!(&shown[16..25], "<Email_2>");
    assert_eq!(formatter.unformat(HEX, &tokens, &vec![(3, 11), (16, 25)], &shown), text);
}
