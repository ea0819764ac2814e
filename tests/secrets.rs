use passmumbler::parse::{field_of_line, is_sentinel, white_space, LineParser};
use passmumbler::secrets::{same_text, Secrets};

fn field_count(secrets: &Secrets) -> usize {
    secrets.iter().len()
}

#[test]
fn test_password_store_single_line() {
    let input = b"THIS_IS_THE_PASSWORD".as_slice();
    let secrets = Secrets::parse(input);
    assert_eq!(secrets.get("password").unwrap(), "THIS_IS_THE_PASSWORD");
}

#[test]
fn test_password_store_multi_line() {
    let input = b"THIS_IS_THE_PASSWORD\nusername: test".as_slice();
    let secrets = Secrets::parse(input);
    assert_eq!(secrets.get("password").unwrap(), "THIS_IS_THE_PASSWORD");
    assert_eq!(secrets.get("username").unwrap(), "test");
}

#[test]
fn test_invalid_multiline() {
    let input = b"THIS_IS_THE_PASSWORD\nasdasd\nqweqwe".as_slice();
    let secrets = Secrets::parse(input);
    assert_eq!(secrets.get("password").unwrap(), "THIS_IS_THE_PASSWORD");
}

#[test]
fn test_empty_input() {
    let input = b"".as_slice();
    let secrets = Secrets::parse(input);
    assert!(secrets.get("password").is_none());
    assert!(secrets.is_empty());
}

#[test]
fn test_password_store_multi_line_with_end_delimiter() {
    let input = b"THIS_IS_THE_PASSWORD\n---\nusername: test".as_slice();
    let secrets = Secrets::parse(input);
    assert_eq!(secrets.get("password").unwrap(), "THIS_IS_THE_PASSWORD");
    assert!(secrets.get("username").is_none());
}

#[test]
fn single_line_without_colon_is_only_password() {
    for input in [b"hunter2".as_slice(), b"hunter2\n", b"hunter2\r\n"] {
        let secrets = Secrets::parse(input);
        assert_eq!(secrets.get("password").unwrap(), "hunter2");
        assert_eq!(field_count(&secrets), 1);
    }
}

#[test]
fn unterminated_carriage_return_is_kept() {
    let secrets = Secrets::parse(b"hunter2\r");
    assert_eq!(secrets.get("password").unwrap(), "hunter2\r");
}

#[test]
fn field_value_loses_leading_white_space_only() {
    let secrets = Secrets::parse(b"pw\nuser:   bob smith  \nurl:https://x.org:8080/a");
    assert_eq!(secrets.get("password").unwrap(), "pw");
    assert_eq!(secrets.get("user").unwrap(), "bob smith  ");
    assert_eq!(secrets.get("url").unwrap(), "https://x.org:8080/a");
    assert_eq!(field_count(&secrets), 3);
}

#[test]
fn unicode_white_space_is_trimmed() {
    let secrets = Secrets::parse("pw\nk:\u{3000}\u{a0}\tv".as_bytes());
    assert_eq!(secrets.get("k").unwrap(), "v");
}

#[test]
fn colon_with_nothing_after_gives_empty_value() {
    let secrets = Secrets::parse(b"pw\nnote:\nother:   ");
    assert_eq!(secrets.get("note").unwrap(), "");
    assert_eq!(secrets.get("other").unwrap(), "");
}

#[test]
fn sentinel_hides_everything_after_it() {
    let secrets = Secrets::parse(b"pw\na: 1\n---\nb: 2\n---\nc: 3");
    assert_eq!(secrets.get("password").unwrap(), "pw");
    assert_eq!(secrets.get("a").unwrap(), "1");
    assert!(secrets.get("b").is_none());
    assert!(secrets.get("c").is_none());
    assert_eq!(field_count(&secrets), 2);
}

#[test]
fn first_line_sentinel_is_the_password() {
    let secrets = Secrets::parse(b"---\na: 1");
    assert_eq!(secrets.get("password").unwrap(), "---");
    assert_eq!(secrets.get("a").unwrap(), "1");
}

#[test]
fn later_duplicate_overrides() {
    let secrets = Secrets::parse(b"pw\na: 1\nb: x\na: 2");
    assert_eq!(secrets.get("a").unwrap(), "2");
    assert_eq!(field_count(&secrets), 3);
}

#[test]
fn password_line_beats_password_field() {
    let secrets = Secrets::parse(b"first\npassword: second");
    assert_eq!(secrets.get("password").unwrap(), "first");
}

#[test]
fn empty_first_line_gives_no_password() {
    let secrets = Secrets::parse(b"\nuser: y");
    assert!(secrets.get("password").is_none());
    assert_eq!(secrets.get("user").unwrap(), "y");
    assert_eq!(field_count(&secrets), 1);
}

#[test]
fn invalid_utf8_line_is_skipped() {
    let secrets = Secrets::parse(b"pw\n\xff\xfe: x\nuser: y");
    assert_eq!(secrets.get("password").unwrap(), "pw");
    assert_eq!(secrets.get("user").unwrap(), "y");
    assert_eq!(field_count(&secrets), 2);
}

#[test]
fn invalid_utf8_first_line_gives_no_password() {
    let secrets = Secrets::parse(b"\xc3\x28\nuser: y");
    assert!(secrets.get("password").is_none());
    assert_eq!(secrets.get("user").unwrap(), "y");
}

#[test]
fn multibyte_text_is_decoded() {
    let secrets = Secrets::parse(b"\xc3\xa9t\xc3\xa9\nn\xc3\xa4me: \xe2\x82\xac");
    assert_eq!(secrets.get("password").unwrap(), "\u{e9}t\u{e9}");
    assert_eq!(secrets.get("n\u{e4}me").unwrap(), "\u{20ac}");
}

#[test]
fn blank_and_colonless_lines_count_for_nothing() {
    let secrets = Secrets::parse(b"pw\n\n\nplain\n\n");
    assert_eq!(field_count(&secrets), 1);
}

#[test]
fn line_parser_streams_lines() {
    let mut parser = LineParser::new();
    parser.push_line(Some("pw".to_string()));
    parser.push_line(None);
    parser.push_line(Some("user: me".to_string()));
    parser.push_line(Some("---".to_string()));
    parser.push_line(Some("other: no".to_string()));
    let secrets = parser.finish();
    assert_eq!(secrets.get("password").unwrap(), "pw");
    assert_eq!(secrets.get("user").unwrap(), "me");
    assert!(secrets.get("other").is_none());
}

#[test]
fn line_parser_output_needs_a_line() {
    assert!(LineParser::new().finish_output().is_none());
    let mut parser = LineParser::new();
    parser.push_line(Some(String::new()));
    let secrets = parser.finish_output().unwrap();
    assert!(secrets.is_empty());
}

#[test]
fn new_keeps_the_last_of_each_name() {
    let secrets = Secrets::new(vec![
        ("a".to_string(), "1".to_string()),
        ("b".to_string(), "2".to_string()),
        ("a".to_string(), "3".to_string()),
    ]);
    assert_eq!(secrets.get("a").unwrap(), "3");
    assert_eq!(secrets.get("b").unwrap(), "2");
    assert_eq!(field_count(&secrets), 2);
    assert!(!secrets.is_empty());
    assert!(Secrets::new(Vec::new()).is_empty());
    assert!(Secrets::empty().is_empty());
}

#[test]
fn get_needs_the_exact_name() {
    let secrets = Secrets::new(vec![("user".to_string(), "x".to_string())]);
    assert!(secrets.get("use").is_none());
    assert!(secrets.get("users").is_none());
    assert!(secrets.get("User").is_none());
}

#[test]
fn field_of_line_splits_at_first_colon() {
    assert_eq!(
        field_of_line("a:b: c"),
        Some(("a".to_string(), "b: c".to_string()))
    );
    assert_eq!(field_of_line(":x"), Some((String::new(), "x".to_string())));
    assert_eq!(field_of_line("nothing"), None);
}

#[test]
fn sentinel_and_white_space_checks() {
    assert!(is_sentinel("---"));
    assert!(!is_sentinel("--- "));
    assert!(!is_sentinel("----"));
    assert!(white_space(' '));
    assert!(white_space('\u{2028}'));
    assert!(!white_space('x'));
    assert!(!white_space('\u{200b}'));
    for c in ['\u{0}', 'a', '\u{85}', '\u{a0}', '\u{1680}', '\u{2000}', '\u{200a}', '\u{3000}', '\u{feff}'] {
        assert_eq!(white_space(c), c.is_whitespace());
    }
}

#[test]
fn same_text_compares_content() {
    assert!(same_text("abc", "abc"));
    assert!(!same_text("abc", "abd"));
    assert!(!same_text("ab", "abc"));
    assert!(same_text("", ""));
}

#[test]
fn inner_carriage_return_stays_in_password() {
    let secrets = Secrets::parse(b"ab\rcd\n");
    assert_eq!(secrets.get("password").unwrap(), "ab\rcd");
    assert_eq!(field_count(&secrets), 1);
}

#[test]
fn non_ascii_field_after_password() {
    let input = "p\u{e4}ss\nn\u{f6}te:\u{2003} a:b \u{20ac}\nother: 1\n".as_bytes();
    let secrets = Secrets::parse(input);
    assert_eq!(secrets.get("password").unwrap(), "p\u{e4}ss");
    assert_eq!(secrets.get("n\u{f6}te").unwrap(), "a:b \u{20ac}");
}
