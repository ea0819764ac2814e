use passmumbler::pipeline::Pipeline;
use passmumbler::secrets::Secrets;
use passmumbler::select::rofi::entry_at;
use passmumbler::select::{choice_from_output, filter_and_remove_prefix, strip_prefix, Error};

fn strings(v: &[&str]) -> Vec<String> {
    v.iter().map(|s| s.to_string()).collect()
}

#[test]
fn empty_prefix_keeps_every_entry() {
    let r = filter_and_remove_prefix("", strings(&["a", "b/c"]));
    assert_eq!(r, strings(&["a", "b/c"]));
}

#[test]
fn prefix_filters_and_strips_in_order() {
    let r = filter_and_remove_prefix("b/", strings(&["a", "b/c", "b/d"]));
    assert_eq!(r, strings(&["c", "d"]));
}

#[test]
fn prefix_equal_to_entry_gives_empty_name() {
    let r = filter_and_remove_prefix("web", strings(&["web", "webmail/x", "we"]));
    assert_eq!(r, strings(&["", "mail/x"]));
}

#[test]
fn strip_prefix_cases() {
    assert_eq!(strip_prefix("web/a", "web/"), Some("a".to_string()));
    assert_eq!(strip_prefix("web", "web/"), None);
    assert_eq!(strip_prefix("\u{e9}t\u{e9}", "\u{e9}"), Some("t\u{e9}".to_string()));
    assert_eq!(strip_prefix("abc", ""), Some("abc".to_string()));
}

#[test]
fn no_candidates_fails_before_selection() {
    let r = Pipeline::new("mail/").filter(strings(&["web/a", "web/b"]));
    assert_eq!(r.err(), Some(Error::NoSecretsFound));
    let r = Pipeline::new("").filter(Vec::new());
    assert_eq!(r.err(), Some(Error::NoSecretsFound));
}

#[test]
fn nothing_chosen_fails_without_loading() {
    let waiting = Pipeline::new("web/").filter(strings(&["web/a"])).ok().unwrap();
    assert_eq!(waiting.pick(None).err(), Some(Error::NothingSelected));
}

#[test]
fn choice_outside_candidates_is_nothing_selected() {
    let waiting = Pipeline::new("web/").filter(strings(&["web/a"])).ok().unwrap();
    assert_eq!(
        waiting.pick(Some("web/a".to_string())).err(),
        Some(Error::NothingSelected)
    );
}

#[test]
fn end_to_end_selection() {
    let waiting = Pipeline::new("web/")
        .filter(strings(&["web/example.com", "web/other.com"]))
        .ok()
        .unwrap();
    assert_eq!(waiting.candidates(), &strings(&["example.com", "other.com"]));
    let chosen = waiting.pick(Some("example.com".to_string())).ok().unwrap();
    assert_eq!(chosen.identifier(), "web/example.com");
    assert_eq!(chosen.display_name(), "example.com");
    let record = Secrets::parse(b"s3cret\nlogin: me");
    let (name, secrets) = chosen.finish(Some(record)).ok().unwrap();
    assert_eq!(name, "example.com");
    assert_eq!(secrets.get("password").unwrap(), "s3cret");
    assert_eq!(secrets.get("login").unwrap(), "me");
}

#[test]
fn failed_load_is_no_secrets_found() {
    let chosen = Pipeline::new("")
        .filter(strings(&["a"]))
        .ok()
        .unwrap()
        .pick(Some("a".to_string()))
        .ok()
        .unwrap();
    assert_eq!(chosen.identifier(), "a");
    assert_eq!(chosen.finish(None).err(), Some(Error::NoSecretsFound));
}

#[test]
fn entry_at_picks_in_range_only() {
    let entries = strings(&["a", "b"]);
    assert_eq!(entry_at(&entries, Some(1)), Some("b".to_string()));
    assert_eq!(entry_at(&entries, Some(0)), Some("a".to_string()));
    assert_eq!(entry_at(&entries, Some(2)), None);
    assert_eq!(entry_at(&entries, None), None);
}

#[test]
fn picker_output_names_a_candidate() {
    let entries = strings(&["a.com", "b.com"]);
    assert_eq!(choice_from_output("b.com\n", &entries), Some("b.com".to_string()));
    assert_eq!(choice_from_output("a.com", &entries), Some("a.com".to_string()));
    assert_eq!(choice_from_output("", &entries), None);
    assert_eq!(choice_from_output("c.com\n", &entries), None);
    assert_eq!(choice_from_output("a.com\n\n", &entries), None);
}

#[test]
fn empty_picker_output_is_no_choice() {
    let entries = strings(&["", "mail/x"]);
    assert_eq!(choice_from_output("", &entries), None);
    assert_eq!(choice_from_output("\n", &entries), Some(String::new()));
}
