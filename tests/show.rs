use passmumbler::secrets::Secrets;
use passmumbler::show::{show_source, ShowError, ShowSource};

#[test]
fn stdin_with_fields_is_refused() {
    let r = show_source(true, Some("u".to_string()), None);
    assert_eq!(r.err(), Some(ShowError::StdinWithFields));
    let r = show_source(true, None, Some("p".to_string()));
    assert_eq!(r.err(), Some(ShowError::StdinWithFields));
    assert_eq!(
        ShowError::StdinWithFields.message(),
        "password or username cannot be specified when reading from stdin"
    );
}

#[test]
fn stdin_alone_reads_stdin() {
    assert!(matches!(show_source(true, None, None), Ok(ShowSource::Stdin)));
}

#[test]
fn given_fields_make_the_record() {
    match show_source(false, Some("me".to_string()), Some("pw".to_string())) {
        Ok(ShowSource::Given(s)) => {
            assert_eq!(s.get("username").unwrap(), "me");
            assert_eq!(s.get("password").unwrap(), "pw");
            assert_eq!(s.iter().len(), 2);
        }
        _ => panic!("expected the given fields"),
    }
    match show_source(false, None, None) {
        Ok(ShowSource::Given(s)) => assert!(s.is_empty()),
        _ => panic!("expected an empty record"),
    }
}

#[test]
fn credentials_only_where_given() {
    let s = Secrets::from_credentials(None, Some("pw".to_string()));
    assert!(s.get("username").is_none());
    assert_eq!(s.get("password").unwrap(), "pw");
}
