use alpm::version::parse_evr;

#[test]
fn parse_evr_test() {
    let s = "2:643.2b-43".to_owned();
    let tup = parse_evr(&s).unwrap();

    assert!(tup.0.is_some());
    assert!(tup.2.is_some());
    assert_eq!(format!("{}:{}-{}", tup.0.unwrap(), tup.1, tup.2.unwrap()), s);

    let s = "643.2b".to_owned();
    let tup = parse_evr(&s).unwrap();

    assert!(tup.0.is_none());
    assert!(tup.2.is_none());
    assert_eq!(format!("{}", tup.1), s);
}

#[test]
fn parse_empty_string() {
    let s = String::new();
    let tup = parse_evr(&s).unwrap();

    assert!(tup.0.is_none());
    assert_eq!(tup.1, "");
    assert!(tup.2.is_none());
}

#[test]
fn parse_lone_colon() {
    let s = ":".to_owned();
    let tup = parse_evr(&s).unwrap();

    assert!(tup.0.is_none());
    assert_eq!(tup.1, "");
    assert!(tup.2.is_none());
}

#[test]
fn parse_lone_hyphen() {
    let s = "-".to_owned();
    let tup = parse_evr(&s).unwrap();

    assert!(tup.0.is_none());
    assert_eq!(tup.1, "");
    assert_eq!(tup.2, Some(String::new()));
}

#[test]
fn parse_multiple_hyphens() {
    let s = "1-2-3".to_owned();
    let tup = parse_evr(&s).unwrap();

    assert!(tup.0.is_none());
    assert_eq!(tup.1, "1");
    assert_eq!(tup.2, Some("2-3".to_owned()));
}

#[test]
fn parse_colon_after_hyphen() {
    let s = "a-b:c".to_owned();
    let tup = parse_evr(&s).unwrap();

    assert!(tup.0.is_none());
    assert_eq!(tup.1, "a");
    assert_eq!(tup.2, Some("b:c".to_owned()));
}

#[test]
fn parse_full_form() {
    let s = "3:1.2.3-4".to_owned();
    let tup = parse_evr(&s).unwrap();

    assert_eq!(tup.0, Some("3".to_owned()));
    assert_eq!(tup.1, "1.2.3");
    assert_eq!(tup.2, Some("4".to_owned()));
}
