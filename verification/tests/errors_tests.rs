use katas::errors::{first_char, parse_i32, read_numbers_from_str, UserProfile};

#[test]
fn test_first_char() {
    assert_eq!(first_char("hello"), Ok('h'));
    assert_eq!(first_char(""), Err("Empty string".to_string()));
}

#[test]
fn test_read_numbers_from_str() {
    assert_eq!(read_numbers_from_str("1 2 3"), Ok(vec![1, 2, 3]));
    assert_eq!(read_numbers_from_str("  -4   +5 "), Ok(vec![-4, 5]));
    assert_eq!(read_numbers_from_str(""), Ok(Vec::new()));
    assert_eq!(read_numbers_from_str("1 a 3"), Err("Invalid number".to_string()));
    assert_eq!(read_numbers_from_str("99999999999"), Err("Invalid number".to_string()));
    assert_eq!(read_numbers_from_str("12x"), Err("Invalid number".to_string()));
}

#[test]
fn test_parse_i32_bounds() {
    assert_eq!(parse_i32("2147483647"), Some(i32::MAX));
    assert_eq!(parse_i32("-2147483648"), Some(i32::MIN));
    assert_eq!(parse_i32("2147483648"), None);
    assert_eq!(parse_i32("-2147483649"), None);
    assert_eq!(parse_i32("007"), Some(7));
    assert_eq!(parse_i32("+"), None);
    assert_eq!(parse_i32("-"), None);
    assert_eq!(parse_i32(""), None);
}

#[test]
fn test_get_email_domain() {
    let p = UserProfile::new("ann".to_string(), Some("ann@example.com".to_string()));
    assert_eq!(p.get_email_domain(), Some("example.com".to_string()));

    let q = UserProfile::new("bob".to_string(), None);
    assert_eq!(q.get_email_domain(), None);

    let r = UserProfile::new("cam".to_string(), Some("no-at-sign".to_string()));
    assert_eq!(r.get_email_domain(), None);

    let s = UserProfile::new("dee".to_string(), Some("a@b@c".to_string()));
    assert_eq!(s.get_email_domain(), Some("b".to_string()));
}
