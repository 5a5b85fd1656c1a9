use ctf_scoreboard::timestamp::get_timestamp;
use ctf_scoreboard::web::{get_cookie_value, get_navbar, parse_cookie, split_on};

#[test]
fn timestamp_at_epoch() {
    assert_eq!(get_timestamp(0), "01-01-1970 00:00:00");
}

#[test]
fn timestamp_fields() {
    assert_eq!(get_timestamp(31 * 86400 + 3661), "02-02-1970 01:01:01");
    assert_eq!(get_timestamp(365 * 86400 + 23 * 3600 + 59 * 60 + 59), "06-01-1971 23:59:59");
}

#[test]
fn cookies_parse_and_trim() {
    let c = parse_cookie("username=alice; auth_key= abc ").unwrap();
    assert_eq!(
        c,
        vec![("username".to_string(), "alice".to_string()), ("auth_key".to_string(), "abc".to_string())]
    );
    assert_eq!(get_cookie_value(&c, "auth_key"), Some("abc".to_string()));
    assert_eq!(get_cookie_value(&c, "missing"), None);
    let dup = vec![("a".to_string(), "1".to_string()), ("a".to_string(), "2".to_string())];
    assert_eq!(get_cookie_value(&dup, "a"), Some("1".to_string()));
}

#[test]
fn cookie_without_equals_is_refused() {
    assert_eq!(parse_cookie("username"), None);
    assert_eq!(parse_cookie(""), None);
    assert_eq!(parse_cookie("a=1;b"), None);
    let extra = parse_cookie("a=1=2").unwrap();
    assert_eq!(extra, vec![("a".to_string(), "1".to_string())]);
}

#[test]
fn split_keeps_empty_pieces() {
    assert_eq!(split_on("a;;b;", ';'), vec!["a", "", "b", ""]);
    assert_eq!(split_on("", ';'), vec![""]);
}

#[test]
fn navbar_follows_login() {
    let plain = "plain".to_string();
    let logged = "logged".to_string();
    assert_eq!(get_navbar(true, &plain, &logged), "logged");
    assert_eq!(get_navbar(false, &plain, &logged), "plain");
}
