use saba_core::url::{contains, Url};

#[test]
fn http_url_is_refused() {
    let mut u = Url::new("http://example.com:8888/index.html".to_string());
    assert_eq!(u.parse().unwrap_err(), "Only HTTP scheme is supported");
    assert_eq!(u.url(), "http://example.com:8888/index.html");
}

#[test]
fn substring_search() {
    assert!(contains("xx http://a", "http://"));
    assert!(!contains("https://a", "http://"));
    assert!(contains("abc", ""));
    assert!(!contains("ab", "abc"));
}

#[test]
fn refused_parse_leaves_url_as_it_was() {
    let mut u = Url::new("see http://a/b".to_string());
    assert!(u.parse().is_err());
    assert_eq!(u.url(), "see http://a/b");
}
