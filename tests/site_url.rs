use crawl::site_url::{parse_url, resolve_href, UrlError};

#[test]
fn test_parse_url() {
    let url_test = String::from("www.example.com");
    let parsed_url = parse_url(&url_test).expect("Couldn't parse the given URL");
    println!("{}", parsed_url.as_str());
    assert_eq!(
        parse_url("http://www.example.com").expect("Couldn't parse the given URL"),
        parsed_url
    );
}

#[test]
fn bare_domain_gets_http() {
    assert_eq!(parse_url("example.com").unwrap().as_str(), "http://example.com/");
}

#[test]
fn absolute_url_is_kept() {
    assert_eq!(parse_url("https://example.com/a?b=1").unwrap().as_str(), "https://example.com/a?b=1");
}

#[test]
fn unparsable_site_is_invalid() {
    assert_eq!(parse_url("").unwrap_err(), UrlError::InvalidUrl);
    assert_eq!(parse_url("[").unwrap_err(), UrlError::InvalidUrl);
}

#[test]
fn href_resolution() {
    let base = parse_url("https://example.com/dir/page").unwrap();
    assert_eq!(resolve_href(&base, "other").unwrap().as_str(), "https://example.com/dir/other");
    assert_eq!(resolve_href(&base, "/top").unwrap().as_str(), "https://example.com/top");
    assert_eq!(resolve_href(&base, "http://else.org").unwrap().as_str(), "http://else.org/");
    assert!(resolve_href(&base, "http://[").is_none());
}

#[test]
fn same_serialisation() {
    let u = parse_url("example.org/q").unwrap();
    assert!(u.same_as(&parse_url("http://example.org/q").unwrap()));
    assert!(!u.same_as(&parse_url("example.org/r").unwrap()));
}
