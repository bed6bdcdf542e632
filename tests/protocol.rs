use crawl::protocol::{
    decode_request, is_crawl_file, liveness, parse_command, request_text, start_reply, stop_reply,
    unknown_reply, Liveness, Request,
};
use crawl::site_url::parse_url;
use crawl::supervisor::StartError;

#[test]
fn decodes_requests() {
    assert_eq!(decode_request(b"  start example.com \n"), Request::Start(String::from("example.com")));
    assert_eq!(decode_request(b"stop a b"), Request::Stop(String::from("a b")));
    assert_eq!(decode_request(b"stop"), Request::Stop(String::new()));
    assert_eq!(decode_request(b"list"), Request::List);
    assert_eq!(decode_request(b"list extra"), Request::List);
    assert_eq!(decode_request(b"bogus x"), Request::Unknown);
    assert_eq!(decode_request(b""), Request::Unknown);
    assert_eq!(decode_request(b"start \xffx"), Request::Start(String::from("\u{fffd}x")));
}

#[test]
fn parses_trimmed_lines() {
    assert_eq!(parse_command("start  x"), Request::Start(String::from(" x")));
    assert_eq!(parse_command("LIST"), Request::Unknown);
}

#[test]
fn client_request_text() {
    assert_eq!(request_text("start", Some("http://a/")), "start http://a/");
    assert_eq!(request_text("list", None), "list");
}

#[test]
fn replies() {
    let ok = Ok(parse_url("a").unwrap());
    assert_eq!(start_reply("a", &ok), "Started scraping a");
    assert_eq!(start_reply("a", &Err(StartError::AlreadyActive)), "Already scraping or scraped a");
    assert_eq!(start_reply("a", &Err(StartError::InvalidUrl)), "Failed to get valid URL");
    assert_eq!(stop_reply("a", true), "Stopped scraping a");
    assert_eq!(stop_reply("a", false), "The daemon is not scraping a");
    assert_eq!(unknown_reply(), "Unknown command");
}

#[test]
fn liveness_cases() {
    assert_eq!(liveness(true, true), Liveness::Running);
    assert_eq!(liveness(false, false), Liveness::Stopped);
    assert_eq!(liveness(true, false), Liveness::Inconsistent);
    assert_eq!(liveness(false, true), Liveness::Inconsistent);
}

#[test]
fn crawl_files() {
    assert!(is_crawl_file("crawl.pid"));
    assert!(is_crawl_file("my-crawl"));
    assert!(!is_crawl_file("craw"));
    assert!(!is_crawl_file("other.txt"));
}
