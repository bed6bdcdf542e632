use crawl::engine::{content_is_html, html_type_lowered, Crawl, CrawlError, Step};
use crawl::site_url::parse_url;

fn crawl_of(url: &str) -> Crawl {
    Crawl::new(parse_url(url).unwrap())
}

fn strings(v: &[&str]) -> Vec<String> {
    v.iter().map(|s| s.to_string()).collect()
}

#[test]
fn new_crawl_queues_the_root() {
    let mut c = crawl_of("https://example.com");
    assert_eq!(c.len(), 1);
    assert_eq!(c.next_node(), Some(0));
    assert_eq!(c.next_node(), None);
}

#[test]
fn second_expand_is_a_no_op() {
    let mut c = crawl_of("https://example.com");
    assert_eq!(c.begin_expand(0), Step::Probe);
    assert_eq!(c.attach_links(0, &strings(&["/a"])), Ok(()));
    assert_eq!(c.begin_expand(0), Step::AlreadyVisited);
    assert_eq!(c.len(), 2);
}

#[test]
fn out_of_domain_node_is_pruned() {
    let mut c = crawl_of("https://example.com");
    assert_eq!(c.begin_expand(0), Step::Probe);
    assert_eq!(c.attach_links(0, &strings(&["https://other.org/x"])), Ok(()));
    assert_eq!(c.begin_expand(1), Step::Pruned);
    // Pruning leaves the URL unvisited: pruning again gives the same answer.
    assert_eq!(c.begin_expand(1), Step::Pruned);
    assert_eq!(
        c.to_tree().print_to_string(2),
        "https://example.com/\n└──https://other.org/x\n"
    );
}

#[test]
fn root_without_domain_is_pruned() {
    let mut c = crawl_of("http://127.0.0.1/");
    assert_eq!(c.begin_expand(0), Step::Pruned);
}

#[test]
fn identical_hrefs_give_one_child() {
    let mut c = crawl_of("https://example.com/dir/");
    let hrefs = strings(&["a", "/dir/a", "https://example.com/dir/a", "b"]);
    assert_eq!(c.begin_expand(0), Step::Probe);
    assert_eq!(c.attach_links(0, &hrefs), Ok(()));
    assert_eq!(c.len(), 3);
    assert_eq!(c.url_of(1).as_str(), "https://example.com/dir/a");
    assert_eq!(c.url_of(2).as_str(), "https://example.com/dir/b");
    assert_eq!(c.next_node(), Some(0));
    assert_eq!(c.next_node(), Some(1));
    assert_eq!(c.next_node(), Some(2));
    assert_eq!(c.next_node(), None);
}

#[test]
fn page_with_duplicate_anchors_gives_one_child() {
    let mut c = crawl_of("https://example.com");
    let html = "<html><body><a href=\"/x\">one</a><p><a href=\"/x\">two</a></p><a name=\"n\">no href</a></body></html>";
    assert_eq!(c.attach_page(0, html), Ok(()));
    assert_eq!(c.len(), 2);
    assert_eq!(c.url_of(1).as_str(), "https://example.com/x");
}

#[test]
fn all_hrefs_failing_is_an_error() {
    let mut c = crawl_of("https://example.com");
    assert_eq!(
        c.attach_links(0, &strings(&["http://[", "https://[bad"])),
        Err(CrawlError::AllLinksFailed)
    );
    assert_eq!(c.len(), 1);
}

#[test]
fn one_good_href_is_enough() {
    let mut c = crawl_of("https://example.com");
    assert_eq!(c.attach_links(0, &strings(&["http://[", "/fine"])), Ok(()));
    assert_eq!(c.len(), 2);
}

#[test]
fn page_without_hrefs_succeeds() {
    let mut c = crawl_of("https://example.com");
    assert_eq!(c.attach_page(0, "<html><body>nothing</body></html>"), Ok(()));
    assert_eq!(c.len(), 1);
    assert_eq!(c.to_tree().print_to_string(2), "https://example.com/\n");
}

#[test]
fn children_are_replaced_not_appended() {
    let mut c = crawl_of("https://example.com");
    assert_eq!(c.attach_links(0, &strings(&["/a"])), Ok(()));
    assert_eq!(c.attach_links(0, &strings(&["/b"])), Ok(()));
    assert_eq!(
        c.to_tree().print_to_string(2),
        "https://example.com/\n└──https://example.com/b\n"
    );
}

#[test]
fn breadth_first_tree() {
    let mut c = crawl_of("https://example.com");
    let mut pages = vec![
        (String::from("https://example.com/"), strings(&["/a", "/b"])),
        (String::from("https://example.com/a"), strings(&["/a/1", "/b"])),
    ];
    while let Some(n) = c.next_node() {
        if c.begin_expand(n) == Step::Probe {
            let url = c.url_of(n).as_str().to_string();
            if let Some(i) = pages.iter().position(|p| p.0 == url) {
                let hrefs = pages.remove(i).1;
                assert_eq!(c.attach_links(n, &hrefs), Ok(()));
            }
        }
    }
    assert_eq!(
        c.to_tree().print_to_string(2),
        "https://example.com/\n├──https://example.com/a\n│  ├──https://example.com/a/1\n│  └──https://example.com/b\n└──https://example.com/b\n"
    );
}

#[test]
fn html_content_types() {
    assert!(content_is_html(Some("text/html")));
    assert!(content_is_html(Some("Text/HTML; charset=utf-8")));
    assert!(!content_is_html(Some("image/png")));
    assert!(!content_is_html(Some("text/htm")));
    assert!(!content_is_html(None));
    assert!(html_type_lowered("text/html;charset=utf-8"));
    assert!(!html_type_lowered("TEXT/HTML"));
}
