use crawl::site_url::parse_url;
use crawl::tree::{SiteTree, SubSites};

fn leaf(url: &str) -> SiteTree {
    SiteTree {
        current_site: parse_url(url).unwrap(),
        sub_sites: SubSites::Nil,
    }
}

#[test]
fn test_tree_print() {
    let site_tree = SiteTree {
        current_site: parse_url("https://example.com").unwrap(),
        sub_sites: SubSites::List(vec![
            leaf("https://example.com/subsite1"),
            SiteTree {
                current_site: parse_url("https://example.com/subsite2").unwrap(),
                sub_sites: SubSites::List(vec![
                    SiteTree {
                        current_site: parse_url("https://example.com/subsite2/1").unwrap(),
                        sub_sites: SubSites::List(vec![leaf("https://example.com/subsite2/1/1")]),
                    },
                    SiteTree {
                        current_site: parse_url("https://example.com/subsite2/2").unwrap(),
                        sub_sites: SubSites::List(vec![
                            leaf("https://example.com/subsite2/2/1"),
                            leaf("https://example.com/subsite2/2/2"),
                        ]),
                    },
                ]),
            },
            leaf("https://example.com/subsite3"),
        ]),
    };
    println!("Output of tree print:");
    println!("{}", site_tree.print_to_string(2));
    assert_eq!(
        site_tree.print_to_string(2),
        "https://example.com/\n├──https://example.com/subsite1\n├──https://example.com/subsite2\n│  ├──https://example.com/subsite2/1\n│  │  └──https://example.com/subsite2/1/1\n│  └──https://example.com/subsite2/2\n│     ├──https://example.com/subsite2/2/1\n│     └──https://example.com/subsite2/2/2\n└──https://example.com/subsite3\n"
    );
}

#[test]
fn single_node_renders_one_line() {
    assert_eq!(leaf("https://example.com/a").print_to_string(2), "https://example.com/a\n");
}

#[test]
fn zero_spacing_has_no_filler() {
    let t = SiteTree {
        current_site: parse_url("https://example.com").unwrap(),
        sub_sites: SubSites::List(vec![
            SiteTree {
                current_site: parse_url("https://example.com/a").unwrap(),
                sub_sites: SubSites::List(vec![leaf("https://example.com/a/b")]),
            },
            leaf("https://example.com/c"),
        ]),
    };
    assert_eq!(
        t.print_to_string(0),
        "https://example.com/\n├https://example.com/a\n│└https://example.com/a/b\n└https://example.com/c\n"
    );
}

#[test]
fn expanded_page_without_links_renders_alone() {
    let t = SiteTree {
        current_site: parse_url("https://example.com").unwrap(),
        sub_sites: SubSites::List(vec![]),
    };
    assert_eq!(t.print_to_string(3), "https://example.com/\n");
}
