//! One crawl job: the pages found so far, held in an arena of nodes, the
//! URLs already attempted, and the queue of nodes still to expand.
//!
//! Expanding a node is split at its network calls: `begin_expand` decides
//! whether the page is fetched at all, `content_is_html` whether its body is
//! read, and `attach_page` takes the body and attaches the links on it.

use crate::site_url::{resolve_href, resolve_spec, string_views, text_eq, url_domain_of, SiteUrl};
use crate::tree::{SiteTree, SubSites};
use std::collections::VecDeque;
use vstd::prelude::*;

verus! {

broadcast use vstd::std_specs::vec::axiom_vec_index_decreases;

/// Names the list of `href` values of the `<a>` elements of an HTML text, in
/// document order.
pub uninterp spec fn anchor_hrefs_of(html: Seq<char>) -> Seq<Seq<char>>;

/// Names the lower-case form of a string, as `str::to_lowercase` gives it.
pub uninterp spec fn lower_of(s: Seq<char>) -> Seq<char>;

/// A page found by the crawl; `children` holds arena indices once the page
/// was expanded.
pub struct CrawlNode {
    pub url: SiteUrl,
    pub children: Option<Vec<usize>>,
}

/// The state of one crawl job.
pub struct Crawl {
    nodes: Vec<CrawlNode>,
    visited: Vec<String>,
    frontier: VecDeque<usize>,
    domain: Option<String>,
}

/// A node as the contracts see it.
pub ghost struct NodeView {
    pub url: Seq<char>,
    pub children: Option<Seq<usize>>,
}

/// A crawl job as the contracts see it.
pub ghost struct CrawlView {
    pub nodes: Seq<NodeView>,
    pub visited: Seq<Seq<char>>,
    pub frontier: Seq<usize>,
    pub domain: Option<Seq<char>>,
}

/// What `begin_expand` decided about a node.
#[derive(Debug, Clone, Copy, PartialEq, Eq)]
pub enum Step {
    /// The node is outside the crawl's domain (or has none): it stays a leaf.
    Pruned,
    /// Its URL was attempted before: nothing to do.
    AlreadyVisited,
    /// Its URL is now marked visited; probe it and, if it is HTML, fetch it.
    Probe,
}

/// The reason a page's expansion failed.
#[derive(Debug, Clone, Copy, PartialEq, Eq)]
pub enum CrawlError {
    /// The page had links and none of them resolved to a URL.
    AllLinksFailed,
}

pub open spec fn node_view(n: CrawlNode) -> NodeView {
    NodeView {
        url: n.url@,
        children: match n.children {
            Some(v) => Some(v@),
            None => None,
        },
    }
}

impl CrawlView {
    /// Every child index points to a later node, every queued index to a
    /// node, and the root exists.
    pub open spec fn wf(self) -> bool {
        &&& self.nodes.len() > 0
        &&& forall|i: int, k: int|
            #![trigger self.nodes[i].children->Some_0[k]]
            0 <= i < self.nodes.len() && self.nodes[i].children is Some && 0 <= k
                < self.nodes[i].children->Some_0.len() ==> i < self.nodes[i].children->Some_0[k]
                < self.nodes.len()
        &&& forall|k: int| 0 <= k < self.frontier.len() ==> self.frontier[k] < self.nodes.len()
    }
}

/// A URL lies in the crawl's domain when it has a domain and that domain is
/// the crawl's.
pub open spec fn in_domain(url: Seq<char>, domain: Option<Seq<char>>) -> bool {
    url_domain_of(url) is Some && url_domain_of(url) == domain
}

/// The first step of expanding `node`: the new state and the decision.
pub open spec fn begin_spec(s: CrawlView, node: int) -> (CrawlView, Step) {
    let u = s.nodes[node].url;
    if !in_domain(u, s.domain) {
        (s, Step::Pruned)
    } else if s.visited.contains(u) {
        (s, Step::AlreadyVisited)
    } else {
        (CrawlView { visited: s.visited.push(u), ..s }, Step::Probe)
    }
}

/// The URLs that the hrefs of a page at `base` stand for, in order of first
/// appearance, each once; hrefs that resolve to nothing are left out.
pub open spec fn unique_links(base: Seq<char>, hrefs: Seq<Seq<char>>) -> Seq<Seq<char>>
    decreases hrefs.len(),
{
    if hrefs.len() == 0 {
        Seq::empty()
    } else {
        let prev = unique_links(base, hrefs.drop_last());
        match resolve_spec(base, hrefs.last()) {
            Some(u) => if prev.contains(u) {
                prev
            } else {
                prev.push(u)
            },
            None => prev,
        }
    }
}

/// A page had links, and not one of them resolved.
pub open spec fn all_failed(base: Seq<char>, hrefs: Seq<Seq<char>>) -> bool {
    hrefs.len() > 0 && forall|i: int| 0 <= i < hrefs.len() ==> resolve_spec(base, hrefs[i]) is None
}

/// Whether a content type, lowered, names HTML.
pub open spec fn is_html_type(lowered: Seq<char>) -> bool {
    lowered.len() >= 9 && lowered.subrange(0, 9) == "text/html"@
}

/// Relies on `select::document::Document::from` and its `find(Name("a"))`,
/// with `Node::attr("href")`: the href values of the page's anchors.
#[verifier::external_body]
fn anchor_hrefs(html: &str) -> (r: Vec<String>)
    ensures
        string_views(r@) == anchor_hrefs_of(html@),
{
    select::document::Document::from(html).find(select::predicate::Name("a")).filter_map(
        |n| n.attr("href"),
    ).map(|h| h.to_string()).collect()
}

/// Relies on `str::to_lowercase`: the lower-case form of the string.
#[verifier::external_body]
fn lowercase(s: &str) -> (r: String)
    ensures
        r@ == lower_of(s@),
{
    s.to_lowercase()
}

/// Whether a content type that is already in lower case names HTML.
pub fn html_type_lowered(lowered: &str) -> (r: bool)
    ensures
        r == is_html_type(lowered@),
{
    proof {
        reveal_strlit("text/html");
    }
    let n = lowered.unicode_len();
    if n < 9 {
        return false;
    }
    let head = lowered.substring_char(0, 9);
    let want = "text/html";
    let mut i: usize = 0;
    while i < 9
        invariant
            i <= 9,
            head@ == lowered@.subrange(0, 9),
            head@.len() == 9,
            want@ == "text/html"@,
            want@.len() == 9,
            forall|j: int| 0 <= j < i ==> head@[j] == want@[j],
        decreases 9 - i,
    {
        if head.get_char(i) != want.get_char(i) {
            assert(head@ != want@);
            return false;
        }
        i = i + 1;
    }
    assert(head@ =~= want@);
    true
}

/// Whether a page whose probe gave this content-type header is read: only
/// where the header is there and names HTML, in any case.
pub fn content_is_html(content_type: Option<&str>) -> (r: bool)
    ensures
        r == match content_type {
            Some(c) => is_html_type(lower_of(c@)),
            None => false,
        },
{
    match content_type {
        Some(c) => {
            let lowered = lowercase(c);
            html_type_lowered(lowered.as_str())
        },
        None => false,
    }
}

/// Whether `s` occurs in `v`.
fn contains_string(v: &Vec<String>, s: &str) -> (r: bool)
    ensures
        r == string_views(v@).contains(s@),
{
    let mut i: usize = 0;
    while i < v.len()
        invariant
            i <= v.len(),
            forall|j: int| 0 <= j < i ==> v@[j]@ != s@,
        decreases v.len() - i,
    {
        if text_eq(v[i].as_str(), s) {
            assert(string_views(v@)[i as int] == s@);
            return true;
        }
        i = i + 1;
    }
    assert(!string_views(v@).contains(s@)) by {
        if string_views(v@).contains(s@) {
            let j = choose|j: int| 0 <= j < string_views(v@).len() && string_views(v@)[j] == s@;
            assert(v@[j]@ == s@);
        }
    }
    false
}

impl Crawl {
    /// The job as the contracts see it.
    pub closed spec fn view(&self) -> CrawlView {
        CrawlView {
            nodes: self.nodes@.map_values(|n: CrawlNode| node_view(n)),
            visited: string_views(self.visited@),
            frontier: self.frontier@,
            domain: match self.domain {
                Some(d) => Some(d@),
                None => None,
            },
        }
    }

    pub open spec fn wf(&self) -> bool {
        self.view().wf()
    }

    /// A job whose tree is the single node `root`, queued for expansion, with
    /// the root's domain as the crawl's domain.
    pub fn new(root: SiteUrl) -> (r: Crawl)
        ensures
            r.wf(),
            r.view().nodes == seq![NodeView { url: root@, children: None }],
            r.view().visited == Seq::<Seq<char>>::empty(),
            r.view().frontier == seq![0usize],
            r.view().domain == url_domain_of(root@),
    {
        let domain = root.domain();
        let mut nodes: Vec<CrawlNode> = Vec::new();
        nodes.push(CrawlNode { url: root, children: None });
        let mut frontier: VecDeque<usize> = VecDeque::new();
        frontier.push_back(0);
        let r = Crawl { nodes, visited: Vec::new(), frontier, domain };
        assert(r.view().nodes =~= seq![NodeView { url: root@, children: None }]);
        assert(r.view().visited =~= Seq::<Seq<char>>::empty());
        r
    }

    /// The number of nodes found so far.
    pub fn len(&self) -> (r: usize)
        ensures
            r == self.view().nodes.len(),
    {
        self.nodes.len()
    }

    /// The URL of a node.
    pub fn url_of(&self, node: usize) -> (r: &SiteUrl)
        requires
            node < self.view().nodes.len(),
        ensures
            r@ == self.view().nodes[node as int].url,
    {
        &self.nodes[node].url
    }

    /// Takes the node at the front of the queue.
    pub fn next_node(&mut self) -> (r: Option<usize>)
        requires
            old(self).wf(),
        ensures
            final(self).wf(),
            old(self).view().frontier.len() == 0 ==> r is None && final(self).view() == old(
                self,
            ).view(),
            old(self).view().frontier.len() > 0 ==> r == Some(old(self).view().frontier[0])
                && final(self).view() == (CrawlView {
                frontier: old(self).view().frontier.drop_first(),
                ..old(self).view()
            }),
    {
        let r = self.frontier.pop_front();
        proof {
            let o = old(self).view();
            let f = final(self).view();
            if o.frontier.len() > 0 {
                assert(f =~= (CrawlView { frontier: o.frontier.drop_first(), ..o }));
            } else {
                assert(f =~= o);
            }
        }
        r
    }

    /// The first step of expanding a node: prunes it where it lies outside
    /// the crawl's domain, does nothing where its URL was attempted before,
    /// and otherwise marks the URL visited, before any fetch.
    pub fn begin_expand(&mut self, node: usize) -> (r: Step)
        requires
            old(self).wf(),
            node < old(self).view().nodes.len(),
        ensures
            final(self).wf(),
            (final(self).view(), r) == begin_spec(old(self).view(), node as int),
    {
        let url_domain = self.nodes[node].url.domain();
        let inside = match (&url_domain, &self.domain) {
            (Some(d), Some(t)) => text_eq(d.as_str(), t.as_str()),
            _ => false,
        };
        if !inside {
            return Step::Pruned;
        }
        let text = self.nodes[node].url.as_str();
        if contains_string(&self.visited, text) {
            return Step::AlreadyVisited;
        }
        self.visited.push(String::from_str(text));
        proof {
            let o = old(self).view();
            assert(final(self).view().visited =~= o.visited.push(o.nodes[node as int].url));
            assert(final(self).view() =~= (CrawlView {
                visited: o.visited.push(o.nodes[node as int].url),
                ..o
            }));
        }
        Step::Probe
    }

    /// Whether a node among `nodes[from..]` has the URL `u`.
    fn find_from(&self, from: usize, u: &SiteUrl) -> (r: bool)
        requires
            from <= self.nodes@.len(),
        ensures
            r == self.view().nodes.subrange(from as int, self.view().nodes.len() as int).map_values(
                |n: NodeView| n.url,
            ).contains(u@),
    {
        let ghost tail = self.view().nodes.subrange(from as int, self.view().nodes.len() as int).map_values(
            |n: NodeView| n.url,
        );
        let mut k: usize = from;
        while k < self.nodes.len()
            invariant
                from <= k <= self.nodes@.len(),
                tail == self.view().nodes.subrange(from as int, self.view().nodes.len() as int).map_values(
                    |n: NodeView| n.url,
                ),
                forall|j: int| 0 <= j < k - from ==> tail[j] != u@,
            decreases self.nodes@.len() - k,
        {
            if self.nodes[k].url.same_as(u) {
                assert(tail[k - from] == u@);
                return true;
            }
            k = k + 1;
        }
        assert(!tail.contains(u@)) by {
            if tail.contains(u@) {
                let j = choose|j: int| 0 <= j < tail.len() && tail[j] == u@;
                assert(tail[j] != u@);
            }
        }
        false
    }

    /// Attaches the links of a page, given as the hrefs found on it: each
    /// href resolves to a URL (as an absolute URL, else against the page's
    /// URL); each URL that is new on this page becomes a child node, in
    /// order, and is queued. The node's children are replaced by these.
    /// Fails exactly when the page had hrefs and none of them resolved.
    pub fn attach_links(&mut self, node: usize, hrefs: &Vec<String>) -> (r: Result<(), CrawlError>)
        requires
            old(self).wf(),
            node < old(self).view().nodes.len(),
        ensures
            final(self).wf(),
            ({
                let o = old(self).view();
                let f = final(self).view();
                let n0 = o.nodes.len();
                let links = unique_links(o.nodes[node as int].url, string_views(hrefs@));
                &&& f.nodes.len() == n0 + links.len()
                &&& forall|i: int| 0 <= i < n0 && i != node ==> f.nodes[i] == o.nodes[i]
                &&& f.nodes[node as int] == (NodeView {
                    url: o.nodes[node as int].url,
                    children: Some(Seq::new(links.len(), |k: int| (n0 + k) as usize)),
                })
                &&& forall|k: int|
                    0 <= k < links.len() ==> f.nodes[n0 + k] == (NodeView {
                        url: links[k],
                        children: None,
                    })
                &&& f.frontier == o.frontier + Seq::new(links.len(), |k: int| (n0 + k) as usize)
                &&& f.visited == o.visited
                &&& f.domain == o.domain
            }),
            r is Err <==> all_failed(old(self).view().nodes[node as int].url, string_views(hrefs@)),
    {
        let ghost o = self.view();
        let ghost hv = string_views(hrefs@);
        let base = self.nodes[node].url.duplicate();
        let n0 = self.nodes.len();
        let mut kids: Vec<usize> = Vec::new();
        let mut any_ok = false;
        let mut i: usize = 0;
        while i < hrefs.len()
            invariant
                i <= hrefs@.len(),
                hv == string_views(hrefs@),
                base@ == o.nodes[node as int].url,
                n0 == o.nodes.len(),
                node < n0,
                self.view().nodes.len() == n0 + kids@.len(),
                self.view().nodes.subrange(0, n0 as int) == o.nodes,
                self.view().nodes.subrange(n0 as int, self.view().nodes.len() as int).map_values(
                    |n: NodeView| n.url,
                ) == unique_links(base@, hv.take(i as int)),
                forall|k: int| n0 <= k < self.view().nodes.len() ==> self.view().nodes[k].children is None,
                kids@ == Seq::new(kids@.len(), |k: int| (n0 + k) as usize),
                self.view().frontier == o.frontier + kids@,
                self.view().visited == o.visited,
                self.view().domain == o.domain,
                any_ok == exists|j: int| 0 <= j < i && resolve_spec(base@, hv[j]) is Some,
            decreases hrefs@.len() - i,
        {
            let ghost before = self.view();
            let ghost prev = unique_links(base@, hv.take(i as int));
            assert(hv.take(i + 1).drop_last() =~= hv.take(i as int));
            assert(hv[i as int] == hrefs@[i as int]@);
            match resolve_href(&base, hrefs[i].as_str()) {
                Some(u) => {
                    any_ok = true;
                    if !self.find_from(n0, &u) {
                        let idx = self.nodes.len();
                        self.nodes.push(CrawlNode { url: u, children: None });
                        self.frontier.push_back(idx);
                        kids.push(idx);
                        proof {
                            let f = self.view();
                            assert(f.nodes =~= before.nodes.push(NodeView { url: u@, children: None }));
                            assert(f.nodes.subrange(0, n0 as int) =~= o.nodes);
                            assert(f.nodes.subrange(n0 as int, f.nodes.len() as int).map_values(
                                |n: NodeView| n.url,
                            ) =~= prev.push(u@));
                            assert(kids@ =~= Seq::new(kids@.len(), |k: int| (n0 + k) as usize));
                            assert(f.frontier =~= o.frontier + kids@);
                        }
                    }
                },
                None => {},
            }
            i = i + 1;
        }
        assert(hv.take(i as int) =~= hv);
        let ghost links = unique_links(base@, hv);
        let ghost mid = self.view();
        let ghost old_kids = kids@;
        self.nodes.set(node, CrawlNode { url: base, children: Some(kids) });
        let n_end = self.nodes.len();
        proof {
            let f = self.view();
            let n1 = f.nodes.len();
            assert(f.nodes =~= mid.nodes.update(
                node as int,
                NodeView { url: o.nodes[node as int].url, children: Some(old_kids) },
            ));
            assert forall|k: int| 0 <= k < links.len() implies f.nodes[n0 + k] == (NodeView {
                url: links[k],
                children: None,
            }) by {
                assert(mid.nodes.subrange(n0 as int, n1 as int).map_values(|n: NodeView| n.url)[k]
                    == links[k]);
            }
            assert forall|i2: int, k: int|
                #![trigger f.nodes[i2].children->Some_0[k]]
                0 <= i2 < f.nodes.len() && f.nodes[i2].children is Some && 0 <= k
                    < f.nodes[i2].children->Some_0.len() implies i2
                < f.nodes[i2].children->Some_0[k] < f.nodes.len() by {
                if i2 == node {
                    assert(f.nodes[i2].children->Some_0[k] == old_kids[k]);
                    assert(old_kids[k] == (n0 + k) as usize);
                    assert(n0 + k < n1);
                    assert(n1 == n_end);
                } else if i2 < n0 {
                    assert(mid.nodes.subrange(0, n0 as int)[i2] == o.nodes[i2]);
                    assert(f.nodes[i2] == o.nodes[i2]);
                    assert(o.nodes[i2].children->Some_0[k] == f.nodes[i2].children->Some_0[k]);
                } else {
                    assert(mid.nodes[i2].children is None);
                }
            }
            assert(old_kids =~= Seq::new(links.len(), |k: int| (n0 + k) as usize));
            assert forall|i2: int| 0 <= i2 < n0 && i2 != node implies f.nodes[i2] == o.nodes[i2] by {
                assert(mid.nodes.subrange(0, n0 as int)[i2] == o.nodes[i2]);
            }
        }
        if any_ok || hrefs.len() == 0 {
            Ok(())
        } else {
            Err(CrawlError::AllLinksFailed)
        }
    }

    /// Attaches the links of a fetched HTML page, as `attach_links` does with
    /// the hrefs of the page's anchors.
    pub fn attach_page(&mut self, node: usize, html: &str) -> (r: Result<(), CrawlError>)
        requires
            old(self).wf(),
            node < old(self).view().nodes.len(),
        ensures
            final(self).wf(),
            ({
                let o = old(self).view();
                let f = final(self).view();
                let n0 = o.nodes.len();
                let links = unique_links(o.nodes[node as int].url, anchor_hrefs_of(html@));
                &&& f.nodes.len() == n0 + links.len()
                &&& forall|i: int| 0 <= i < n0 && i != node ==> f.nodes[i] == o.nodes[i]
                &&& f.nodes[node as int] == (NodeView {
                    url: o.nodes[node as int].url,
                    children: Some(Seq::new(links.len(), |k: int| (n0 + k) as usize)),
                })
                &&& forall|k: int|
                    0 <= k < links.len() ==> f.nodes[n0 + k] == (NodeView {
                        url: links[k],
                        children: None,
                    })
                &&& f.frontier == o.frontier + Seq::new(links.len(), |k: int| (n0 + k) as usize)
                &&& f.visited == o.visited
                &&& f.domain == o.domain
            }),
            r is Err <==> all_failed(old(self).view().nodes[node as int].url, anchor_hrefs_of(html@)),
    {
        let hrefs = anchor_hrefs(html);
        self.attach_links(node, &hrefs)
    }

    fn build_tree(&self, i: usize) -> (r: SiteTree)
        requires
            self.wf(),
            i < self.view().nodes.len(),
        ensures
            tree_matches(r, self.view(), i as int),
        decreases self.view().nodes.len() - i,
    {
        let url = self.nodes[i].url.duplicate();
        match &self.nodes[i].children {
            None => SiteTree { current_site: url, sub_sites: SubSites::Nil },
            Some(cs) => {
                let ghost s = self.view();
                assert(s.nodes[i as int].children == Some(cs@));
                let mut v: Vec<SiteTree> = Vec::new();
                let mut k: usize = 0;
                while k < cs.len()
                    invariant
                        self.wf(),
                        s == self.view(),
                        i < s.nodes.len(),
                        s.nodes[i as int].children == Some(cs@),
                        k <= cs@.len(),
                        v@.len() == k,
                        forall|j: int| 0 <= j < k ==> tree_matches(v@[j], s, cs@[j] as int),
                    decreases cs@.len() - k,
                {
                    assert(s.nodes[i as int].children->Some_0[k as int] == cs@[k as int]);
                    let child = self.build_tree(cs[k]);
                    v.push(child);
                    k = k + 1;
                }
                let r = SiteTree { current_site: url, sub_sites: SubSites::List(v) };
                assert(r.sub_sites->List_0 == v);
                r
            },
        }
    }

    /// The tree that the crawl has built so far, from the root down.
    pub fn to_tree(&self) -> (r: SiteTree)
        requires
            self.wf(),
        ensures
            tree_matches(r, self.view(), 0),
    {
        self.build_tree(0)
    }
}

/// `t` is the tree that the arena of `s` holds from node `i` down.
pub open spec fn tree_matches(t: SiteTree, s: CrawlView, i: int) -> bool
    decreases t,
{
    &&& t.current_site@ == s.nodes[i].url
    &&& match s.nodes[i].children {
        None => t.sub_sites is Nil,
        Some(cs) => match t.sub_sites {
            SubSites::List(v) => v.len() == cs.len() && forall|k: int|
                0 <= k < v.len() ==> #[trigger] tree_matches(v[k], s, cs[k] as int),
            SubSites::Nil => false,
        },
    }
}

/// Expanding a node a second time does nothing: the first expansion marks
/// its URL visited, and attaching the page's links keeps the visited URLs,
/// the node's URL and the domain; so on any such later state the second
/// call finds the URL visited, leaves the state as it is, and neither
/// fetches the page nor gives it children again.
pub proof fn lemma_expand_idempotent(s: CrawlView, node: int, later: CrawlView)
    requires
        s.wf(),
        0 <= node < s.nodes.len(),
        node < later.nodes.len(),
        later.visited == begin_spec(s, node).0.visited,
        later.nodes[node].url == s.nodes[node].url,
        later.domain == s.domain,
    ensures
        begin_spec(later, node).0 == later,
        begin_spec(later, node).1 != Step::Probe,
{
    let (s1, step1) = begin_spec(s, node);
    if step1 == Step::Probe {
        assert(s1.visited.last() == s.nodes[node].url);
        assert(later.visited.contains(s.nodes[node].url));
    }
}

/// The links kept from one page are distinct: an href that resolves to a
/// URL seen before on the same page adds no second child.
pub proof fn lemma_links_distinct(base: Seq<char>, hrefs: Seq<Seq<char>>)
    ensures
        unique_links(base, hrefs).no_duplicates(),
    decreases hrefs.len(),
{
    if hrefs.len() > 0 {
        lemma_links_distinct(base, hrefs.drop_last());
        let prev = unique_links(base, hrefs.drop_last());
        match resolve_spec(base, hrefs.last()) {
            Some(u) => if !prev.contains(u) {
                let next = prev.push(u);
                assert forall|a: int, b: int| 0 <= a < b < next.len() implies next[a] != next[b] by {
                    if b == prev.len() {
                        assert(prev[a] == next[a]);
                    }
                }
            },
            None => {},
        }
    }
}

/// Expanding a node outside the crawl's domain changes nothing: its
/// children stay unset and its URL is not marked visited.
pub proof fn lemma_domain_pruning(s: CrawlView, node: int)
    requires
        s.wf(),
        0 <= node < s.nodes.len(),
        !in_domain(s.nodes[node].url, s.domain),
    ensures
        begin_spec(s, node) == (s, Step::Pruned),
        begin_spec(s, node).0.nodes[node].children == s.nodes[node].children,
        begin_spec(s, node).0.visited == s.visited,
{
}

} // verus!
