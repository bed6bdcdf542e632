//! Absolute URLs, as the crawler reads them: a serialisation and a domain.

use vstd::prelude::*;

verus! {

/// What `url::Url::parse` makes of a string: the serialisation of the parsed
/// URL, or nothing where the string is no absolute URL.
pub uninterp spec fn url_parse_of(s: Seq<char>) -> Option<Seq<char>>;

/// What `url::Url::join` makes of an href against a base URL, the base given
/// by its serialisation.
pub uninterp spec fn url_join_of(base: Seq<char>, href: Seq<char>) -> Option<Seq<char>>;

/// What `url::Url::domain` returns for the URL with the given serialisation.
pub uninterp spec fn url_domain_of(u: Seq<char>) -> Option<Seq<char>>;

#[verifier::external_type_specification]
#[verifier::external_body]
pub struct ExUrl(url::Url);

/// An absolute URL: the parsed value and its serialisation.
#[derive(Debug, PartialEq)]
pub struct SiteUrl {
    url: url::Url,
    text: String,
}

/// The reason a string could not be made into an absolute URL.
#[derive(Debug, Clone, Copy, PartialEq, Eq)]
pub enum UrlError {
    InvalidUrl,
}

impl View for SiteUrl {
    type V = Seq<char>;

    closed spec fn view(&self) -> Seq<char> {
        self.text@
    }
}

/// Relies on `url::Url::parse`: the parsed URL, kept with its serialisation.
#[verifier::external_body]
fn parse_absolute(s: &str) -> (r: Option<SiteUrl>)
    ensures
        match r {
            Some(u) => url_parse_of(s@) == Some(u@),
            None => url_parse_of(s@) is None,
        },
{
    match url::Url::parse(s) {
        Ok(url) => {
            let text = url.as_str().to_string();
            Some(SiteUrl { url, text })
        },
        Err(_) => None,
    }
}

/// The first of `s`, `http://` + `s` and `https://` + `s` that parses as an
/// absolute URL.
pub open spec fn normalized(s: Seq<char>) -> Option<Seq<char>> {
    match url_parse_of(s) {
        Some(u) => Some(u),
        None => match url_parse_of("http://"@ + s) {
            Some(u) => Some(u),
            None => url_parse_of("https://"@ + s),
        },
    }
}

/// Turns a user-given site into an absolute URL, adding a scheme where the
/// string has none that parses.
pub fn parse_url(shell_arg: &str) -> (r: Result<SiteUrl, UrlError>)
    ensures
        match r {
            Ok(u) => normalized(shell_arg@) == Some(u@),
            Err(e) => normalized(shell_arg@) is None && e == UrlError::InvalidUrl,
        },
{
    if let Some(u) = parse_absolute(shell_arg) {
        return Ok(u);
    }
    let with_http = String::from_str("http://").concat(shell_arg);
    if let Some(u) = parse_absolute(with_http.as_str()) {
        return Ok(u);
    }
    let with_https = String::from_str("https://").concat(shell_arg);
    if let Some(u) = parse_absolute(with_https.as_str()) {
        return Ok(u);
    }
    Err(UrlError::InvalidUrl)
}

/// A site given without a scheme that parses is read as `http://` + site
/// where that parses, and as `https://` + site otherwise.
pub proof fn lemma_scheme_prefix(s: Seq<char>)
    requires
        url_parse_of(s) is None,
    ensures
        url_parse_of("http://"@ + s) is Some ==> normalized(s) == url_parse_of("http://"@ + s),
        url_parse_of("http://"@ + s) is None ==> normalized(s) == url_parse_of("https://"@ + s),
{
}

impl SiteUrl {
    /// The serialisation of the URL.
    pub fn as_str(&self) -> (r: &str)
        ensures
            r@ == self@,
    {
        self.text.as_str()
    }

    /// Whether two URLs have the same serialisation.
    pub fn same_as(&self, other: &SiteUrl) -> (r: bool)
        ensures
            r == (self@ == other@),
    {
        self.text == other.text
    }

    /// Relies on `url::Url::domain`: the domain of the URL's host, if its host
    /// is a domain.
    #[verifier::external_body]
    pub(crate) fn domain(&self) -> (r: Option<String>)
        ensures
            match r {
                Some(d) => url_domain_of(self@) == Some(d@),
                None => url_domain_of(self@) is None,
            },
    {
        self.url.domain().map(|d| d.to_string())
    }

    /// Relies on `url::Url::join`: `href` read as a reference relative to this
    /// URL.
    #[verifier::external_body]
    fn join(&self, href: &str) -> (r: Option<SiteUrl>)
        ensures
            match r {
                Some(u) => url_join_of(self@, href@) == Some(u@),
                None => url_join_of(self@, href@) is None,
            },
    {
        match self.url.join(href) {
            Ok(url) => {
                let text = url.as_str().to_string();
                Some(SiteUrl { url, text })
            },
            Err(_) => None,
        }
    }

    /// Relies on `url::Url::clone`: a copy of the parsed URL.
    #[verifier::external_body]
    pub(crate) fn duplicate(&self) -> (r: SiteUrl)
        ensures
            r@ == self@,
    {
        SiteUrl { url: self.url.clone(), text: self.text.clone() }
    }
}

/// The characters of each string, in order.
pub open spec fn string_views(v: Seq<String>) -> Seq<Seq<char>> {
    v.map_values(|h: String| h@)
}

/// Whether two strings hold the same characters.
pub fn text_eq(a: &str, b: &str) -> (r: bool)
    ensures
        r == (a@ == b@),
{
    let n = a.unicode_len();
    if n != b.unicode_len() {
        return false;
    }
    let mut i: usize = 0;
    while i < n
        invariant
            i <= n,
            n == a@.len(),
            a@.len() == b@.len(),
            forall|j: int| 0 <= j < i ==> a@[j] == b@[j],
        decreases n - i,
    {
        if a.get_char(i) != b.get_char(i) {
            return false;
        }
        i = i + 1;
    }
    assert(a@ =~= b@);
    true
}

/// What an href on a page stands for: itself where it is an absolute URL,
/// else the href resolved against the page's URL.
pub open spec fn resolve_spec(base: Seq<char>, href: Seq<char>) -> Option<Seq<char>> {
    match url_parse_of(href) {
        Some(u) => Some(u),
        None => url_join_of(base, href),
    }
}

/// Resolves one href found on the page at `base`.
pub fn resolve_href(base: &SiteUrl, href: &str) -> (r: Option<SiteUrl>)
    ensures
        match r {
            Some(u) => resolve_spec(base@, href@) == Some(u@),
            None => resolve_spec(base@, href@) is None,
        },
{
    match parse_absolute(href) {
        Some(u) => Some(u),
        None => base.join(href),
    }
}

} // verus!
