use crate::error::CookieError;
use url::Url;
use vstd::prelude::*;

verus! {

/// What to capture, and how.
pub struct FetchScreenshotConfig {
    /// The page to capture.
    pub url: String,
    /// Width of the tab, in pixels.
    pub width: u16,
    /// Height of the tab, in pixels.
    pub height: u16,
    /// A CSS selector to wait for before the capture; empty for none.
    pub element: String,
    /// Seconds to wait before the capture.
    pub delay: u64,
    /// Whether to wait until the navigation has finished.
    pub wait_until_navigated: bool,
    /// Plaintext cookies to inject in place of the stored ones; empty for
    /// none.
    pub cookies: String,
}

impl Default for FetchScreenshotConfig {
    fn default() -> (r: Self)
        ensures
            r.url@.len() == 0,
            r.width == 0,
            r.height == 0,
            r.element@.len() == 0,
            r.delay == 0,
            !r.wait_until_navigated,
            r.cookies@.len() == 0,
    {
        FetchScreenshotConfig {
            url: String::new(),
            width: 0,
            height: 0,
            element: String::new(),
            delay: 0,
            wait_until_navigated: false,
            cookies: String::new(),
        }
    }
}

/// The host of `url` as text (no scheme, no port), or `None` where `url` does
/// not parse or has no host.
pub uninterp spec fn url_host(url: Seq<char>) -> Option<Seq<char>>;

/// Relies on url::Url::parse and `Url::host`, with the host written out by
/// its `Display`: the host text of a URL that parses and has a host, `None`
/// otherwise.
#[verifier::external_body]
fn parse_url_host(url: &str) -> (r: Option<String>)
    ensures
        r matches Some(h) ==> url_host(url@) == Some(h@),
        r is None ==> url_host(url@) is None,
{
    let parsed = Url::parse(url).ok()?;
    parsed.host().map(|h| h.to_string())
}

/// The cookie-store lookup key of a target URL: its host, with scheme and
/// port stripped.
pub fn host_key(url: &str) -> (r: Result<String, CookieError>)
    ensures
        r matches Ok(h) ==> url_host(url@) == Some(h@),
        r matches Err(e) ==> e == CookieError::HostParseError && url_host(url@) is None,
{
    match parse_url_host(url) {
        Some(h) => Ok(h),
        None => Err(CookieError::HostParseError),
    }
}

/// Where the cookies to inject come from.
#[derive(Debug, Clone, Copy, PartialEq, Eq, Structural)]
pub enum CookieSource {
    /// The browser's encrypted cookie store.
    Store,
    /// The plaintext cookies given in the configuration.
    Override,
}

/// The stored cookies are recovered unless plaintext cookies were given.
pub fn cookie_source(cookies: &str) -> (r: CookieSource)
    ensures
        r == CookieSource::Store <==> cookies@.len() == 0,
{
    if cookies.is_empty() {
        CookieSource::Store
    } else {
        CookieSource::Override
    }
}

} // verus!
