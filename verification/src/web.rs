//! Addresses of pages.
//!
//! Taking an address apart and putting it together is the work of the `url`
//! crate. A parsed address is carried as that crate's `Url`; each trusted
//! function here makes one call on it. What a call returns is a function of
//! its arguments alone, and has a name in specifications. Outside this
//! module an address is held as text.

use crate::dom::optional_text;
use crate::text::same_text;
use vstd::prelude::*;

verus! {

#[verifier::external_type_specification]
#[verifier::external_body]
pub struct ExUrl(url::Url);

/// The URL that `href` parses to; `None` where it is no URL.
pub uninterp spec fn url_of(href: Seq<char>) -> Option<url::Url>;

/// The serialisation of the URL.
pub uninterp spec fn text_in(url: url::Url) -> Seq<char>;

/// The host of the URL, where it has one.
pub uninterp spec fn host_in(url: url::Url) -> Option<Seq<char>>;

/// The path of the URL.
pub uninterp spec fn path_in(url: url::Url) -> Seq<char>;

/// The URL without its query.
pub uninterp spec fn query_cleared(url: url::Url) -> url::Url;

/// The URL without its fragment.
pub uninterp spec fn fragment_cleared(url: url::Url) -> url::Url;

/// The URL that `reference` resolves to against `base`, where the two give
/// one.
pub uninterp spec fn joined_in(base: url::Url, reference: Seq<char>) -> Option<url::Url>;

/// Calls `url::Url::parse`; `None` where the text does not parse.
#[verifier::external_body]
pub(crate) fn parse(href: &str) -> (url: Option<url::Url>)
    ensures
        url == url_of(href@),
{
    url::Url::parse(href).ok()
}

/// Calls `url::Url::as_str`: the serialisation.
#[verifier::external_body]
pub(crate) fn text(url: &url::Url) -> (text: String)
    ensures
        text@ == text_in(*url),
{
    url.as_str().to_string()
}

/// Calls `url::Url::host_str`.
#[verifier::external_body]
pub(crate) fn host(url: &url::Url) -> (host: Option<String>)
    ensures
        optional_text(host) == host_in(*url),
{
    url.host_str().map(String::from)
}

/// Calls `url::Url::path`.
#[verifier::external_body]
pub(crate) fn path(url: &url::Url) -> (path: String)
    ensures
        path@ == path_in(*url),
{
    url.path().to_string()
}

/// Calls `url::Url::set_query` with `None`, which cannot fail.
#[verifier::external_body]
pub(crate) fn clear_query(url: url::Url) -> (cleared: url::Url)
    ensures
        cleared == query_cleared(url),
{
    let mut url = url;
    url.set_query(None);
    url
}

/// Calls `url::Url::set_fragment` with `None`, which cannot fail.
#[verifier::external_body]
pub(crate) fn clear_fragment(url: url::Url) -> (cleared: url::Url)
    ensures
        cleared == fragment_cleared(url),
{
    let mut url = url;
    url.set_fragment(None);
    url
}

/// Calls `url::Url::join`; `None` where the reference does not resolve.
#[verifier::external_body]
pub(crate) fn resolve(base: &url::Url, reference: &str) -> (url: Option<url::Url>)
    ensures
        url == joined_in(*base, reference@),
{
    base.join(reference).ok()
}

/// The text of the URL that `href` parses to; `None` where it is no URL.
pub open spec fn url_text(href: Seq<char>) -> Option<Seq<char>> {
    match url_of(href) {
        Some(url) => Some(text_in(url)),
        None => None,
    }
}

/// The host of the URL that `href` parses to; `None` where it is no URL or
/// has no host.
pub open spec fn url_host(href: Seq<char>) -> Option<Seq<char>> {
    match url_of(href) {
        Some(url) => host_in(url),
        None => None,
    }
}

/// The path of the URL that `href` parses to; `None` where it is no URL.
pub open spec fn url_path(href: Seq<char>) -> Option<Seq<char>> {
    match url_of(href) {
        Some(url) => Some(path_in(url)),
        None => None,
    }
}

/// The text of the URL that `reference` resolves to against the URL `base`;
/// `None` where `base` is no URL or the two do not give one.
pub open spec fn url_joined(base: Seq<char>, reference: Seq<char>) -> Option<Seq<char>> {
    match url_of(base) {
        Some(url) => match joined_in(url, reference) {
            Some(joined) => Some(text_in(joined)),
            None => None,
        },
        None => None,
    }
}

/// The address without query and fragment: the text of the URL that `href`
/// parses to, once both are cleared. It is `Some` exactly where `href` is a
/// URL.
pub open spec fn normalized(href: Seq<char>) -> Option<Seq<char>> {
    match url_of(href) {
        Some(url) => Some(text_in(fragment_cleared(query_cleared(url)))),
        None => None,
    }
}

/// The text of the URL that `href` parses to; `None` where it is no URL.
pub fn parse_url(href: &str) -> (url: Option<String>)
    ensures
        optional_text(url) == url_text(href@),
{
    match parse(href) {
        Some(url) => Some(text(&url)),
        None => None,
    }
}

/// The host of the URL that `href` parses to.
pub fn host_of(href: &str) -> (found: Option<String>)
    ensures
        optional_text(found) == url_host(href@),
{
    match parse(href) {
        Some(url) => host(&url),
        None => None,
    }
}

/// The path of the URL that `href` parses to.
pub fn path_of(href: &str) -> (found: Option<String>)
    ensures
        optional_text(found) == url_path(href@),
{
    match parse(href) {
        Some(url) => Some(path(&url)),
        None => None,
    }
}

/// The address that `reference` leads to from the address `base`.
pub fn join(base: &str, reference: &str) -> (url: Option<String>)
    ensures
        optional_text(url) == url_joined(base@, reference@),
{
    match parse(base) {
        Some(from) => match resolve(&from, reference) {
            Some(joined) => Some(text(&joined)),
            None => None,
        },
        None => None,
    }
}

/// The address without its query and its fragment; `None` exactly where it
/// is no URL.
pub fn normalize(href: &str) -> (url: Option<String>)
    ensures
        optional_text(url) == normalized(href@),
        url is Some == (url_of(href@) is Some),
{
    match parse(href) {
        Some(url) => Some(text(&clear_fragment(clear_query(url)))),
        None => None,
    }
}

/// The host whose pages are archived.
pub open spec fn trusted_host() -> Seq<char> {
    "www.gov.uk"@
}

/// The address is on the trusted host.
pub open spec fn trusted(url: Seq<char>) -> bool {
    url_host(url) == Some(trusted_host())
}

/// Tells whether the address is on the trusted host.
pub fn is_trusted(url: &str) -> (yes: bool)
    ensures
        yes == trusted(url@),
{
    match host_of(url) {
        Some(found) => same_text(found.as_str(), "www.gov.uk"),
        None => false,
    }
}

} // verus!
