//! Parsed HTML documents, as far as this library reads them.
//!
//! Parsing, selecting and serialising are the work of the `scraper` crate.
//! Each function here makes one call into it. What a call returns is a
//! function of its arguments alone, and has a name in specifications.

use scraper::Element;
use vstd::prelude::*;

verus! {

#[verifier::external_type_specification]
#[verifier::external_body]
pub struct ExHtml(scraper::Html);

#[verifier::external_type_specification]
#[verifier::external_body]
pub struct ExElementRef<'a>(scraper::ElementRef<'a>);

/// The document that parsing `text` gives.
pub uninterp spec fn parsed_document(text: Seq<char>) -> scraper::Html;

/// The selector parser accepts the text.
pub uninterp spec fn is_selector(text: Seq<char>) -> bool;

/// The elements of `document` that match `selector`, in the order in which
/// the document yields them.
pub uninterp spec fn selected(document: &scraper::Html, selector: Seq<char>) -> Seq<
    scraper::ElementRef<'_>,
>;

/// The elements below `element` that match `selector`, in document order.
pub uninterp spec fn selected_within(element: scraper::ElementRef<'_>, selector: Seq<char>) -> Seq<
    scraper::ElementRef<'_>,
>;

/// The tag name of `element`.
pub uninterp spec fn name_of(element: scraper::ElementRef<'_>) -> Seq<char>;

/// The markup of `element`, its own tags included.
pub uninterp spec fn outer_html_of(element: scraper::ElementRef<'_>) -> Seq<char>;

/// The markup of what `element` contains.
pub uninterp spec fn inner_html_of(element: scraper::ElementRef<'_>) -> Seq<char>;

/// The text nodes below `element`, in document order.
pub uninterp spec fn text_nodes_of(element: scraper::ElementRef<'_>) -> Seq<Seq<char>>;

/// The value of the attribute `name` of `element`, where it has one.
pub uninterp spec fn attribute_of(element: scraper::ElementRef<'_>, name: Seq<char>) -> Option<
    Seq<char>,
>;

/// The text of the first child of `element`, where that child is a text node.
pub uninterp spec fn first_text_of(element: scraper::ElementRef<'_>) -> Option<Seq<char>>;

/// The first child of `element`, where that child is an element.
pub uninterp spec fn first_element_of(element: scraper::ElementRef<'_>) -> Option<
    scraper::ElementRef<'_>,
>;

/// The next sibling of `element` that is an element, where there is one.
pub uninterp spec fn next_element_of(element: scraper::ElementRef<'_>) -> Option<
    scraper::ElementRef<'_>,
>;

/// The characters of an optional string.
pub open spec fn optional_text(text: Option<String>) -> Option<Seq<char>> {
    match text {
        Some(s) => Some(s@),
        None => None,
    }
}

/// Calls `scraper::Html::parse_document`, which never fails: it builds a
/// tree for whatever it is given. The result is the document named
/// `parsed_document` of the text.
#[verifier::external_body]
pub(crate) fn parse_document(text: &str) -> (document: scraper::Html)
    ensures
        document == parsed_document(text@),
{
    scraper::Html::parse_document(text)
}

/// Calls `scraper::Selector::parse` on the selector and, where that
/// succeeds, `scraper::Html::select` with it. The result is the sequence
/// named `selected`; it is `None` exactly where the selector does not parse,
/// which depends on the selector alone.
#[verifier::external_body]
pub(crate) fn select<'a>(document: &'a scraper::Html, selector: &str) -> (found: Option<
    Vec<scraper::ElementRef<'a>>,
>)
    ensures
        found is Some == is_selector(selector@),
        found matches Some(elements) ==> selected(document, selector@) == elements@,
{
    match scraper::Selector::parse(selector) {
        Ok(parsed) => Some(document.select(&parsed).collect()),
        Err(_) => None,
    }
}

/// Calls `scraper::Selector::parse` on the selector and, where that
/// succeeds, `scraper::ElementRef::select` with it. The result is the
/// sequence named `selected_within`; it is `None` exactly where the selector
/// does not parse, which depends on the selector alone.
#[verifier::external_body]
pub(crate) fn select_within<'a>(element: &scraper::ElementRef<'a>, selector: &str) -> (found: Option<
    Vec<scraper::ElementRef<'a>>,
>)
    ensures
        found is Some == is_selector(selector@),
        found matches Some(elements) ==> selected_within(*element, selector@) == elements@,
{
    match scraper::Selector::parse(selector) {
        Ok(parsed) => Some(element.select(&parsed).collect()),
        Err(_) => None,
    }
}

/// Calls `scraper::node::Element::name`: the local part of the tag name.
#[verifier::external_body]
pub(crate) fn element_name(element: &scraper::ElementRef<'_>) -> (name: String)
    ensures
        name@ == name_of(*element),
{
    element.value().name().to_string()
}

/// Calls `scraper::ElementRef::html`: the element serialised with its tags.
#[verifier::external_body]
pub(crate) fn outer_html(element: &scraper::ElementRef<'_>) -> (html: String)
    ensures
        html@ == outer_html_of(*element),
{
    element.html()
}

/// Calls `scraper::ElementRef::inner_html`: the children of the element,
/// serialised.
#[verifier::external_body]
pub(crate) fn inner_html(element: &scraper::ElementRef<'_>) -> (html: String)
    ensures
        html@ == inner_html_of(*element),
{
    element.inner_html()
}

/// Calls `scraper::ElementRef::text` and collects what it yields: the text
/// nodes below the element.
#[verifier::external_body]
pub(crate) fn text_nodes(element: &scraper::ElementRef<'_>) -> (nodes: Vec<String>)
    ensures
        crate::text::texts(nodes@) == text_nodes_of(*element),
{
    element.text().map(String::from).collect()
}

/// Calls `scraper::ElementRef::attr`: the value of the attribute of that
/// name, `None` where the element has none.
#[verifier::external_body]
pub(crate) fn attribute(element: &scraper::ElementRef<'_>, name: &str) -> (value: Option<String>)
    ensures
        optional_text(value) == attribute_of(*element, name@),
{
    element.attr(name).map(String::from)
}

/// Calls `ego_tree::NodeRef::first_child` and `scraper::Node::as_text`: the
/// text of the first child, `None` where there is no child or it is no text
/// node.
#[verifier::external_body]
pub(crate) fn first_text(element: &scraper::ElementRef<'_>) -> (text: Option<String>)
    ensures
        optional_text(text) == first_text_of(*element),
{
    Some(element.first_child()?.value().as_text()?.to_string())
}

/// Calls `ego_tree::NodeRef::first_child` and `scraper::ElementRef::wrap`:
/// the first child, `None` where there is no child or it is no element.
#[verifier::external_body]
pub(crate) fn first_element<'a>(element: &scraper::ElementRef<'a>) -> (child: Option<
    scraper::ElementRef<'a>,
>)
    ensures
        child == first_element_of(*element),
{
    element.first_child().and_then(scraper::ElementRef::wrap)
}

/// Calls `next_sibling_element` of the `selectors::Element` trait, as
/// `scraper::ElementRef` implements it: the first of the following siblings
/// that is an element.
#[verifier::external_body]
pub(crate) fn next_element<'a>(element: &scraper::ElementRef<'a>) -> (next: Option<
    scraper::ElementRef<'a>,
>)
    ensures
        next == next_element_of(*element),
{
    element.next_sibling_element()
}

} // verus!
