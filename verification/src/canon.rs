//! Taking the volatile markup out of a page.
//!
//! The rewriting is the work of the `lol_html` crate, which streams the
//! markup and leaves alone what no handler touches. This library decides
//! what happens to an element: which attributes go, and which elements go
//! altogether.

use crate::dom::optional_text;
use crate::error::Error;
use lol_html::html_content::Element;
use lol_html::{ElementContentHandlers, RewriteStrSettings};
use std::borrow::Cow;
use vstd::prelude::*;

verus! {

/// An element that the rewriter has handed to a handler: its start tag with
/// the attributes, and the mark that tells whether it stays in the output.
#[verifier::external_body]
pub struct Tag<'a, 'r, 't> {
    element: &'a mut Element<'r, 't>,
}

#[verifier::external_type_specification]
#[verifier::external_body]
pub struct ExSelector(lol_html::Selector);

/// The names of the attributes that the element has, in lower case.
pub uninterp spec fn attribute_names(element: Tag<'_, '_, '_>) -> Set<Seq<char>>;

/// The element is marked to be left out of the output, with what it holds.
pub uninterp spec fn is_removed(element: Tag<'_, '_, '_>) -> bool;

/// The selector that the text parses to, where it is one.
pub uninterp spec fn rewriter_selector(text: Seq<char>) -> Option<lol_html::Selector>;

/// The markup that rewriting `html` gives, where `strip_volatile` is run on
/// the elements that match `every` and `drop_element` on those that match
/// `dropped`; `None` where the rewriter gives up.
pub uninterp spec fn rewritten(
    html: Seq<char>,
    every: lol_html::Selector,
    dropped: lol_html::Selector,
) -> Option<Seq<char>>;

/// A name made of small ASCII letters and hyphens, and not empty.
pub open spec fn plain_name(name: Seq<char>) -> bool {
    &&& name.len() > 0
    &&& forall|i: int| 0 <= i < name.len() ==> ('a' <= #[trigger] name[i] <= 'z' || name[i] == '-')
}

/// Calls `lol_html::html_content::Element::remove_attribute`. The crate
/// puts the name into lower case, which leaves a plain name as it is, and
/// drops every attribute of that name; nothing else of the element changes.
#[verifier::external_body]
pub(crate) fn remove_attribute(element: &mut Tag<'_, '_, '_>, name: &str)
    requires
        plain_name(name@),
    ensures
        attribute_names(*final(element)) == attribute_names(*old(element)).remove(name@),
        is_removed(*final(element)) == is_removed(*old(element)),
{
    element.element.remove_attribute(name)
}

/// Calls `lol_html::html_content::Element::remove`, which marks the start
/// tag, the content and the end tag to be left out.
#[verifier::external_body]
pub(crate) fn remove_element(element: &mut Tag<'_, '_, '_>)
    ensures
        is_removed(*final(element)),
        attribute_names(*final(element)) == attribute_names(*old(element)),
{
    element.element.remove()
}

/// Calls `str::parse` for `lol_html::Selector`.
#[verifier::external_body]
pub(crate) fn parse_selector(text: &str) -> (selector: Option<lol_html::Selector>)
    ensures
        selector == rewriter_selector(text@),
{
    text.parse().ok()
}

/// Calls `lol_html::rewrite_str` with two element handlers: `strip_volatile`
/// for the selector `every`, `drop_element` for the selector `dropped`.
#[verifier::external_body]
pub(crate) fn rewrite(html: &str, every: &lol_html::Selector, dropped: &lol_html::Selector) -> (out:
    Option<String>)
    ensures
        optional_text(out) == rewritten(html@, *every, *dropped),
{
    let strip = ElementContentHandlers::default().element(
        |el: &mut Element<'_, '_>| Ok(strip_volatile(&mut Tag { element: el })),
    );
    let drop = ElementContentHandlers::default().element(
        |el: &mut Element<'_, '_>| Ok(drop_element(&mut Tag { element: el })),
    );
    let settings = RewriteStrSettings::new()
        .append_element_content_handler((Cow::Borrowed(every), strip))
        .append_element_content_handler((Cow::Borrowed(dropped), drop));
    lol_html::rewrite_str(html, settings).ok()
}

/// The attributes that a server makes up anew for each response.
pub open spec fn volatile(name: Seq<char>) -> bool {
    name == "id"@ || name == "aria-labelledby"@ || name == "aria-hidden"@
}

/// The names without the volatile ones.
pub open spec fn stripped(names: Set<Seq<char>>) -> Set<Seq<char>> {
    names.remove("id"@).remove("aria-labelledby"@).remove("aria-hidden"@)
}

/// Takes the volatile attributes off an element.
pub fn strip_volatile(element: &mut Tag<'_, '_, '_>)
    ensures
        attribute_names(*final(element)) == stripped(attribute_names(*old(element))),
        is_removed(*final(element)) == is_removed(*old(element)),
{
    proof {
        reveal_strlit("id");
        reveal_strlit("aria-labelledby");
        reveal_strlit("aria-hidden");
    }
    remove_attribute(element, "id");
    remove_attribute(element, "aria-labelledby");
    remove_attribute(element, "aria-hidden");
}

/// Leaves an element out of the output, with what it holds.
pub fn drop_element(element: &mut Tag<'_, '_, '_>)
    ensures
        is_removed(*final(element)),
{
    remove_element(element);
}

/// No volatile attribute is left on a stripped element, every other
/// attribute is, and stripping again changes nothing.
pub proof fn law_strip(names: Set<Seq<char>>)
    ensures
        forall|name: Seq<char>| volatile(name) ==> !stripped(names).contains(name),
        forall|name: Seq<char>| !volatile(name) ==> stripped(names).contains(name) == names.contains(name),
        stripped(stripped(names)) == stripped(names),
{
    assert(stripped(stripped(names)) =~= stripped(names));
}

/// The selector for every element.
pub open spec fn every_element() -> Seq<char> {
    "*"@
}

/// The selector for the sidebar that is no part of the document and changes
/// for reasons of its own.
pub open spec fn sidebar() -> Seq<char> {
    ".gem-c-contextual-sidebar"@
}

/// The markup of `html` without the volatile attributes and without the
/// sidebar.
pub open spec fn canonical(html: Seq<char>) -> Result<Seq<char>, crate::error::Failure> {
    match (rewriter_selector(every_element()), rewriter_selector(sidebar())) {
        (Some(every), Some(dropped)) => match rewritten(html, every, dropped) {
            Some(out) => Ok(out),
            None => Err(crate::error::Failure::Render),
        },
        _ => Err(crate::error::Failure::Selector),
    }
}

/// Takes the volatile markup out of `html`: the attributes `id`,
/// `aria-labelledby` and `aria-hidden` of every element, and the elements
/// of the sidebar altogether.
pub fn remove_ids(html: &str) -> (out: Result<String, Error>)
    ensures
        match canonical(html@) {
            Ok(text) => out matches Ok(s) && s@ == text,
            Err(failure) => out matches Err(error) && error@ == failure,
        },
{
    let every = match parse_selector("*") {
        Some(selector) => selector,
        None => { return Err(Error::Selector); },
    };
    let dropped = match parse_selector(".gem-c-contextual-sidebar") {
        Some(selector) => selector,
        None => { return Err(Error::Selector); },
    };
    match rewrite(html, &every, &dropped) {
        Some(out) => Ok(out),
        None => Err(Error::Render),
    }
}

} // verus!
