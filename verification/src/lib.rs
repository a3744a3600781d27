//! An archive of the pages of a public site, kept as a version history.
//!
//! Emails announce changes to pages. Each change leads to a fetch of the
//! page and of its attachments and to a commit that records what was
//! fetched. This library holds the rules of that: how an email is read, what
//! a fetched page gives, which addresses are followed, how the tree of a
//! commit is built and when the reference moves. Fetching and storing are
//! left to the program that uses it.

use vstd::prelude::*;

pub mod canon;
pub mod crawl;
pub mod doc;
pub mod dom;
pub mod email_update;
pub mod error;
pub mod git;
pub mod inbox;
pub mod mail;
pub mod pipeline;
pub mod text;
pub mod web;

pub use doc::{Doc, DocContent};

verus! {

/// The media type of pages.
pub open spec fn page_type() -> Seq<char> {
    "text/html"@
}

/// The document that a response gives: a page where the media type is that
/// of pages, a file with the bytes of the body where it is any other.
pub open spec fn document_of(url: Seq<char>, media_type: Seq<char>, body: Seq<u8>) -> Result<
    doc::Content,
    error::Failure,
> {
    if media_type == page_type() {
        match doc::page_of(text::lossy(body)) {
            Some(page) => doc::content_of(page, Some(url)),
            None => Err(error::Failure::Selector),
        }
    } else {
        Ok(doc::Content::Other(body))
    }
}

/// Makes a document of the response to a fetch of `url`: its media type,
/// without parameters, and the bytes of its body.
pub fn retrieve_doc(url: String, media_type: &str, body: Vec<u8>) -> (made: Result<Doc, error::Error>)
    ensures
        match document_of(url@, media_type@, body@) {
            Ok(content) => made matches Ok(d) && d.url@ == url@ && d.content@ == content,
            Err(failure) => made matches Err(e) && e@ == failure,
        },
{
    if text::same_text(media_type, "text/html") {
        let markup = text::from_utf8_lossy(body.as_slice());
        match DocContent::html(markup.as_str(), Some(url.as_str())) {
            Ok(content) => Ok(Doc { url, content }),
            Err(e) => Err(e),
        }
    } else {
        Ok(Doc { url, content: DocContent::Other(body) })
    }
}

} // verus!
