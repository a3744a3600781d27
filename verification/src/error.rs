//! The ways in which reading an email or a page can fail.

use vstd::prelude::*;

verus! {

/// The part of an email or of a page that was expected and not found.
#[derive(Clone, Copy, Debug, PartialEq, Eq, Structural)]
pub enum Missing {
    /// The message is no MIME message that can be taken apart.
    Container,
    /// No part of the message has the media type `text/html`.
    HtmlPart,
    /// The HTML part cannot be decoded.
    Body,
    /// The first paragraph, which holds the heading of the email.
    Title,
    /// The paragraph or heading that holds the link to the document.
    DocumentLink,
    /// The address on the link to the document.
    Href,
    /// The address is no URL.
    Url,
    /// The paragraph that holds the summary of the page.
    Summary,
    /// The paragraph that describes the change.
    Change,
    /// The text of the description, after its label.
    ChangeText,
    /// The paragraph that holds the time of the update.
    Timestamp,
    /// The text of the time, after its label.
    TimestampText,
    /// The heading that names the category of a digest.
    Category,
    /// The rule that ends a section of a digest.
    Separator,
    /// The `time` element of an entry of the history of a page.
    HistoryTime,
    /// The `datetime` attribute of that element.
    HistoryDate,
    /// The `datetime` attribute holds no time.
    HistoryInstant,
    /// The paragraph of an entry of the history of a page.
    HistorySummary,
}

/// Why an email or a page could not be read.
#[derive(Debug, PartialEq, Eq)]
pub enum Error {
    /// Something that the template promises is not there.
    MalformedEmail(Missing),
    /// The heading of the email is none of the known ones; it is handed back.
    UnknownEmailFormat(String),
    /// The address leads to another host than the trusted one; the host is
    /// handed back, where the address has one.
    UntrustedSource(Option<String>),
    /// The page has no main content.
    ContentShape,
    /// The markup of the page could not be rewritten.
    Render,
    /// A selector that this library uses was refused by the selector parser.
    Selector,
}

/// The mathematical value of an [`Error`].
pub enum Failure {
    MalformedEmail(Missing),
    UnknownEmailFormat(Seq<char>),
    UntrustedSource(Option<Seq<char>>),
    ContentShape,
    Render,
    Selector,
}

impl View for Error {
    type V = Failure;

    open spec fn view(&self) -> Failure {
        match self {
            Error::MalformedEmail(missing) => Failure::MalformedEmail(*missing),
            Error::UnknownEmailFormat(heading) => Failure::UnknownEmailFormat(heading@),
            Error::UntrustedSource(host) => Failure::UntrustedSource(
                match host {
                    Some(h) => Some(h@),
                    None => None,
                },
            ),
            Error::ContentShape => Failure::ContentShape,
            Error::Render => Failure::Render,
            Error::Selector => Failure::Selector,
        }
    }
}

} // verus!
