//! The parts of a MIME message.
//!
//! Taking a message apart is the work of the `mailparse` crate. Each function
//! here parses the message and hands out one thing as plain values: a parsed
//! message borrows from the text, so it is not kept between the calls.

use crate::dom::optional_text;
use crate::text::texts;
use vstd::prelude::*;

verus! {

/// The media types of the direct subparts of the message, in order; `None`
/// where the message cannot be taken apart.
pub uninterp spec fn part_types(message: Seq<char>) -> Option<Seq<Seq<char>>>;

/// The decoded body of the subpart at `index`; `None` where the message
/// cannot be taken apart, has no such subpart, or the body cannot be decoded.
pub uninterp spec fn part_body(message: Seq<char>, index: int) -> Option<Seq<char>>;

/// The characters of each string of an optional list.
pub open spec fn optional_texts(list: Option<Vec<String>>) -> Option<Seq<Seq<char>>> {
    match list {
        Some(v) => Some(texts(v@)),
        None => None,
    }
}

/// Calls `mailparse::parse_mail` and hands out `ctype.mimetype` of each
/// entry of `subparts`.
#[verifier::external_body]
pub(crate) fn subpart_types(message: &str) -> (types: Option<Vec<String>>)
    ensures
        optional_texts(types) == part_types(message@),
{
    let mail = mailparse::parse_mail(message.as_bytes()).ok()?;
    Some(mail.subparts.iter().map(|part| part.ctype.mimetype.clone()).collect())
}

/// Calls `mailparse::parse_mail` and `mailparse::ParsedMail::get_body` on
/// the entry of `subparts` at `index`.
#[verifier::external_body]
pub(crate) fn subpart_body(message: &str, index: usize) -> (body: Option<String>)
    ensures
        optional_text(body) == part_body(message@, index as int),
{
    mailparse::parse_mail(message.as_bytes()).ok()?.subparts.get(index)?.get_body().ok()
}

} // verus!
