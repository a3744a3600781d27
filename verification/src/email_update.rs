//! Changes to pages, as notification emails announce them.

use crate::dom::{
    attribute, attribute_of, element_name, first_element, first_element_of, first_text,
    first_text_of, inner_html, inner_html_of, is_selector, name_of, next_element, next_element_of,
    parse_document, parsed_document, select, selected, text_nodes, text_nodes_of,
};
use crate::error::{Error, Failure, Missing};
use crate::mail::{part_body, part_types, subpart_body, subpart_types};
use crate::text::{same_text, texts, trim_end, trimmed_end};
use crate::web::{
    clear_fragment, clear_query, host, normalized, parse, text, trusted_host, url_host, url_of,
};
use vstd::prelude::*;
use vstd::string::StringExecFns;

verus! {

/// The first child of an element, as far as the templates ask about it.
#[derive(Debug, PartialEq, Eq)]
pub enum FirstChild {
    /// A text node, with its text.
    Text(String),
    /// An element, with its tag name and its `href` attribute.
    Element { name: String, href: Option<String> },
    /// No child, or a child that is neither.
    Other,
}

/// An element of the body of an email, as far as the templates read it.
#[derive(Debug, PartialEq, Eq)]
pub struct Block {
    /// The tag name.
    pub name: String,
    /// The markup inside the element.
    pub inner_html: String,
    /// The text nodes below the element, in document order.
    pub texts: Vec<String>,
    /// The first child.
    pub first_child: FirstChild,
}

/// A subheading of a digest with what follows it.
#[derive(Debug, PartialEq, Eq)]
pub struct Section {
    /// The subheading.
    pub heading: Block,
    /// The siblings that follow the subheading and are elements: the first
    /// four of them, or as many as there are.
    pub following: Vec<Block>,
}

/// The body of an email, as far as the templates read it.
#[derive(Debug, PartialEq, Eq)]
pub struct EmailBody {
    /// The paragraphs, in the order of the document.
    pub paragraphs: Vec<Block>,
    /// The subheadings, in the order of the document.
    pub headings: Vec<Section>,
}

/// The mathematical value of a [`FirstChild`].
pub enum FirstChildView {
    Text(Seq<char>),
    Element { name: Seq<char>, href: Option<Seq<char>> },
    Other,
}

/// The mathematical value of a [`Block`].
pub struct BlockView {
    pub name: Seq<char>,
    pub inner_html: Seq<char>,
    pub texts: Seq<Seq<char>>,
    pub first_child: FirstChildView,
}

/// The mathematical value of a [`Section`].
pub struct SectionView {
    pub heading: BlockView,
    pub following: Seq<BlockView>,
}

/// The mathematical value of an [`EmailBody`].
pub struct EmailBodyView {
    pub paragraphs: Seq<BlockView>,
    pub headings: Seq<SectionView>,
}

impl View for FirstChild {
    type V = FirstChildView;

    open spec fn view(&self) -> FirstChildView {
        match self {
            FirstChild::Text(text) => FirstChildView::Text(text@),
            FirstChild::Element { name, href } => FirstChildView::Element {
                name: name@,
                href: match href {
                    Some(h) => Some(h@),
                    None => None,
                },
            },
            FirstChild::Other => FirstChildView::Other,
        }
    }
}

impl View for Block {
    type V = BlockView;

    open spec fn view(&self) -> BlockView {
        BlockView {
            name: self.name@,
            inner_html: self.inner_html@,
            texts: texts(self.texts@),
            first_child: self.first_child@,
        }
    }
}

/// The values of the blocks of a list.
pub open spec fn blocks(list: Seq<Block>) -> Seq<BlockView> {
    Seq::new(list.len(), |i: int| list[i]@)
}

impl View for Section {
    type V = SectionView;

    open spec fn view(&self) -> SectionView {
        SectionView { heading: self.heading@, following: blocks(self.following@) }
    }
}

/// The values of the sections of a list.
pub open spec fn sections(list: Seq<Section>) -> Seq<SectionView> {
    Seq::new(list.len(), |i: int| list[i]@)
}

impl View for EmailBody {
    type V = EmailBodyView;

    open spec fn view(&self) -> EmailBodyView {
        EmailBodyView { paragraphs: blocks(self.paragraphs@), headings: sections(self.headings@) }
    }
}

/// How many of the siblings after a subheading a section holds.
pub const FOLLOWING: usize = 4;

/// What a block says of the first child of `element`.
pub open spec fn first_child_of(element: scraper::ElementRef<'_>) -> FirstChildView {
    match first_text_of(element) {
        Some(text) => FirstChildView::Text(text),
        None => match first_element_of(element) {
            Some(child) => FirstChildView::Element {
                name: name_of(child),
                href: attribute_of(child, "href"@),
            },
            None => FirstChildView::Other,
        },
    }
}

/// What a block says of `element`.
pub open spec fn block_of(element: scraper::ElementRef<'_>) -> BlockView {
    BlockView {
        name: name_of(element),
        inner_html: inner_html_of(element),
        texts: text_nodes_of(element),
        first_child: first_child_of(element),
    }
}

/// The first `count` siblings after `element` that are elements, or as many
/// as there are.
pub open spec fn following_of(element: scraper::ElementRef<'_>, count: nat) -> Seq<BlockView>
    decreases count, 1nat,
{
    siblings_from(next_element_of(element), count)
}

/// The first `count` elements of the siblings that start with `first`.
pub open spec fn siblings_from(first: Option<scraper::ElementRef<'_>>, count: nat) -> Seq<BlockView>
    decreases count, 0nat,
{
    if count == 0 {
        Seq::empty()
    } else {
        match first {
            Some(next) => seq![block_of(next)] + following_of(next, (count - 1) as nat),
            None => Seq::empty(),
        }
    }
}

/// What a section says of the subheading `element`.
pub open spec fn section_of(element: scraper::ElementRef<'_>) -> SectionView {
    SectionView { heading: block_of(element), following: following_of(element, FOLLOWING as nat) }
}

/// What the paragraphs `ps` and the subheadings `hs` of a document make of
/// the body of an email.
pub open spec fn body_of(
    ps: Seq<scraper::ElementRef<'_>>,
    hs: Seq<scraper::ElementRef<'_>>,
) -> EmailBodyView {
    EmailBodyView {
        paragraphs: Seq::new(ps.len(), |i: int| block_of(ps[i])),
        headings: Seq::new(hs.len(), |i: int| section_of(hs[i])),
    }
}

/// The body of the email whose HTML part is `html`; `None` where the
/// selector parser refuses `p` or `h2`.
pub open spec fn email_body(html: Seq<char>) -> Option<EmailBodyView> {
    if is_selector("p"@) && is_selector("h2"@) {
        Some(
            body_of(
                selected(&parsed_document(html), "p"@),
                selected(&parsed_document(html), "h2"@),
            ),
        )
    } else {
        None
    }
}

/// Reads what a block says of an element.
pub(crate) fn read_block(element: &scraper::ElementRef<'_>) -> (block: Block)
    ensures
        block@ == block_of(*element),
{
    let first_child = match first_text(element) {
        Some(text) => FirstChild::Text(text),
        None => match first_element(element) {
            Some(child) => FirstChild::Element {
                name: element_name(&child),
                href: attribute(&child, "href"),
            },
            None => FirstChild::Other,
        },
    };
    Block {
        name: element_name(element),
        inner_html: inner_html(element),
        texts: text_nodes(element),
        first_child,
    }
}

/// Reads what a section says of a subheading.
pub(crate) fn read_section(element: &scraper::ElementRef<'_>) -> (section: Section)
    ensures
        section@ == section_of(*element),
{
    let heading = read_block(element);
    let mut following: Vec<Block> = Vec::new();
    let mut at = next_element(element);
    let ghost mut rest = following_of(*element, FOLLOWING as nat);
    assert(blocks(following@) + rest =~= following_of(*element, FOLLOWING as nat));
    while at.is_some() && following.len() < FOLLOWING
        invariant
            following.len() <= FOLLOWING,
            blocks(following@) + rest == following_of(*element, FOLLOWING as nat),
            rest == siblings_from(at, (FOLLOWING - following.len()) as nat),
        decreases FOLLOWING - following.len(),
    {
        let next = at.unwrap();
        let ghost before = blocks(following@);
        following.push(read_block(&next));
        at = next_element(&next);
        proof {
            let tail = siblings_from(at, (FOLLOWING - following.len()) as nat);
            assert(blocks(following@) =~= before.push(block_of(next)));
            assert(before + (seq![block_of(next)] + tail) =~= blocks(following@) + tail);
            rest = tail;
        }
    }
    proof {
        assert(rest =~= Seq::empty());
        assert(blocks(following@) + rest =~= blocks(following@));
    }
    Section { heading, following }
}

impl EmailBody {
    /// Reads the body of an email from its HTML part. `None` where the
    /// selector parser refuses `p` or `h2`.
    pub fn read(html: &str) -> (body: Option<EmailBody>)
        ensures
            match email_body(html@) {
                Some(view) => body matches Some(b) && b@ == view,
                None => body is None,
            },
    {
        let document = parse_document(html);
        let ps = match select(&document, "p") {
            Some(ps) => ps,
            None => { return None; },
        };
        let hs = match select(&document, "h2") {
            Some(hs) => hs,
            None => { return None; },
        };
        let mut paragraphs: Vec<Block> = Vec::new();
        let mut i: usize = 0;
        while i < ps.len()
            invariant
                i <= ps.len(),
                paragraphs.len() == i,
                forall|j: int| 0 <= j < i ==> paragraphs[j]@ == block_of(ps[j]),
            decreases ps.len() - i,
        {
            paragraphs.push(read_block(&ps[i]));
            i += 1;
        }
        let mut headings: Vec<Section> = Vec::new();
        let mut k: usize = 0;
        while k < hs.len()
            invariant
                k <= hs.len(),
                headings.len() == k,
                forall|j: int| 0 <= j < k ==> headings[j]@ == section_of(hs[j]),
            decreases hs.len() - k,
        {
            headings.push(read_section(&hs[k]));
            k += 1;
        }
        let body = EmailBody { paragraphs, headings };
        proof {
            assert(body@.paragraphs =~= body_of(ps@, hs@).paragraphs);
            assert(body@.headings =~= body_of(ps@, hs@).headings);
        }
        Some(body)
    }
}

/// One announced change to a page.
#[derive(Debug, PartialEq, Eq)]
pub struct GovUkChange {
    /// What was changed, in the words of the email.
    pub change: String,
    /// When the page was updated, in the words of the email.
    pub updated_at: String,
    /// The address of the page, on the trusted host, without query and
    /// fragment.
    pub url: String,
    /// The category under which a digest lists the change.
    pub category: Option<String>,
}

/// The mathematical value of a [`GovUkChange`].
pub struct ChangeView {
    pub change: Seq<char>,
    pub updated_at: Seq<char>,
    pub url: Seq<char>,
    pub category: Option<Seq<char>>,
}

impl View for GovUkChange {
    type V = ChangeView;

    open spec fn view(&self) -> ChangeView {
        ChangeView {
            change: self.change@,
            updated_at: self.updated_at@,
            url: self.url@,
            category: match self.category {
                Some(c) => Some(c@),
                None => None,
            },
        }
    }
}

/// The values of the changes of a list.
pub open spec fn changes(list: Seq<GovUkChange>) -> Seq<ChangeView> {
    Seq::new(list.len(), |i: int| list[i]@)
}

/// The value of what parsing an email gives.
pub open spec fn parsed(result: Result<Vec<GovUkChange>, Error>) -> Result<Seq<ChangeView>, Failure> {
    match result {
        Ok(list) => Ok(changes(list@)),
        Err(error) => Err(error@),
    }
}

/// The templates of the notification emails.
#[derive(Clone, Copy, Debug, PartialEq, Eq, Structural)]
pub enum Template {
    /// One change to one page.
    Single,
    /// A category with a section for each changed page.
    Digest,
    /// A notice that announces no change.
    Notice,
}

/// The template that a heading stands for, where it is a known one.
pub open spec fn template_of(heading: Seq<char>) -> Option<Template> {
    if heading == "Update on GOV.\u{200B}UK."@ {
        Some(Template::Single)
    } else if heading == "Update from GOV.\u{200b}UK for:"@ || heading
        == "Daily update from GOV.\u{200b}UK for:"@ {
        Some(Template::Digest)
    } else if heading == "This link will stop working after 7 days."@ || heading
        == "You\u{2019}ll get an email from GOV.\u{200b}UK each time we add or update a page about:"@ {
        Some(Template::Notice)
    } else {
        None
    }
}

/// The change that a description, an address and a time make. The address
/// has to be a URL on the trusted host; every such address gives a change,
/// with the address without its query and fragment.
pub open spec fn change_from(change: Seq<char>, href: Seq<char>, updated_at: Seq<char>) -> Result<
    ChangeView,
    Failure,
> {
    match normalized(href) {
        None => Err(Failure::MalformedEmail(Missing::Url)),
        Some(url) => if url_host(href) != Some(trusted_host()) {
            Err(Failure::UntrustedSource(url_host(href)))
        } else {
            Ok(ChangeView { change, updated_at, url, category: None })
        },
    }
}

/// The description and the time that the three blocks from index `at` on
/// hold: a summary, which is passed over, then the two paragraphs whose
/// second text node is taken.
pub open spec fn common(list: Seq<BlockView>, at: int) -> Result<(Seq<char>, Seq<char>), Failure> {
    if list.len() <= at {
        Err(Failure::MalformedEmail(Missing::Summary))
    } else if list.len() <= at + 1 {
        Err(Failure::MalformedEmail(Missing::Change))
    } else if list[at + 1].texts.len() < 2 {
        Err(Failure::MalformedEmail(Missing::ChangeText))
    } else if list.len() <= at + 2 {
        Err(Failure::MalformedEmail(Missing::Timestamp))
    } else if list[at + 2].texts.len() < 2 {
        Err(Failure::MalformedEmail(Missing::TimestampText))
    } else {
        Ok((list[at + 1].texts[1], list[at + 2].texts[1]))
    }
}

/// The one change of an email of the single-update template: the second
/// paragraph starts with the link to the page, and the three paragraphs
/// after it hold the rest.
pub open spec fn single(paragraphs: Seq<BlockView>) -> Result<Seq<ChangeView>, Failure> {
    if paragraphs.len() < 2 {
        Err(Failure::MalformedEmail(Missing::DocumentLink))
    } else {
        match paragraphs[1].first_child {
            FirstChildView::Element { href: Some(href), .. } => match common(paragraphs, 2) {
                Ok((change, updated_at)) => match change_from(change, href, updated_at) {
                    Ok(made) => Ok(seq![made]),
                    Err(failure) => Err(failure),
                },
                Err(failure) => Err(failure),
            },
            FirstChildView::Element { href: None, .. } => Err(
                Failure::MalformedEmail(Missing::Href),
            ),
            _ => Err(Failure::MalformedEmail(Missing::DocumentLink)),
        }
    }
}

/// The phrase of the subheading that a digest ends with.
pub open spec fn boilerplate() -> Seq<char> {
    "Why am I getting this email?"@
}

/// The change of one section of a digest; `None` for the section of the
/// closing phrase. The subheading starts with a link `a` to the page, three
/// elements follow it as in `common`, and a rule `hr` ends the section.
pub open spec fn section_change(section: SectionView) -> Result<Option<ChangeView>, Failure> {
    match section.heading.first_child {
        FirstChildView::Text(text) => if text == boilerplate() {
            Ok(None)
        } else {
            Err(Failure::MalformedEmail(Missing::DocumentLink))
        },
        FirstChildView::Other => Err(Failure::MalformedEmail(Missing::DocumentLink)),
        FirstChildView::Element { name, href } => if name != "a"@ {
            Err(Failure::MalformedEmail(Missing::DocumentLink))
        } else {
            match href {
                None => Err(Failure::MalformedEmail(Missing::Href)),
                Some(href) => match common(section.following, 0) {
                    Err(failure) => Err(failure),
                    Ok((change, updated_at)) => if section.following.len() < 4
                        || section.following[3].name != "hr"@ {
                        Err(Failure::MalformedEmail(Missing::Separator))
                    } else {
                        match change_from(change, href, updated_at) {
                            Ok(made) => Ok(Some(made)),
                            Err(failure) => Err(failure),
                        }
                    },
                },
            }
        },
    }
}

/// The changes of the sections from index 1 up to, not including, index
/// `upto`, each with the category; the first failure, where a section fails.
pub open spec fn digest_upto(headings: Seq<SectionView>, category: Seq<char>, upto: nat) -> Result<
    Seq<ChangeView>,
    Failure,
>
    decreases upto,
{
    if upto <= 1 {
        Ok(Seq::empty())
    } else {
        match digest_upto(headings, category, (upto - 1) as nat) {
            Err(failure) => Err(failure),
            Ok(done) => match section_change(headings[upto - 1]) {
                Err(failure) => Err(failure),
                Ok(None) => Ok(done),
                Ok(Some(made)) => Ok(
                    done.push(
                        ChangeView {
                            change: made.change,
                            updated_at: made.updated_at,
                            url: made.url,
                            category: Some(category),
                        },
                    ),
                ),
            },
        }
    }
}

/// The changes of an email of the digest template: the first subheading
/// names the category, each further one opens a section.
pub open spec fn digest(headings: Seq<SectionView>) -> Result<Seq<ChangeView>, Failure> {
    if headings.len() == 0 {
        Err(Failure::MalformedEmail(Missing::Category))
    } else {
        digest_upto(headings, headings[0].heading.inner_html, headings.len())
    }
}

/// The changes that the body of an email announces. The first paragraph,
/// without the white space at its end, is the heading that tells the
/// template.
pub open spec fn changes_in(body: EmailBodyView) -> Result<Seq<ChangeView>, Failure> {
    if body.paragraphs.len() == 0 {
        Err(Failure::MalformedEmail(Missing::Title))
    } else {
        match template_of(trimmed_end(body.paragraphs[0].inner_html)) {
            Some(Template::Single) => single(body.paragraphs),
            Some(Template::Digest) => digest(body.headings),
            Some(Template::Notice) => Ok(Seq::empty()),
            None => Err(Failure::UnknownEmailFormat(trimmed_end(body.paragraphs[0].inner_html))),
        }
    }
}

/// Tells the template that a heading stands for.
pub fn template(heading: &str) -> (found: Option<Template>)
    ensures
        found == template_of(heading@),
{
    if same_text(heading, "Update on GOV.\u{200B}UK.") {
        Some(Template::Single)
    } else if same_text(heading, "Update from GOV.\u{200b}UK for:") || same_text(
        heading,
        "Daily update from GOV.\u{200b}UK for:",
    ) {
        Some(Template::Digest)
    } else if same_text(heading, "This link will stop working after 7 days.") || same_text(
        heading,
        "You\u{2019}ll get an email from GOV.\u{200b}UK each time we add or update a page about:",
    ) {
        Some(Template::Notice)
    } else {
        None
    }
}

/// Reads the description and the time from the three blocks from `at` on.
pub fn parse_common(list: &Vec<Block>, at: usize) -> (found: Result<(String, String), Error>)
    ensures
        match common(blocks(list@), at as int) {
            Ok((change, updated_at)) => found matches Ok(pair) && pair.0@ == change && pair.1@
                == updated_at,
            Err(failure) => found matches Err(error) && error@ == failure,
        },
{
    if list.len() <= at {
        return Err(Error::MalformedEmail(Missing::Summary));
    }
    if list.len() <= at + 1 {
        return Err(Error::MalformedEmail(Missing::Change));
    }
    if list[at + 1].texts.len() < 2 {
        return Err(Error::MalformedEmail(Missing::ChangeText));
    }
    if list.len() <= at + 2 {
        return Err(Error::MalformedEmail(Missing::Timestamp));
    }
    if list[at + 2].texts.len() < 2 {
        return Err(Error::MalformedEmail(Missing::TimestampText));
    }
    Ok((list[at + 1].texts[1].clone(), list[at + 2].texts[1].clone()))
}

impl GovUkChange {
    /// Makes a change of a description, an address and a time. The address
    /// has to be a URL on the trusted host; its query and fragment are
    /// dropped.
    pub fn from_strs(change: String, href: &str, updated_at: String) -> (made: Result<
        GovUkChange,
        Error,
    >)
        ensures
            match change_from(change@, href@, updated_at@) {
                Ok(view) => made matches Ok(c) && c@ == view,
                Err(failure) => made matches Err(error) && error@ == failure,
            },
            made is Ok <==> url_of(href@) is Some && url_host(href@) == Some(trusted_host()),
    {
        let url = match parse(href) {
            Some(url) => url,
            None => { return Err(Error::MalformedEmail(Missing::Url)); },
        };
        let found = host(&url);
        let trusted = match &found {
            Some(h) => same_text(h.as_str(), "www.gov.uk"),
            None => false,
        };
        if !trusted {
            return Err(Error::UntrustedSource(found));
        }
        let url = text(&clear_fragment(clear_query(url)));
        Ok(GovUkChange { change, updated_at, url, category: None })
    }

    /// The changes that the body of an email announces.
    pub fn from_body(body: &EmailBody) -> (found: Result<Vec<GovUkChange>, Error>)
        ensures
            parsed(found) == changes_in(body@),
    {
        if body.paragraphs.len() == 0 {
            return Err(Error::MalformedEmail(Missing::Title));
        }
        let heading = trim_end(body.paragraphs[0].inner_html.as_str());
        match template(heading) {
            Some(Template::Single) => parse_single(&body.paragraphs),
            Some(Template::Digest) => parse_bulk(&body.headings),
            Some(Template::Notice) => {
                let none: Vec<GovUkChange> = Vec::new();
                assert(changes(none@) =~= Seq::empty());
                Ok(none)
            },
            None => Err(Error::UnknownEmailFormat(String::from_str(heading))),
        }
    }

    /// The changes that the HTML part of an email announces.
    pub fn from_email_html(html: &str) -> (found: Result<Vec<GovUkChange>, Error>)
        ensures
            parsed(found) == match email_body(html@) {
                Some(body) => changes_in(body),
                None => Err(Failure::Selector),
            },
    {
        match EmailBody::read(html) {
            Some(body) => GovUkChange::from_body(&body),
            None => Err(Error::Selector),
        }
    }
}

/// Reads the one change of an email of the single-update template.
pub fn parse_single(paragraphs: &Vec<Block>) -> (found: Result<Vec<GovUkChange>, Error>)
    ensures
        parsed(found) == single(blocks(paragraphs@)),
{
    if paragraphs.len() < 2 {
        return Err(Error::MalformedEmail(Missing::DocumentLink));
    }
    match &paragraphs[1].first_child {
        FirstChild::Element { href: Some(href), .. } => {
            match parse_common(paragraphs, 2) {
                Ok((change, updated_at)) => {
                    match GovUkChange::from_strs(change, href.as_str(), updated_at) {
                        Ok(made) => {
                            let mut list: Vec<GovUkChange> = Vec::new();
                            list.push(made);
                            assert(changes(list@) =~= seq![made@]);
                            Ok(list)
                        },
                        Err(error) => Err(error),
                    }
                },
                Err(error) => Err(error),
            }
        },
        FirstChild::Element { href: None, .. } => Err(Error::MalformedEmail(Missing::Href)),
        _ => Err(Error::MalformedEmail(Missing::DocumentLink)),
    }
}

/// Reads the change of one section of a digest.
pub fn parse_bulk_update(section: &Section) -> (found: Result<Option<GovUkChange>, Error>)
    ensures
        match section_change(section@) {
            Ok(Some(view)) => found matches Ok(Some(c)) && c@ == view,
            Ok(None) => found matches Ok(None),
            Err(failure) => found matches Err(error) && error@ == failure,
        },
{
    match &section.heading.first_child {
        FirstChild::Text(text) => {
            if same_text(text.as_str(), "Why am I getting this email?") {
                Ok(None)
            } else {
                Err(Error::MalformedEmail(Missing::DocumentLink))
            }
        },
        FirstChild::Other => Err(Error::MalformedEmail(Missing::DocumentLink)),
        FirstChild::Element { name, href } => {
            if !same_text(name.as_str(), "a") {
                return Err(Error::MalformedEmail(Missing::DocumentLink));
            }
            let href = match href {
                Some(href) => href,
                None => { return Err(Error::MalformedEmail(Missing::Href)); },
            };
            let (change, updated_at) = match parse_common(&section.following, 0) {
                Ok(pair) => pair,
                Err(error) => { return Err(error); },
            };
            if section.following.len() < 4 || !same_text(section.following[3].name.as_str(), "hr") {
                return Err(Error::MalformedEmail(Missing::Separator));
            }
            match GovUkChange::from_strs(change, href.as_str(), updated_at) {
                Ok(made) => Ok(Some(made)),
                Err(error) => Err(error),
            }
        },
    }
}

/// Reads the changes of an email of the digest template.
pub fn parse_bulk(headings: &Vec<Section>) -> (found: Result<Vec<GovUkChange>, Error>)
    ensures
        parsed(found) == digest(sections(headings@)),
{
    if headings.len() == 0 {
        return Err(Error::MalformedEmail(Missing::Category));
    }
    let ghost category = headings[0].heading.inner_html@;
    let mut updates: Vec<GovUkChange> = Vec::new();
    let mut i: usize = 1;
    assert(changes(updates@) =~= Seq::empty());
    while i < headings.len()
        invariant
            1 <= i <= headings.len(),
            category == headings[0].heading.inner_html@,
            digest_upto(sections(headings@), category, i as nat) == Ok::<Seq<ChangeView>, Failure>(
                changes(updates@),
            ),
        decreases headings.len() - i,
    {
        let ghost before = changes(updates@);
        match parse_bulk_update(&headings[i]) {
            Err(error) => {
                proof {
                    lemma_digest_fails(sections(headings@), category, i as nat + 1, headings.len() as nat);
                }
                return Err(error);
            },
            Ok(None) => {},
            Ok(Some(made)) => {
                let update = GovUkChange {
                    change: made.change,
                    updated_at: made.updated_at,
                    url: made.url,
                    category: Some(headings[0].heading.inner_html.clone()),
                };
                updates.push(update);
                assert(changes(updates@) =~= before.push(update@));
            },
        }
        i += 1;
    }
    Ok(updates)
}

/// Once the sections up to one index have failed, so have those up to any
/// later one, in the same way.
pub proof fn lemma_digest_fails(headings: Seq<SectionView>, category: Seq<char>, upto: nat, later: nat)
    requires
        upto <= later,
        digest_upto(headings, category, upto) is Err,
    ensures
        digest_upto(headings, category, later) == digest_upto(headings, category, upto),
    decreases later - upto,
{
    if upto < later {
        lemma_digest_fails(headings, category, upto, (later - 1) as nat);
    }
}

/// The media type of the part that holds the body of an email.
pub open spec fn html_type() -> Seq<char> {
    "text/html"@
}

/// `index` is the first part of that media type.
pub open spec fn is_first_of(types: Seq<Seq<char>>, wanted: Seq<char>, index: int) -> bool {
    &&& 0 <= index < types.len()
    &&& types[index] == wanted
    &&& forall|j: int| 0 <= j < index ==> types[j] != wanted
}

/// The index of the first part of that media type, where there is one.
pub open spec fn first_of(types: Seq<Seq<char>>, wanted: Seq<char>) -> Option<int> {
    if exists|i: int| is_first_of(types, wanted, i) {
        Some(choose|i: int| is_first_of(types, wanted, i))
    } else {
        None
    }
}

/// The changes that an email announces: its first part of the media type
/// `text/html` is decoded and read.
pub open spec fn changes_of_email(message: Seq<char>) -> Result<Seq<ChangeView>, Failure> {
    match part_types(message) {
        None => Err(Failure::MalformedEmail(Missing::Container)),
        Some(types) => match first_of(types, html_type()) {
            None => Err(Failure::MalformedEmail(Missing::HtmlPart)),
            Some(index) => match part_body(message, index) {
                None => Err(Failure::MalformedEmail(Missing::Body)),
                Some(html) => match email_body(html) {
                    Some(body) => changes_in(body),
                    None => Err(Failure::Selector),
                },
            },
        },
    }
}

/// Finds the first of the media types that is the wanted one.
pub fn find_type(types: &Vec<String>, wanted: &str) -> (found: Option<usize>)
    ensures
        match first_of(texts(types@), wanted@) {
            Some(index) => found == Some(index as usize) && index < types.len(),
            None => found is None,
        },
{
    let mut i: usize = 0;
    while i < types.len()
        invariant
            i <= types.len(),
            forall|j: int| 0 <= j < i ==> texts(types@)[j] != wanted@,
        decreases types.len() - i,
    {
        if same_text(types[i].as_str(), wanted) {
            proof {
                assert(is_first_of(texts(types@), wanted@, i as int));
                let chosen = choose|k: int| is_first_of(texts(types@), wanted@, k);
                assert(chosen == i);
            }
            return Some(i);
        }
        i += 1;
    }
    None
}

impl GovUkChange {
    /// The changes that an email announces.
    pub fn from_eml(eml: &str) -> (found: Result<Vec<GovUkChange>, Error>)
        ensures
            parsed(found) == changes_of_email(eml@),
    {
        let types = match subpart_types(eml) {
            Some(types) => types,
            None => { return Err(Error::MalformedEmail(Missing::Container)); },
        };
        let index = match find_type(&types, "text/html") {
            Some(index) => index,
            None => { return Err(Error::MalformedEmail(Missing::HtmlPart)); },
        };
        match subpart_body(eml, index) {
            Some(html) => GovUkChange::from_email_html(html.as_str()),
            None => Err(Error::MalformedEmail(Missing::Body)),
        }
    }
}

/// The change of a section with the category of its digest.
pub open spec fn in_category(made: ChangeView, category: Seq<char>) -> ChangeView {
    ChangeView {
        change: made.change,
        updated_at: made.updated_at,
        url: made.url,
        category: Some(category),
    }
}

/// The indices of the sections from index 1 up to, not including, `upto`
/// that announce a change, in their order.
pub open spec fn announcing(headings: Seq<SectionView>, upto: nat) -> Seq<int>
    decreases upto,
{
    if upto <= 1 {
        Seq::empty()
    } else if section_change(headings[upto - 1]) matches Ok(Some(_)) {
        announcing(headings, (upto - 1) as nat).push(upto - 1)
    } else {
        announcing(headings, (upto - 1) as nat)
    }
}

proof fn lemma_digest(headings: Seq<SectionView>, category: Seq<char>, upto: nat)
    requires
        upto <= headings.len(),
        digest_upto(headings, category, upto) is Ok,
    ensures
        digest_upto(headings, category, upto)->Ok_0.len() == announcing(headings, upto).len(),
        forall|i: int| 1 <= i < upto ==> (#[trigger] section_change(headings[i])) is Ok,
        forall|j: int|
            0 <= j < announcing(headings, upto).len() ==> {
                let at = #[trigger] announcing(headings, upto)[j];
                &&& 1 <= at < upto
                &&& section_change(headings[at]) is Ok
                &&& section_change(headings[at])->Ok_0 is Some
                &&& digest_upto(headings, category, upto)->Ok_0[j] == in_category(
                    section_change(headings[at])->Ok_0->Some_0,
                    category,
                )
            },
        forall|j: int, k: int|
            0 <= j < k < announcing(headings, upto).len() ==> announcing(headings, upto)[j]
                < announcing(headings, upto)[k],
    decreases upto,
{
    if upto > 1 {
        lemma_digest(headings, category, (upto - 1) as nat);
    }
}

/// What a digest gives as a whole. Every section after the first is read,
/// and one that fails fails the digest. The changes are those of the
/// sections that announce one, as many as there are and in their order, and
/// each carries the category that the first subheading names.
pub proof fn law_digest(headings: Seq<SectionView>)
    requires
        digest(headings) is Ok,
    ensures
        headings.len() >= 1,
        digest(headings)->Ok_0.len() == announcing(headings, headings.len()).len(),
        forall|i: int| 1 <= i < headings.len() ==> (#[trigger] section_change(headings[i])) is Ok,
        forall|j: int|
            0 <= j < digest(headings)->Ok_0.len() ==> {
                let at = #[trigger] announcing(headings, headings.len())[j];
                &&& 1 <= at < headings.len()
                &&& section_change(headings[at]) is Ok
                &&& section_change(headings[at])->Ok_0 is Some
                &&& digest(headings)->Ok_0[j] == in_category(
                    section_change(headings[at])->Ok_0->Some_0,
                    headings[0].heading.inner_html,
                )
            },
        forall|j: int, k: int|
            0 <= j < k < digest(headings)->Ok_0.len() ==> announcing(headings, headings.len())[j]
                < announcing(headings, headings.len())[k],
{
    lemma_digest(headings, headings[0].heading.inner_html, headings.len());
}

/// A section announces no change exactly where its subheading starts with
/// the closing phrase.
pub proof fn law_closing_phrase_is_passed_over(section: SectionView)
    ensures
        section_change(section) == Ok::<Option<ChangeView>, Failure>(None)
            <==> section.heading.first_child == FirstChildView::Text(boilerplate()),
{
}

} // verus!
