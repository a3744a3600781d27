//! Fetched documents: pages with their attachments and history, and files.

use crate::canon::canonical;
pub use crate::canon::remove_ids;
use crate::dom::{
    attribute, attribute_of, inner_html, inner_html_of, is_selector, optional_text, outer_html,
    outer_html_of, parse_document, parsed_document, select, select_within, selected,
    selected_within,
};
use crate::error::{Error, Failure, Missing};
use crate::text::{force_extension, strip_leading, texts, with_extension, without_leading};
use crate::web::{join, parse_url, path_of, url_joined, url_path, url_text};
use vstd::prelude::*;
use vstd::string::StringExecFns;

verus! {

/// A point in time: the seconds since the start of 1970 in UTC, and the
/// nanoseconds into that second.
#[derive(Clone, Copy, Debug, PartialEq, Eq, Structural)]
pub struct Timestamp {
    pub seconds: i64,
    pub nanos: u32,
}

/// The point in time that `text` states, as seconds and nanoseconds; `None`
/// where it states none.
pub uninterp spec fn instant_of(text: Seq<char>) -> Option<(i64, u32)>;

/// Calls `str::parse` for `chrono::DateTime<chrono::Utc>`, then `timestamp`
/// and `timestamp_subsec_nanos` on what it gives.
#[verifier::external_body]
pub(crate) fn parse_instant(text: &str) -> (instant: Option<(i64, u32)>)
    ensures
        instant == instant_of(text@),
{
    let time = text.parse::<chrono::DateTime<chrono::Utc>>().ok()?;
    Some((time.timestamp(), time.timestamp_subsec_nanos()))
}

/// The point in time that a text states, where it states one.
pub open spec fn timestamp_of(text: Seq<char>) -> Option<Timestamp> {
    match instant_of(text) {
        Some((seconds, nanos)) => Some(Timestamp { seconds, nanos }),
        None => None,
    }
}

impl Timestamp {
    /// Reads a point in time, as in `2019-03-27T15:21:23.000+00:00`.
    pub fn parse(text: &str) -> (time: Option<Timestamp>)
        ensures
            time == timestamp_of(text@),
    {
        match parse_instant(text) {
            Some((seconds, nanos)) => Some(Timestamp { seconds, nanos }),
            None => None,
        }
    }
}

/// One entry of the history of a page: when it was changed, and how.
#[derive(Debug, PartialEq, Eq)]
pub struct DocUpdate(pub Timestamp, pub String);

impl View for DocUpdate {
    type V = (Timestamp, Seq<char>);

    open spec fn view(&self) -> (Timestamp, Seq<char>) {
        (self.0, self.1@)
    }
}

impl DocUpdate {
    /// An entry of the history: the time of the change and its summary.
    pub fn new(date: Timestamp, summary: String) -> (update: DocUpdate)
        ensures
            update@ == (date, summary@),
    {
        DocUpdate(date, summary)
    }
}

/// The values of the entries of a list.
pub open spec fn updates(list: Seq<DocUpdate>) -> Seq<(Timestamp, Seq<char>)> {
    Seq::new(list.len(), |i: int| list[i]@)
}

/// What was fetched: a page, or a file of any other kind.
#[derive(Debug, PartialEq, Eq)]
pub enum DocContent {
    /// The main content of a page without its volatile markup, the addresses
    /// of its attachments, and its history.
    DiffableHtml(String, Vec<String>, Vec<DocUpdate>),
    /// The bytes of a file.
    Other(Vec<u8>),
}

/// The mathematical value of a [`DocContent`].
pub enum Content {
    DiffableHtml(Seq<char>, Seq<Seq<char>>, Seq<(Timestamp, Seq<char>)>),
    Other(Seq<u8>),
}

impl View for DocContent {
    type V = Content;

    open spec fn view(&self) -> Content {
        match self {
            DocContent::DiffableHtml(body, attachments, history) => Content::DiffableHtml(
                body@,
                texts(attachments@),
                updates(history@),
            ),
            DocContent::Other(bytes) => Content::Other(bytes@),
        }
    }
}

/// A fetched document with the address that it was fetched from.
#[derive(Debug, PartialEq, Eq)]
pub struct Doc {
    pub url: String,
    pub content: DocContent,
}

/// The `time` element of an entry of the history, as far as it is read.
#[derive(Debug, PartialEq, Eq)]
pub enum TimeMark {
    /// The entry has no `time` element.
    Missing,
    /// The element has no `datetime` attribute.
    Undated,
    /// The value of the `datetime` attribute.
    Dated(String),
}

/// An entry of the history of a page, as it stands in the markup.
#[derive(Debug, PartialEq, Eq)]
pub struct HistoryEntry {
    /// The first `time` element of the entry.
    pub time: TimeMark,
    /// The markup inside the first paragraph of the entry, if it has one.
    pub summary: Option<String>,
}

/// A page, as far as it is read.
#[derive(Debug, PartialEq, Eq)]
pub struct Page {
    /// The markup of the first `main` element, if there is one.
    pub main: Option<String>,
    /// The entries of the full history, in the order of the document.
    pub history: Vec<HistoryEntry>,
    /// The `href` attributes of the links to attachments, in the order of
    /// the document.
    pub links: Vec<String>,
}

/// The mathematical value of a [`TimeMark`].
pub enum TimeMarkView {
    Missing,
    Undated,
    Dated(Seq<char>),
}

/// The mathematical value of a [`HistoryEntry`].
pub struct HistoryEntryView {
    pub time: TimeMarkView,
    pub summary: Option<Seq<char>>,
}

/// The mathematical value of a [`Page`].
pub struct PageView {
    pub main: Option<Seq<char>>,
    pub history: Seq<HistoryEntryView>,
    pub links: Seq<Seq<char>>,
}

impl View for TimeMark {
    type V = TimeMarkView;

    open spec fn view(&self) -> TimeMarkView {
        match self {
            TimeMark::Missing => TimeMarkView::Missing,
            TimeMark::Undated => TimeMarkView::Undated,
            TimeMark::Dated(text) => TimeMarkView::Dated(text@),
        }
    }
}

impl View for HistoryEntry {
    type V = HistoryEntryView;

    open spec fn view(&self) -> HistoryEntryView {
        HistoryEntryView { time: self.time@, summary: optional_text(self.summary) }
    }
}

/// The values of the entries of a list.
pub open spec fn entries(list: Seq<HistoryEntry>) -> Seq<HistoryEntryView> {
    Seq::new(list.len(), |i: int| list[i]@)
}

impl View for Page {
    type V = PageView;

    open spec fn view(&self) -> PageView {
        PageView {
            main: optional_text(self.main),
            history: entries(self.history@),
            links: texts(self.links@),
        }
    }
}

/// The selector for the links to the attachments of a page.
pub open spec fn attachment_links() -> Seq<char> {
    ".attachment .title a, .attachment .download a"@
}

/// The selector for the entries of the full history of a page.
pub open spec fn history_items() -> Seq<char> {
    "#full-history li"@
}

/// The selector parser accepts the five selectors that a page is read with.
pub open spec fn selectors_accepted() -> bool {
    &&& is_selector("main"@)
    &&& is_selector(history_items())
    &&& is_selector("time"@)
    &&& is_selector("p"@)
    &&& is_selector(attachment_links())
}

/// What an entry of the history says of its list item.
pub open spec fn entry_of(item: scraper::ElementRef<'_>) -> HistoryEntryView {
    HistoryEntryView {
        time: if selected_within(item, "time"@).len() == 0 {
            TimeMarkView::Missing
        } else {
            match attribute_of(selected_within(item, "time"@)[0], "datetime"@) {
                Some(value) => TimeMarkView::Dated(value),
                None => TimeMarkView::Undated,
            }
        },
        summary: if selected_within(item, "p"@).len() == 0 {
            None
        } else {
            Some(inner_html_of(selected_within(item, "p"@)[0]))
        },
    }
}

/// The `href` attributes of the first `count` of the elements, as far as
/// they have one.
pub open spec fn hrefs(elements: Seq<scraper::ElementRef<'_>>, count: nat) -> Seq<Seq<char>>
    decreases count,
{
    if count == 0 || count > elements.len() {
        Seq::empty()
    } else {
        match attribute_of(elements[count - 1], "href"@) {
            Some(href) => hrefs(elements, (count - 1) as nat).push(href),
            None => hrefs(elements, (count - 1) as nat),
        }
    }
}

/// The page that the markup `html` holds; `None` where the selector parser
/// refuses one of the selectors.
pub open spec fn page_of(html: Seq<char>) -> Option<PageView> {
    if selectors_accepted() {
        let document = parsed_document(html);
        Some(
            PageView {
                main: if selected(&document, "main"@).len() == 0 {
                    None
                } else {
                    Some(outer_html_of(selected(&document, "main"@)[0]))
                },
                history: Seq::new(
                    selected(&document, history_items()).len(),
                    |i: int| entry_of(selected(&document, history_items())[i]),
                ),
                links: hrefs(
                    selected(&document, attachment_links()),
                    selected(&document, attachment_links()).len(),
                ),
            },
        )
    } else {
        None
    }
}

/// Reads an entry of the history from its list item.
pub(crate) fn read_entry(item: &scraper::ElementRef<'_>) -> (entry: Option<HistoryEntry>)
    ensures
        match entry {
            Some(e) => is_selector("time"@) && is_selector("p"@) && e@ == entry_of(*item),
            None => !(is_selector("time"@) && is_selector("p"@)),
        },
{
    let times = select_within(item, "time")?;
    let ps = select_within(item, "p")?;
    let time = if times.len() == 0 {
        TimeMark::Missing
    } else {
        match attribute(&times[0], "datetime") {
            Some(value) => TimeMark::Dated(value),
            None => TimeMark::Undated,
        }
    };
    let summary = if ps.len() == 0 {
        None
    } else {
        Some(inner_html(&ps[0]))
    };
    Some(HistoryEntry { time, summary })
}

impl Page {
    /// Reads a page from its markup. `None` where the selector parser
    /// refuses one of the selectors.
    pub fn read(html: &str) -> (page: Option<Page>)
        ensures
            match page_of(html@) {
                Some(view) => page matches Some(p) && p@ == view,
                None => page is None,
            },
    {
        let document = parse_document(html);
        let mains = select(&document, "main")?;
        let items = select(&document, "#full-history li")?;
        let anchors = select(&document, ".attachment .title a, .attachment .download a")?;
        let main = if mains.len() == 0 {
            None
        } else {
            Some(outer_html(&mains[0]))
        };
        let mut history: Vec<HistoryEntry> = Vec::new();
        let mut i: usize = 0;
        while i < items.len()
            invariant
                i <= items.len(),
                history.len() == i,
                forall|j: int| 0 <= j < i ==> history[j]@ == entry_of(items[j]),
                i > 0 ==> is_selector("time"@) && is_selector("p"@),
            decreases items.len() - i,
        {
            match read_entry(&items[i]) {
                Some(entry) => history.push(entry),
                None => { return None; },
            }
            i += 1;
        }
        if items.len() == 0 {
            // No entry has shown whether the selectors for its parts are
            // accepted.
            if select(&document, "time").is_none() || select(&document, "p").is_none() {
                return None;
            }
        }
        let mut links: Vec<String> = Vec::new();
        let mut k: usize = 0;
        assert(texts(links@) =~= hrefs(anchors@, 0));
        while k < anchors.len()
            invariant
                k <= anchors.len(),
                texts(links@) == hrefs(anchors@, k as nat),
            decreases anchors.len() - k,
        {
            let ghost before = texts(links@);
            match attribute(&anchors[k], "href") {
                Some(href) => {
                    links.push(href);
                    assert(texts(links@) =~= before.push(href@));
                },
                None => {},
            }
            k += 1;
        }
        let page = Page { main, history, links };
        proof {
            assert(page@.history =~= page_of(html@)->Some_0.history);
        }
        Some(page)
    }
}

/// The history that the first `count` entries give, or the first failure:
/// an entry needs a `time` element with a `datetime` attribute that states
/// a point in time, and a paragraph.
pub open spec fn history_upto(list: Seq<HistoryEntryView>, count: nat) -> Result<
    Seq<(Timestamp, Seq<char>)>,
    Failure,
>
    decreases count,
{
    if count == 0 || count > list.len() {
        Ok(Seq::empty())
    } else {
        match history_upto(list, (count - 1) as nat) {
            Err(failure) => Err(failure),
            Ok(done) => match update_of(list[count - 1]) {
                Ok(update) => Ok(done.push(update)),
                Err(failure) => Err(failure),
            },
        }
    }
}

/// The entry of the history that an entry of the markup gives.
pub open spec fn update_of(entry: HistoryEntryView) -> Result<(Timestamp, Seq<char>), Failure> {
    match entry.time {
        TimeMarkView::Missing => Err(Failure::MalformedEmail(Missing::HistoryTime)),
        TimeMarkView::Undated => Err(Failure::MalformedEmail(Missing::HistoryDate)),
        TimeMarkView::Dated(text) => match timestamp_of(text) {
            None => Err(Failure::MalformedEmail(Missing::HistoryInstant)),
            Some(time) => match entry.summary {
                None => Err(Failure::MalformedEmail(Missing::HistorySummary)),
                Some(summary) => Ok((time, summary)),
            },
        },
    }
}

/// The address that a link leads to: resolved against the address of the
/// page where that is known, taken as it is where not.
pub open spec fn resolved(base: Option<Seq<char>>, href: Seq<char>) -> Option<Seq<char>> {
    match base {
        Some(base) => url_joined(base, href),
        None => url_text(href),
    }
}

/// The addresses that the first `count` links lead to, or the failure for
/// the first that leads nowhere.
pub open spec fn attachments_upto(base: Option<Seq<char>>, links: Seq<Seq<char>>, count: nat) -> Result<
    Seq<Seq<char>>,
    Failure,
>
    decreases count,
{
    if count == 0 || count > links.len() {
        Ok(Seq::empty())
    } else {
        match attachments_upto(base, links, (count - 1) as nat) {
            Err(failure) => Err(failure),
            Ok(done) => match resolved(base, links[count - 1]) {
                Some(url) => Ok(done.push(url)),
                None => Err(Failure::MalformedEmail(Missing::Url)),
            },
        }
    }
}

/// The document that a page gives. The page needs a main content; each
/// entry of its history has to be complete, and each link to an attachment
/// has to lead somewhere: an incomplete entry or a broken link fails the
/// whole page. The main content is kept without its volatile markup.
pub open spec fn content_of(page: PageView, base: Option<Seq<char>>) -> Result<Content, Failure> {
    match page.main {
        None => Err(Failure::ContentShape),
        Some(main) => match history_upto(page.history, page.history.len()) {
            Err(failure) => Err(failure),
            Ok(history) => match attachments_upto(base, page.links, page.links.len()) {
                Err(failure) => Err(failure),
                Ok(attachments) => match canonical(main) {
                    Err(failure) => Err(failure),
                    Ok(body) => Ok(Content::DiffableHtml(body, attachments, history)),
                },
            },
        },
    }
}

/// The value of what reading a page gives.
pub open spec fn read_content(result: Result<DocContent, Error>) -> Result<Content, Failure> {
    match result {
        Ok(content) => Ok(content@),
        Err(error) => Err(error@),
    }
}

/// Makes the entry of the history that an entry of the markup gives.
pub fn make_update(entry: &HistoryEntry) -> (made: Result<DocUpdate, Error>)
    ensures
        match update_of(entry@) {
            Ok(update) => made matches Ok(u) && u@ == update,
            Err(failure) => made matches Err(error) && error@ == failure,
        },
{
    match &entry.time {
        TimeMark::Missing => Err(Error::MalformedEmail(Missing::HistoryTime)),
        TimeMark::Undated => Err(Error::MalformedEmail(Missing::HistoryDate)),
        TimeMark::Dated(text) => match Timestamp::parse(text.as_str()) {
            None => Err(Error::MalformedEmail(Missing::HistoryInstant)),
            Some(time) => match &entry.summary {
                None => Err(Error::MalformedEmail(Missing::HistorySummary)),
                Some(summary) => Ok(DocUpdate(time, summary.clone())),
            },
        },
    }
}

/// Once the entries up to one index have failed, so have those up to any
/// later one, in the same way.
pub proof fn lemma_history_fails(list: Seq<HistoryEntryView>, count: nat, later: nat)
    requires
        count <= later <= list.len(),
        history_upto(list, count) is Err,
    ensures
        history_upto(list, later) == history_upto(list, count),
    decreases later - count,
{
    if count < later {
        lemma_history_fails(list, count, (later - 1) as nat);
    }
}

/// Once the links up to one index have failed, so have those up to any
/// later one, in the same way.
pub proof fn lemma_attachments_fail(
    base: Option<Seq<char>>,
    links: Seq<Seq<char>>,
    count: nat,
    later: nat,
)
    requires
        count <= later <= links.len(),
        attachments_upto(base, links, count) is Err,
    ensures
        attachments_upto(base, links, later) == attachments_upto(base, links, count),
    decreases later - count,
{
    if count < later {
        lemma_attachments_fail(base, links, count, (later - 1) as nat);
    }
}

impl DocContent {
    /// The document that a page gives, with the links to its attachments
    /// resolved against `url` where that is given.
    pub fn from_page(page: &Page, url: Option<&str>) -> (made: Result<DocContent, Error>)
        ensures
            read_content(made) == content_of(
                page@,
                match url {
                    Some(u) => Some(u@),
                    None => None,
                },
            ),
    {
        let ghost base: Option<Seq<char>> = match url {
            Some(u) => Some(u@),
            None => None,
        };
        let main = match &page.main {
            Some(main) => main,
            None => { return Err(Error::ContentShape); },
        };
        let mut history: Vec<DocUpdate> = Vec::new();
        let mut i: usize = 0;
        assert(updates(history@) =~= Seq::empty());
        while i < page.history.len()
            invariant
                i <= page.history.len(),
                page.main is Some,
                history_upto(page@.history, i as nat) == Ok::<Seq<(Timestamp, Seq<char>)>, Failure>(
                    updates(history@),
                ),
            decreases page.history.len() - i,
        {
            let ghost before = updates(history@);
            match make_update(&page.history[i]) {
                Ok(update) => {
                    history.push(update);
                    assert(updates(history@) =~= before.push(update@));
                },
                Err(error) => {
                    proof {
                        assert(history_upto(page@.history, i as nat + 1) == Err::<
                            Seq<(Timestamp, Seq<char>)>,
                            Failure,
                        >(error@));
                        lemma_history_fails(page@.history, i as nat + 1, page@.history.len());
                    }
                    return Err(error);
                },
            }
            i += 1;
        }
        let mut attachments: Vec<String> = Vec::new();
        let mut k: usize = 0;
        assert(texts(attachments@) =~= Seq::empty());
        while k < page.links.len()
            invariant
                k <= page.links.len(),
                page.main is Some,
                history_upto(page@.history, page@.history.len()) is Ok,
                base == match url {
                    Some(u) => Some(u@),
                    None => None::<Seq<char>>,
                },
                attachments_upto(base, page@.links, k as nat) == Ok::<Seq<Seq<char>>, Failure>(
                    texts(attachments@),
                ),
            decreases page.links.len() - k,
        {
            let ghost before = texts(attachments@);
            let found = match url {
                Some(u) => join(u, page.links[k].as_str()),
                None => parse_url(page.links[k].as_str()),
            };
            match found {
                Some(address) => {
                    attachments.push(address);
                    assert(texts(attachments@) =~= before.push(address@));
                },
                None => {
                    proof {
                        assert(attachments_upto(base, page@.links, k as nat + 1) == Err::<
                            Seq<Seq<char>>,
                            Failure,
                        >(Failure::MalformedEmail(Missing::Url)));
                        lemma_attachments_fail(base, page@.links, k as nat + 1, page@.links.len());
                    }
                    return Err(Error::MalformedEmail(Missing::Url));
                },
            }
            k += 1;
        }
        match remove_ids(main.as_str()) {
            Ok(body) => Ok(DocContent::DiffableHtml(body, attachments, history)),
            Err(error) => Err(error),
        }
    }

    /// The document that the markup of a page gives.
    pub fn html(html: &str, url: Option<&str>) -> (made: Result<DocContent, Error>)
        ensures
            read_content(made) == match page_of(html@) {
                Some(page) => content_of(
                    page,
                    match url {
                        Some(u) => Some(u@),
                        None => None,
                    },
                ),
                None => Err(Failure::Selector),
            },
    {
        match Page::read(html) {
            Some(page) => DocContent::from_page(&page, url),
            None => Err(Error::Selector),
        }
    }

    /// Tells whether the document is a page.
    pub fn is_html(&self) -> (html: bool)
        ensures
            html == (self@ is DiffableHtml),
    {
        match self {
            DocContent::DiffableHtml(_, _, _) => true,
            DocContent::Other(_) => false,
        }
    }

    /// The bytes to store: the text of a page in UTF-8, the bytes of a file.
    pub fn as_bytes(&self) -> (bytes: &[u8])
        ensures
            bytes@ == match self@ {
                Content::DiffableHtml(body, _, _) => vstd::utf8::encode_utf8(body),
                Content::Other(data) => data,
            },
    {
        match self {
            DocContent::DiffableHtml(string, _, _) => string.as_str().as_bytes(),
            DocContent::Other(bytes) => bytes.as_slice(),
        }
    }

    /// The history of a page; `None` for a file.
    pub fn history(&self) -> (history: Option<&[DocUpdate]>)
        ensures
            match self@ {
                Content::DiffableHtml(_, _, entries) => history matches Some(list) && updates(list@)
                    == entries,
                Content::Other(_) => history is None,
            },
    {
        match self {
            DocContent::DiffableHtml(_, _, history) => Some(history.as_slice()),
            DocContent::Other(_) => None,
        }
    }

    /// The addresses of the attachments of a page; `None` for a file.
    pub fn attachments(&self) -> (attachments: Option<&[String]>)
        ensures
            match self@ {
                Content::DiffableHtml(_, addresses, _) => attachments matches Some(list) && texts(
                    list@,
                ) == addresses,
                Content::Other(_) => attachments is None,
            },
    {
        match self {
            DocContent::DiffableHtml(_, attachments, _) => Some(attachments.as_slice()),
            DocContent::Other(_) => None,
        }
    }
}

/// The path under which a document is stored: the path of its address
/// without the separator that it starts with, for a page with the extension
/// forced to `.html`. `None` where the address is no URL, or that of a page
/// whose path has no file name.
pub open spec fn stored_at(url: Seq<char>, html: bool) -> Option<Seq<char>> {
    match url_path(url) {
        None => None,
        Some(path) => if html {
            with_extension(without_leading(path, '/'), "html"@)
        } else {
            Some(without_leading(path, '/'))
        },
    }
}

impl Doc {
    /// The path under which the document is stored, as `add_to_tree` takes
    /// it.
    pub fn storage_path(&self) -> (path: Option<String>)
        ensures
            optional_text(path) == stored_at(self.url@, self.content@ is DiffableHtml),
    {
        let path = path_of(self.url.as_str())?;
        let relative = strip_leading(path.as_str(), '/');
        if self.content.is_html() {
            force_extension(relative, "html")
        } else {
            Some(String::from_str(relative))
        }
    }
}

} // verus!
