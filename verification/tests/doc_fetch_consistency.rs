use gitgov_rs::doc::{remove_ids, DocUpdate, HistoryEntry, Page, TimeMark, Timestamp};
use gitgov_rs::error::{Error, Missing};
use gitgov_rs::{retrieve_doc, Doc, DocContent};

const DEED_POLL: &str = "<html><head><title>Deed poll</title></head><body>\
<header id=\"global-header\">Site</header>\
<main id=\"content\" class=\"deed\"><h1 id=\"h-1\" aria-labelledby=\"x\">Make an adult deed poll</h1>\
<div class=\"gem-c-contextual-sidebar\" id=\"side\"><p>Related</p></div>\
<p aria-hidden=\"true\" class=\"lead\">You can change your name.</p></main></body></html>";

fn bus_page() -> String {
    let attachment = |href: &str| {
        format!(
            "<section class=\"attachment\"><h2 class=\"title\"><a href=\"{}\">Document</a></h2></section>",
            href
        )
    };
    format!(
        "<html><body><main id=\"content\"><h1>Bus open data</h1>{}{}{}{}\
         <div id=\"full-history\"><ol>\
         <li><time datetime=\"2019-03-27T15:21:23.000+00:00\">27 March 2019</time><p>Document revised for missing data in table 3.</p></li>\
         <li><time datetime=\"2019-03-26T00:15:02.000+00:00\">26 March 2019</time><p>Consultation response released.</p></li>\
         <li><time datetime=\"2018-07-05T00:15:03.000+01:00\">5 July 2018</time><p>First published.</p></li>\
         </ol></div></main></body></html>",
        attachment("https://assets.publishing.service.gov.uk/government/uploads/system/uploads/attachment_data/file/792313/bus-open-data-consultation-response.pdf"),
        attachment("/government/consultations/bus-services-act-2017-bus-open-data/bus-services-act-2017-bus-open-data-html"),
        attachment("https://assets.publishing.service.gov.uk/government/uploads/system/uploads/attachment_data/file/722573/bus-services-act-2017-open-data-consultation.pdf"),
        attachment("https://assets.publishing.service.gov.uk/government/uploads/system/uploads/attachment_data/file/722576/bus-open-data-case-for-change.pdf"),
    )
}

fn main_of(page: &str) -> String {
    let start = page.find("<main").unwrap();
    let end = page.find("</main>").unwrap() + "</main>".len();
    page[start..end].to_owned()
}

fn assert_doc(doc: &Doc, url: &str, body: &str) {
    assert_eq!(doc.url.as_str(), url);
    if let DocContent::DiffableHtml(content, _, _) = &doc.content {
        assert_eq!(content, &remove_ids(&main_of(body)).unwrap());
    } else {
        panic!("Fail")
    }
}

fn assert_file(doc: &Doc, url: &str, body: &[u8]) {
    assert_eq!(doc.url.as_str(), url,);
    if let DocContent::Other(content) = &doc.content {
        assert_eq!(content.as_slice(), body);
    } else {
        panic!("Fail")
    }
}

#[test]
fn fetch_and_strip_doc() {
    let url = "https://www.gov.uk/change-name-deed-poll/make-an-adult-deed-poll";
    let doc = retrieve_doc(url.to_owned(), "text/html", DEED_POLL.as_bytes().to_vec()).unwrap();
    assert_doc(&doc, url, DEED_POLL);
    assert_eq!(doc.content.history().unwrap(), vec![]);
}

#[test]
fn fetch_and_strip_doc_with_attachments() {
    let url = "https://www.gov.uk/government/consultations/bus-services-act-2017-bus-open-data";
    let page = bus_page();
    let doc = retrieve_doc(url.to_owned(), "text/html", page.as_bytes().to_vec()).unwrap();
    assert_doc(&doc, url, &page);
    assert_eq!(doc.content.attachments().unwrap(),
        vec![
            "https://assets.publishing.service.gov.uk/government/uploads/system/uploads/attachment_data/file/792313/bus-open-data-consultation-response.pdf".to_owned(),
            "https://www.gov.uk/government/consultations/bus-services-act-2017-bus-open-data/bus-services-act-2017-bus-open-data-html".to_owned(),
            "https://assets.publishing.service.gov.uk/government/uploads/system/uploads/attachment_data/file/722573/bus-services-act-2017-open-data-consultation.pdf".to_owned(),
            "https://assets.publishing.service.gov.uk/government/uploads/system/uploads/attachment_data/file/722576/bus-open-data-case-for-change.pdf".to_owned(),
        ]);
    assert_eq!(
        doc.content.history().unwrap(),
        vec![
            DocUpdate::new(
                Timestamp::parse("2019-03-27T15:21:23.000+00:00").unwrap(),
                "Document revised for missing data in table 3.".to_owned()
            ),
            DocUpdate::new(
                Timestamp::parse("2019-03-26T00:15:02.000+00:00").unwrap(),
                "Consultation response released.".to_owned()
            ),
            DocUpdate::new(
                Timestamp::parse("2018-07-05T00:15:03.000+01:00").unwrap(),
                "First published.".to_owned()
            ),
        ]
    );
}

#[test]
fn fetch_file() {
    let url = "https://assets.publishing.service.gov.uk/government/uploads/system/uploads/attachment_data/file/722576/bus-open-data-case-for-change.pdf";
    let body: Vec<u8> = vec![0x25, 0x50, 0x44, 0x46, 0x2d, 0x31, 0x2e, 0x34, 0x00, 0xff, 0xfe, 0x0a];
    let doc = retrieve_doc(url.to_owned(), "application/pdf", body.clone()).unwrap();
    assert_file(&doc, url, &body);
    assert!(doc.content.attachments().is_none());
    assert!(doc.content.history().is_none());
    assert!(!doc.content.is_html());
    assert_eq!(doc.content.as_bytes(), body.as_slice());
}

#[test]
fn timestamp_is_read_exactly() {
    assert_eq!(
        Timestamp::parse("2019-03-27T15:21:23.000+00:00"),
        Some(Timestamp { seconds: 1553700083, nanos: 0 })
    );
    assert_eq!(
        Timestamp::parse("2018-07-05T00:15:03.250+01:00"),
        Some(Timestamp { seconds: 1530746103, nanos: 250_000_000 })
    );
    assert_eq!(Timestamp::parse("yesterday"), None);
}

#[test]
fn canonicalization_strips_volatile_markup_and_keeps_the_rest() {
    let input = "<div id=\"a\" class=\"keep\"  data-x='1'>text &amp; more<span aria-hidden=\"true\" \
                 aria-labelledby=\"l\" title=\"t\">x</span><aside class=\"gem-c-contextual-sidebar other\" id=\"s\">\
                 <p id=\"inner\">gone</p></aside><!-- note --><br/></div>";
    let output = remove_ids(input).unwrap();
    assert_eq!(
        output,
        "<div class=\"keep\" data-x='1'>text &amp; more<span title=\"t\">x</span><!-- note --><br/></div>"
    );
}

#[test]
fn canonicalization_is_idempotent() {
    for input in [DEED_POLL.to_owned(), bus_page(), "plain text".to_owned(), "<p id=x>unclosed".to_owned()] {
        let once = remove_ids(&input).unwrap();
        let twice = remove_ids(&once).unwrap();
        assert_eq!(once, twice);
        assert!(!once.contains(" id="));
        assert!(!once.contains("aria-hidden"));
        assert!(!once.contains("aria-labelledby"));
        assert!(!once.contains("gem-c-contextual-sidebar"));
    }
}

#[test]
fn canonicalization_leaves_untouched_markup_as_it_is() {
    let input = "<P CLASS=upper>Mixed   <b >spacing</b ></P>\n<!DOCTYPE html>";
    assert_eq!(remove_ids(input).unwrap(), input);
}

#[test]
fn page_without_main_has_the_wrong_shape() {
    assert_eq!(
        DocContent::html("<html><body><p>nothing</p></body></html>", None),
        Err(Error::ContentShape)
    );
}

#[test]
fn incomplete_history_fails_the_page() {
    let page = |entry: &str| {
        format!("<main>x</main><ul id=\"full-history\"><li>{}</li></ul>", entry)
    };
    assert_eq!(
        DocContent::html(&page("<p>s</p>"), None),
        Err(Error::MalformedEmail(Missing::HistoryTime))
    );
    assert_eq!(
        DocContent::html(&page("<time>then</time><p>s</p>"), None),
        Err(Error::MalformedEmail(Missing::HistoryDate))
    );
    assert_eq!(
        DocContent::html(&page("<time datetime=\"then\">then</time><p>s</p>"), None),
        Err(Error::MalformedEmail(Missing::HistoryInstant))
    );
    assert_eq!(
        DocContent::html(&page("<time datetime=\"2019-03-27T15:21:23.000+00:00\">then</time>"), None),
        Err(Error::MalformedEmail(Missing::HistorySummary))
    );
}

#[test]
fn link_without_base_has_to_be_a_url() {
    let page = "<main>x</main><div class=\"attachment\"><div class=\"download\"><a href=\"/relative\">d</a></div></div>";
    assert_eq!(DocContent::html(page, None), Err(Error::MalformedEmail(Missing::Url)));
    assert_eq!(
        DocContent::html(page, Some("https://www.gov.uk/a/b")).unwrap().attachments().unwrap(),
        vec!["https://www.gov.uk/relative".to_owned()]
    );
}

#[test]
fn page_is_read_into_plain_values() {
    let page = Page::read(&bus_page()).unwrap();
    assert!(page.main.as_deref().unwrap().starts_with("<main id=\"content\">"));
    assert_eq!(page.links.len(), 4);
    assert_eq!(page.history.len(), 3);
    assert_eq!(
        page.history[2],
        HistoryEntry {
            time: TimeMark::Dated("2018-07-05T00:15:03.000+01:00".to_owned()),
            summary: Some("First published.".to_owned()),
        }
    );
}

#[test]
fn page_written_by_hand_gives_a_document() {
    let page = Page {
        main: Some("<main id=\"m\"><p>text</p></main>".to_owned()),
        history: vec![HistoryEntry {
            time: TimeMark::Dated("2019-03-27T15:21:23.000+00:00".to_owned()),
            summary: Some("First published.".to_owned()),
        }],
        links: vec!["file.pdf".to_owned()],
    };
    assert_eq!(
        DocContent::from_page(&page, Some("https://www.gov.uk/guidance/page")),
        Ok(DocContent::DiffableHtml(
            "<main><p>text</p></main>".to_owned(),
            vec!["https://www.gov.uk/guidance/file.pdf".to_owned()],
            vec![DocUpdate::new(
                Timestamp { seconds: 1553700083, nanos: 0 },
                "First published.".to_owned()
            )],
        ))
    );
}

#[test]
fn invalid_utf8_in_a_page_is_replaced() {
    let mut body = b"<main>caf".to_vec();
    body.push(0xe9);
    body.extend_from_slice(b"</main>");
    let doc = retrieve_doc("https://www.gov.uk/p".to_owned(), "text/html", body).unwrap();
    assert_eq!(doc.content.as_bytes(), "<main>caf\u{fffd}</main>".as_bytes());
}

#[test]
fn ambiguous_markup_cannot_be_rewritten() {
    assert_eq!(
        remove_ids("<select><xmp><script>\"use strict\";</script></select>"),
        Err(Error::Render)
    );
    let page = "<main><select><xmp><script>x</script></select></main>";
    assert!(DocContent::html(page, None).is_err());
}
