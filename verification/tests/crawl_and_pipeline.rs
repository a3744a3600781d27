use gitgov_rs::crawl::{key, Crawl};
use gitgov_rs::web::is_trusted;
use gitgov_rs::doc::{Doc, DocContent};
use gitgov_rs::email_update::GovUkChange;
use gitgov_rs::git::ObjectId;
use gitgov_rs::inbox::{file_name, recipients_name, sender_allowed, sender_domain};
use gitgov_rs::pipeline::{commit_message, Action, Event, Ingest, Stage};
use gitgov_rs::text::{contains, force_extension, split_from, trim_end};

fn page(attachments: &[&str]) -> DocContent {
    DocContent::DiffableHtml(
        "<main></main>".to_owned(),
        attachments.iter().map(|a| a.to_string()).collect(),
        vec![],
    )
}

fn id(n: u8) -> ObjectId {
    ObjectId { bytes: [n; 20] }
}

#[test]
fn test_obtain_changes() {
    let change = GovUkChange {
        url: "https://www.gov.uk/government/consultations/bus-services-act-2017-bus-open-data".to_owned(),
        change: "testing the stuff".to_owned(),
        updated_at: "some time".to_owned(),
        category: Some("Test Category".to_owned()),
    };
    assert_eq!(commit_message(&change), "some time: testing the stuff [Test Category]");
    let doc = Doc { url: change.url.clone(), content: page(&[]) };
    assert_eq!(
        doc.storage_path().as_deref(),
        Some("government/consultations/bus-services-act-2017-bus-open-data.html")
    );
}

#[test]
fn message_without_category_has_no_brackets() {
    let change = GovUkChange {
        url: "https://www.gov.uk/a".to_owned(),
        change: "First published.".to_owned(),
        updated_at: "10:29am, 23 January 2021".to_owned(),
        category: None,
    };
    assert_eq!(commit_message(&change), "10:29am, 23 January 2021: First published.");
}

#[test]
fn storage_path_follows_the_kind_of_document() {
    let file = Doc {
        url: "https://www.gov.uk/uploads/file.v2.pdf?download=1".to_owned(),
        content: DocContent::Other(vec![1, 2, 3]),
    };
    assert_eq!(file.storage_path(), Some("uploads/file.v2.pdf".to_owned()));
    let html = Doc { url: "https://www.gov.uk/a/page.aspx".to_owned(), content: page(&[]) };
    assert_eq!(html.storage_path(), Some("a/page.html".to_owned()));
    let root = Doc { url: "https://www.gov.uk/".to_owned(), content: page(&[]) };
    assert_eq!(root.storage_path(), None);
    let no_url = Doc { url: "nowhere".to_owned(), content: page(&[]) };
    assert_eq!(no_url.storage_path(), None);
}

#[test]
fn extension_is_forced_on_the_file_name_only() {
    assert_eq!(force_extension("/a.b/c", "html"), Some("/a.b/c.html".to_owned()));
    assert_eq!(force_extension("/a/b.tar.gz", "html"), Some("/a/b.tar.html".to_owned()));
    assert_eq!(force_extension("/a/.hidden", "html"), Some("/a/.hidden.html".to_owned()));
    assert_eq!(force_extension("/a/b/", "html"), Some("/a/b.html".to_owned()));
    assert_eq!(force_extension("/a/b.", "html"), Some("/a/b.html".to_owned()));
    assert_eq!(force_extension("name", "html"), Some("name.html".to_owned()));
    assert_eq!(force_extension("///", "html"), None);
    assert_eq!(force_extension("", "html"), None);
}

#[test]
fn crawl_follows_attachments_breadth_first() {
    let seed = "https://www.gov.uk/page";
    let mut crawl = Crawl::new(seed.to_owned(), 100);
    assert_eq!(crawl.next(), Some(seed.to_owned()));
    assert!(crawl.found(&page(&[
        "https://www.gov.uk/a.pdf",
        "https://assets.example.org/offsite.pdf",
        "https://www.gov.uk/b",
        "https://www.gov.uk/a.pdf",
        seed,
    ])));
    assert_eq!(crawl.next(), Some("https://www.gov.uk/a.pdf".to_owned()));
    assert!(crawl.found(&DocContent::Other(vec![0])));
    assert_eq!(crawl.next(), Some("https://www.gov.uk/b".to_owned()));
    assert!(crawl.found(&page(&["https://www.gov.uk/page", "https://www.gov.uk/c"])));
    assert_eq!(crawl.next(), Some("https://www.gov.uk/c".to_owned()));
    assert_eq!(crawl.next(), None);
    assert_eq!(crawl.next(), None);
}

#[test]
fn links_to_one_page_are_fetched_once() {
    let mut crawl = Crawl::new("https://www.gov.uk/page?utm=mail#top".to_owned(), 100);
    assert_eq!(crawl.next(), Some("https://www.gov.uk/page?utm=mail#top".to_owned()));
    assert!(crawl.found(&page(&[
        "https://www.gov.uk/page",
        "https://www.gov.uk/page#history",
        "https://www.gov.uk/a.pdf?v=1",
        "https://www.gov.uk/a.pdf?v=2",
        "https://www.gov.uk/a.pdf#page=3",
    ])));
    assert_eq!(crawl.next(), Some("https://www.gov.uk/a.pdf?v=1".to_owned()));
    assert_eq!(crawl.next(), None);
    assert_eq!(key("https://www.gov.uk/a.pdf?v=1#x"), "https://www.gov.uk/a.pdf");
    assert_eq!(key("no url"), "no url");
}

#[test]
fn crawl_passes_over_an_offsite_seed() {
    let mut crawl = Crawl::new("https://example.org/page".to_owned(), 100);
    assert_eq!(crawl.next(), None);
    assert!(!is_trusted("https://example.org/page"));
    assert!(is_trusted("https://www.gov.uk/"));
    assert!(!is_trusted("no url"));
}

#[test]
fn crawl_stops_at_its_limit() {
    let mut crawl = Crawl::new("https://www.gov.uk/page".to_owned(), 2);
    assert!(crawl.next().is_some());
    assert!(!crawl.found(&page(&["https://www.gov.uk/a", "https://www.gov.uk/b"])));
    assert_eq!(crawl.next(), Some("https://www.gov.uk/a".to_owned()));
    assert_eq!(crawl.next(), None);
    let mut none = Crawl::new("https://www.gov.uk/page".to_owned(), 0);
    assert_eq!(none.next(), None);
}

#[test]
fn two_changes_make_a_chain() {
    let mut ingest = Ingest::start(2, None);
    assert_eq!(ingest.action(), Action::Build { event: 0, parent: None });
    ingest.record(Event::Committed { commit: id(1) });
    assert_eq!(ingest.action(), Action::Build { event: 1, parent: Some(id(1)) });
    ingest.record(Event::Committed { commit: id(2) });
    assert_eq!(ingest.action(), Action::Advance { to: id(2) });
    ingest.record(Event::Advanced);
    assert_eq!(ingest.action(), Action::Archive);
    ingest.record(Event::Archived);
    assert_eq!(ingest.action(), Action::Rest);
    assert_eq!(ingest.stage, Stage::Archived);
}

#[test]
fn failed_second_change_leaves_everything_in_place() {
    let mut ingest = Ingest::start(2, Some(id(7)));
    ingest.record(Event::Committed { commit: id(1) });
    ingest.record(Event::Failed);
    assert_eq!(ingest.action(), Action::Abandon);
    for event in [Event::Committed { commit: id(2) }, Event::Advanced, Event::Archived, Event::Failed] {
        ingest.record(event);
        assert_eq!(ingest.action(), Action::Abandon);
    }
}

#[test]
fn email_without_changes_is_archived() {
    let mut ingest = Ingest::start(0, Some(id(7)));
    assert_eq!(ingest.action(), Action::Advance { to: id(7) });
    ingest.record(Event::Advanced);
    assert_eq!(ingest.action(), Action::Archive);
    let fresh = Ingest::start(0, None);
    assert_eq!(fresh.action(), Action::Archive);
}

#[test]
fn events_out_of_turn_change_nothing() {
    let mut ingest = Ingest::start(1, None);
    let before = ingest;
    ingest.record(Event::Advanced);
    ingest.record(Event::Archived);
    assert_eq!(ingest, before);
}

#[test]
fn inbox_names_follow_the_envelope() {
    assert_eq!(sender_domain("test@gov.uk"), "gov.uk");
    assert_eq!(sender_domain("a@b@c"), "b");
    assert_eq!(sender_domain("nobody"), "nobody");
    assert_eq!(sender_domain("trailing@"), "");
    assert_eq!(recipients_name(&vec!["brexit@example.org".to_owned()]), "brexit@example.org");
    assert_eq!(recipients_name(&vec!["a@x".to_owned(), "b@y".to_owned(), "c@z".to_owned()]), "a@x,b@y,c@z");
    assert_eq!(recipients_name(&vec![]), "");
    assert_eq!(file_name("2021-01-23T10:29:00Z"), Some("2021-01-23T10:29:00Z.eml".to_owned()));
    assert_eq!(file_name("2021-01-23T10:29:00.123Z"), Some("2021-01-23T10:29:00.eml".to_owned()));
    assert_eq!(file_name(""), None);
}

#[test]
fn sender_filter_looks_for_its_text_in_the_address() {
    assert!(sender_allowed("anyone@example.org", None));
    assert!(sender_allowed("info@mail.notifications.service.gov.uk", Some("gov.uk")));
    assert!(!sender_allowed("info@example.org", Some("gov.uk")));
    assert!(sender_allowed("x", Some("")));
    assert!(!sender_allowed("", Some("x")));
    assert!(contains("abcabd", "abd"));
    assert!(!contains("abcab", "abd"));
}

#[test]
fn text_is_split_and_trimmed() {
    assert_eq!(split_from("/a//b/", 1, '/'), vec!["a", "", "b", ""]);
    assert_eq!(split_from("abc", 0, '/'), vec!["abc"]);
    assert_eq!(split_from("abc", 3, '/'), vec![""]);
    assert_eq!(trim_end("title \t\n\u{a0}"), "title");
    assert_eq!(trim_end("GOV.\u{200b}UK\u{200b}"), "GOV.\u{200b}UK\u{200b}");
    assert_eq!(trim_end("   "), "");
}
