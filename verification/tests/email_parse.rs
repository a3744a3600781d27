use gitgov_rs::email_update::{Block, EmailBody, FirstChild, GovUkChange, Section};
use gitgov_rs::error::{Error, Missing};
use gitgov_rs::web::normalize;

fn single_html(title: &str, href: &str, change: &str, updated_at: &str) -> String {
    format!(
        "<html><body><p>{} </p>\n<p><a href=\"{}\">A page</a></p>\n<p>Summary of the page</p>\n\
         <p><b>Change made:</b>{}</p>\n<p><b>Time updated:</b>{}</p></body></html>",
        title, href, change, updated_at
    )
}

fn section_html(href: &str, change: &str, updated_at: &str) -> String {
    format!(
        "<h2><a href=\"{}\">A page</a></h2><p>Summary</p><p><b>Change made:</b>{}</p>\
         <p><b>Time updated:</b>{}</p><hr>",
        href, change, updated_at
    )
}

fn digest_html(title: &str, category: &str, sections: &[String]) -> String {
    format!(
        "<html><body><p>{}</p><h2>{}</h2>{}<h2>Why am I getting this email?</h2><p>Because.</p></body></html>",
        title,
        category,
        sections.concat()
    )
}

fn eml_with_html(html: &str) -> String {
    format!(
        "From: sender@example.org\r\nTo: inbox@example.org\r\nSubject: Update\r\nMIME-Version: 1.0\r\n\
         Content-Type: multipart/alternative; boundary=\"frontier\"\r\n\r\n--frontier\r\n\
         Content-Type: text/plain; charset=utf-8\r\n\r\nplain text\r\n--frontier\r\n\
         Content-Type: text/html; charset=utf-8\r\n\r\n{}\r\n--frontier--\r\n",
        html
    )
}

#[test]
fn test_html_parse() {
    let html = single_html(
        "Update on GOV.\u{200B}UK.",
        "https://www.gov.uk/guidance/export-live-animals-special-rules?utm_source=x#history",
        "Forms EC3163 and EC3164 updated",
        "10:35am, 10 July 2019",
    );
    let updates = GovUkChange::from_email_html(&html).unwrap();
    assert_eq!(
        updates,
        vec![GovUkChange {
            change: "Forms EC3163 and EC3164 updated".to_owned(),
            updated_at: "10:35am, 10 July 2019".to_owned(),
            url: "https://www.gov.uk/guidance/export-live-animals-special-rules".to_owned(),
            category: None,
        }]
    )
}

#[test]
fn test_single_email_parse() {
    let html = single_html(
        "Update on GOV.\u{200B}UK.",
        "https://www.gov.uk/government/publications/germany-list-of-medical-practitionersfacilities",
        "Updated Germany Doctors List \u{2013} December 2020",
        "12:13pm, 9 December 2020",
    );
    let updates = GovUkChange::from_eml(&eml_with_html(&html)).unwrap();
    assert_eq!(
        updates,
        vec![GovUkChange {
            change: "Updated Germany Doctors List \u{2013} December 2020".to_owned(),
            updated_at: "12:13pm, 9 December 2020".to_owned(),
            url: "https://www.gov.uk/government/publications/germany-list-of-medical-practitionersfacilities"
                .to_owned(),
            category: None,
        }]
    )
}

#[test]
fn test_single_2021_email_parse() {
    let html = digest_html(
        "Update from GOV.\u{200b}UK for:",
        "News and communications",
        &[section_html(
            "https://www.gov.uk/government/news/uk-to-host-g7-summit-in-cornwall",
            "First published.",
            "10:29am, 23 January 2021",
        )],
    );
    let updates = GovUkChange::from_eml(&eml_with_html(&html)).unwrap();
    assert_eq!(
        updates,
        vec![GovUkChange {
            change: "First published.".to_owned(),
            updated_at: "10:29am, 23 January 2021".to_owned(),
            url: "https://www.gov.uk/government/news/uk-to-host-g7-summit-in-cornwall".to_owned(),
            category: Some("News and communications".to_owned()),
        }]
    )
}

#[test]
fn test_daily_email_parse() {
    let mut sections = vec![section_html(
        "https://www.gov.uk/guidance/overview-of-adult-social-care-guidance-on-coronavirus-covid-19",
        "Under \u{2018}What care homes and other social care settings must do during an outbreak\u{2019} and \u{2018}Repeat testing\u{2019}, updated the length of time that staff or residents who have been diagnosed with COVID-19 should not be included in testing \u{2013} to 90 days after either their initial onset of symptoms or their positive test result (if they were asymptomatic when tested).",
        "8:06am, 22 January 2021",
    )];
    for n in 1..60 {
        sections.push(section_html(
            &format!("https://www.gov.uk/guidance/page-{}", n),
            "Changed.",
            "9:00am, 22 January 2021",
        ));
    }
    let html = digest_html("Daily update from GOV.\u{200b}UK for:", "Coronavirus (COVID-19)", &sections);
    let updates = GovUkChange::from_eml(&eml_with_html(&html)).unwrap();
    assert_eq!(updates.len(), 60);
    assert_eq!(
        GovUkChange {
            change: "Under \u{2018}What care homes and other social care settings must do during an outbreak\u{2019} and \u{2018}Repeat testing\u{2019}, updated the length of time that staff or residents who have been diagnosed with COVID-19 should not be included in testing \u{2013} to 90 days after either their initial onset of symptoms or their positive test result (if they were asymptomatic when tested).".to_owned(),
            updated_at: "8:06am, 22 January 2021".to_owned(),
            url: "https://www.gov.uk/guidance/overview-of-adult-social-care-guidance-on-coronavirus-covid-19".to_owned(),
            category: Some("Coronavirus (COVID-19)".to_owned()),
        },
        updates[0]
    );
    for update in &updates {
        assert_eq!(url::Url::parse(&update.url).unwrap().host_str(), Some("www.gov.uk"));
        assert_eq!(update.category.as_deref(), Some("Coronavirus (COVID-19)"));
    }
}

#[test]
fn normalize_removes_query_and_fragment() {
    assert_eq!(normalize("https://h/p?q=1#f"), Some("https://h/p".to_owned()));
    assert_eq!(normalize("https://h/p"), Some("https://h/p".to_owned()));
    assert_eq!(normalize("not a url"), None);
}

#[test]
fn notice_announces_nothing() {
    let html = "<p>This link will stop working after 7 days.</p><p>more</p>";
    assert_eq!(GovUkChange::from_email_html(html), Ok(vec![]));
}

#[test]
fn unknown_heading_is_handed_back() {
    let html = "<p>Something new </p>";
    assert_eq!(
        GovUkChange::from_email_html(html),
        Err(Error::UnknownEmailFormat("Something new".to_owned()))
    );
}

#[test]
fn email_without_paragraph_is_malformed() {
    assert_eq!(
        GovUkChange::from_email_html("<div>nothing</div>"),
        Err(Error::MalformedEmail(Missing::Title))
    );
}

#[test]
fn other_host_is_untrusted() {
    let html = single_html("Update on GOV.\u{200B}UK.", "https://example.org/page", "c", "t");
    assert_eq!(
        GovUkChange::from_email_html(&html),
        Err(Error::UntrustedSource(Some("example.org".to_owned())))
    );
}

#[test]
fn missing_fields_are_named() {
    let title = "Update on GOV.\u{200B}UK.";
    assert_eq!(
        GovUkChange::from_email_html(&format!("<p>{}</p>", title)),
        Err(Error::MalformedEmail(Missing::DocumentLink))
    );
    assert_eq!(
        GovUkChange::from_email_html(&format!("<p>{}</p><p>text</p>", title)),
        Err(Error::MalformedEmail(Missing::DocumentLink))
    );
    assert_eq!(
        GovUkChange::from_email_html(&format!("<p>{}</p><p><a>x</a></p>", title)),
        Err(Error::MalformedEmail(Missing::Href))
    );
    let link = "<p><a href=\"https://www.gov.uk/x\">x</a></p>";
    assert_eq!(
        GovUkChange::from_email_html(&format!("<p>{}</p>{}", title, link)),
        Err(Error::MalformedEmail(Missing::Summary))
    );
    assert_eq!(
        GovUkChange::from_email_html(&format!("<p>{}</p>{}<p>s</p>", title, link)),
        Err(Error::MalformedEmail(Missing::Change))
    );
    assert_eq!(
        GovUkChange::from_email_html(&format!("<p>{}</p>{}<p>s</p><p>only</p>", title, link)),
        Err(Error::MalformedEmail(Missing::ChangeText))
    );
    assert_eq!(
        GovUkChange::from_email_html(&format!("<p>{}</p>{}<p>s</p><p><b>l</b>c</p>", title, link)),
        Err(Error::MalformedEmail(Missing::Timestamp))
    );
    assert_eq!(
        GovUkChange::from_email_html(&format!(
            "<p>{}</p>{}<p>s</p><p><b>l</b>c</p><p>only</p>",
            title, link
        )),
        Err(Error::MalformedEmail(Missing::TimestampText))
    );
    assert_eq!(
        GovUkChange::from_email_html(&format!(
            "<p>{}</p><p><a href=\"::\">x</a></p><p>s</p><p><b>l</b>c</p><p><b>l</b>t</p>",
            title
        )),
        Err(Error::MalformedEmail(Missing::Url))
    );
}

#[test]
fn digest_failures_are_named() {
    let title = "Update from GOV.\u{200b}UK for:";
    assert_eq!(
        GovUkChange::from_email_html(&format!("<p>{}</p>", title)),
        Err(Error::MalformedEmail(Missing::Category))
    );
    assert_eq!(
        GovUkChange::from_email_html(&format!(
            "<p>{}</p><h2>C</h2><h2><a href=\"https://www.gov.uk/x\">x</a></h2><p>s</p>\
             <p><b>l</b>c</p><p><b>l</b>t</p><p>no rule</p>",
            title
        )),
        Err(Error::MalformedEmail(Missing::Separator))
    );
    assert_eq!(
        GovUkChange::from_email_html(&format!("<p>{}</p><h2>C</h2><h2><b>x</b></h2>", title)),
        Err(Error::MalformedEmail(Missing::DocumentLink))
    );
}

#[test]
fn email_without_html_part_is_malformed() {
    let eml = "From: a@example.org\r\nContent-Type: multipart/mixed; boundary=\"b\"\r\n\r\n--b\r\n\
               Content-Type: text/plain\r\n\r\nplain\r\n--b--\r\n";
    assert_eq!(GovUkChange::from_eml(eml), Err(Error::MalformedEmail(Missing::HtmlPart)));
}

#[test]
fn body_written_by_hand_is_read_like_a_parsed_one() {
    let block = |name: &str, texts: &[&str], first_child: FirstChild| Block {
        name: name.to_owned(),
        inner_html: texts.concat(),
        texts: texts.iter().map(|t| t.to_string()).collect(),
        first_child,
    };
    let body = EmailBody {
        paragraphs: vec![block("p", &["Update from GOV.\u{200b}UK for:"], FirstChild::Other)],
        headings: vec![
            Section { heading: block("h2", &["Category"], FirstChild::Text("Category".to_owned())), following: vec![] },
            Section {
                heading: block(
                    "h2",
                    &["A page"],
                    FirstChild::Element { name: "a".to_owned(), href: Some("https://www.gov.uk/a?b=c".to_owned()) },
                ),
                following: vec![
                    block("p", &["summary"], FirstChild::Other),
                    block("p", &["Change made:", "changed"], FirstChild::Other),
                    block("p", &["Time updated:", "now"], FirstChild::Other),
                    block("hr", &[], FirstChild::Other),
                ],
            },
            Section {
                heading: block("h2", &[], FirstChild::Text("Why am I getting this email?".to_owned())),
                following: vec![],
            },
        ],
    };
    assert_eq!(
        GovUkChange::from_body(&body),
        Ok(vec![GovUkChange {
            change: "changed".to_owned(),
            updated_at: "now".to_owned(),
            url: "https://www.gov.uk/a".to_owned(),
            category: Some("Category".to_owned()),
        }])
    );
}

#[test]
fn address_without_host_is_untrusted() {
    let html = single_html("Update on GOV.\u{200B}UK.", "mailto:someone@example.org", "c", "t");
    assert_eq!(GovUkChange::from_email_html(&html), Err(Error::UntrustedSource(None)));
}

#[test]
fn change_is_made_of_its_parts() {
    assert_eq!(
        GovUkChange::from_strs("c".to_owned(), "https://www.gov.uk/p?q=1#f", "t".to_owned()),
        Ok(GovUkChange {
            change: "c".to_owned(),
            updated_at: "t".to_owned(),
            url: "https://www.gov.uk/p".to_owned(),
            category: None,
        })
    );
}

#[test]
fn body_is_read_into_plain_values() {
    let html = digest_html("Update from GOV.\u{200b}UK for:", "C &amp; D", &[section_html("/x", "c", "t")]);
    let body = EmailBody::read(&html).unwrap();
    assert_eq!(body.paragraphs[0].name, "p");
    assert_eq!(body.headings.len(), 3);
    assert_eq!(body.headings[0].heading.inner_html, "C &amp; D");
    assert_eq!(body.headings[0].heading.first_child, FirstChild::Text("C & D".to_owned()));
    assert_eq!(
        body.headings[1].heading.first_child,
        FirstChild::Element { name: "a".to_owned(), href: Some("/x".to_owned()) }
    );
    let following: Vec<&str> = body.headings[1].following.iter().map(|b| b.name.as_str()).collect();
    assert_eq!(following, vec!["p", "p", "p", "hr"]);
    assert_eq!(body.headings[1].following[1].texts, vec!["Change made:", "c"]);
    assert_eq!(body.headings[2].following.len(), 1);
}
