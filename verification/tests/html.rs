// Each test gives the events that the markdown parser produces for the
// markdown source named in its comment.

use pulldown_cmark::{push_html, Alignment, Event, Tag};

fn text(s: &str) -> Event {
    Event::Text(s.to_string())
}

// Source: "A | B\n---|---\nfoo | bar", with tables enabled.
#[test]
fn html_test_8() {
    let expected = r##"<table><thead><tr><th>A</th><th>B</th></tr></thead><tbody>
<tr><td>foo</td><td>bar</td></tr>
</tbody></table>
"##;
    let aligns = vec![Alignment::Unspecified, Alignment::Unspecified];
    let events = vec![
        Event::Start(Tag::Table(aligns.clone())),
        Event::Start(Tag::TableHead),
        Event::Start(Tag::TableCell),
        text("A"),
        Event::End(Tag::TableCell),
        Event::Start(Tag::TableCell),
        text("B"),
        Event::End(Tag::TableCell),
        Event::End(Tag::TableHead),
        Event::Start(Tag::TableRow),
        Event::Start(Tag::TableCell),
        text("foo"),
        Event::End(Tag::TableCell),
        Event::Start(Tag::TableCell),
        text("bar"),
        Event::End(Tag::TableCell),
        Event::End(Tag::TableRow),
        Event::End(Tag::Table(aligns)),
    ];

    let mut s = String::new();
    push_html(&mut s, events);
    assert_eq!(expected, s);
}

// Source: "---"
#[test]
fn html_test_9() {
    let expected = "<hr />\n";

    let mut s = String::new();
    push_html(&mut s, vec![Event::Start(Tag::Rule), Event::End(Tag::Rule)]);
    assert_eq!(expected, s);
}

// Source: "* * *"
#[test]
fn html_test_10() {
    let expected = "<hr />\n";

    let mut s = String::new();
    push_html(&mut s, vec![Event::Start(Tag::Rule), Event::End(Tag::Rule)]);
    assert_eq!(expected, s);
}
