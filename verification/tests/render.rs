use pulldown_cmark::{
    escape_href, escape_html, push_html, write_html, Alignment, Event, HtmlWriter, LinkType,
    StrWrite, StringWrap, Tag,
};

fn text(s: &str) -> Event {
    Event::Text(s.to_string())
}

fn render(events: Vec<Event>) -> String {
    let mut s = String::new();
    push_html(&mut s, events);
    s
}

fn heading_and_list() -> Vec<Event> {
    vec![
        Event::Start(Tag::Header(1)),
        text("hello"),
        Event::End(Tag::Header(1)),
        Event::Start(Tag::List(None)),
        Event::Start(Tag::Item),
        text("alpha"),
        Event::End(Tag::Item),
        Event::Start(Tag::Item),
        text("beta"),
        Event::End(Tag::Item),
        Event::End(Tag::List(None)),
    ]
}

const HEADING_AND_LIST_HTML: &str = "<h1>hello</h1>\n<ul>\n<li>alpha</li>\n<li>beta</li>\n</ul>\n";

#[test]
fn push_html_renders_heading_and_list() {
    assert_eq!(render(heading_and_list()), HEADING_AND_LIST_HTML);
}

#[test]
fn write_html_renders_heading_and_list() {
    let mut out = StringWrap::new(String::new());
    write_html(&mut out, heading_and_list()).unwrap();
    assert_eq!(out.as_str(), HEADING_AND_LIST_HTML);
}

#[test]
fn run_renders_like_push_html() {
    let mut out = StringWrap::new(String::new());
    let mut writer = HtmlWriter::new(heading_and_list());
    writer.run(&mut out).unwrap();
    assert_eq!(out.as_str(), HEADING_AND_LIST_HTML);
}

#[test]
fn push_html_appends_to_what_the_string_holds() {
    let mut s = String::from("prefix");
    push_html(&mut s, vec![Event::Start(Tag::Paragraph), text("x"), Event::End(Tag::Paragraph)]);
    assert_eq!(s.as_str(), "prefix<p>x</p>\n");
}

#[test]
fn empty_document_renders_nothing() {
    assert_eq!(render(vec![]), "");
}

#[test]
fn text_is_escaped() {
    assert_eq!(render(vec![text("a<b>&\"c'")]), "a&lt;b&gt;&amp;&quot;c'");
}

#[test]
fn escape_html_replaces_the_four_characters() {
    let mut s = StringWrap::new(String::new());
    escape_html(&mut s, "x < y && z > \"w\"").unwrap();
    assert_eq!(s.as_str(), "x &lt; y &amp;&amp; z &gt; &quot;w&quot;");
}

#[test]
fn escape_html_keeps_plain_text() {
    let mut s = StringWrap::new(String::new());
    escape_html(&mut s, "plain text, 'quoted' and ümlaut").unwrap();
    assert_eq!(s.as_str(), "plain text, 'quoted' and ümlaut");
}

#[test]
fn escape_html_is_compositional() {
    let (a, b) = ("<a&", "b>\"");
    let mut whole = StringWrap::new(String::new());
    escape_html(&mut whole, &format!("{}{}", a, b)).unwrap();
    let mut parts = StringWrap::new(String::new());
    escape_html(&mut parts, a).unwrap();
    escape_html(&mut parts, b).unwrap();
    assert_eq!(whole.as_str(), parts.as_str());
}

#[test]
fn escape_href_percent_encodes() {
    let mut s = StringWrap::new(String::new());
    escape_href(&mut s, "http://x.com/a b?q=1&r='\u{e4}'").unwrap();
    assert_eq!(s.as_str(), "http://x.com/a%20b?q=1&amp;r=&#x27;%C3%A4&#x27;");
}

#[test]
fn escape_href_encodes_unsafe_ascii_and_wide_characters() {
    let mut s = StringWrap::new(String::new());
    escape_href(&mut s, "\"<>[\\]^`{|}~\u{1F600}").unwrap();
    assert_eq!(s.as_str(), "%22%3C%3E%5B%5C%5D%5E%60%7B%7C%7D%7E%F0%9F%98%80");
}

#[test]
fn escape_href_keeps_safe_characters() {
    let mut s = StringWrap::new(String::new());
    let safe = "azAZ09!#$%()*+,-./:;=?@_";
    escape_href(&mut s, safe).unwrap();
    assert_eq!(s.as_str(), safe);
}

#[test]
fn escaped_href_holds_only_safe_ascii() {
    let mut s = StringWrap::new(String::new());
    escape_href(&mut s, "a \"b\" <c> 'd' \u{e9}\u{4e2d}\t\n").unwrap();
    let allowed = "!#$%&()*+,-./:;=?@_";
    let s = s.into_string();
    assert!(s.chars().all(|c| c.is_ascii_alphanumeric() || allowed.contains(c)), "{}", s);
}

#[test]
fn footnote_references_are_numbered_by_first_appearance() {
    let events = vec![
        Event::FootnoteReference("a".to_string()),
        Event::FootnoteReference("b".to_string()),
        Event::FootnoteReference("a".to_string()),
    ];
    assert_eq!(
        render(events),
        "<sup class=\"footnote-reference\"><a href=\"#a\">1</a></sup>\
         <sup class=\"footnote-reference\"><a href=\"#b\">2</a></sup>\
         <sup class=\"footnote-reference\"><a href=\"#a\">1</a></sup>"
    );
}

#[test]
fn footnote_definition_shares_the_reference_number() {
    let events = vec![
        Event::FootnoteReference("n".to_string()),
        Event::Start(Tag::FootnoteDefinition("n".to_string())),
        Event::Start(Tag::Paragraph),
        text("note"),
        Event::End(Tag::Paragraph),
        Event::End(Tag::FootnoteDefinition("n".to_string())),
    ];
    assert_eq!(
        render(events),
        "<sup class=\"footnote-reference\"><a href=\"#n\">1</a></sup>\n\
         <div class=\"footnote-definition\" id=\"n\"><sup class=\"footnote-definition-label\">1</sup>\n\
         <p>note</p>\n</div>\n"
    );
}

#[test]
fn block_after_text_starts_a_new_line() {
    let para = |t: &str| {
        vec![text(t), Event::Start(Tag::Paragraph), text("y"), Event::End(Tag::Paragraph)]
    };
    assert_eq!(render(para("x")), "x\n<p>y</p>\n");
    assert_eq!(render(para("x\n")), "x\n<p>y</p>\n");
}

#[test]
fn empty_text_forgets_the_newline() {
    let events = vec![text(""), Event::Start(Tag::Rule), Event::End(Tag::Rule)];
    assert_eq!(render(events), "\n<hr />\n");
}

#[test]
fn table_cells_carry_their_column_alignment() {
    let aligns = vec![Alignment::Left, Alignment::Center, Alignment::Right, Alignment::Unspecified];
    let cell = || vec![Event::Start(Tag::TableCell), Event::End(Tag::TableCell)];
    let mut events = vec![Event::Start(Tag::Table(aligns.clone())), Event::Start(Tag::TableHead)];
    for _ in 0..5 {
        events.extend(cell());
    }
    events.push(Event::End(Tag::TableHead));
    events.push(Event::Start(Tag::TableRow));
    events.extend(cell());
    events.extend(cell());
    events.push(Event::End(Tag::TableRow));
    events.push(Event::End(Tag::Table(aligns)));
    assert_eq!(
        render(events),
        "<table><thead><tr><th align=\"left\"></th><th align=\"center\"></th>\
         <th align=\"right\"></th><th></th><th></th></tr></thead><tbody>\n\
         <tr><td align=\"left\"></td><td align=\"center\"></td></tr>\n</tbody></table>\n"
    );
}

#[test]
fn image_description_is_plain_text() {
    let image = Tag::Image(LinkType::Inline, "a b.png".to_string(), "T\"".to_string());
    let events = vec![
        Event::Start(image.clone()),
        text("al"),
        Event::Start(Tag::Emphasis),
        text("t<"),
        Event::End(Tag::Emphasis),
        Event::SoftBreak,
        Event::Code("c".to_string()),
        Event::InlineHtml("<i>".to_string()),
        Event::Html("<div>".to_string()),
        Event::FootnoteReference("f".to_string()),
        Event::TaskListMarker(true),
        Event::TaskListMarker(false),
        Event::HardBreak,
        Event::End(image),
        text("after"),
    ];
    assert_eq!(
        render(events),
        "<img src=\"a%20b.png\" alt=\"alt&lt; c&lt;i&gt;[1][x][ ] \" title=\"T&quot;\" />after"
    );
}

#[test]
fn image_without_title() {
    let image = Tag::Image(LinkType::Reference, "x".to_string(), String::new());
    let events = vec![Event::Start(image.clone()), text("y"), Event::End(image)];
    assert_eq!(render(events), "<img src=\"x\" alt=\"y\" />");
}

#[test]
fn image_without_end_takes_the_rest() {
    let image = Tag::Image(LinkType::Inline, "x".to_string(), String::new());
    assert_eq!(render(vec![Event::Start(image), text("y")]), "<img src=\"x\" alt=\"y\" />");
}

#[test]
fn code_block_with_language() {
    let tag = Tag::CodeBlock("rust ignore".to_string());
    let events = vec![Event::Start(tag.clone()), text("fn main() {}\n"), Event::End(tag)];
    assert_eq!(
        render(events),
        "<pre><code class=\"language-rust\">fn main() {}\n</code></pre>\n"
    );
}

#[test]
fn code_block_without_language_after_text() {
    let tag = Tag::CodeBlock(String::new());
    let events = vec![text("a"), Event::Start(tag.clone()), text("b\n"), Event::End(tag)];
    assert_eq!(render(events), "a\n<pre><code>b\n</code></pre>\n");
}

#[test]
fn code_block_language_is_escaped() {
    let tag = Tag::CodeBlock("c<".to_string());
    assert_eq!(render(vec![Event::Start(tag)]), "<pre><code class=\"language-c&lt;\">");
}

#[test]
fn headers_carry_their_level() {
    let h = |level: i32| vec![Event::Start(Tag::Header(level)), text("t"), Event::End(Tag::Header(level))];
    assert_eq!(render(h(2)), "<h2>t</h2>\n");
    assert_eq!(render(h(-1)), "<h-1>t</h-1>\n");
    let mut after_text = vec![text("a")];
    after_text.extend(h(3));
    assert_eq!(render(after_text), "a\n<h3>t</h3>\n");
}

#[test]
fn ordered_lists_carry_their_start() {
    let list = |start: Option<usize>| {
        vec![
            Event::Start(Tag::List(start)),
            Event::Start(Tag::Item),
            text("a"),
            Event::End(Tag::Item),
            Event::End(Tag::List(start)),
        ]
    };
    assert_eq!(render(list(Some(1))), "<ol>\n<li>a</li>\n</ol>\n");
    assert_eq!(render(list(Some(3))), "<ol start=\"3\">\n<li>a</li>\n</ol>\n");
    assert_eq!(render(list(Some(1234567890))), "<ol start=\"1234567890\">\n<li>a</li>\n</ol>\n");
    assert_eq!(render(list(None)), "<ul>\n<li>a</li>\n</ul>\n");
    let mut after_text = vec![text("x")];
    after_text.extend(list(Some(0)));
    assert_eq!(render(after_text), "x\n<ol start=\"0\">\n<li>a</li>\n</ol>\n");
}

#[test]
fn links() {
    let email = Tag::Link(LinkType::Email, "john@example.org".to_string(), String::new());
    assert_eq!(
        render(vec![Event::Start(email.clone()), text("john"), Event::End(email)]),
        "<a href=\"mailto:john@example.org\">john</a>"
    );
    let inline = Tag::Link(LinkType::Inline, "/u?a=1&b".to_string(), "t<".to_string());
    assert_eq!(
        render(vec![Event::Start(inline.clone()), text("x"), Event::End(inline)]),
        "<a href=\"/u?a=1&amp;b\" title=\"t&lt;\">x</a>"
    );
}

#[test]
fn inline_styles() {
    let events = vec![
        Event::Start(Tag::Emphasis),
        text("a"),
        Event::End(Tag::Emphasis),
        Event::Start(Tag::Strong),
        text("b"),
        Event::End(Tag::Strong),
        Event::Start(Tag::Strikethrough),
        text("c"),
        Event::End(Tag::Strikethrough),
        Event::Code("a<b".to_string()),
    ];
    assert_eq!(
        render(events),
        "<em>a</em><strong>b</strong><del>c</del><code>a&lt;b</code>"
    );
}

#[test]
fn html_passes_through() {
    let events = vec![
        Event::Html("<div>\n".to_string()),
        Event::InlineHtml("<span>".to_string()),
        Event::Start(Tag::Paragraph),
    ];
    assert_eq!(render(events), "<div>\n<span>\n<p>");
}

#[test]
fn breaks() {
    let events = vec![text("a"), Event::SoftBreak, text("b"), Event::HardBreak, text("c")];
    assert_eq!(render(events), "a\nb<br />\nc");
}

#[test]
fn task_list_markers() {
    assert_eq!(
        render(vec![Event::TaskListMarker(true), Event::TaskListMarker(false)]),
        "<input disabled=\"\" type=\"checkbox\" checked=\"\"/>\n<input disabled=\"\" type=\"checkbox\"/>\n"
    );
}

#[test]
fn block_quote() {
    let events = vec![
        Event::Start(Tag::BlockQuote),
        Event::Start(Tag::Paragraph),
        text("q"),
        Event::End(Tag::Paragraph),
        Event::End(Tag::BlockQuote),
    ];
    assert_eq!(render(events), "<blockquote>\n<p>q</p>\n</blockquote>\n");
}

#[test]
fn tags_without_output() {
    let events = vec![
        Event::Start(Tag::HtmlBlock),
        Event::Html("<x>".to_string()),
        Event::End(Tag::HtmlBlock),
        Event::End(Tag::Image(LinkType::Inline, "a".to_string(), "b".to_string())),
        Event::End(Tag::Rule),
    ];
    assert_eq!(render(events), "<x>");
}

/// A sink that refuses every write.
struct Refusing;

impl StrWrite for Refusing {
    fn write_str(&mut self, _s: &str) -> Result<(), std::io::Error> {
        Err(std::io::Error::new(std::io::ErrorKind::Other, "refused"))
    }
}

#[test]
fn write_html_reports_a_refused_write() {
    let mut sink = Refusing;
    let r = write_html(&mut sink, vec![text("a")]);
    assert_eq!(r.unwrap_err().kind(), std::io::ErrorKind::Other);
}

#[test]
fn write_html_of_nothing_writes_nothing() {
    let mut sink = Refusing;
    assert!(write_html(&mut sink, vec![]).is_ok());
}

#[test]
fn escaped_text_holds_no_markup() {
    let mut s = StringWrap::new(String::new());
    escape_html(&mut s, "<script>alert(\"x\")</script> & <<>>").unwrap();
    let s = s.into_string();
    assert!(!s.contains('<') && !s.contains('>') && !s.contains('"'), "{}", s);
}

#[test]
fn escape_href_is_compositional() {
    let (a, b) = ("a b&", "'\u{e4}\"");
    let mut whole = StringWrap::new(String::new());
    escape_href(&mut whole, &format!("{}{}", a, b)).unwrap();
    let mut parts = StringWrap::new(String::new());
    escape_href(&mut parts, a).unwrap();
    escape_href(&mut parts, b).unwrap();
    assert_eq!(whole.as_str(), parts.as_str());
}

#[test]
fn footnote_keeps_its_first_number_to_the_end() {
    let events = vec![
        Event::FootnoteReference("x".to_string()),
        Event::Start(Tag::FootnoteDefinition("y".to_string())),
        Event::End(Tag::FootnoteDefinition("y".to_string())),
        Event::Start(Tag::FootnoteDefinition("x".to_string())),
        Event::End(Tag::FootnoteDefinition("x".to_string())),
    ];
    assert_eq!(
        render(events),
        "<sup class=\"footnote-reference\"><a href=\"#x\">1</a></sup>\n\
         <div class=\"footnote-definition\" id=\"y\"><sup class=\"footnote-definition-label\">2</sup></div>\n\
         <div class=\"footnote-definition\" id=\"x\"><sup class=\"footnote-definition-label\">1</sup></div>\n"
    );
}

/// A sink that accepts a given number of writes, then refuses every write.
struct FailingAfter {
    accepted: usize,
    calls: usize,
    text: String,
}

impl StrWrite for FailingAfter {
    fn write_str(&mut self, s: &str) -> Result<(), std::io::Error> {
        self.calls += 1;
        if self.calls > self.accepted {
            Err(std::io::Error::new(std::io::ErrorKind::WriteZero, "full"))
        } else {
            self.text.push_str(s);
            Ok(())
        }
    }
}

#[test]
fn write_html_returns_the_first_refusal_and_stops() {
    let mut sink = FailingAfter { accepted: 3, calls: 0, text: String::new() };
    let r = write_html(&mut sink, heading_and_list());
    let e = r.unwrap_err();
    assert_eq!(e.kind(), std::io::ErrorKind::WriteZero);
    assert_eq!(e.to_string(), "full");
    assert_eq!(sink.calls, 4);
    assert!(HEADING_AND_LIST_HTML.starts_with(&sink.text));
}

#[test]
fn write_html_succeeds_when_every_write_does() {
    let mut sink = FailingAfter { accepted: usize::MAX, calls: 0, text: String::new() };
    write_html(&mut sink, heading_and_list()).unwrap();
    assert_eq!(sink.text, HEADING_AND_LIST_HTML);
}

#[test]
fn html_of_a_concatenation() {
    let a = heading_and_list();
    let b = vec![Event::Start(Tag::Paragraph), text("tail"), Event::End(Tag::Paragraph)];
    let mut both = a.clone();
    both.extend(b.clone());
    assert_eq!(render(both), render(a) + &render(b));
}

#[test]
fn block_tags_get_a_leading_newline_only_mid_line() {
    let blocks = vec![
        Tag::Paragraph,
        Tag::Rule,
        Tag::Header(2),
        Tag::BlockQuote,
        Tag::CodeBlock("rust".to_string()),
        Tag::List(Some(4)),
        Tag::List(None),
        Tag::Item,
        Tag::FootnoteDefinition("f".to_string()),
    ];
    for tag in blocks {
        let at_start = render(vec![Event::Start(tag.clone())]);
        let mid_line = render(vec![text("x"), Event::Start(tag)]);
        assert_eq!(mid_line, format!("x\n{}", at_start));
    }
    let inline = render(vec![text("x"), Event::Start(Tag::Emphasis)]);
    assert_eq!(inline, "x<em>");
}

#[test]
fn start_tag_adds_a_leading_newline_to_block_tags_only() {
    let tags = vec![
        (Tag::Paragraph, true),
        (Tag::Rule, true),
        (Tag::Header(1), true),
        (Tag::BlockQuote, true),
        (Tag::CodeBlock("c".to_string()), true),
        (Tag::List(Some(2)), true),
        (Tag::List(None), true),
        (Tag::Item, true),
        (Tag::FootnoteDefinition("n".to_string()), true),
        (Tag::Emphasis, false),
        (Tag::Strong, false),
        (Tag::Table(vec![Alignment::Left]), false),
        (Tag::TableCell, false),
        (Tag::Link(LinkType::Inline, "u".to_string(), "t".to_string()), false),
        (Tag::Image(LinkType::Inline, "u".to_string(), String::new()), false),
        (Tag::HtmlBlock, false),
    ];
    for (tag, is_block) in tags {
        let mut at_start = StringWrap::new(String::new());
        let mut w1 = HtmlWriter::new(vec![]);
        w1.start_tag(&mut at_start, tag.clone()).unwrap();

        let mut w2 = HtmlWriter::new(vec![text("x")]);
        let mut before = StringWrap::new(String::new());
        w2.run(&mut before).unwrap();
        let mut mid_line = StringWrap::new(String::new());
        w2.start_tag(&mut mid_line, tag).unwrap();

        let expected = if is_block {
            format!("\n{}", at_start.as_str())
        } else {
            at_start.as_str().to_string()
        };
        assert_eq!(mid_line.as_str(), expected);
    }
}
