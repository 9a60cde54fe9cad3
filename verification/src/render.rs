//! What the renderer writes, stated over sequences of events.
//!
//! The renderer is a state machine: [`RenderState`] is what it remembers
//! between events, [`event_html`] is one step, [`render`] runs it over a
//! whole sequence, and [`html_of`] is the HTML of a document.
use vstd::prelude::*;
use crate::event::{Alignment, Event, Tag};
use crate::escape::{decimal, escape_href_text, escape_html_text, int_decimal};

verus! {

/// Whether the cells being rendered belong to the head or the body of a table.
#[derive(Clone, Copy, Debug, PartialEq, Eq)]
pub enum TableState {
    Head,
    Body,
}

/// What the renderer remembers between events.
pub struct RenderState {
    /// Whether the last tracked write ended with a newline.
    pub end_newline: bool,
    /// Whether table cells are head cells or body cells.
    pub table_state: TableState,
    /// The column alignments of the current table.
    pub alignments: Seq<Alignment>,
    /// The column of the next table cell.
    pub cell_index: int,
    /// The footnote names in the order in which they were first met;
    /// the footnote at position `i` has the number `i + 1`.
    pub numbers: Seq<Seq<char>>,
}

/// The state before the first event.
pub open spec fn initial_state() -> RenderState {
    RenderState {
        end_newline: true,
        table_state: TableState::Head,
        alignments: Seq::empty(),
        cell_index: 0,
        numbers: Seq::empty(),
    }
}

/// The state after a tracked write of `s`: a non-empty `s` records whether it ends with a newline.
pub open spec fn after_write(st: RenderState, s: Seq<char>) -> RenderState {
    if s.len() == 0 {
        st
    } else {
        RenderState { end_newline: s.last() == '\n', ..st }
    }
}

/// A tracked write of `s`: the text written and the state after it.
pub open spec fn tracked_write(st: RenderState, s: Seq<char>) -> (Seq<char>, RenderState) {
    (s, after_write(st, s))
}

/// Whether a text ends with a newline.
pub open spec fn ends_with_newline(s: Seq<char>) -> bool {
    s.len() > 0 && s.last() == '\n'
}

/// The number of a footnote and the footnote table after looking it up: a name
/// already in the table keeps its number, a new name is added with the next number.
pub open spec fn footnote_number(numbers: Seq<Seq<char>>, name: Seq<char>) -> (int, Seq<Seq<char>>) {
    match numbers.index_of_first(name) {
        Some(i) => (i + 1, numbers),
        None => (numbers.len() as int + 1, numbers.push(name)),
    }
}

/// The language of a code block: its info string up to the first space.
pub open spec fn code_language(info: Seq<char>) -> Seq<char> {
    match info.index_of_first(' ') {
        Some(k) => info.take(k),
        None => info,
    }
}

/// The text written after `<th` or `<td` for the cell in column `idx`.
pub open spec fn cell_alignment(alignments: Seq<Alignment>, idx: int) -> Seq<char> {
    if 0 <= idx < alignments.len() {
        match alignments[idx] {
            Alignment::Left => " align=\"left\">"@,
            Alignment::Center => " align=\"center\">"@,
            Alignment::Right => " align=\"right\">"@,
            Alignment::Unspecified => ">"@,
        }
    } else {
        ">"@
    }
}

/// `a` at the start of a line, `b` (which is `"\n"` followed by `a`) elsewhere.
pub open spec fn on_new_line(st: RenderState, a: Seq<char>, b: Seq<char>) -> Seq<char> {
    if st.end_newline { a } else { b }
}

/// The ` title="..."` part of a link or an image, empty when the title is.
pub open spec fn title_html(title: Seq<char>) -> Seq<char> {
    if title.len() == 0 {
        Seq::empty()
    } else {
        "\" title=\""@ + escape_html_text(title)
    }
}

/// The state after the tracked write of a title part.
pub open spec fn after_title(st: RenderState, title: Seq<char>) -> RenderState {
    if title.len() == 0 { st } else { after_write(st, "\" title=\""@) }
}

/// The HTML for the start of a tag other than an image.
pub open spec fn start_tag_html(st: RenderState, tag: Tag) -> (Seq<char>, RenderState) {
    match tag {
        Tag::Paragraph => tracked_write(st, on_new_line(st, "<p>"@, "\n<p>"@)),
        Tag::Rule => tracked_write(st, on_new_line(st, "<hr />\n"@, "\n<hr />\n"@)),
        Tag::Header(level) => (
            on_new_line(st, "<h"@, "\n<h"@) + int_decimal(level as int) + ">"@,
            RenderState { end_newline: false, ..st },
        ),
        Tag::Table(alignments) => tracked_write(
            RenderState { alignments: alignments@, ..st },
            "<table>"@,
        ),
        Tag::TableHead => tracked_write(
            RenderState { table_state: TableState::Head, cell_index: 0, ..st },
            "<thead><tr>"@,
        ),
        Tag::TableRow => tracked_write(RenderState { cell_index: 0, ..st }, "<tr>"@),
        Tag::TableCell => {
            let open = if st.table_state is Head { "<th"@ } else { "<td"@ };
            let close = cell_alignment(st.alignments, st.cell_index);
            (open + close, after_write(after_write(st, open), close))
        },
        Tag::BlockQuote => tracked_write(
            st,
            on_new_line(st, "<blockquote>\n"@, "\n<blockquote>\n"@),
        ),
        Tag::CodeBlock(info) => {
            let pre = if st.end_newline { Seq::empty() } else { "\n"@ };
            let s1 = RenderState { end_newline: true, ..st };
            let lang = code_language(info@);
            if lang.len() == 0 {
                (pre + "<pre><code>"@, after_write(s1, "<pre><code>"@))
            } else {
                (
                    pre + "<pre><code class=\"language-"@ + escape_html_text(lang) + "\">"@,
                    after_write(after_write(s1, "<pre><code class=\"language-"@), "\">"@),
                )
            }
        },
        Tag::List(Some(start)) => if start == 1 {
            tracked_write(st, on_new_line(st, "<ol>\n"@, "\n<ol>\n"@))
        } else {
            let open = on_new_line(st, "<ol start=\""@, "\n<ol start=\""@);
            (open + decimal(start as nat) + "\">\n"@, after_write(after_write(st, open), "\">\n"@))
        },
        Tag::List(None) => tracked_write(st, on_new_line(st, "<ul>\n"@, "\n<ul>\n"@)),
        Tag::Item => tracked_write(st, on_new_line(st, "<li>"@, "\n<li>"@)),
        Tag::Emphasis => tracked_write(st, "<em>"@),
        Tag::Strong => tracked_write(st, "<strong>"@),
        Tag::Strikethrough => tracked_write(st, "<del>"@),
        Tag::Link(link_type, dest, title) => {
            let open = if link_type is Email { "<a href=\"mailto:"@ } else { "<a href=\""@ };
            (
                open + escape_href_text(dest@) + title_html(title@) + "\">"@,
                after_write(after_title(after_write(st, open), title@), "\">"@),
            )
        },
        Tag::Image(_, _, _) => (Seq::empty(), st),
        Tag::FootnoteDefinition(name) => {
            let open = on_new_line(
                st,
                "<div class=\"footnote-definition\" id=\""@,
                "\n<div class=\"footnote-definition\" id=\""@,
            );
            let mid = "\"><sup class=\"footnote-definition-label\">"@;
            let (n, numbers) = footnote_number(st.numbers, name@);
            (
                open + escape_html_text(name@) + mid + decimal(n as nat) + "</sup>"@,
                after_write(
                    RenderState { numbers, ..after_write(after_write(st, open), mid) },
                    "</sup>"@,
                ),
            )
        },
        Tag::HtmlBlock => (Seq::empty(), st),
    }
}

/// The HTML for the end of a tag.
pub open spec fn end_tag_html(st: RenderState, tag: Tag) -> (Seq<char>, RenderState) {
    match tag {
        Tag::Paragraph => tracked_write(st, "</p>\n"@),
        Tag::Rule => (Seq::empty(), st),
        Tag::Header(level) => (
            "</h"@ + int_decimal(level as int) + ">\n"@,
            after_write(after_write(st, "</h"@), ">\n"@),
        ),
        Tag::Table(_) => tracked_write(st, "</tbody></table>\n"@),
        Tag::TableHead => {
            let (o, s1) = tracked_write(st, "</tr></thead><tbody>\n"@);
            (o, RenderState { table_state: TableState::Body, ..s1 })
        },
        Tag::TableRow => tracked_write(st, "</tr>\n"@),
        Tag::TableCell => {
            let close = if st.table_state is Head { "</th>"@ } else { "</td>"@ };
            let (o, s1) = tracked_write(st, close);
            (o, RenderState { cell_index: s1.cell_index + 1, ..s1 })
        },
        Tag::BlockQuote => tracked_write(st, "</blockquote>\n"@),
        Tag::CodeBlock(_) => tracked_write(st, "</code></pre>\n"@),
        Tag::List(Some(_)) => tracked_write(st, "</ol>\n"@),
        Tag::List(None) => tracked_write(st, "</ul>\n"@),
        Tag::Item => tracked_write(st, "</li>\n"@),
        Tag::Emphasis => tracked_write(st, "</em>"@),
        Tag::Strong => tracked_write(st, "</strong>"@),
        Tag::Strikethrough => tracked_write(st, "</del>"@),
        Tag::Link(_, _, _) => tracked_write(st, "</a>"@),
        Tag::Image(_, _, _) => (Seq::empty(), st),
        Tag::FootnoteDefinition(_) => tracked_write(st, "</div>\n"@),
        Tag::HtmlBlock => (Seq::empty(), st),
    }
}

/// The plain text that one event inside an image description contributes,
/// and the state after it (for events other than `Start`, `End` and `Html`).
pub open spec fn raw_event_html(st: RenderState, ev: Event) -> (Seq<char>, RenderState) {
    match ev {
        Event::InlineHtml(t) => (escape_html_text(t@), RenderState { end_newline: ends_with_newline(t@), ..st }),
        Event::Code(t) => (escape_html_text(t@), RenderState { end_newline: ends_with_newline(t@), ..st }),
        Event::Text(t) => (escape_html_text(t@), RenderState { end_newline: ends_with_newline(t@), ..st }),
        Event::SoftBreak => tracked_write(st, " "@),
        Event::HardBreak => tracked_write(st, " "@),
        Event::FootnoteReference(name) => {
            let (n, numbers) = footnote_number(st.numbers, name@);
            ("["@ + decimal(n as nat) + "]"@, RenderState { numbers, ..st })
        },
        Event::TaskListMarker(checked) => tracked_write(st, if checked { "[x]"@ } else { "[ ]"@ }),
        _ => (Seq::empty(), st),
    }
}

/// The plain text of an image description: the events up to the end of the
/// image, with `nest` tags opened inside it and not yet closed. Returns the
/// text, the state after it and the events that follow the image.
pub open spec fn raw_text_html(st: RenderState, evs: Seq<Event>, nest: nat) -> (Seq<char>, RenderState, Seq<Event>)
    decreases evs.len(),
{
    if evs.len() == 0 {
        (Seq::empty(), st, evs)
    } else {
        let rest = evs.drop_first();
        match evs[0] {
            Event::Start(_) => raw_text_html(st, rest, nest + 1),
            Event::End(_) => if nest == 0 {
                (Seq::empty(), st, rest)
            } else {
                raw_text_html(st, rest, (nest - 1) as nat)
            },
            Event::Html(_) => raw_text_html(st, rest, nest),
            _ => {
                let (out, next) = raw_event_html(st, evs[0]);
                let r = raw_text_html(next, rest, nest);
                (out + r.0, r.1, r.2)
            },
        }
    }
}

/// `b` is what remains of `a` after some events were taken from its front.
pub open spec fn is_suffix(a: Seq<Event>, b: Seq<Event>) -> bool {
    &&& b.len() <= a.len()
    &&& forall|i: int| 0 <= i < b.len() ==> #[trigger] b[i] == a[a.len() - b.len() + i]
}

/// Every event of an image description, up to the end of the image, is
/// consumed, and only those: what remains is what follows them.
pub proof fn lemma_raw_text_consumes(st: RenderState, evs: Seq<Event>, nest: nat)
    ensures
        raw_text_html(st, evs, nest).2.len() <= evs.len(),
        evs.len() > 0 ==> raw_text_html(st, evs, nest).2.len() < evs.len(),
        is_suffix(evs, raw_text_html(st, evs, nest).2),
    decreases evs.len(),
{
    if evs.len() > 0 {
        let rest = evs.drop_first();
        match evs[0] {
            Event::Start(_) => lemma_raw_text_consumes(st, rest, nest + 1),
            Event::End(_) => if nest != 0 {
                lemma_raw_text_consumes(st, rest, (nest - 1) as nat)
            },
            Event::Html(_) => lemma_raw_text_consumes(st, rest, nest),
            _ => lemma_raw_text_consumes(raw_event_html(st, evs[0]).1, rest, nest),
        }
    }
}

/// The HTML for the start of a tag, followed by `rest`: an image also takes
/// its description from `rest`. Returns the HTML, the state after it and the
/// events that remain.
pub open spec fn start_html(st: RenderState, tag: Tag, rest: Seq<Event>) -> (Seq<char>, RenderState, Seq<Event>) {
    match tag {
        Tag::Image(_, dest, title) => {
            let open = "<img src=\""@ + escape_href_text(dest@) + "\" alt=\""@;
            let s1 = after_write(after_write(st, "<img src=\""@), "\" alt=\""@);
            let (alt, s2, after) = raw_text_html(s1, rest, 0);
            (
                open + alt + title_html(title@) + "\" />"@,
                after_write(after_title(s2, title@), "\" />"@),
                after,
            )
        },
        _ => {
            let (out, next) = start_tag_html(st, tag);
            (out, next, rest)
        },
    }
}

/// One step of the renderer: the HTML for the first event of `evs` (and, for
/// an image, for its description), the state after it and the events that remain.
pub open spec fn event_html(st: RenderState, evs: Seq<Event>) -> (Seq<char>, RenderState, Seq<Event>)
    recommends
        evs.len() > 0,
{
    let rest = evs.drop_first();
    match evs[0] {
        Event::Start(tag) => start_html(st, tag, rest),
        Event::End(tag) => {
            let (out, next) = end_tag_html(st, tag);
            (out, next, rest)
        },
        Event::Text(t) => (
            escape_html_text(t@),
            RenderState { end_newline: ends_with_newline(t@), ..st },
            rest,
        ),
        Event::Code(t) => (
            "<code>"@ + escape_html_text(t@) + "</code>"@,
            after_write(after_write(st, "<code>"@), "</code>"@),
            rest,
        ),
        Event::Html(h) => (h@, after_write(st, h@), rest),
        Event::InlineHtml(h) => (h@, after_write(st, h@), rest),
        Event::SoftBreak => ("\n"@, RenderState { end_newline: true, ..st }, rest),
        Event::HardBreak => (("<br />\n"@), after_write(st, "<br />\n"@), rest),
        Event::FootnoteReference(name) => {
            let open = "<sup class=\"footnote-reference\"><a href=\"#"@;
            let (n, numbers) = footnote_number(st.numbers, name@);
            (
                open + escape_html_text(name@) + "\">"@ + decimal(n as nat) + "</a></sup>"@,
                after_write(
                    RenderState { numbers, ..after_write(after_write(st, open), "\">"@) },
                    "</a></sup>"@,
                ),
                rest,
            )
        },
        Event::TaskListMarker(checked) => {
            let out = if checked {
                "<input disabled=\"\" type=\"checkbox\" checked=\"\"/>\n"@
            } else {
                "<input disabled=\"\" type=\"checkbox\"/>\n"@
            };
            (out, after_write(st, out), rest)
        },
    }
}

/// Every step consumes at least one event.
pub proof fn lemma_event_html_consumes(st: RenderState, evs: Seq<Event>)
    requires
        evs.len() > 0,
    ensures
        event_html(st, evs).2.len() < evs.len(),
{
    if let Event::Start(Tag::Image(_, dest, title)) = evs[0] {
        let s1 = after_write(after_write(st, "<img src=\""@), "\" alt=\""@);
        lemma_raw_text_consumes(s1, evs.drop_first(), 0);
    }
}

/// What remains after a step is what follows the events it consumed.
pub proof fn lemma_event_html_suffix(st: RenderState, evs: Seq<Event>)
    requires
        evs.len() > 0,
    ensures
        is_suffix(evs, event_html(st, evs).2),
{
    if let Event::Start(Tag::Image(_, dest, title)) = evs[0] {
        let s1 = after_write(after_write(st, "<img src=\""@), "\" alt=\""@);
        lemma_raw_text_consumes(s1, evs.drop_first(), 0);
    }
}

/// Looking a footnote up adds at most one name to the table.
pub proof fn lemma_footnote_number_grows_by_one(numbers: Seq<Seq<char>>, name: Seq<char>)
    ensures
        numbers.len() <= footnote_number(numbers, name).1.len() <= numbers.len() + 1,
{
}

/// An image description leaves the table column alone, and adds at most one
/// footnote per event it consumes.
pub proof fn lemma_raw_text_bounds(st: RenderState, evs: Seq<Event>, nest: nat)
    ensures
        raw_text_html(st, evs, nest).1.cell_index == st.cell_index,
        raw_text_html(st, evs, nest).1.numbers.len() + raw_text_html(st, evs, nest).2.len()
            <= st.numbers.len() + evs.len(),
    decreases evs.len(),
{
    if evs.len() > 0 {
        let rest = evs.drop_first();
        match evs[0] {
            Event::Start(_) => lemma_raw_text_bounds(st, rest, nest + 1),
            Event::End(_) => if nest != 0 {
                lemma_raw_text_bounds(st, rest, (nest - 1) as nat)
            },
            Event::Html(_) => lemma_raw_text_bounds(st, rest, nest),
            Event::FootnoteReference(name) => {
                lemma_footnote_number_grows_by_one(st.numbers, name@);
                lemma_raw_text_bounds(raw_event_html(st, evs[0]).1, rest, nest);
            },
            _ => lemma_raw_text_bounds(raw_event_html(st, evs[0]).1, rest, nest),
        }
    }
}

/// The start of a tag leaves the table column alone or resets it, and adds at most one footnote.
pub proof fn lemma_start_tag_bounds(st: RenderState, tag: Tag)
    ensures
        start_tag_html(st, tag).1.cell_index == 0 || start_tag_html(st, tag).1.cell_index == st.cell_index,
        start_tag_html(st, tag).1.numbers.len() <= st.numbers.len() + 1,
{
    match tag {
        Tag::FootnoteDefinition(name) => {
            lemma_footnote_number_grows_by_one(st.numbers, name@);
        },
        Tag::Header(_) => {},
        Tag::CodeBlock(_) => {},
        Tag::List(_) => {},
        Tag::TableCell => {},
        Tag::Link(_, _, _) => {},
        _ => {},
    }
}

/// The end of a tag moves the table column on by at most one and adds no footnote.
pub proof fn lemma_end_tag_bounds(st: RenderState, tag: Tag)
    ensures
        st.cell_index <= end_tag_html(st, tag).1.cell_index <= st.cell_index + 1,
        end_tag_html(st, tag).1.numbers == st.numbers,
{
}

/// One step moves the table column on by at most one per event consumed, and
/// adds at most one footnote per event consumed.
pub proof fn lemma_event_html_bounds(st: RenderState, evs: Seq<Event>)
    requires
        evs.len() > 0,
        st.cell_index >= 0,
    ensures
        event_html(st, evs).1.cell_index >= 0,
        event_html(st, evs).1.cell_index + event_html(st, evs).2.len() <= st.cell_index + evs.len(),
        event_html(st, evs).1.numbers.len() + event_html(st, evs).2.len()
            <= st.numbers.len() + evs.len(),
{
    let rest = evs.drop_first();
    match evs[0] {
        Event::Start(tag) => {
            if let Tag::Image(_, dest, title) = tag {
                let s1 = after_write(after_write(st, "<img src=\""@), "\" alt=\""@);
                lemma_raw_text_bounds(s1, rest, 0);
                lemma_raw_text_consumes(s1, rest, 0);
            } else {
                lemma_start_tag_bounds(st, tag);
                assert(event_html(st, evs) == (start_tag_html(st, tag).0, start_tag_html(st, tag).1, rest));
            }
        },
        Event::End(tag) => {
            lemma_end_tag_bounds(st, tag);
        },
        Event::FootnoteReference(name) => {
            lemma_footnote_number_grows_by_one(st.numbers, name@);
        },
        _ => {},
    }
}

/// The HTML for a sequence of events, rendered from state `st`, and the state after it.
pub open spec fn render(st: RenderState, evs: Seq<Event>) -> (Seq<char>, RenderState)
    decreases evs.len(),
{
    if evs.len() == 0 {
        (Seq::empty(), st)
    } else {
        let (out, next, rest) = event_html(st, evs);
        proof {
            lemma_event_html_consumes(st, evs);
        }
        let (more, last) = render(next, rest);
        (out + more, last)
    }
}

/// The HTML of a document given as a sequence of events.
pub open spec fn html_of(evs: Seq<Event>) -> Seq<char> {
    render(initial_state(), evs).0
}

} // verus!
