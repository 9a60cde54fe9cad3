//! The HTML renderer.
use vstd::prelude::*;
use std::collections::VecDeque;
use crate::writer::{reported, StrWrite, StringWrap};
use crate::event::{Alignment, Event, LinkType, Tag};
use crate::escape::{escape_href, escape_html, write_decimal, write_int};
use crate::render::{
    after_write, code_language, end_tag_html, event_html, footnote_number, html_of,
    initial_state, is_suffix, lemma_event_html_bounds, lemma_event_html_consumes, raw_event_html, raw_text_html, render,
    start_html, RenderState, TableState,
};

verus! {

/// Renders a sequence of events as HTML, one event after the other.
pub struct HtmlWriter {
    /// The events not yet rendered.
    iter: VecDeque<Event>,
    /// Whether the last tracked write ended with a newline.
    end_newline: bool,
    table_state: TableState,
    table_alignments: Vec<Alignment>,
    table_cell_index: usize,
    /// Footnote names in the order in which they were first met.
    numbers: Vec<String>,
}

/// The text of a code block's info string up to its first space.
fn code_language_of(info: &str) -> (r: &str)
    ensures
        r@ == code_language(info@),
{
    let n = info.unicode_len();
    let mut k: usize = 0;
    while k < n
        invariant
            n == info@.len(),
            k <= n,
            forall|j: int| 0 <= j < k ==> info@[j] != ' ',
        decreases n - k,
    {
        if info.get_char(k) == ' ' {
            proof {
                info@.index_of_first_ensures(' ');
            }
            return info.substring_char(0, k);
        }
        k += 1;
    }
    proof {
        info@.index_of_first_ensures(' ');
    }
    info
}

/// `after` is `before` with names added at its end.
pub open spec fn table_extends(before: Seq<Seq<char>>, after: Seq<Seq<char>>) -> bool {
    &&& before.len() <= after.len()
    &&& forall|i: int| 0 <= i < before.len() ==> #[trigger] after[i] == before[i]
}

/// What a failed start of `tag` may have left changed: the fields that the
/// tag sets before it writes, a footnote it registered before the failing
/// write, and, for an image, the footnotes registered in its description.
/// Whether the output ends with a newline is left open.
pub open spec fn start_failure_frame(before: RenderState, after: RenderState, tag: Tag) -> bool {
    &&& after.alignments == (match tag {
        Tag::Table(a) => a@,
        _ => before.alignments,
    })
    &&& after.table_state == (if tag is TableHead { TableState::Head } else { before.table_state })
    &&& after.cell_index == (if tag is TableHead || tag is TableRow { 0 } else { before.cell_index })
    &&& match tag {
        Tag::FootnoteDefinition(name) => after.numbers == before.numbers
            || after.numbers == footnote_number(before.numbers, name@).1,
        Tag::Image(_, _, _) => table_extends(before.numbers, after.numbers),
        _ => after.numbers == before.numbers,
    }
}

/// Whether a text ends with a newline.
fn ends_with_newline(s: &str) -> (r: bool)
    ensures
        r == crate::render::ends_with_newline(s@),
{
    let n = s.unicode_len();
    n > 0 && s.get_char(n - 1) == '\n'
}

impl HtmlWriter {
    /// The renderer's state, as the specification of rendering describes it.
    pub closed spec fn state(&self) -> RenderState {
        RenderState {
            end_newline: self.end_newline,
            table_state: self.table_state,
            alignments: self.table_alignments@,
            cell_index: self.table_cell_index as int,
            numbers: self.numbers@.map_values(|s: String| s@),
        }
    }

    /// The events not yet rendered.
    pub closed spec fn remaining(&self) -> Seq<Event> {
        self.iter@
    }

    /// The counters of the state cannot overflow while the remaining events
    /// are rendered, and the footnote table holds no name twice.
    pub open spec fn wf(&self) -> bool {
        &&& self.state().cell_index + self.remaining().len() <= usize::MAX
        &&& self.state().numbers.len() + self.remaining().len() <= usize::MAX
        &&& self.state().cell_index >= 0
        &&& self.state().numbers.no_duplicates()
    }

    /// A renderer for `events`, in the initial state.
    pub fn new(events: Vec<Event>) -> (r: Self)
        ensures
            r.state() == initial_state(),
            r.remaining() == events@,
            r.wf(),
    {
        let mut events = events;
        let ghost all = events@;
        let n = events.len();
        let mut iter: VecDeque<Event> = VecDeque::new();
        while events.len() > 0
            invariant
                events@ + iter@ == all,
                all.len() == n,
            decreases events@.len(),
        {
            let ghost before = events@;
            match events.pop() {
                Some(e) => {
                    iter.push_front(e);
                    assert(events@ + iter@ =~= before + (iter@.drop_first()));
                },
                None => {},
            }
        }
        assert(iter@ =~= all);
        let r = HtmlWriter {
            iter,
            end_newline: true,
            table_state: TableState::Head,
            table_alignments: Vec::new(),
            table_cell_index: 0,
            numbers: Vec::new(),
        };
        assert(r.state().numbers =~= Seq::<Seq<char>>::empty());
        assert(r.state().alignments =~= Seq::<Alignment>::empty());
        r
    }

    /// Writes a newline.
    fn write_newline<W: StrWrite>(&mut self, w: &mut W) -> (r: Result<(), std::io::Error>)
        ensures
            r is Ok ==> final(w).written() == old(w).written() + "\n"@,
            final(self).state() == (RenderState { end_newline: true, ..old(self).state() }),
            final(w).calls() == old(w).calls().push("\n"@),
            final(self).remaining() == old(self).remaining(),
            reported(r, old(w).errors(), final(w).errors()),
    {
        self.end_newline = true;
        w.write_str("\n")
    }

    /// Writes a buffer, and tracks whether or not a newline was written.
    fn write<W: StrWrite>(&mut self, w: &mut W, s: &str) -> (r: Result<(), std::io::Error>)
        ensures
            r is Ok ==> final(w).written() == old(w).written() + s@,
            r is Ok ==> final(self).state() == after_write(old(self).state(), s@),
            r is Err ==> final(self).state() == old(self).state(),
            final(w).calls() == old(w).calls().push(s@),
            final(self).remaining() == old(self).remaining(),
            reported(r, old(w).errors(), final(w).errors()),
    {
        if let Err(e) = w.write_str(s) {
            return Err(e);
        }
        let n = s.unicode_len();
        if n > 0 {
            self.end_newline = s.get_char(n - 1) == '\n';
        }
        Ok(())
    }

    /// The number of the footnote `name`, registering it when it is new.
    fn footnote_number(&mut self, name: String) -> (n: usize)
        requires
            old(self).state().numbers.len() < usize::MAX,
        ensures
            n as int == footnote_number(old(self).state().numbers, name@).0,
            final(self).state() == (RenderState {
                numbers: footnote_number(old(self).state().numbers, name@).1,
                ..old(self).state()
            }),
            final(self).remaining() == old(self).remaining(),
    {
        let ghost names = old(self).state().numbers;
        let mut i: usize = 0;
        while i < self.numbers.len()
            invariant
                *self == *old(self),
                names == self.state().numbers,
                i <= self.numbers@.len(),
                forall|j: int| 0 <= j < i ==> names[j] != name@,
            decreases self.numbers@.len() - i,
        {
            if self.numbers[i] == name {
                proof {
                    assert(names[i as int] == name@);
                    names.index_of_first_ensures(name@);
                    assert(names.index_of_first(name@) == Some(i as int));
                    assert(self.state() =~= (RenderState { numbers: names, ..old(self).state() }));
                }
                return i + 1;
            }
            i += 1;
        }
        proof {
            names.index_of_first_ensures(name@);
        }
        let n = self.numbers.len() + 1;
        self.numbers.push(name);
        proof {
            assert(self.state().numbers =~= names.push(name@));
        }
        n
    }

    /// Writes the start of an HTML tag; for an image, also its description,
    /// which it takes from the remaining events.
    pub fn start_tag<W: StrWrite>(&mut self, w: &mut W, tag: Tag) -> (r: Result<(), std::io::Error>)
        requires
            old(self).state().numbers.len() + old(self).remaining().len() < usize::MAX,
        ensures
            r is Ok ==> final(w).written() == old(w).written()
                + start_html(old(self).state(), tag, old(self).remaining()).0,
            r is Ok ==> final(self).state() == start_html(old(self).state(), tag, old(self).remaining()).1,
            r is Ok ==> final(self).remaining() == start_html(old(self).state(), tag, old(self).remaining()).2,
            r is Err ==> start_failure_frame(old(self).state(), final(self).state(), tag),
            !(tag is Image) ==> final(self).remaining() == old(self).remaining(),
            is_suffix(old(self).remaining(), final(self).remaining()),
            reported(r, old(w).errors(), final(w).errors()),
    {
        let ghost st = old(self).state();
        let ghost out = start_html(st, tag, old(self).remaining()).0;
        match tag {
            Tag::Paragraph => {
                if self.end_newline {
                    self.write(w, "<p>")
                } else {
                    self.write(w, "\n<p>")
                }
            },
            Tag::Rule => {
                if self.end_newline {
                    self.write(w, "<hr />\n")
                } else {
                    self.write(w, "\n<hr />\n")
                }
            },
            Tag::Header(level) => {
                if self.end_newline {
                    self.end_newline = false;
                    if let Err(e) = w.write_str("<h") {
                        return Err(e);
                    }
                } else {
                    if let Err(e) = w.write_str("\n<h") {
                        return Err(e);
                    }
                }
                if let Err(e) = write_int(w, level) {
                    return Err(e);
                }
                if let Err(e) = w.write_str(">") {
                    return Err(e);
                }
                assert(w.written() =~= old(w).written() + out);
                Ok(())
            },
            Tag::Table(alignments) => {
                self.table_alignments = alignments;
                self.write(w, "<table>")
            },
            Tag::TableHead => {
                self.table_state = TableState::Head;
                self.table_cell_index = 0;
                self.write(w, "<thead><tr>")
            },
            Tag::TableRow => {
                self.table_cell_index = 0;
                self.write(w, "<tr>")
            },
            Tag::TableCell => self.start_table_cell(w),
            Tag::BlockQuote => {
                if self.end_newline {
                    self.write(w, "<blockquote>\n")
                } else {
                    self.write(w, "\n<blockquote>\n")
                }
            },
            Tag::CodeBlock(info) => self.start_code_block(w, info),
            Tag::List(Some(start)) => {
                if start == 1 {
                    if self.end_newline {
                        self.write(w, "<ol>\n")
                    } else {
                        self.write(w, "\n<ol>\n")
                    }
                } else {
                    if self.end_newline {
                        if let Err(e) = self.write(w, "<ol start=\"") {
                            return Err(e);
                        }
                    } else {
                        if let Err(e) = self.write(w, "\n<ol start=\"") {
                            return Err(e);
                        }
                    }
                    if let Err(e) = write_decimal(w, start as u64) {
                        return Err(e);
                    }
                    if let Err(e) = self.write(w, "\">\n") {
                        return Err(e);
                    }
                    assert(w.written() =~= old(w).written() + out);
                    Ok(())
                }
            },
            Tag::List(None) => {
                if self.end_newline {
                    self.write(w, "<ul>\n")
                } else {
                    self.write(w, "\n<ul>\n")
                }
            },
            Tag::Item => {
                if self.end_newline {
                    self.write(w, "<li>")
                } else {
                    self.write(w, "\n<li>")
                }
            },
            Tag::Emphasis => self.write(w, "<em>"),
            Tag::Strong => self.write(w, "<strong>"),
            Tag::Strikethrough => self.write(w, "<del>"),
            Tag::Link(link_type, dest, title) => self.start_link(w, link_type, dest, title),
            Tag::Image(link_type, dest, title) => self.start_image(w, link_type, dest, title),
            Tag::FootnoteDefinition(name) => self.start_footnote_definition(w, name),
            Tag::HtmlBlock => {
                assert(w.written() =~= old(w).written() + out);
                Ok(())
            },
        }
    }

    /// Writes the end of an HTML tag.
    fn end_tag<W: StrWrite>(&mut self, w: &mut W, tag: Tag) -> (r: Result<(), std::io::Error>)
        requires
            old(self).state().cell_index < usize::MAX,
        ensures
            r is Ok ==> final(w).written() == old(w).written() + end_tag_html(old(self).state(), tag).0,
            r is Ok ==> final(self).state() == end_tag_html(old(self).state(), tag).1,
            r is Err ==> final(self).state().table_state == old(self).state().table_state,
            r is Err ==> final(self).state().cell_index == old(self).state().cell_index,
            final(self).state().numbers == old(self).state().numbers,
            final(self).state().alignments == old(self).state().alignments,
            final(self).remaining() == old(self).remaining(),
            reported(r, old(w).errors(), final(w).errors()),
    {
        let ghost out = end_tag_html(old(self).state(), tag).0;
        match tag {
            Tag::Paragraph => {
                if let Err(e) = self.write(w, "</p>\n") {
                    return Err(e);
                }
            },
            Tag::Rule => {},
            Tag::Header(level) => {
                if let Err(e) = self.write(w, "</h") {
                    return Err(e);
                }
                if let Err(e) = write_int(w, level) {
                    return Err(e);
                }
                if let Err(e) = self.write(w, ">\n") {
                    return Err(e);
                }
            },
            Tag::Table(_) => {
                if let Err(e) = self.write(w, "</tbody></table>\n") {
                    return Err(e);
                }
            },
            Tag::TableHead => {
                if let Err(e) = self.write(w, "</tr></thead><tbody>\n") {
                    return Err(e);
                }
                self.table_state = TableState::Body;
            },
            Tag::TableRow => {
                if let Err(e) = self.write(w, "</tr>\n") {
                    return Err(e);
                }
            },
            Tag::TableCell => {
                match self.table_state {
                    TableState::Head => {
                        if let Err(e) = self.write(w, "</th>") {
                            return Err(e);
                        }
                    },
                    TableState::Body => {
                        if let Err(e) = self.write(w, "</td>") {
                            return Err(e);
                        }
                    },
                }
                self.table_cell_index += 1;
            },
            Tag::BlockQuote => {
                if let Err(e) = self.write(w, "</blockquote>\n") {
                    return Err(e);
                }
            },
            Tag::CodeBlock(_) => {
                if let Err(e) = self.write(w, "</code></pre>\n") {
                    return Err(e);
                }
            },
            Tag::List(Some(_)) => {
                if let Err(e) = self.write(w, "</ol>\n") {
                    return Err(e);
                }
            },
            Tag::List(None) => {
                if let Err(e) = self.write(w, "</ul>\n") {
                    return Err(e);
                }
            },
            Tag::Item => {
                if let Err(e) = self.write(w, "</li>\n") {
                    return Err(e);
                }
            },
            Tag::Emphasis => {
                if let Err(e) = self.write(w, "</em>") {
                    return Err(e);
                }
            },
            Tag::Strong => {
                if let Err(e) = self.write(w, "</strong>") {
                    return Err(e);
                }
            },
            Tag::Strikethrough => {
                if let Err(e) = self.write(w, "</del>") {
                    return Err(e);
                }
            },
            Tag::Link(_, _, _) => {
                if let Err(e) = self.write(w, "</a>") {
                    return Err(e);
                }
            },
            Tag::Image(_, _, _) => {},
            Tag::FootnoteDefinition(_) => {
                if let Err(e) = self.write(w, "</div>\n") {
                    return Err(e);
                }
            },
            Tag::HtmlBlock => {},
        }
        assert(w.written() =~= old(w).written() + out);
        Ok(())
    }

    /// Writes the plain text of an image description, consuming the events up
    /// to and including the end of the image.
    fn raw_text<W: StrWrite>(&mut self, w: &mut W) -> (r: Result<(), std::io::Error>)
        requires
            old(self).state().numbers.len() + old(self).remaining().len() <= usize::MAX,
        ensures
            r is Ok ==> final(w).written() == old(w).written()
                + raw_text_html(old(self).state(), old(self).remaining(), 0).0,
            r is Ok ==> final(self).state() == raw_text_html(old(self).state(), old(self).remaining(), 0).1,
            r is Ok ==> final(self).remaining() == raw_text_html(old(self).state(), old(self).remaining(), 0).2,
            final(self).state().alignments == old(self).state().alignments,
            final(self).state().table_state == old(self).state().table_state,
            final(self).state().cell_index == old(self).state().cell_index,
            table_extends(old(self).state().numbers, final(self).state().numbers),
            is_suffix(old(self).remaining(), final(self).remaining()),
            reported(r, old(w).errors(), final(w).errors()),
    {
        let ghost target = raw_text_html(old(self).state(), old(self).remaining(), 0);
        let mut nest: usize = 0;
        loop
            invariant
                target == raw_text_html(old(self).state(), old(self).remaining(), 0),
                old(w).written() + target.0 == w.written() + raw_text_html(self.state(), self.remaining(), nest as nat).0,
                target.1 == raw_text_html(self.state(), self.remaining(), nest as nat).1,
                target.2 == raw_text_html(self.state(), self.remaining(), nest as nat).2,
                nest + self.remaining().len() <= usize::MAX,
                self.state().alignments == old(self).state().alignments,
                self.state().table_state == old(self).state().table_state,
                self.state().cell_index == old(self).state().cell_index,
                table_extends(old(self).state().numbers, self.state().numbers),
                is_suffix(old(self).remaining(), self.remaining()),
                self.state().numbers.len() + self.remaining().len() <= usize::MAX,
                w.errors() == old(w).errors(),
            decreases self.remaining().len(),
        {
            let ghost st = self.state();
            let ghost evs = self.remaining();
            let ghost before = w.written();
            match self.iter.pop_front() {
                None => {
                    assert(w.written() =~= old(w).written() + target.0);
                    return Ok(());
                },
                Some(event) => {
                    assert(self.remaining() =~= evs.drop_first());
                    match event {
                        Event::Start(_) => {
                            nest += 1;
                        },
                        Event::End(_) => {
                            if nest == 0 {
                                assert(w.written() =~= old(w).written() + target.0);
                                return Ok(());
                            }
                            nest -= 1;
                        },
                        Event::Html(_) => {},
                        Event::InlineHtml(text) => {
                            if let Err(e) = escape_html(w, text.as_str()) {
                                return Err(e);
                            }
                            self.end_newline = ends_with_newline(text.as_str());
                        },
                        Event::Code(text) => {
                            if let Err(e) = escape_html(w, text.as_str()) {
                                return Err(e);
                            }
                            self.end_newline = ends_with_newline(text.as_str());
                        },
                        Event::Text(text) => {
                            if let Err(e) = escape_html(w, text.as_str()) {
                                return Err(e);
                            }
                            self.end_newline = ends_with_newline(text.as_str());
                        },
                        Event::SoftBreak => {
                            if let Err(e) = self.write(w, " ") {
                                return Err(e);
                            }
                        },
                        Event::HardBreak => {
                            if let Err(e) = self.write(w, " ") {
                                return Err(e);
                            }
                        },
                        Event::FootnoteReference(name) => {
                            let number = self.footnote_number(name);
                            proof { reveal_strlit("["); reveal_strlit("]"); }
                            if let Err(e) = w.write_str("[") {
                                return Err(e);
                            }
                            if let Err(e) = write_decimal(w, number as u64) {
                                return Err(e);
                            }
                            if let Err(e) = w.write_str("]") {
                                return Err(e);
                            }
                        },
                        Event::TaskListMarker(checked) => {
                            if checked {
                                if let Err(e) = self.write(w, "[x]") {
                                    return Err(e);
                                }
                            } else {
                                if let Err(e) = self.write(w, "[ ]") {
                                    return Err(e);
                                }
                            }
                        },
                    }
                    proof {
                        let piece = raw_event_html(st, evs[0]);
                        assert(w.written() =~= before + piece.0);
                    }
                },
            }
        }
    }

    /// Writes the start of a table cell, with the alignment of its column.
    fn start_table_cell<W: StrWrite>(&mut self, w: &mut W) -> (r: Result<(), std::io::Error>)
        requires
            old(self).state().numbers.len() + old(self).remaining().len() < usize::MAX,
        ensures
            r is Ok ==> final(w).written() == old(w).written()
                + start_html(old(self).state(), Tag::TableCell, old(self).remaining()).0,
            r is Ok ==> final(self).state() == start_html(old(self).state(), Tag::TableCell, old(self).remaining()).1,
            r is Ok ==> final(self).remaining() == start_html(old(self).state(), Tag::TableCell, old(self).remaining()).2,
            r is Err ==> start_failure_frame(old(self).state(), final(self).state(), Tag::TableCell),
            !(Tag::TableCell is Image) ==> final(self).remaining() == old(self).remaining(),
            is_suffix(old(self).remaining(), final(self).remaining()),
            reported(r, old(w).errors(), final(w).errors()),
    {
        let ghost st = old(self).state();
        let ghost out = start_html(st, Tag::TableCell, old(self).remaining()).0;
        match self.table_state {
            TableState::Head => {
                if let Err(e) = self.write(w, "<th") {
                    return Err(e);
                }
            },
            TableState::Body => {
                if let Err(e) = self.write(w, "<td") {
                    return Err(e);
                }
            },
        }
        let r = if self.table_cell_index < self.table_alignments.len() {
            match self.table_alignments[self.table_cell_index] {
                Alignment::Left => self.write(w, " align=\"left\">"),
                Alignment::Center => self.write(w, " align=\"center\">"),
                Alignment::Right => self.write(w, " align=\"right\">"),
                Alignment::Unspecified => self.write(w, ">"),
            }
        } else {
            self.write(w, ">")
        };
        proof {
            if r is Ok {
                assert(w.written() =~= old(w).written() + out);
            }
        }
        r
    }

    /// Writes the start of a code block, with the language named by its info string.
    fn start_code_block<W: StrWrite>(&mut self, w: &mut W, info: String) -> (r: Result<(), std::io::Error>)
        requires
            old(self).state().numbers.len() + old(self).remaining().len() < usize::MAX,
        ensures
            r is Ok ==> final(w).written() == old(w).written()
                + start_html(old(self).state(), Tag::CodeBlock(info), old(self).remaining()).0,
            r is Ok ==> final(self).state() == start_html(old(self).state(), Tag::CodeBlock(info), old(self).remaining()).1,
            r is Ok ==> final(self).remaining() == start_html(old(self).state(), Tag::CodeBlock(info), old(self).remaining()).2,
            r is Err ==> start_failure_frame(old(self).state(), final(self).state(), Tag::CodeBlock(info)),
            !(Tag::CodeBlock(info) is Image) ==> final(self).remaining() == old(self).remaining(),
            is_suffix(old(self).remaining(), final(self).remaining()),
            reported(r, old(w).errors(), final(w).errors()),
    {
        let ghost st = old(self).state();
        let ghost out = start_html(st, Tag::CodeBlock(info), old(self).remaining()).0;
        if !self.end_newline {
            if let Err(e) = self.write_newline(w) {
                return Err(e);
            }
        }
        let ghost s1 = self.state();
        assert(s1 == (RenderState { end_newline: true, ..st }));
        let lang = code_language_of(info.as_str());
        if lang.is_empty() {
            if let Err(e) = self.write(w, "<pre><code>") {
                return Err(e);
            }
        } else {
            if let Err(e) = self.write(w, "<pre><code class=\"language-") {
                return Err(e);
            }
            if let Err(e) = escape_html(w, lang) {
                return Err(e);
            }
            if let Err(e) = self.write(w, "\">") {
                return Err(e);
            }
        }
        assert(w.written() =~= old(w).written() + out);
        Ok(())
    }

    /// Writes the start of a link.
    fn start_link<W: StrWrite>(&mut self, w: &mut W, link_type: LinkType, dest: String, title: String) -> (r: Result<(), std::io::Error>)
        requires
            old(self).state().numbers.len() + old(self).remaining().len() < usize::MAX,
        ensures
            r is Ok ==> final(w).written() == old(w).written()
                + start_html(old(self).state(), Tag::Link(link_type, dest, title), old(self).remaining()).0,
            r is Ok ==> final(self).state() == start_html(old(self).state(), Tag::Link(link_type, dest, title), old(self).remaining()).1,
            r is Ok ==> final(self).remaining() == start_html(old(self).state(), Tag::Link(link_type, dest, title), old(self).remaining()).2,
            r is Err ==> start_failure_frame(old(self).state(), final(self).state(), Tag::Link(link_type, dest, title)),
            !(Tag::Link(link_type, dest, title) is Image) ==> final(self).remaining() == old(self).remaining(),
            is_suffix(old(self).remaining(), final(self).remaining()),
            reported(r, old(w).errors(), final(w).errors()),
    {
        let ghost st = old(self).state();
        let ghost out = start_html(st, Tag::Link(link_type, dest, title), old(self).remaining()).0;
        match link_type {
            LinkType::Email => {
                if let Err(e) = self.write(w, "<a href=\"mailto:") {
                    return Err(e);
                }
            },
            _ => {
                if let Err(e) = self.write(w, "<a href=\"") {
                    return Err(e);
                }
            },
        }
        if let Err(e) = escape_href(w, dest.as_str()) {
            return Err(e);
        }
        if !title.as_str().is_empty() {
            if let Err(e) = self.write(w, "\" title=\"") {
                return Err(e);
            }
            if let Err(e) = escape_html(w, title.as_str()) {
                return Err(e);
            }
        }
        if let Err(e) = self.write(w, "\">") {
            return Err(e);
        }
        assert(w.written() =~= old(w).written() + out);
        Ok(())
    }

    /// Writes an image, taking its description from the remaining events.
    fn start_image<W: StrWrite>(&mut self, w: &mut W, link_type: LinkType, dest: String, title: String) -> (r: Result<(), std::io::Error>)
        requires
            old(self).state().numbers.len() + old(self).remaining().len() < usize::MAX,
        ensures
            r is Ok ==> final(w).written() == old(w).written()
                + start_html(old(self).state(), Tag::Image(link_type, dest, title), old(self).remaining()).0,
            r is Ok ==> final(self).state() == start_html(old(self).state(), Tag::Image(link_type, dest, title), old(self).remaining()).1,
            r is Ok ==> final(self).remaining() == start_html(old(self).state(), Tag::Image(link_type, dest, title), old(self).remaining()).2,
            r is Err ==> start_failure_frame(old(self).state(), final(self).state(), Tag::Image(link_type, dest, title)),
            !(Tag::Image(link_type, dest, title) is Image) ==> final(self).remaining() == old(self).remaining(),
            is_suffix(old(self).remaining(), final(self).remaining()),
            reported(r, old(w).errors(), final(w).errors()),
    {
        let ghost st = old(self).state();
        let ghost out = start_html(st, Tag::Image(link_type, dest, title), old(self).remaining()).0;
        if let Err(e) = self.write(w, "<img src=\"") {
            return Err(e);
        }
        if let Err(e) = escape_href(w, dest.as_str()) {
            return Err(e);
        }
        if let Err(e) = self.write(w, "\" alt=\"") {
            return Err(e);
        }
        if let Err(e) = self.raw_text(w) {
            return Err(e);
        }
        if !title.as_str().is_empty() {
            if let Err(e) = self.write(w, "\" title=\"") {
                return Err(e);
            }
            if let Err(e) = escape_html(w, title.as_str()) {
                return Err(e);
            }
        }
        if let Err(e) = self.write(w, "\" />") {
            return Err(e);
        }
        assert(w.written() =~= old(w).written() + out);
        Ok(())
    }

    /// Writes the start of a footnote definition, with the footnote's number.
    fn start_footnote_definition<W: StrWrite>(&mut self, w: &mut W, name: String) -> (r: Result<(), std::io::Error>)
        requires
            old(self).state().numbers.len() + old(self).remaining().len() < usize::MAX,
        ensures
            r is Ok ==> final(w).written() == old(w).written()
                + start_html(old(self).state(), Tag::FootnoteDefinition(name), old(self).remaining()).0,
            r is Ok ==> final(self).state() == start_html(old(self).state(), Tag::FootnoteDefinition(name), old(self).remaining()).1,
            r is Ok ==> final(self).remaining() == start_html(old(self).state(), Tag::FootnoteDefinition(name), old(self).remaining()).2,
            r is Err ==> start_failure_frame(old(self).state(), final(self).state(), Tag::FootnoteDefinition(name)),
            !(Tag::FootnoteDefinition(name) is Image) ==> final(self).remaining() == old(self).remaining(),
            is_suffix(old(self).remaining(), final(self).remaining()),
            reported(r, old(w).errors(), final(w).errors()),
    {
        let ghost st = old(self).state();
        let ghost out = start_html(st, Tag::FootnoteDefinition(name), old(self).remaining()).0;
        if self.end_newline {
            if let Err(e) = self.write(w, "<div class=\"footnote-definition\" id=\"") {
                return Err(e);
            }
        } else {
            if let Err(e) = self.write(w, "\n<div class=\"footnote-definition\" id=\"") {
                return Err(e);
            }
        }
        if let Err(e) = escape_html(w, name.as_str()) {
            return Err(e);
        }
        if let Err(e) = self.write(w, "\"><sup class=\"footnote-definition-label\">") {
            return Err(e);
        }
        let number = self.footnote_number(name);
        if let Err(e) = write_decimal(w, number as u64) {
            return Err(e);
        }
        if let Err(e) = self.write(w, "</sup>") {
            return Err(e);
        }
        assert(w.written() =~= old(w).written() + out);
        Ok(())
    }

    /// Renders every remaining event, in order.
    #[verifier::rlimit(40)]
    pub fn run<W: StrWrite>(&mut self, w: &mut W) -> (r: Result<(), std::io::Error>)
        requires
            old(self).wf(),
        ensures
            r is Ok ==> final(w).written() == old(w).written()
                + render(old(self).state(), old(self).remaining()).0,
            r is Ok ==> final(self).state() == render(old(self).state(), old(self).remaining()).1,
            r is Ok ==> final(self).remaining().len() == 0,
            reported(r, old(w).errors(), final(w).errors()),
    {
        let ghost target = render(old(self).state(), old(self).remaining());
        loop
            invariant
                target == render(old(self).state(), old(self).remaining()),
                old(w).written() + target.0 == w.written() + render(self.state(), self.remaining()).0,
                target.1 == render(self.state(), self.remaining()).1,
                self.wf(),
                w.errors() == old(w).errors(),
            decreases self.remaining().len(),
        {
            let ghost st = self.state();
            let ghost evs = self.remaining();
            let ghost before = w.written();
            match self.iter.pop_front() {
                None => {
                    assert(w.written() =~= old(w).written() + target.0);
                    return Ok(());
                },
                Some(event) => {
                    assert(self.remaining() =~= evs.drop_first());
                    proof {
                        lemma_event_html_consumes(st, evs);
                        lemma_event_html_bounds(st, evs);
                        crate::laws::lemma_event_grows_table(st, evs);
                    }
                    match event {
                        Event::Start(tag) => {
                            if let Err(e) = self.start_tag(w, tag) {
                                return Err(e);
                            }
                        },
                        Event::End(tag) => {
                            if let Err(e) = self.end_tag(w, tag) {
                                return Err(e);
                            }
                        },
                        Event::Text(text) => {
                            if let Err(e) = escape_html(w, text.as_str()) {
                                return Err(e);
                            }
                            self.end_newline = ends_with_newline(text.as_str());
                        },
                        Event::Code(text) => {
                            if let Err(e) = self.write(w, "<code>") {
                                return Err(e);
                            }
                            if let Err(e) = escape_html(w, text.as_str()) {
                                return Err(e);
                            }
                            if let Err(e) = self.write(w, "</code>") {
                                return Err(e);
                            }
                        },
                        Event::Html(html) => {
                            if let Err(e) = self.write(w, html.as_str()) {
                                return Err(e);
                            }
                        },
                        Event::InlineHtml(html) => {
                            if let Err(e) = self.write(w, html.as_str()) {
                                return Err(e);
                            }
                        },
                        Event::SoftBreak => {
                            if let Err(e) = self.write_newline(w) {
                                return Err(e);
                            }
                        },
                        Event::HardBreak => {
                            if let Err(e) = self.write(w, "<br />\n") {
                                return Err(e);
                            }
                        },
                        Event::FootnoteReference(name) => {
                            if let Err(e) = self.write(w, "<sup class=\"footnote-reference\"><a href=\"#") {
                                return Err(e);
                            }
                            if let Err(e) = escape_html(w, name.as_str()) {
                                return Err(e);
                            }
                            if let Err(e) = self.write(w, "\">") {
                                return Err(e);
                            }
                            let number = self.footnote_number(name);
                            if let Err(e) = write_decimal(w, number as u64) {
                                return Err(e);
                            }
                            if let Err(e) = self.write(w, "</a></sup>") {
                                return Err(e);
                            }
                        },
                        Event::TaskListMarker(checked) => {
                            if checked {
                                if let Err(e) = self.write(w, "<input disabled=\"\" type=\"checkbox\" checked=\"\"/>\n") {
                                    return Err(e);
                                }
                            } else {
                                if let Err(e) = self.write(w, "<input disabled=\"\" type=\"checkbox\"/>\n") {
                                    return Err(e);
                                }
                            }
                        },
                    }
                    proof {
                        assert(w.written() =~= before + event_html(st, evs).0);
                    }
                },
            }
        }
    }
}

/// Renders `events` as HTML and writes it to `writer`.
///
/// The result is `Ok` exactly when no write to `writer` failed, and then what
/// `writer` holds has grown by exactly the HTML of the events; otherwise it
/// is the error that `writer` reported, the only write that failed.
pub fn write_html<W: StrWrite>(writer: &mut W, events: Vec<Event>) -> (r: Result<(), std::io::Error>)
    ensures
        r is Ok ==> final(writer).written() == old(writer).written() + html_of(events@),
        reported(r, old(writer).errors(), final(writer).errors()),
{
    let mut html_writer = HtmlWriter::new(events);
    html_writer.run(writer)
}

/// Renders `events` as HTML and appends it to `s`.
pub fn push_html(s: &mut String, events: Vec<Event>)
    ensures
        final(s)@ == old(s)@ + html_of(events@),
{
    let mut text = String::new();
    std::mem::swap(s, &mut text);
    let mut sink = StringWrap::new(text);
    let r = write_html(&mut sink, events);
    proof {
        // A `StringWrap` reports no errors, so no write to it failed.
        if r is Err {
            assert(sink.errors().len() == 1);
        }
    }
    r.unwrap();
    *s = sink.into_string();
}

} // verus!
