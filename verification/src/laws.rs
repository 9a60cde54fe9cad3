//! Properties of the renderer that hold of every input.
use vstd::prelude::*;
use crate::event::{Alignment, Event, LinkType, Tag};
use crate::escape::{
    decimal, escape_href_text, escape_html_text, flat_map_chars, hex_digit,
    href_escape_char, href_escaper, href_safe, html_escape_char, html_escaper,
    lemma_flat_map_concat, lemma_flat_map_identity, percent_encode,
};
use crate::render::{
    after_write, cell_alignment, end_tag_html, event_html, footnote_number, is_suffix,
    lemma_event_html_consumes, lemma_event_html_suffix, raw_event_html, raw_text_html, render,
    code_language, html_of, initial_state, start_html, start_tag_html, RenderState, TableState,
};

verus! {

/// No character of `t` is `<`, `>` or `"`: `t` can stand inside an element or
/// a double-quoted attribute without opening or closing either.
pub open spec fn has_no_markup(t: Seq<char>) -> bool {
    forall|k: int| 0 <= k < t.len() ==> #[trigger] t[k] != '<' && t[k] != '>' && t[k] != '"'
}

proof fn lemma_no_markup_concat(a: Seq<char>, b: Seq<char>)
    requires
        has_no_markup(a),
        has_no_markup(b),
    ensures
        has_no_markup(a + b),
{
    assert forall|k: int| 0 <= k < (a + b).len() implies #[trigger] (a + b)[k] != '<' && (a + b)[k] != '>' && (a + b)[k] != '"' by {
        if k < a.len() {
            assert((a + b)[k] == a[k]);
        } else {
            assert((a + b)[k] == b[k - a.len()]);
        }
    }
}

proof fn lemma_html_escape_char_no_markup(c: char)
    ensures
        has_no_markup(html_escape_char(c)),
{
    reveal_strlit("&quot;");
    reveal_strlit("&amp;");
    reveal_strlit("&lt;");
    reveal_strlit("&gt;");
}

/// Escaped text holds no `<`, `>` or `"`, whatever the text was.
pub proof fn law_escaped_text_has_no_markup(s: Seq<char>)
    ensures
        has_no_markup(escape_html_text(s)),
    decreases s.len(),
{
    if s.len() > 0 {
        law_escaped_text_has_no_markup(s.drop_last());
        lemma_html_escape_char_no_markup(s.last());
        lemma_no_markup_concat(escape_html_text(s.drop_last()), html_escape_char(s.last()));
    }
}

/// Text without `"`, `&`, `<` and `>` is written as it is.
pub proof fn law_escape_keeps_plain_text(s: Seq<char>)
    requires
        forall|k: int| 0 <= k < s.len() ==> #[trigger] s[k] != '"' && s[k] != '&' && s[k] != '<' && s[k] != '>',
    ensures
        escape_html_text(s) == s,
{
    assert forall|k: int| 0 <= k < s.len() implies #[trigger] html_escaper()(s[k]) == seq![s[k]] by {}
    lemma_flat_map_identity(s, html_escaper());
}

/// Escaping text, and escaping a link destination, work character by
/// character: the escaped form of `a + b` is that of `a` followed by that of `b`.
pub proof fn law_escaping_is_compositional(a: Seq<char>, b: Seq<char>)
    ensures
        escape_html_text(a + b) == escape_html_text(a) + escape_html_text(b),
        escape_href_text(a + b) == escape_href_text(a) + escape_href_text(b),
{
    lemma_flat_map_concat(a, b, html_escaper());
    lemma_flat_map_concat(a, b, href_escaper());
}

/// Every character of `t` is safe in a link destination, or is `&`.
pub open spec fn is_href_text(t: Seq<char>) -> bool {
    forall|k: int| 0 <= k < t.len() ==> href_safe(#[trigger] t[k]) || t[k] == '&'
}

proof fn lemma_href_text_concat(a: Seq<char>, b: Seq<char>)
    requires
        is_href_text(a),
        is_href_text(b),
    ensures
        is_href_text(a + b),
{
    assert forall|k: int| 0 <= k < (a + b).len() implies href_safe(#[trigger] (a + b)[k]) || (a + b)[k] == '&' by {
        if k < a.len() {
            assert((a + b)[k] == a[k]);
        } else {
            assert((a + b)[k] == b[k - a.len()]);
        }
    }
}

proof fn lemma_hex_digit_safe(d: u8)
    ensures
        href_safe(hex_digit(d)),
{
}

proof fn lemma_percent_encode_safe(bytes: Seq<u8>)
    ensures
        is_href_text(percent_encode(bytes)),
    decreases bytes.len(),
{
    if bytes.len() > 0 {
        let b = bytes.last();
        lemma_percent_encode_safe(bytes.drop_last());
        lemma_hex_digit_safe(b >> 4);
        lemma_hex_digit_safe(b & 0xf);
        let tail = seq!['%', hex_digit(b >> 4), hex_digit(b & 0xf)];
        assert(is_href_text(tail));
        lemma_href_text_concat(percent_encode(bytes.drop_last()), tail);
    }
}

proof fn lemma_href_escape_char_safe(c: char)
    ensures
        is_href_text(href_escape_char(c)),
{
    reveal_strlit("&amp;");
    reveal_strlit("&#x27;");
    if !href_safe(c) && c != '&' && c != '\'' {
        lemma_percent_encode_safe(vstd::utf8::encode_scalar(c as u32));
    }
}

/// An escaped link destination is made only of ASCII letters, digits,
/// `! # $ % & ( ) * + , - . / : ; = ? @ _`: it holds no quote, no space,
/// no `<` or `>`, and no character outside ASCII.
pub proof fn law_escaped_href_is_safe(s: Seq<char>)
    ensures
        is_href_text(escape_href_text(s)),
    decreases s.len(),
{
    if s.len() > 0 {
        law_escaped_href_is_safe(s.drop_last());
        lemma_href_escape_char_safe(s.last());
        lemma_href_text_concat(escape_href_text(s.drop_last()), href_escape_char(s.last()));
    }
}

/// The decimal representation of a number is made of the digits `0` to `9` alone.
pub proof fn law_decimal_is_digits(n: nat)
    ensures
        forall|k: int| 0 <= k < decimal(n).len() ==> '0' <= #[trigger] decimal(n)[k] <= '9',
        decimal(n).len() > 0,
    decreases n,
{
    if n >= 10 {
        law_decimal_is_digits(n / 10);
        assert forall|k: int| 0 <= k < decimal(n).len() implies '0' <= #[trigger] decimal(n)[k] <= '9' by {
            if k < decimal(n / 10).len() {
                assert(decimal(n)[k] == decimal(n / 10)[k]);
            }
        }
    }
}

proof fn lemma_decimal_no_markup(n: nat)
    ensures
        has_no_markup(decimal(n)),
{
    law_decimal_is_digits(n);
}

proof fn lemma_raw_event_no_markup(st: RenderState, ev: Event)
    ensures
        has_no_markup(raw_event_html(st, ev).0),
{
    reveal_strlit(" ");
    reveal_strlit("[");
    reveal_strlit("]");
    reveal_strlit("[x]");
    reveal_strlit("[ ]");
    match ev {
        Event::InlineHtml(t) => law_escaped_text_has_no_markup(t@),
        Event::Code(t) => law_escaped_text_has_no_markup(t@),
        Event::Text(t) => law_escaped_text_has_no_markup(t@),
        Event::FootnoteReference(name) => {
            let n = footnote_number(st.numbers, name@).0;
            lemma_decimal_no_markup(n as nat);
            lemma_no_markup_concat("["@, decimal(n as nat));
            lemma_no_markup_concat("["@ + decimal(n as nat), "]"@);
        },
        _ => {},
    }
}

/// The description of an image, which becomes its `alt` attribute, holds no
/// `<`, `>` or `"`: markup inside the description is dropped and its text is
/// escaped, so it cannot end the attribute or the tag.
pub proof fn law_image_description_has_no_markup(st: RenderState, evs: Seq<Event>, nest: nat)
    ensures
        has_no_markup(raw_text_html(st, evs, nest).0),
    decreases evs.len(),
{
    if evs.len() > 0 {
        let rest = evs.drop_first();
        match evs[0] {
            Event::Start(_) => law_image_description_has_no_markup(st, rest, nest + 1),
            Event::End(_) => if nest != 0 {
                law_image_description_has_no_markup(st, rest, (nest - 1) as nat)
            },
            Event::Html(_) => law_image_description_has_no_markup(st, rest, nest),
            _ => {
                let (out, next) = raw_event_html(st, evs[0]);
                lemma_raw_event_no_markup(st, evs[0]);
                law_image_description_has_no_markup(next, rest, nest);
                lemma_no_markup_concat(out, raw_text_html(next, rest, nest).0);
            },
        }
    }
}

/// Footnotes are numbered 1, 2, 3, ... in the order in which their names are
/// first met: a footnote's number is its position in the table, looking the
/// same name up again gives the same number and leaves the table as it is,
/// and the table never holds a name twice.
pub proof fn law_footnote_numbers_are_stable(numbers: Seq<Seq<char>>, name: Seq<char>)
    requires
        numbers.no_duplicates(),
    ensures
        ({
            let (n, table) = footnote_number(numbers, name);
            &&& 1 <= n <= table.len()
            &&& table[n - 1] == name
            &&& table.no_duplicates()
            &&& footnote_number(table, name) == (n, table)
            &&& numbers.contains(name) ==> table == numbers
            &&& !numbers.contains(name) ==> n == numbers.len() + 1 && table == numbers.push(name)
        }),
{
    numbers.index_of_first_ensures(name);
    let (n, table) = footnote_number(numbers, name);
    table.index_of_first_ensures(name);
    if !numbers.contains(name) {
        assert(table[numbers.len() as int] == name);
        assert forall|i: int, j: int| 0 <= i < table.len() && 0 <= j < table.len() && i != j implies table[i] != table[j] by {
            if i < numbers.len() && j < numbers.len() {
                assert(table[i] == numbers[i] && table[j] == numbers[j]);
            } else if i < numbers.len() {
                assert(table[i] == numbers[i]);
            } else if j < numbers.len() {
                assert(table[j] == numbers[j]);
            }
        }
        match table.index_of_first(name) {
            Some(k) => {
                if k < numbers.len() {
                    assert(numbers[k] == table[k]);
                }
            },
            None => {},
        }
    }
}

/// The renderer's claim that the output ends with a newline is true of
/// `out`: when `st.end_newline` holds, `out` is empty or ends with a newline.
pub open spec fn newline_claim_holds(st: RenderState, out: Seq<char>) -> bool {
    st.end_newline ==> (out.len() == 0 || out.last() == '\n')
}

/// A tracked write of the whole output keeps the claim true.
proof fn lemma_tracked_write_keeps_claim(st: RenderState, prev: Seq<char>, s: Seq<char>)
    requires
        newline_claim_holds(st, prev),
    ensures
        newline_claim_holds(after_write(st, s), prev + s),
{
    if s.len() == 0 {
        assert(prev + s =~= prev);
    }
}

/// A non-empty tracked write that ends the output makes the claim true,
/// whatever came before it.
proof fn lemma_last_write_makes_claim(st: RenderState, before: Seq<char>, s: Seq<char>)
    requires
        s.len() > 0,
    ensures
        newline_claim_holds(after_write(st, s), before + s),
{
}

proof fn lemma_start_tag_keeps_claim(st: RenderState, tag: Tag, prev: Seq<char>)
    requires
        newline_claim_holds(st, prev),
    ensures
        newline_claim_holds(start_tag_html(st, tag).1, prev + start_tag_html(st, tag).0),
{
    let (out, next) = start_tag_html(st, tag);
    match tag {
        Tag::Header(_) => {},
        Tag::TableCell => {
            reveal_strlit(" align=\"left\">");
            reveal_strlit(" align=\"center\">");
            reveal_strlit(" align=\"right\">");
            reveal_strlit(">");
            let open = if st.table_state is Head { "<th"@ } else { "<td"@ };
            let close = cell_alignment(st.alignments, st.cell_index);
            assert(close.len() > 0);
            lemma_last_write_makes_claim(after_write(st, open), prev + open, close);
            assert(prev + out =~= prev + open + close);
        },
        Tag::CodeBlock(info) => {
            reveal_strlit("<pre><code>");
            reveal_strlit("\">");
        },
        Tag::List(Some(start)) => {
            if start == 1 {
                lemma_tracked_write_keeps_claim(st, prev, out);
            } else {
                reveal_strlit("\">\n");
                assert(out.last() == "\">\n"@.last());
            }
        },
        Tag::Link(_, _, _) => {
            reveal_strlit("\">");
        },
        Tag::FootnoteDefinition(_) => {
            reveal_strlit("</sup>");
        },
        Tag::Image(_, _, _) => {
            assert(prev + out =~= prev);
        },
        Tag::HtmlBlock => {
            assert(prev + out =~= prev);
        },
        _ => {
            lemma_tracked_write_keeps_claim(
                RenderState { end_newline: st.end_newline, ..next },
                prev,
                out,
            );
        },
    }
}

proof fn lemma_end_tag_keeps_claim(st: RenderState, tag: Tag, prev: Seq<char>)
    requires
        newline_claim_holds(st, prev),
    ensures
        newline_claim_holds(end_tag_html(st, tag).1, prev + end_tag_html(st, tag).0),
{
    let (out, next) = end_tag_html(st, tag);
    match tag {
        Tag::Rule => {
            assert(prev + out =~= prev);
        },
        Tag::Image(_, _, _) => {
            assert(prev + out =~= prev);
        },
        Tag::HtmlBlock => {
            assert(prev + out =~= prev);
        },
        Tag::Header(_) => {
            reveal_strlit(">\n");
            assert(out.last() == '\n');
        },
        _ => {
            lemma_tracked_write_keeps_claim(st, prev, out);
        },
    }
}

proof fn lemma_escape_keeps_final_newline(t: Seq<char>)
    ensures
        t.len() > 0 && t.last() == '\n' ==> escape_html_text(t).len() > 0 && escape_html_text(t).last() == '\n',
{
}

proof fn lemma_event_keeps_claim(st: RenderState, evs: Seq<Event>, prev: Seq<char>)
    requires
        evs.len() > 0,
        newline_claim_holds(st, prev),
    ensures
        newline_claim_holds(event_html(st, evs).1, prev + event_html(st, evs).0),
{
    let (out, next, rest) = event_html(st, evs);
    match evs[0] {
        Event::Start(tag) => {
            if let Tag::Image(_, _, _) = tag {
                reveal_strlit("\" />");
                assert(out.last() == '>');
            } else {
                lemma_start_tag_keeps_claim(st, tag, prev);
            }
        },
        Event::End(tag) => lemma_end_tag_keeps_claim(st, tag, prev),
        Event::Text(t) => {
            lemma_escape_keeps_final_newline(t@);
        },
        Event::Code(_) => {
            reveal_strlit("</code>");
        },
        Event::SoftBreak => {
            reveal_strlit("\n");
        },
        Event::FootnoteReference(_) => {
            reveal_strlit("</a></sup>");
        },
        _ => {
            lemma_tracked_write_keeps_claim(st, prev, out);
        },
    }
}

/// The renderer writes a newline before a block element unless it knows the
/// output already ends with one; this knowledge is never wrong: whenever the
/// renderer holds that the output ends with a newline, the output (after
/// whatever the sink held before, `prev`) is empty or does end with one.
pub proof fn law_newline_claim_is_true(st: RenderState, evs: Seq<Event>, prev: Seq<char>)
    requires
        newline_claim_holds(st, prev),
    ensures
        newline_claim_holds(render(st, evs).1, prev + render(st, evs).0),
    decreases evs.len(),
{
    if evs.len() == 0 {
        assert(prev + render(st, evs).0 =~= prev);
    } else {
        let (out, next, rest) = event_html(st, evs);
        lemma_event_keeps_claim(st, evs, prev);
        lemma_event_html_consumes(st, evs);
        law_newline_claim_is_true(next, rest, prev + out);
        assert(prev + out + render(next, rest).0 =~= prev + render(st, evs).0);
    }
}

/// `new` is `old` with names added at its end, and has no name twice if `old` has none.
pub open spec fn table_grows(old: Seq<Seq<char>>, new: Seq<Seq<char>>) -> bool {
    &&& old.len() <= new.len()
    &&& new.take(old.len() as int) == old
    &&& old.no_duplicates() ==> new.no_duplicates()
}

proof fn lemma_table_grows_refl(t: Seq<Seq<char>>)
    ensures
        table_grows(t, t),
{
    assert(t.take(t.len() as int) =~= t);
}

proof fn lemma_table_grows_trans(a: Seq<Seq<char>>, b: Seq<Seq<char>>, c: Seq<Seq<char>>)
    requires
        table_grows(a, b),
        table_grows(b, c),
    ensures
        table_grows(a, c),
{
    assert(c.take(a.len() as int) =~= c.take(b.len() as int).take(a.len() as int));
}

proof fn lemma_footnote_number_grows_table(numbers: Seq<Seq<char>>, name: Seq<char>)
    ensures
        table_grows(numbers, footnote_number(numbers, name).1),
{
    numbers.index_of_first_ensures(name);
    let table = footnote_number(numbers, name).1;
    if numbers.contains(name) {
        lemma_table_grows_refl(numbers);
    } else {
        assert(table.take(numbers.len() as int) =~= numbers);
        if numbers.no_duplicates() {
            law_footnote_numbers_are_stable(numbers, name);
        }
    }
}

proof fn lemma_raw_text_grows_table(st: RenderState, evs: Seq<Event>, nest: nat)
    ensures
        table_grows(st.numbers, raw_text_html(st, evs, nest).1.numbers),
    decreases evs.len(),
{
    if evs.len() == 0 {
        lemma_table_grows_refl(st.numbers);
    } else {
        let rest = evs.drop_first();
        match evs[0] {
            Event::Start(_) => lemma_raw_text_grows_table(st, rest, nest + 1),
            Event::End(_) => if nest == 0 {
                lemma_table_grows_refl(st.numbers);
            } else {
                lemma_raw_text_grows_table(st, rest, (nest - 1) as nat)
            },
            Event::Html(_) => lemma_raw_text_grows_table(st, rest, nest),
            _ => {
                let next = raw_event_html(st, evs[0]).1;
                if let Event::FootnoteReference(name) = evs[0] {
                    lemma_footnote_number_grows_table(st.numbers, name@);
                } else {
                    lemma_table_grows_refl(st.numbers);
                }
                lemma_raw_text_grows_table(next, rest, nest);
                lemma_table_grows_trans(st.numbers, next.numbers, raw_text_html(next, rest, nest).1.numbers);
            },
        }
    }
}

proof fn lemma_start_tag_keeps_table(st: RenderState, tag: Tag)
    requires
        !(tag is FootnoteDefinition),
    ensures
        start_tag_html(st, tag).1.numbers == st.numbers,
{
    match tag {
        Tag::Header(_) => {},
        Tag::CodeBlock(_) => {},
        Tag::List(_) => {},
        Tag::TableCell => {},
        Tag::Link(_, _, _) => {},
        _ => {},
    }
}

proof fn lemma_end_tag_keeps_table(st: RenderState, tag: Tag)
    ensures
        end_tag_html(st, tag).1.numbers == st.numbers,
{
    match tag {
        Tag::Header(_) => {},
        Tag::TableHead => {},
        Tag::TableCell => {},
        _ => {},
    }
}

/// One step only adds footnote names at the end of the table, never one twice.
pub proof fn lemma_event_grows_table(st: RenderState, evs: Seq<Event>)
    requires
        evs.len() > 0,
    ensures
        table_grows(st.numbers, event_html(st, evs).1.numbers),
{
    match evs[0] {
        Event::Start(Tag::Image(_, _, _)) => {
            let s1 = after_write(after_write(st, "<img src=\""@), "\" alt=\""@);
            lemma_raw_text_grows_table(s1, evs.drop_first(), 0);
        },
        Event::Start(Tag::FootnoteDefinition(name)) => {
            lemma_footnote_number_grows_table(st.numbers, name@);
        },
        Event::Start(tag) => {
            lemma_start_tag_keeps_table(st, tag);
            lemma_table_grows_refl(st.numbers);
        },
        Event::End(tag) => {
            lemma_end_tag_keeps_table(st, tag);
            lemma_table_grows_refl(st.numbers);
        },
        Event::FootnoteReference(name) => {
            lemma_footnote_number_grows_table(st.numbers, name@);
        },
        _ => {
            lemma_table_grows_refl(st.numbers);
        },
    }
}

/// Rendering only ever adds footnote names at the end of the table, and never
/// adds a name twice: a footnote keeps, to the end of the document, the number
/// it got where its name was first met.
pub proof fn law_footnote_table_only_grows(st: RenderState, evs: Seq<Event>)
    ensures
        table_grows(st.numbers, render(st, evs).1.numbers),
    decreases evs.len(),
{
    if evs.len() == 0 {
        lemma_table_grows_refl(st.numbers);
    } else {
        let (out, next, rest) = event_html(st, evs);
        lemma_event_grows_table(st, evs);
        lemma_event_html_consumes(st, evs);
        law_footnote_table_only_grows(next, rest);
        lemma_table_grows_trans(st.numbers, next.numbers, render(next, rest).1.numbers);
    }
}

/// The renderer's record of whether the output ends with a newline is exact
/// for `out`: it holds exactly when `out` is empty or ends with a newline.
pub open spec fn newline_flag_is_exact(st: RenderState, out: Seq<char>) -> bool {
    st.end_newline == (out.len() == 0 || out.last() == '\n')
}

/// Some event of `evs` is a text event with an empty text.
pub open spec fn has_empty_text(evs: Seq<Event>) -> bool {
    exists|i: int| 0 <= i < evs.len() && (#[trigger] evs[i] matches Event::Text(t) && t@.len() == 0)
}

proof fn lemma_tracked_write_keeps_exact(st: RenderState, prev: Seq<char>, s: Seq<char>)
    requires
        newline_flag_is_exact(st, prev),
    ensures
        newline_flag_is_exact(after_write(st, s), prev + s),
{
    if s.len() == 0 {
        assert(prev + s =~= prev);
    }
}

proof fn lemma_start_tag_keeps_exact(st: RenderState, tag: Tag, prev: Seq<char>)
    requires
        newline_flag_is_exact(st, prev),
    ensures
        newline_flag_is_exact(start_tag_html(st, tag).1, prev + start_tag_html(st, tag).0),
{
    let (out, next) = start_tag_html(st, tag);
    match tag {
        Tag::Header(_) => {
            reveal_strlit(">");
            assert(out.last() == '>');
        },
        Tag::TableCell => {
            reveal_strlit(" align=\"left\">");
            reveal_strlit(" align=\"center\">");
            reveal_strlit(" align=\"right\">");
            reveal_strlit(">");
            let open = if st.table_state is Head { "<th"@ } else { "<td"@ };
            let close = cell_alignment(st.alignments, st.cell_index);
            assert(close.len() > 0);
            assert(prev + out =~= prev + open + close);
        },
        Tag::CodeBlock(_) => {
            reveal_strlit("<pre><code>");
            reveal_strlit("\">");
        },
        Tag::List(Some(start)) => {
            if start == 1 {
                lemma_tracked_write_keeps_exact(st, prev, out);
            } else {
                reveal_strlit("\">\n");
                assert(out.last() == "\">\n"@.last());
            }
        },
        Tag::Link(_, _, _) => {
            reveal_strlit("\">");
        },
        Tag::FootnoteDefinition(_) => {
            reveal_strlit("</sup>");
        },
        Tag::Image(_, _, _) => {
            assert(prev + out =~= prev);
        },
        Tag::HtmlBlock => {
            assert(prev + out =~= prev);
        },
        _ => {
            lemma_tracked_write_keeps_exact(
                RenderState { end_newline: st.end_newline, ..next },
                prev,
                out,
            );
        },
    }
}

proof fn lemma_end_tag_keeps_exact(st: RenderState, tag: Tag, prev: Seq<char>)
    requires
        newline_flag_is_exact(st, prev),
    ensures
        newline_flag_is_exact(end_tag_html(st, tag).1, prev + end_tag_html(st, tag).0),
{
    let (out, next) = end_tag_html(st, tag);
    match tag {
        Tag::Rule => {
            assert(prev + out =~= prev);
        },
        Tag::Image(_, _, _) => {
            assert(prev + out =~= prev);
        },
        Tag::HtmlBlock => {
            assert(prev + out =~= prev);
        },
        Tag::Header(_) => {
            reveal_strlit(">\n");
            assert(out.last() == '\n');
        },
        _ => {
            lemma_tracked_write_keeps_exact(st, prev, out);
        },
    }
}

/// A non-empty text ends with a newline exactly when its escaped form does.
proof fn lemma_escape_keeps_last_char_newline(t: Seq<char>)
    requires
        t.len() > 0,
    ensures
        escape_html_text(t).len() > 0,
        (escape_html_text(t).last() == '\n') == (t.last() == '\n'),
{
    reveal_strlit("&quot;");
    reveal_strlit("&amp;");
    reveal_strlit("&lt;");
    reveal_strlit("&gt;");
    assert(html_escape_char(t.last()).len() > 0);
    assert(escape_html_text(t).last() == html_escape_char(t.last()).last());
}

proof fn lemma_event_keeps_exact(st: RenderState, evs: Seq<Event>, prev: Seq<char>)
    requires
        evs.len() > 0,
        newline_flag_is_exact(st, prev),
        !(evs[0] matches Event::Text(t) && t@.len() == 0),
    ensures
        newline_flag_is_exact(event_html(st, evs).1, prev + event_html(st, evs).0),
{
    let (out, next, rest) = event_html(st, evs);
    match evs[0] {
        Event::Start(tag) => {
            if let Tag::Image(_, _, _) = tag {
                reveal_strlit("\" />");
                assert(out.last() == '>');
            } else {
                lemma_start_tag_keeps_exact(st, tag, prev);
            }
        },
        Event::End(tag) => lemma_end_tag_keeps_exact(st, tag, prev),
        Event::Text(t) => {
            lemma_escape_keeps_last_char_newline(t@);
        },
        Event::Code(_) => {
            reveal_strlit("</code>");
        },
        Event::SoftBreak => {
            reveal_strlit("\n");
        },
        Event::FootnoteReference(_) => {
            reveal_strlit("</a></sup>");
        },
        _ => {
            lemma_tracked_write_keeps_exact(st, prev, out);
        },
    }
}

/// In a document without empty text events, the renderer knows exactly
/// whether the output ends with a newline: if its record is exact for what
/// the sink held before (`prev`), it stays exact for all that follows. So a
/// block element gets a leading newline exactly when the output before it is
/// not empty and does not end with one.
pub proof fn law_newline_flag_is_exact(st: RenderState, evs: Seq<Event>, prev: Seq<char>)
    requires
        newline_flag_is_exact(st, prev),
        !has_empty_text(evs),
    ensures
        newline_flag_is_exact(render(st, evs).1, prev + render(st, evs).0),
    decreases evs.len(),
{
    if evs.len() == 0 {
        assert(prev + render(st, evs).0 =~= prev);
    } else {
        let (out, next, rest) = event_html(st, evs);
        if evs[0] matches Event::Text(t) && t@.len() == 0 {
            assert(has_empty_text(evs));
        }
        lemma_event_keeps_exact(st, evs, prev);
        lemma_event_html_consumes(st, evs);
        lemma_event_html_suffix(st, evs);
        assert forall|i: int| 0 <= i < rest.len() implies !(#[trigger] rest[i] matches Event::Text(t) && t@.len() == 0) by {
            let j = evs.len() - rest.len() + i;
            assert(rest[i] == evs[j]);
            if rest[i] matches Event::Text(t) && t@.len() == 0 {
                assert(has_empty_text(evs));
            }
        }
        law_newline_flag_is_exact(next, rest, prev + out);
        assert(prev + out + render(next, rest).0 =~= prev + render(st, evs).0);
    }
}

/// The tags that open a block on a line of its own.
pub open spec fn is_block_tag(tag: Tag) -> bool {
    ||| tag is Paragraph
    ||| tag is Rule
    ||| tag is Header
    ||| tag is BlockQuote
    ||| tag is CodeBlock
    ||| tag is List
    ||| tag is Item
    ||| tag is FootnoteDefinition
}

/// The start of a block tag, written where the output does not end with a
/// newline, is a newline followed by what it is at the start of a line;
/// every other tag is written the same wherever it comes.
pub proof fn law_block_tags_start_on_a_new_line(st: RenderState, tag: Tag, rest: Seq<Event>)
    ensures
        ({
            let at_line_start = start_html(RenderState { end_newline: true, ..st }, tag, rest).0;
            let mid_line = start_html(RenderState { end_newline: false, ..st }, tag, rest).0;
            &&& is_block_tag(tag) ==> mid_line == "\n"@ + at_line_start
            &&& !is_block_tag(tag) ==> mid_line == at_line_start
        }),
{
    reveal_strlit("\n");
    let t = RenderState { end_newline: true, ..st };
    let f = RenderState { end_newline: false, ..st };
    let a = start_html(t, tag, rest).0;
    let b = start_html(f, tag, rest).0;
    match tag {
        Tag::Paragraph => {
            reveal_strlit("<p>");
            reveal_strlit("\n<p>");
            assert(b =~= "\n"@ + a);
        },
        Tag::Rule => {
            reveal_strlit("<hr />\n");
            reveal_strlit("\n<hr />\n");
            assert(b =~= "\n"@ + a);
        },
        Tag::Header(_) => {
            reveal_strlit("<h");
            reveal_strlit("\n<h");
            assert(b =~= "\n"@ + a);
        },
        Tag::BlockQuote => {
            reveal_strlit("<blockquote>\n");
            reveal_strlit("\n<blockquote>\n");
            assert(b =~= "\n"@ + a);
        },
        Tag::CodeBlock(_) => {
            assert(b =~= "\n"@ + a);
        },
        Tag::List(Some(start)) => {
            reveal_strlit("<ol>\n");
            reveal_strlit("\n<ol>\n");
            reveal_strlit("<ol start=\"");
            reveal_strlit("\n<ol start=\"");
            assert(b =~= "\n"@ + a);
        },
        Tag::List(None) => {
            reveal_strlit("<ul>\n");
            reveal_strlit("\n<ul>\n");
            assert(b =~= "\n"@ + a);
        },
        Tag::Item => {
            reveal_strlit("<li>");
            reveal_strlit("\n<li>");
            assert(b =~= "\n"@ + a);
        },
        Tag::FootnoteDefinition(_) => {
            reveal_strlit("<div class=\"footnote-definition\" id=\"");
            reveal_strlit("\n<div class=\"footnote-definition\" id=\"");
            assert(b =~= "\n"@ + a);
        },
        Tag::Image(_, _, _) => {
            assert(after_write(after_write(t, "<img src=\""@), "\" alt=\""@)
                == after_write(after_write(f, "<img src=\""@), "\" alt=\""@)) by {
                reveal_strlit("\" alt=\"");
            }
        },
        _ => {},
    }
}

/// Whether an image description that starts at `evs`, with `nest` tags
/// opened inside it, ends within `evs`.
pub open spec fn description_ends(evs: Seq<Event>, nest: nat) -> bool
    decreases evs.len(),
{
    if evs.len() == 0 {
        false
    } else {
        match evs[0] {
            Event::Start(_) => description_ends(evs.drop_first(), nest + 1),
            Event::End(_) => nest == 0 || description_ends(evs.drop_first(), (nest - 1) as nat),
            _ => description_ends(evs.drop_first(), nest),
        }
    }
}

/// The events that follow an image description that starts at `evs`.
pub open spec fn description_rest(evs: Seq<Event>, nest: nat) -> Seq<Event>
    decreases evs.len(),
{
    if evs.len() == 0 {
        evs
    } else {
        match evs[0] {
            Event::Start(_) => description_rest(evs.drop_first(), nest + 1),
            Event::End(_) => if nest == 0 {
                evs.drop_first()
            } else {
                description_rest(evs.drop_first(), (nest - 1) as nat)
            },
            _ => description_rest(evs.drop_first(), nest),
        }
    }
}

/// What follows an image description does not depend on the state it is
/// rendered from, and is no longer than where the description starts.
pub proof fn lemma_description_rest(st: RenderState, evs: Seq<Event>, nest: nat)
    ensures
        raw_text_html(st, evs, nest).2 == description_rest(evs, nest),
        description_rest(evs, nest).len() <= evs.len(),
    decreases evs.len(),
{
    if evs.len() > 0 {
        let rest = evs.drop_first();
        match evs[0] {
            Event::Start(_) => lemma_description_rest(st, rest, nest + 1),
            Event::End(_) => if nest != 0 {
                lemma_description_rest(st, rest, (nest - 1) as nat)
            },
            Event::Html(_) => lemma_description_rest(st, rest, nest),
            _ => lemma_description_rest(raw_event_html(st, evs[0]).1, rest, nest),
        }
    }
}

/// Every image of `evs` ends within `evs`.
pub open spec fn images_close(evs: Seq<Event>) -> bool
    decreases evs.len(),
{
    if evs.len() == 0 {
        true
    } else {
        match evs[0] {
            Event::Start(Tag::Image(_, _, _)) => {
                proof {
                    lemma_description_rest(initial_state(), evs.drop_first(), 0);
                }
                description_ends(evs.drop_first(), 0) && images_close(description_rest(evs.drop_first(), 0))
            },
            _ => images_close(evs.drop_first()),
        }
    }
}

proof fn lemma_raw_text_concat(st: RenderState, a: Seq<Event>, b: Seq<Event>, nest: nat)
    requires
        description_ends(a, nest),
    ensures
        raw_text_html(st, a + b, nest) == ({
            let r = raw_text_html(st, a, nest);
            (r.0, r.1, r.2 + b)
        }),
    decreases a.len(),
{
    let ab = a + b;
    assert(ab[0] == a[0]);
    assert(ab.drop_first() =~= a.drop_first() + b);
    let rest = a.drop_first();
    match a[0] {
        Event::Start(_) => lemma_raw_text_concat(st, rest, b, nest + 1),
        Event::End(_) => if nest != 0 {
            lemma_raw_text_concat(st, rest, b, (nest - 1) as nat)
        },
        Event::Html(_) => lemma_raw_text_concat(st, rest, b, nest),
        _ => lemma_raw_text_concat(raw_event_html(st, a[0]).1, rest, b, nest),
    }
}

proof fn lemma_event_concat(st: RenderState, a: Seq<Event>, b: Seq<Event>)
    requires
        a.len() > 0,
        a[0] matches Event::Start(Tag::Image(_, _, _)) ==> description_ends(a.drop_first(), 0),
    ensures
        event_html(st, a + b) == ({
            let r = event_html(st, a);
            (r.0, r.1, r.2 + b)
        }),
{
    let ab = a + b;
    assert(ab[0] == a[0]);
    assert(ab.drop_first() =~= a.drop_first() + b);
    if let Event::Start(Tag::Image(_, _, _)) = a[0] {
        let s1 = after_write(after_write(st, "<img src=\""@), "\" alt=\""@);
        lemma_raw_text_concat(s1, a.drop_first(), b, 0);
    }
}

/// Rendering `a` followed by `b`, where every image of `a` ends within `a`,
/// is rendering `a`, then rendering `b` from the state `a` left.
pub proof fn law_render_splits(st: RenderState, a: Seq<Event>, b: Seq<Event>)
    requires
        images_close(a),
    ensures
        render(st, a + b) == ({
            let (out_a, st_a) = render(st, a);
            let (out_b, st_b) = render(st_a, b);
            (out_a + out_b, st_b)
        }),
    decreases a.len(),
{
    if a.len() == 0 {
        assert(a + b =~= b);
        assert(Seq::<char>::empty() + render(st, b).0 =~= render(st, b).0);
    } else {
        let (out, next, rest) = event_html(st, a);
        lemma_event_concat(st, a, b);
        lemma_event_html_consumes(st, a);
        lemma_event_html_consumes(st, a + b);
        if let Event::Start(Tag::Image(_, _, _)) = a[0] {
            let s1 = after_write(after_write(st, "<img src=\""@), "\" alt=\""@);
            lemma_description_rest(s1, a.drop_first(), 0);
            lemma_description_rest(initial_state(), a.drop_first(), 0);
        }
        law_render_splits(next, rest, b);
        let (out_r, st_r) = render(next, rest);
        assert(out + (out_r + render(st_r, b).0) =~= out + out_r + render(st_r, b).0);
    }
}

/// Events that change the table or footnote parts of the renderer's state.
pub open spec fn touches_tables_or_footnotes(ev: Event) -> bool {
    match ev {
        Event::Start(tag) => tag is Table || tag is TableHead || tag is TableRow || tag is TableCell
            || tag is FootnoteDefinition,
        Event::End(tag) => tag is Table || tag is TableHead || tag is TableRow || tag is TableCell
            || tag is FootnoteDefinition,
        Event::FootnoteReference(_) => true,
        _ => false,
    }
}

/// `b` differs from `a` at most in whether the output ends with a newline.
pub open spec fn same_but_newline(a: RenderState, b: RenderState) -> bool {
    b == RenderState { end_newline: b.end_newline, ..a }
}

proof fn lemma_raw_text_keeps_fields(st: RenderState, evs: Seq<Event>, nest: nat)
    requires
        forall|i: int| 0 <= i < evs.len() ==> !(#[trigger] evs[i] is FootnoteReference),
    ensures
        same_but_newline(st, raw_text_html(st, evs, nest).1),
    decreases evs.len(),
{
    if evs.len() > 0 {
        let rest = evs.drop_first();
        assert forall|i: int| 0 <= i < rest.len() implies !(#[trigger] rest[i] is FootnoteReference) by {
            assert(rest[i] == evs[i + 1]);
        }
        assert(!(evs[0] is FootnoteReference));
        match evs[0] {
            Event::Start(_) => lemma_raw_text_keeps_fields(st, rest, nest + 1),
            Event::End(_) => if nest != 0 {
                lemma_raw_text_keeps_fields(st, rest, (nest - 1) as nat)
            },
            Event::Html(_) => lemma_raw_text_keeps_fields(st, rest, nest),
            _ => lemma_raw_text_keeps_fields(raw_event_html(st, evs[0]).1, rest, nest),
        }
    }
}

proof fn lemma_start_tag_keeps_fields(st: RenderState, tag: Tag)
    requires
        !touches_tables_or_footnotes(Event::Start(tag)),
    ensures
        same_but_newline(st, start_tag_html(st, tag).1),
{
    match tag {
        Tag::Header(_) => {},
        Tag::CodeBlock(_) => {},
        Tag::List(_) => {},
        Tag::Link(_, _, _) => {},
        _ => {},
    }
}

proof fn lemma_end_tag_keeps_fields(st: RenderState, tag: Tag)
    requires
        !touches_tables_or_footnotes(Event::End(tag)),
    ensures
        same_but_newline(st, end_tag_html(st, tag).1),
{
    match tag {
        Tag::Header(_) => {},
        _ => {},
    }
}

proof fn lemma_event_keeps_fields(st: RenderState, evs: Seq<Event>)
    requires
        evs.len() > 0,
        forall|i: int| 0 <= i < evs.len() ==> !touches_tables_or_footnotes(#[trigger] evs[i]),
    ensures
        same_but_newline(st, event_html(st, evs).1),
{
    assert(!touches_tables_or_footnotes(evs[0]));
    match evs[0] {
        Event::Start(tag) => {
            if let Tag::Image(_, _, title) = tag {
                let rest = evs.drop_first();
                assert forall|i: int| 0 <= i < rest.len() implies !(#[trigger] rest[i] is FootnoteReference) by {
                    assert(rest[i] == evs[i + 1]);
                    assert(!touches_tables_or_footnotes(evs[i + 1]));
                }
                let s1 = after_write(after_write(st, "<img src=\""@), "\" alt=\""@);
                lemma_raw_text_keeps_fields(s1, rest, 0);
            } else {
                lemma_start_tag_keeps_fields(st, tag);
            }
        },
        Event::End(tag) => lemma_end_tag_keeps_fields(st, tag),
        _ => {},
    }
}

proof fn lemma_render_keeps_fields(st: RenderState, evs: Seq<Event>)
    requires
        forall|i: int| 0 <= i < evs.len() ==> !touches_tables_or_footnotes(#[trigger] evs[i]),
    ensures
        same_but_newline(st, render(st, evs).1),
    decreases evs.len(),
{
    if evs.len() > 0 {
        let (out, next, rest) = event_html(st, evs);
        lemma_event_keeps_fields(st, evs);
        lemma_event_html_consumes(st, evs);
        lemma_event_html_suffix(st, evs);
        assert forall|i: int| 0 <= i < rest.len() implies !touches_tables_or_footnotes(#[trigger] rest[i]) by {
            assert(rest[i] == evs[evs.len() - rest.len() + i]);
        }
        lemma_render_keeps_fields(next, rest);
    }
}

/// The HTML of two documents in a row is the HTML of the first followed by
/// that of the second, when the first leaves the renderer as it found it:
/// it has no table and no footnote, no empty text, ends every image it
/// starts, and its HTML is empty or ends with a newline.
pub proof fn law_html_of_concatenation(a: Seq<Event>, b: Seq<Event>)
    requires
        images_close(a),
        forall|i: int| 0 <= i < a.len() ==> !touches_tables_or_footnotes(#[trigger] a[i]),
        !has_empty_text(a),
        html_of(a).len() == 0 || html_of(a).last() == '\n',
    ensures
        html_of(a + b) == html_of(a) + html_of(b),
{
    let st = initial_state();
    law_render_splits(st, a, b);
    lemma_render_keeps_fields(st, a);
    assert(newline_flag_is_exact(st, Seq::<char>::empty()));
    law_newline_flag_is_exact(st, a, Seq::<char>::empty());
    assert(Seq::<char>::empty() + render(st, a).0 =~= render(st, a).0);
    assert(render(st, a).1 == st);
}

/// The footnote names met in an image description that starts at `evs`, in order.
pub open spec fn description_names(evs: Seq<Event>, nest: nat) -> Seq<Seq<char>>
    decreases evs.len(),
{
    if evs.len() == 0 {
        Seq::empty()
    } else {
        let rest = evs.drop_first();
        match evs[0] {
            Event::Start(_) => description_names(rest, nest + 1),
            Event::End(_) => if nest == 0 {
                Seq::empty()
            } else {
                description_names(rest, (nest - 1) as nat)
            },
            Event::FootnoteReference(name) => seq![name@] + description_names(rest, nest),
            _ => description_names(rest, nest),
        }
    }
}

/// The footnote names that rendering `evs` looks up, in order: the names of
/// references, also inside image descriptions, and of definitions outside them.
pub open spec fn footnote_names(evs: Seq<Event>) -> Seq<Seq<char>>
    decreases evs.len(),
{
    if evs.len() == 0 {
        Seq::empty()
    } else {
        let rest = evs.drop_first();
        match evs[0] {
            Event::Start(Tag::Image(_, _, _)) => {
                proof {
                    lemma_description_rest(initial_state(), rest, 0);
                }
                description_names(rest, 0) + footnote_names(description_rest(rest, 0))
            },
            Event::Start(Tag::FootnoteDefinition(name)) => seq![name@] + footnote_names(rest),
            Event::FootnoteReference(name) => seq![name@] + footnote_names(rest),
            _ => footnote_names(rest),
        }
    }
}

/// The footnote table after looking up `names` in order, starting from `table`:
/// each name not yet in the table is added at its end the first time it is met.
pub open spec fn register_all(table: Seq<Seq<char>>, names: Seq<Seq<char>>) -> Seq<Seq<char>>
    decreases names.len(),
{
    if names.len() == 0 {
        table
    } else {
        register_all(footnote_number(table, names[0]).1, names.drop_first())
    }
}

proof fn lemma_register_all_concat(table: Seq<Seq<char>>, a: Seq<Seq<char>>, b: Seq<Seq<char>>)
    ensures
        register_all(table, a + b) == register_all(register_all(table, a), b),
    decreases a.len(),
{
    if a.len() == 0 {
        assert(a + b =~= b);
    } else {
        assert((a + b)[0] == a[0]);
        assert((a + b).drop_first() =~= a.drop_first() + b);
        lemma_register_all_concat(footnote_number(table, a[0]).1, a.drop_first(), b);
    }
}

proof fn lemma_register_one(table: Seq<Seq<char>>, name: Seq<char>)
    ensures
        register_all(table, seq![name]) == footnote_number(table, name).1,
{
    reveal_with_fuel(register_all, 2);
    assert(seq![name].drop_first() =~= Seq::<Seq<char>>::empty());
}

proof fn lemma_raw_text_registers(st: RenderState, evs: Seq<Event>, nest: nat)
    ensures
        raw_text_html(st, evs, nest).1.numbers == register_all(st.numbers, description_names(evs, nest)),
    decreases evs.len(),
{
    if evs.len() > 0 {
        let rest = evs.drop_first();
        match evs[0] {
            Event::Start(_) => lemma_raw_text_registers(st, rest, nest + 1),
            Event::End(_) => if nest != 0 {
                lemma_raw_text_registers(st, rest, (nest - 1) as nat)
            },
            Event::Html(_) => lemma_raw_text_registers(st, rest, nest),
            Event::FootnoteReference(name) => {
                let next = raw_event_html(st, evs[0]).1;
                lemma_raw_text_registers(next, rest, nest);
                lemma_register_one(st.numbers, name@);
                lemma_register_all_concat(st.numbers, seq![name@], description_names(rest, nest));
            },
            _ => lemma_raw_text_registers(raw_event_html(st, evs[0]).1, rest, nest),
        }
    }
}

/// Rendering a document registers exactly the footnote names it looks up,
/// in the order in which it meets them.
pub proof fn law_footnote_table_registers_names(st: RenderState, evs: Seq<Event>)
    ensures
        render(st, evs).1.numbers == register_all(st.numbers, footnote_names(evs)),
    decreases evs.len(),
{
    if evs.len() > 0 {
        let (out, next, rest) = event_html(st, evs);
        lemma_event_html_consumes(st, evs);
        law_footnote_table_registers_names(next, rest);
        let tail = footnote_names(rest);
        match evs[0] {
            Event::Start(Tag::Image(_, _, _)) => {
                let r = evs.drop_first();
                let s1 = after_write(after_write(st, "<img src=\""@), "\" alt=\""@);
                lemma_description_rest(s1, r, 0);
                lemma_raw_text_registers(s1, r, 0);
                lemma_register_all_concat(st.numbers, description_names(r, 0), tail);
            },
            Event::Start(Tag::FootnoteDefinition(name)) => {
                lemma_register_one(st.numbers, name@);
                lemma_register_all_concat(st.numbers, seq![name@], tail);
            },
            Event::FootnoteReference(name) => {
                lemma_register_one(st.numbers, name@);
                lemma_register_all_concat(st.numbers, seq![name@], tail);
            },
            Event::Start(tag) => {
                lemma_start_tag_keeps_table(st, tag);
            },
            Event::End(tag) => {
                lemma_end_tag_keeps_table(st, tag);
            },
            _ => {},
        }
    }
}

/// Looking up names in order registers each of them once: the names already
/// in the table stay in front, no name is held twice, and every name looked
/// up is in the table. With `law_footnote_numbers_are_stable`, a name's
/// number is its position in the table plus one, so names are numbered by
/// first appearance.
pub proof fn law_register_all_registers_each_name_once(table: Seq<Seq<char>>, names: Seq<Seq<char>>)
    requires
        table.no_duplicates(),
    ensures
        register_all(table, names).no_duplicates(),
        table_grows(table, register_all(table, names)),
        forall|k: int| 0 <= k < names.len() ==> register_all(table, names).contains(#[trigger] names[k]),
    decreases names.len(),
{
    if names.len() == 0 {
        lemma_table_grows_refl(table);
    } else {
        let t1 = footnote_number(table, names[0]).1;
        law_footnote_numbers_are_stable(table, names[0]);
        lemma_footnote_number_grows_table(table, names[0]);
        law_register_all_registers_each_name_once(t1, names.drop_first());
        lemma_table_grows_trans(table, t1, register_all(t1, names.drop_first()));
        let fin = register_all(table, names);
        assert forall|k: int| 0 <= k < names.len() implies fin.contains(#[trigger] names[k]) by {
            if k == 0 {
                let n = footnote_number(table, names[0]).0;
                assert(t1[n - 1] == names[0]);
                assert(fin.take(t1.len() as int) == t1);
                assert(fin[n - 1] == t1.take(t1.len() as int)[n - 1]);
            } else {
                assert(names[k] == names.drop_first()[k - 1]);
            }
        }
    }
}

/// The number of distinct names in `s`.
pub open spec fn count_distinct(s: Seq<Seq<char>>) -> nat
    decreases s.len(),
{
    if s.len() == 0 {
        0
    } else {
        count_distinct(s.drop_last()) + if s.drop_last().contains(s.last()) { 0nat } else { 1nat }
    }
}

/// The table after looking up the first `k` names, from an empty table: its
/// length is the number of distinct names among them, it holds no name
/// twice, it holds exactly those names, and the name first met at position
/// `f` sits at the position given by the distinct names before `f`.
proof fn lemma_register_prefix(names: Seq<Seq<char>>, k: int)
    requires
        0 <= k <= names.len(),
    ensures
        register_all(Seq::empty(), names.take(k)).len() == count_distinct(names.take(k)),
        register_all(Seq::empty(), names.take(k)).no_duplicates(),
        forall|x: Seq<char>| #[trigger] register_all(Seq::empty(), names.take(k)).contains(x)
            <==> names.take(k).contains(x),
        forall|f: int|
            0 <= f < k && (forall|i: int| 0 <= i < f ==> names[i] != names[f]) ==> {
                &&& count_distinct(#[trigger] names.take(f)) < register_all(Seq::empty(), names.take(k)).len()
                &&& register_all(Seq::empty(), names.take(k))[count_distinct(names.take(f)) as int] == names[f]
            },
    decreases k,
{
    let t = register_all(Seq::empty(), names.take(k));
    if k == 0 {
        assert(names.take(0) =~= Seq::<Seq<char>>::empty());
        assert forall|x: Seq<char>| #[trigger] t.contains(x) <==> names.take(k).contains(x) by {}
    } else {
        lemma_register_prefix(names, k - 1);
        let prev = names.take(k - 1);
        let tp = register_all(Seq::empty(), prev);
        let x = names[k - 1];
        assert(names.take(k) =~= prev + seq![x]);
        assert(names.take(k).drop_last() =~= prev);
        lemma_register_all_concat(Seq::empty(), prev, seq![x]);
        lemma_register_one(tp, x);
        assert(t == footnote_number(tp, x).1);
        tp.index_of_first_ensures(x);
        if prev.contains(x) {
            assert(tp.contains(x));
            assert(t == tp);
            assert forall|y: Seq<char>| #[trigger] t.contains(y) <==> names.take(k).contains(y) by {
                if names.take(k).contains(y) {
                    let i = choose|i: int| 0 <= i < names.take(k).len() && names.take(k)[i] == y;
                    if i < k - 1 {
                        assert(prev[i] == y);
                    }
                }
                if prev.contains(y) {
                    let i = choose|i: int| 0 <= i < prev.len() && prev[i] == y;
                    assert(names.take(k)[i] == y);
                }
            }
            assert forall|f: int|
                0 <= f < k && (forall|i: int| 0 <= i < f ==> names[i] != names[f]) implies {
                    &&& count_distinct(#[trigger] names.take(f)) < t.len()
                    &&& t[count_distinct(names.take(f)) as int] == names[f]
                } by {
                if f == k - 1 {
                    let i = choose|i: int| 0 <= i < prev.len() && prev[i] == x;
                    assert(names[i] == names[f]);
                }
            }
        } else {
            assert(!tp.contains(x));
            law_footnote_numbers_are_stable(tp, x);
            assert(t == tp.push(x));
            assert forall|y: Seq<char>| #[trigger] t.contains(y) <==> names.take(k).contains(y) by {
                if t.contains(y) {
                    let i = choose|i: int| 0 <= i < t.len() && t[i] == y;
                    if i < tp.len() {
                        assert(tp[i] == y);
                        assert(tp.contains(y));
                        let j = choose|j: int| 0 <= j < prev.len() && prev[j] == y;
                        assert(names.take(k)[j] == y);
                    } else {
                        assert(names.take(k)[k - 1] == y);
                    }
                }
                if names.take(k).contains(y) {
                    let i = choose|i: int| 0 <= i < names.take(k).len() && names.take(k)[i] == y;
                    if i < k - 1 {
                        assert(prev[i] == y);
                        assert(tp.contains(y));
                        let j = choose|j: int| 0 <= j < tp.len() && tp[j] == y;
                        assert(t[j] == y);
                    } else {
                        assert(t[tp.len() as int] == y);
                    }
                }
            }
            assert forall|f: int|
                0 <= f < k && (forall|i: int| 0 <= i < f ==> names[i] != names[f]) implies {
                    &&& count_distinct(#[trigger] names.take(f)) < t.len()
                    &&& t[count_distinct(names.take(f)) as int] == names[f]
                } by {
                if f == k - 1 {
                    assert(names.take(f) == prev);
                }
            }
        }
    }
}

/// A footnote lookup gives a name its number by first appearance: the `k`-th
/// name looked up in a document, first looked up at position `f`, gets one
/// more than the number of distinct names looked up before `f`. So equal
/// names get equal numbers, distinct names distinct ones, and the numbers
/// given are 1, 2, 3, ... in order.
pub proof fn law_footnote_number_counts_earlier_names(names: Seq<Seq<char>>, k: int, f: int)
    requires
        0 <= f <= k < names.len(),
        names[f] == names[k],
        forall|i: int| 0 <= i < f ==> names[i] != names[k],
    ensures
        footnote_number(register_all(Seq::empty(), names.take(k)), names[k]).0
            == 1 + count_distinct(names.take(f)),
{
    lemma_register_prefix(names, k);
    let t = register_all(Seq::empty(), names.take(k));
    let x = names[k];
    t.index_of_first_ensures(x);
    if f < k {
        assert(names.take(k)[f] == x);
        assert(names.take(k).contains(x));
        assert(t.contains(x));
        let p = count_distinct(names.take(f)) as int;
        assert(t[p] == names[f]);
    } else {
        assert(names.take(f) == names.take(k));
        if names.take(k).contains(x) {
            let i = choose|i: int| 0 <= i < names.take(k).len() && names.take(k)[i] == x;
            assert(names[i] == x);
        }
        assert(!t.contains(x));
    }
}

/// The ` title="..."` part of a link or an image: nothing for an empty
/// title, the escaped title otherwise.
pub open spec fn title_part(title: Seq<char>) -> Seq<char> {
    if title.len() == 0 {
        Seq::empty()
    } else {
        "\" title=\""@ + escape_html_text(title)
    }
}

/// A link starts with `<a href="mailto:` when it is an email link, and with
/// `<a href="` followed directly by its destination for every other kind of
/// link (autolinks included). The destination is written escaped, so that it
/// holds no space, no quote and no character outside ASCII, whatever the kind
/// of link; then come the title part and `">`.
pub proof fn law_link_start(st: RenderState, link_type: LinkType, dest: String, title: String)
    ensures
        ({
            let out = start_tag_html(st, Tag::Link(link_type, dest, title)).0;
            let href = escape_href_text(dest@);
            &&& is_href_text(href)
            &&& link_type is Email ==> out == "<a href=\"mailto:"@ + href + title_part(title@) + "\">"@
            &&& !(link_type is Email) ==> out == "<a href=\""@ + href + title_part(title@) + "\">"@
        }),
{
    law_escaped_href_is_safe(dest@);
}

/// An image starts with `<img src="`, its escaped source (safe in a URL),
/// and `" alt="`; then come the plain text of its description (no markup),
/// the title part and `" />`.
pub proof fn law_image_start(st: RenderState, link_type: LinkType, dest: String, title: String, rest: Seq<Event>)
    ensures
        ({
            let out = start_html(st, Tag::Image(link_type, dest, title), rest).0;
            let src = escape_href_text(dest@);
            let s1 = after_write(after_write(st, "<img src=\""@), "\" alt=\""@);
            let alt = raw_text_html(s1, rest, 0).0;
            &&& is_href_text(src)
            &&& has_no_markup(alt)
            &&& out == "<img src=\""@ + src + "\" alt=\""@ + alt + title_part(title@) + "\" />"@
        }),
{
    law_escaped_href_is_safe(dest@);
    let s1 = after_write(after_write(st, "<img src=\""@), "\" alt=\""@);
    law_image_description_has_no_markup(s1, rest, 0);
}

/// `word` is the first word of `info`: it holds no space, `info` starts with
/// it, and `info` ends right after it or goes on with a space.
pub open spec fn is_first_word(word: Seq<char>, info: Seq<char>) -> bool {
    &&& !word.contains(' ')
    &&& word.len() <= info.len()
    &&& info.take(word.len() as int) == word
    &&& (word.len() == info.len() || info[word.len() as int] == ' ')
}

/// The language of a code block is the first word of its info string.
pub proof fn law_code_language_is_first_word(info: Seq<char>)
    ensures
        is_first_word(code_language(info), info),
{
    info.index_of_first_ensures(' ');
    let lang = code_language(info);
    match info.index_of_first(' ') {
        Some(k) => {
            if lang.contains(' ') {
                let j = choose|j: int| 0 <= j < lang.len() && lang[j] == ' ';
                assert(info[j] == ' ');
            }
        },
        None => {
            assert(info.take(info.len() as int) =~= info);
            if lang.contains(' ') {
                let j = choose|j: int| 0 <= j < lang.len() && lang[j] == ' ';
                assert(info.contains(' '));
            }
        },
    }
}

/// A code block starts on a line of its own with `<pre><code>`, and when its
/// info string has a first word, with the class `language-` followed by that
/// word, escaped.
pub proof fn law_code_block_start(st: RenderState, info: String)
    ensures
        ({
            let out = start_tag_html(st, Tag::CodeBlock(info)).0;
            let pre = if st.end_newline { Seq::<char>::empty() } else { "\n"@ };
            let lang = code_language(info@);
            &&& is_first_word(lang, info@)
            &&& lang.len() == 0 ==> out == pre + "<pre><code>"@
            &&& lang.len() > 0 ==> out == pre + "<pre><code class=\"language-"@ + escape_html_text(lang) + "\">"@
        }),
{
    law_code_language_is_first_word(info@);
}

/// The text after `<th` or `<td` for a cell of a column with the given alignment.
pub open spec fn alignment_attribute(alignment: Alignment) -> Seq<char> {
    match alignment {
        Alignment::Left => " align=\"left\">"@,
        Alignment::Center => " align=\"center\">"@,
        Alignment::Right => " align=\"right\">"@,
        Alignment::Unspecified => ">"@,
    }
}

/// Tables: starting a table head puts the renderer in the head, whatever came
/// before (an earlier table's body included), and ending it puts it in the
/// body; starting a head or a row goes back to the first column, and ending a
/// cell moves to the next. A cell in the head is a `th` cell and one in the
/// body a `td` cell, with the alignment of its column (none past the last
/// column).
pub proof fn law_table_cells(st: RenderState)
    ensures
        ({
            let head = start_tag_html(st, Tag::TableHead);
            &&& head.0 == "<thead><tr>"@
            &&& head.1.table_state == TableState::Head
            &&& head.1.cell_index == 0
        }),
        end_tag_html(st, Tag::TableHead).1.table_state == TableState::Body,
        start_tag_html(st, Tag::TableRow).1.cell_index == 0,
        start_tag_html(st, Tag::TableRow).1.table_state == st.table_state,
        end_tag_html(st, Tag::TableCell).1.cell_index == st.cell_index + 1,
        ({
            let cell = start_tag_html(st, Tag::TableCell).0;
            let open = if st.table_state is Head { "<th"@ } else { "<td"@ };
            let close = if st.table_state is Head { "</th>"@ } else { "</td>"@ };
            &&& 0 <= st.cell_index < st.alignments.len() ==> cell == open + alignment_attribute(st.alignments[st.cell_index])
            &&& !(0 <= st.cell_index < st.alignments.len()) ==> cell == open + ">"@
            &&& end_tag_html(st, Tag::TableCell).0 == close
        }),
{
}

/// `n` is the number of footnote `name` given the table `numbers`: one more
/// than the position where the name first stands, or, for a name not in the
/// table, one more than the table's length.
pub open spec fn is_footnote_number(numbers: Seq<Seq<char>>, name: Seq<char>, n: int) -> bool {
    ||| exists|i: int| 0 <= i < numbers.len() && #[trigger] numbers[i] == name
            && (forall|j: int| 0 <= j < i ==> numbers[j] != name) && n == i + 1
    ||| !numbers.contains(name) && n == numbers.len() + 1
}

proof fn lemma_footnote_number_is(numbers: Seq<Seq<char>>, name: Seq<char>, n: int)
    requires
        is_footnote_number(numbers, name, n),
    ensures
        footnote_number(numbers, name).0 == n,
        numbers.contains(name) ==> footnote_number(numbers, name).1 == numbers,
        !numbers.contains(name) ==> footnote_number(numbers, name).1 == numbers.push(name),
{
    numbers.index_of_first_ensures(name);
    if numbers.contains(name) {
        let i = choose|i: int| 0 <= i < numbers.len() && #[trigger] numbers[i] == name
            && (forall|j: int| 0 <= j < i ==> numbers[j] != name) && n == i + 1;
        let k = numbers.index_of_first(name).unwrap();
        if k < i {
            assert(numbers[k] == name);
        } else if k > i {
            assert(numbers[i] != name);
        }
    }
}

/// A footnote's number, wherever it is written (a reference, a definition's
/// label, or a reference inside an image description, written `[n]`), is the
/// number the name already has in the table, or the next number for a new
/// name, which is then added to the table.
pub proof fn law_footnote_numbers_written(st: RenderState, name: String, n: int, rest: Seq<Event>)
    requires
        is_footnote_number(st.numbers, name@, n),
    ensures
        raw_event_html(st, Event::FootnoteReference(name)).0 == "["@ + decimal(n as nat) + "]"@,
        event_html(st, seq![Event::FootnoteReference(name)] + rest).0
            == "<sup class=\"footnote-reference\"><a href=\"#"@ + escape_html_text(name@) + "\">"@
                + decimal(n as nat) + "</a></sup>"@,
        ({
            let open = if st.end_newline {
                "<div class=\"footnote-definition\" id=\""@
            } else {
                "\n<div class=\"footnote-definition\" id=\""@
            };
            start_tag_html(st, Tag::FootnoteDefinition(name)).0 == open + escape_html_text(name@)
                + "\"><sup class=\"footnote-definition-label\">"@ + decimal(n as nat) + "</sup>"@
        }),
        st.numbers.contains(name@) ==> raw_event_html(st, Event::FootnoteReference(name)).1.numbers == st.numbers,
        !st.numbers.contains(name@) ==> raw_event_html(st, Event::FootnoteReference(name)).1.numbers
            == st.numbers.push(name@),
{
    lemma_footnote_number_is(st.numbers, name@, n);
    assert((seq![Event::FootnoteReference(name)] + rest)[0] == Event::FootnoteReference(name));
}

/// Escaping text replaces `"` by `&quot;`, `&` by `&amp;`, `<` by `&lt;` and
/// `>` by `&gt;`, and keeps every other character; with
/// `law_escaping_is_compositional` this fixes the escaped form of every text.
pub proof fn law_escape_html_characters(c: char)
    ensures
        c == '"' ==> escape_html_text(seq![c]) == "&quot;"@,
        c == '&' ==> escape_html_text(seq![c]) == "&amp;"@,
        c == '<' ==> escape_html_text(seq![c]) == "&lt;"@,
        c == '>' ==> escape_html_text(seq![c]) == "&gt;"@,
        c != '"' && c != '&' && c != '<' && c != '>' ==> escape_html_text(seq![c]) == seq![c],
{
    assert(seq![c].drop_last() =~= Seq::<char>::empty());
    assert(seq![c].last() == c);
    assert(flat_map_chars(Seq::<char>::empty(), html_escaper()) == Seq::<char>::empty());
    assert(Seq::<char>::empty() + html_escape_char(c) =~= html_escape_char(c));
    assert(escape_html_text(seq![c]) =~= html_escape_char(c));
}

/// Escaping a link destination keeps ASCII letters and digits, writes `&` and
/// `'` as entities, and writes every character outside ASCII as the
/// percent-encoding of its UTF-8 bytes.
pub proof fn law_escape_href_characters(c: char)
    ensures
        (('a' <= c <= 'z') || ('A' <= c <= 'Z') || ('0' <= c <= '9')) ==> escape_href_text(seq![c]) == seq![c],
        c == '&' ==> escape_href_text(seq![c]) == "&amp;"@,
        c == '\'' ==> escape_href_text(seq![c]) == "&#x27;"@,
        c as u32 >= 0x80 ==> escape_href_text(seq![c]) == percent_encode(vstd::utf8::encode_scalar(c as u32)),
{
    assert(seq![c].drop_last() =~= Seq::<char>::empty());
    assert(seq![c].last() == c);
    assert(flat_map_chars(Seq::<char>::empty(), href_escaper()) == Seq::<char>::empty());
    assert(Seq::<char>::empty() + href_escape_char(c) =~= href_escape_char(c));
    assert(escape_href_text(seq![c]) =~= href_escape_char(c));
}

/// Text is written escaped, inline code escaped between `<code>` and
/// `</code>`, HTML as it is, a soft break as a newline and a hard break as
/// `<br />` and a newline.
pub proof fn law_plain_events(st: RenderState, ev: Event, rest: Seq<Event>)
    ensures
        ({
            let out = event_html(st, seq![ev] + rest).0;
            &&& ev matches Event::Text(t) ==> out == escape_html_text(t@)
            &&& ev matches Event::Code(t) ==> out == "<code>"@ + escape_html_text(t@) + "</code>"@
            &&& ev matches Event::Html(h) ==> out == h@
            &&& ev matches Event::InlineHtml(h) ==> out == h@
            &&& ev is SoftBreak ==> out == "\n"@
            &&& ev is HardBreak ==> out == "<br />\n"@
            &&& ev matches Event::TaskListMarker(checked) ==> out == if checked {
                "<input disabled=\"\" type=\"checkbox\" checked=\"\"/>\n"@
            } else {
                "<input disabled=\"\" type=\"checkbox\"/>\n"@
            }
            &&& event_html(st, seq![ev] + rest).2 == rest || ev matches Event::Start(Tag::Image(_, _, _))
        }),
{
    assert((seq![ev] + rest)[0] == ev);
    assert((seq![ev] + rest).drop_first() =~= rest);
}

} // verus!
