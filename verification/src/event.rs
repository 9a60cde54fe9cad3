use vstd::prelude::*;

verus! {

/// How the cells of a table column are aligned.
#[derive(Clone, Copy, Debug, PartialEq, Eq)]
pub enum Alignment {
    /// No alignment was given for the column.
    Unspecified,
    Left,
    Center,
    Right,
}

/// How a link was written in the markdown source.
#[derive(Clone, Copy, Debug, PartialEq, Eq)]
pub enum LinkType {
    /// Inline link like `[foo](bar)`
    Inline,
    /// Reference link like `[foo][bar]`
    Reference,
    /// Reference without destination in the document, but resolved by a callback
    ReferenceUnknown,
    /// Collapsed link like `[foo][]`
    Collapsed,
    /// Collapsed link without destination in the document, but resolved by a callback
    CollapsedUnknown,
    /// Shortcut link like `[foo]`
    Shortcut,
    /// Shortcut without destination in the document, but resolved by a callback
    ShortcutUnknown,
    /// Autolink like `<http://foo.bar/baz>`
    Autolink,
    /// Email address in autolink like `<john@example.org>`
    Email,
}

/// A block or inline element, opened by `Event::Start` and closed by `Event::End`.
#[derive(Clone, Debug, PartialEq, Eq)]
pub enum Tag {
    Paragraph,
    Rule,
    /// A heading, with its level.
    Header(i32),
    BlockQuote,
    /// A fenced code block, with its info string.
    CodeBlock(String),
    /// A list; `Some(n)` for an ordered list starting at `n`.
    List(Option<usize>),
    Item,
    /// A footnote definition, with the footnote's name.
    FootnoteDefinition(String),
    HtmlBlock,
    /// A table, with the alignment of each column.
    Table(Vec<Alignment>),
    TableHead,
    TableRow,
    TableCell,
    Emphasis,
    Strong,
    Strikethrough,
    /// A link: its kind, destination and title.
    Link(LinkType, String, String),
    /// An image: its kind, source and title.
    Image(LinkType, String, String),
}

/// An event of a markdown document.
#[derive(Clone, Debug, PartialEq, Eq)]
pub enum Event {
    Start(Tag),
    End(Tag),
    Text(String),
    Code(String),
    Html(String),
    InlineHtml(String),
    FootnoteReference(String),
    SoftBreak,
    HardBreak,
    /// A task list marker; `true` when the task is checked.
    TaskListMarker(bool),
}

} // verus!
