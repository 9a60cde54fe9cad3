//! An HTML renderer for a stream of markdown events.
//!
//! The renderer consumes a sequence of [`Event`]s, as a markdown parser
//! produces them, and writes the corresponding HTML to a [`StrWrite`] sink.
//! What it writes is specified by [`render::html_of`].

mod writer;
mod event;
mod escape;
pub mod render;
mod html;
pub mod laws;

pub use writer::{StrWrite, StringWrap};
pub use event::{Alignment, Event, LinkType, Tag};
pub use escape::{escape_href, escape_html};
pub use html::{push_html, write_html, HtmlWriter};
pub use render::TableState;

