# pulldown_cmark (HTML renderer)

A verified HTML renderer for markdown event streams.

- `src/event.rs`: the events and tags a markdown parser produces.
- `src/writer.rs`: `StrWrite`, the sink the renderer writes to, and `StringWrap`, a `String` as a sink.
- `src/escape.rs`: escaping of text and of link destinations, decimal numbers.
- `src/render.rs`: the specification: what HTML a sequence of events renders to.
- `src/html.rs`: the renderer (`HtmlWriter`, `write_html`, `push_html`), proved
  to write exactly that HTML.
- `src/laws.rs`: properties of the renderer that hold of every input.
- `app/`: an adapter that lets the renderer write to any `std::io::Write`.
