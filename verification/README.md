# md-to-html

Converts Markdown to HTML: headings, bold, italic, strikethrough, inline code,
links, images, unordered and ordered lists, blockquotes, fenced code blocks
(escaped, with a language class) and horizontal rules. An optional YAML front
matter block (`title`, `description`, `author`, `date`) sets the title,
`<meta>` elements and an author/date line of the full HTML page.

Layout:

- `src/text.rs`: whitespace, trimming, prefixes and `str::lines` splitting.
- `src/pattern.rs`: regular-expression matching through the `regex` crate.
- `src/marker.rs`: holding code spans out of the other inline rules with numbered markers.
- `src/convert.rs`: HTML escaping, inline formatting and the block structure.
- `src/frontmatter.rs`: the front matter block.
- `src/template.rs`: the HTML page.
- `app/main.rs`: reads `input.md` and writes `dist/index.html`.
