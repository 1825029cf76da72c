//! Converts Markdown to HTML: headings, emphasis, links and images, lists,
//! blockquotes, fenced code blocks and horizontal rules, with an optional YAML
//! front matter block and a complete HTML page around the result.
pub mod text;
pub mod pattern;
pub mod marker;
pub mod convert;
pub mod frontmatter;
pub mod template;
