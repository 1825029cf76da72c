//! The HTML page around the converted document.
use vstd::prelude::*;
use vstd::string::*;
use crate::convert::{escape, escape_html, is_special, lemma_escape_plain};
use crate::frontmatter::{FrontMatter, FrontMatterView};

verus! {

/// The start of the page.
pub const PAGE_DOCTYPE: &'static str = "<!DOCTYPE html>\n<html lang=\"en\">\n<head>\n";

/// The character set and viewport of the page, up to the title element.
pub const PAGE_META: &'static str = r#"  <meta charset="UTF-8">
  <meta name="viewport" content="width=device-width, initial-scale=1.0">
  "#;

/// The stylesheet (after its opening tag) and the start of the page's body.
pub const PAGE_CSS: &'static str = r#"    *, *::before, *::after { box-sizing: border-box; }

    body {
      font-family: -apple-system, BlinkMacSystemFont, "Segoe UI", Roboto, sans-serif;
      font-size: 1rem;
      line-height: 1.7;
      color: #1a1a1a;
      background: #f9f9f9;
      margin: 0;
      padding: 2rem 1rem;
    }

    main {
      max-width: 740px;
      margin: 0 auto;
      background: #fff;
      padding: 2.5rem 3rem;
      border-radius: 8px;
      box-shadow: 0 2px 12px rgba(0,0,0,0.07);
    }

    h1, h2, h3, h4, h5, h6 {
      line-height: 1.3;
      margin-top: 2rem;
      margin-bottom: 0.5rem;
      font-weight: 600;
    }
    h1 { font-size: 2rem; border-bottom: 2px solid #e0e0e0; padding-bottom: 0.3rem; }
    h2 { font-size: 1.5rem; border-bottom: 1px solid #e0e0e0; padding-bottom: 0.2rem; }
    h3 { font-size: 1.25rem; }

    p { margin: 0.75rem 0; }

    .meta {
      color: #666;
      font-size: 0.9rem;
      margin-top: -0.5rem;
      margin-bottom: 1.5rem;
    }

    a { color: #0070f3; text-decoration: none; }
    a:hover { text-decoration: underline; }

    img { max-width: 100%; height: auto; border-radius: 4px; }

    strong { font-weight: 600; }
    em { font-style: italic; }
    del { opacity: 0.6; }

    code {
      font-family: "SFMono-Regular", Consolas, "Liberation Mono", Menlo, monospace;
      font-size: 0.875em;
      background: #f0f0f0;
      padding: 0.15em 0.4em;
      border-radius: 4px;
    }

    pre {
      background: #1e1e1e;
      color: #d4d4d4;
      padding: 1.25rem 1.5rem;
      border-radius: 6px;
      overflow-x: auto;
      margin: 1.25rem 0;
    }
    pre code {
      background: none;
      padding: 0;
      font-size: 0.9rem;
      color: inherit;
    }

    blockquote {
      border-left: 4px solid #0070f3;
      margin: 1.25rem 0;
      padding: 0.5rem 1.25rem;
      background: #f0f7ff;
      border-radius: 0 4px 4px 0;
      color: #444;
    }
    blockquote p { margin: 0.3rem 0; }

    ul, ol {
      padding-left: 1.75rem;
      margin: 0.75rem 0;
    }
    li { margin: 0.3rem 0; }

    hr {
      border: none;
      border-top: 1px solid #e0e0e0;
      margin: 2rem 0;
    }
  </style>
</head>
<body>
  <main>
"#;

/// The title of the page: the front matter's title, or `Untitled`.
pub open spec fn page_title(fm: FrontMatterView) -> Seq<char> {
    match fm.title {
        Some(t) => t,
        None => "Untitled"@,
    }
}

/// A `<meta>` element named `name` whose content is `value`, escaped; nothing
/// if there is no value.
pub open spec fn meta_element(name: Seq<char>, value: Option<Seq<char>>) -> Seq<char> {
    match value {
        Some(v) => "  <meta name=\""@ + name + "\" content=\""@ + escape(v) + "\">\n"@,
        None => seq![],
    }
}

/// The line under the page's top that names the author and the date, each
/// escaped; nothing if there is neither.
pub open spec fn date_banner(author: Option<Seq<char>>, date: Option<Seq<char>>) -> Seq<char> {
    match (author, date) {
        (Some(a), Some(d)) => "  <p class=\"meta\">By "@ + escape(a) + " &mdash; "@ + escape(d)
            + "</p>\n"@,
        (Some(a), None) => "  <p class=\"meta\">By "@ + escape(a) + "</p>\n"@,
        (None, Some(d)) => "  <p class=\"meta\">"@ + escape(d) + "</p>\n"@,
        (None, None) => seq![],
    }
}

/// The complete page around an HTML body.
pub open spec fn page_html(body: Seq<char>, fm: FrontMatterView) -> Seq<char> {
    PAGE_DOCTYPE@ + PAGE_META@ + "<title>"@ + escape(page_title(fm)) + "</title>\n"@ + meta_element(
        "description"@,
        fm.description,
    ) + meta_element("author"@, fm.author) + "  <style>\n"@ + PAGE_CSS@ + date_banner(
        fm.author,
        fm.date,
    ) + body + "  </main>\n</body>\n</html>\n"@
}

/// Appends a `<meta>` element for an optional value.
fn push_meta(out: &mut String, name: &str, value: &Option<String>)
    ensures
        final(out)@ == old(out)@ + meta_element(name@, match value {
            Some(v) => Some(v@),
            None => None,
        }),
{
    match value {
        Some(v) => {
            out.append("  <meta name=\"");
            out.append(name);
            out.append("\" content=\"");
            let e = escape_html(v.as_str());
            out.append(e.as_str());
            out.append("\">\n");
        },
        None => {
            assert(old(out)@ + seq![] =~= old(out)@);
        },
    }
}

/// Appends the author and date line.
fn push_date_banner(out: &mut String, author: &Option<String>, date: &Option<String>)
    ensures
        final(out)@ == old(out)@ + date_banner(
            match author {
                Some(v) => Some(v@),
                None => None,
            },
            match date {
                Some(v) => Some(v@),
                None => None,
            },
        ),
{
    match (author, date) {
        (Some(a), Some(d)) => {
            out.append("  <p class=\"meta\">By ");
            let ea = escape_html(a.as_str());
            out.append(ea.as_str());
            out.append(" &mdash; ");
            let ed = escape_html(d.as_str());
            out.append(ed.as_str());
            out.append("</p>\n");
        },
        (Some(a), None) => {
            out.append("  <p class=\"meta\">By ");
            let ea = escape_html(a.as_str());
            out.append(ea.as_str());
            out.append("</p>\n");
        },
        (None, Some(d)) => {
            out.append("  <p class=\"meta\">");
            let ed = escape_html(d.as_str());
            out.append(ed.as_str());
            out.append("</p>\n");
        },
        (None, None) => {
            assert(old(out)@ + seq![] =~= old(out)@);
        },
    }
}

/// Wraps an HTML body in a complete page: the escaped title (`Untitled`
/// without one), description and author `<meta>` elements, the stylesheet,
/// and an author and date line above the body.
pub fn wrap_html(body: &str, fm: &FrontMatter) -> (r: String)
    ensures
        r@ == page_html(body@, fm@),
{
    let mut out = String::new();
    out.append(PAGE_DOCTYPE);
    out.append(PAGE_META);
    out.append("<title>");
    let title = match &fm.title {
        Some(t) => escape_html(t.as_str()),
        None => escape_html("Untitled"),
    };
    out.append(title.as_str());
    out.append("</title>\n");
    push_meta(&mut out, "description", &fm.description);
    push_meta(&mut out, "author", &fm.author);
    out.append("  <style>\n");
    out.append(PAGE_CSS);
    push_date_banner(&mut out, &fm.author, &fm.date);
    out.append(body);
    out.append("  </main>\n</body>\n</html>\n");
    assert(out@ =~= page_html(body@, fm@));
    out
}

// ===========================================================================
// Laws
// ===========================================================================

/// `t` occurs in `s` at index `i`.
pub open spec fn occurs_at(s: Seq<char>, t: Seq<char>, i: int) -> bool {
    0 <= i && i + t.len() <= s.len() && s.subrange(i, i + t.len()) == t
}

/// The page starts as an HTML document: the doctype, `<html lang="en">` and
/// `<head>`.
pub proof fn lemma_page_starts_with_doctype(body: Seq<char>, fm: FrontMatterView)
    ensures
        PAGE_DOCTYPE@ == "<!DOCTYPE html>\n<html lang=\"en\">\n<head>\n"@,
        page_html(body, fm).take(PAGE_DOCTYPE@.len() as int) == PAGE_DOCTYPE@,
{
    let page = page_html(body, fm);
    assert(page.take(PAGE_DOCTYPE@.len() as int) =~= PAGE_DOCTYPE@);
}

/// The page's head holds the title element, with the escaped title
/// (`Untitled` without one), then the description and author `<meta>`
/// elements, then the style element.
pub proof fn lemma_page_title_and_meta(body: Seq<char>, fm: FrontMatterView)
    ensures
        occurs_at(
            page_html(body, fm),
            "<title>"@ + escape(page_title(fm)) + "</title>\n"@ + meta_element(
                "description"@,
                fm.description,
            ) + meta_element("author"@, fm.author) + "  <style>\n"@,
            (PAGE_DOCTYPE@ + PAGE_META@).len() as int,
        ),
{
    let page = page_html(body, fm);
    let pre = PAGE_DOCTYPE@ + PAGE_META@;
    let mid = "<title>"@ + escape(page_title(fm)) + "</title>\n"@ + meta_element(
        "description"@,
        fm.description,
    ) + meta_element("author"@, fm.author) + "  <style>\n"@;
    let post = PAGE_CSS@ + date_banner(fm.author, fm.date) + body + "  </main>\n</body>\n</html>\n"@;
    assert(page =~= pre + mid + post);
    assert(page.subrange(pre.len() as int, (pre.len() + mid.len()) as int) =~= mid);
}

/// The page ends with the body, as it is (not escaped), and the tags that
/// close the page.
pub proof fn lemma_page_ends_with_body(body: Seq<char>, fm: FrontMatterView)
    ensures
        ({
            let tail = body + "  </main>\n</body>\n</html>\n"@;
            let page = page_html(body, fm);
            tail.len() <= page.len() && page.skip(page.len() - tail.len()) == tail
        }),
{
    let tail = body + "  </main>\n</body>\n</html>\n"@;
    let page = page_html(body, fm);
    let head = PAGE_DOCTYPE@ + PAGE_META@ + "<title>"@ + escape(page_title(fm)) + "</title>\n"@
        + meta_element("description"@, fm.description) + meta_element("author"@, fm.author)
        + "  <style>\n"@ + PAGE_CSS@ + date_banner(fm.author, fm.date);
    assert(page =~= head + tail);
    assert(page.skip(head.len() as int) =~= tail);
}

/// The page's title comes from the title field alone: with a title `t` the
/// title element holds `t`, escaped, whatever the other fields are; without
/// one it holds `Untitled`.
pub proof fn lemma_title_from_title_field(body: Seq<char>, fm: FrontMatterView)
    ensures
        fm.title matches Some(t) ==> occurs_at(
            page_html(body, fm),
            "<title>"@ + escape(t) + "</title>\n"@,
            (PAGE_DOCTYPE@ + PAGE_META@).len() as int,
        ),
        fm.title is None ==> occurs_at(
            page_html(body, fm),
            "<title>Untitled</title>\n"@,
            (PAGE_DOCTYPE@ + PAGE_META@).len() as int,
        ),
{
    reveal_strlit("<title>");
    reveal_strlit("</title>\n");
    reveal_strlit("Untitled");
    reveal_strlit("<title>Untitled</title>\n");
    let page = page_html(body, fm);
    let pre = PAGE_DOCTYPE@ + PAGE_META@;
    let title = "<title>"@ + escape(page_title(fm)) + "</title>\n"@;
    let post = meta_element("description"@, fm.description) + meta_element("author"@, fm.author)
        + "  <style>\n"@ + PAGE_CSS@ + date_banner(fm.author, fm.date) + body
        + "  </main>\n</body>\n</html>\n"@;
    assert(page =~= pre + title + post);
    assert(page.subrange(pre.len() as int, (pre.len() + title.len()) as int) =~= title);
    if fm.title is None {
        assert forall|i: int| 0 <= i < "Untitled"@.len() implies !is_special(
            #[trigger] "Untitled"@[i],
        ) by {}
        lemma_escape_plain("Untitled"@);
        assert(title =~= "<title>Untitled</title>\n"@);
    }
}

/// The `<meta>` element for an optional value, written out.
pub open spec fn expected_meta(name: Seq<char>, value: Option<Seq<char>>) -> Seq<char> {
    if value is Some {
        "  <meta name=\""@ + name + "\" content=\""@ + escape(value->0) + "\">\n"@
    } else {
        Seq::<char>::empty()
    }
}

/// The author and date line, written out: `By` the author, `&mdash;` and
/// the date when there are both, each escaped.
pub open spec fn expected_banner(author: Option<Seq<char>>, date: Option<Seq<char>>) -> Seq<
    char,
> {
    if author is Some && date is Some {
        "  <p class=\"meta\">By "@ + escape(author->0) + " &mdash; "@ + escape(date->0) + "</p>\n"@
    } else if author is Some {
        "  <p class=\"meta\">By "@ + escape(author->0) + "</p>\n"@
    } else if date is Some {
        "  <p class=\"meta\">"@ + escape(date->0) + "</p>\n"@
    } else {
        Seq::<char>::empty()
    }
}

/// Between the title element and the style element the page holds the
/// description `<meta>` element, then the author one, each only when its
/// field is set and with the value escaped; and the body comes right after
/// the author and date line, which names each of them that is set.
pub proof fn lemma_page_meta_and_banner(body: Seq<char>, fm: FrontMatterView)
    ensures
        ({
            let page = page_html(body, fm);
            let head = PAGE_DOCTYPE@ + PAGE_META@ + "<title>"@ + escape(page_title(fm));
            occurs_at(
                page,
                "</title>\n"@ + expected_meta("description"@, fm.description) + expected_meta(
                    "author"@,
                    fm.author,
                ) + "  <style>\n"@,
                head.len() as int,
            )
        }),
        ({
            let page = page_html(body, fm);
            let tail = expected_banner(fm.author, fm.date) + body + "  </main>\n</body>\n</html>\n"@;
            tail.len() <= page.len() && page.skip(page.len() - tail.len()) == tail
        }),
{
    let page = page_html(body, fm);
    let head = PAGE_DOCTYPE@ + PAGE_META@ + "<title>"@ + escape(page_title(fm));
    let mid = "</title>\n"@ + expected_meta("description"@, fm.description) + expected_meta(
        "author"@,
        fm.author,
    ) + "  <style>\n"@;
    let css = PAGE_CSS@;
    let tail = expected_banner(fm.author, fm.date) + body + "  </main>\n</body>\n</html>\n"@;
    assert(meta_element("description"@, fm.description) == expected_meta("description"@, fm.description));
    assert(meta_element("author"@, fm.author) == expected_meta("author"@, fm.author));
    assert(date_banner(fm.author, fm.date) == expected_banner(fm.author, fm.date));
    assert(page =~= head + mid + css + tail);
    assert(page.subrange(head.len() as int, (head.len() + mid.len()) as int) =~= mid);
    assert(page.skip(page.len() - tail.len()) =~= tail);
}

} // verus!
