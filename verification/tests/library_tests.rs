use md_to_html::convert::{
    convert, escape_html, ordered_item_text, process_inline, protect_code_spans, replace_matches, InlineRule,
};
use md_to_html::frontmatter::{parse_front_matter, FrontMatter};
use md_to_html::template::{wrap_html, PAGE_CSS, PAGE_DOCTYPE, PAGE_META};

// --- HTML escaping ---

#[test]
fn escape_replaces_all_four_characters() {
    assert_eq!(escape_html("<a href=\"x\">&</a>"), "&lt;a href=&quot;x&quot;&gt;&amp;&lt;/a&gt;");
}

#[test]
fn escape_leaves_plain_text_alone() {
    assert_eq!(escape_html("plain text, ünïcode 'quotes'"), "plain text, ünïcode 'quotes'");
}

#[test]
fn escape_has_no_markup_left() {
    let out = escape_html("<<>>\"\"&&");
    assert!(!out.contains('<') && !out.contains('>') && !out.contains('"'));
    assert_eq!(out, "&lt;&lt;&gt;&gt;&quot;&quot;&amp;&amp;");
}

#[test]
fn escape_of_concatenation_is_concatenation_of_escapes() {
    let a = "x<y";
    let b = "&z\"";
    assert_eq!(escape_html(&format!("{}{}", a, b)), format!("{}{}", escape_html(a), escape_html(b)));
}

#[test]
fn escape_does_not_escape_twice() {
    assert_eq!(escape_html("&lt;"), "&amp;lt;");
}

// --- Inline formatting ---

#[test]
fn inline_code_protects_and_escapes() {
    assert_eq!(process_inline("`a & b`"), "<code>a &amp; b</code>");
}

#[test]
fn inline_link_and_image_together() {
    assert_eq!(
        process_inline("![i](p.png) and [t](u)"),
        "<img src=\"p.png\" alt=\"i\"> and <a href=\"u\">t</a>"
    );
}

#[test]
fn inline_image_with_empty_alt() {
    assert_eq!(process_inline("![](p.png)"), "<img src=\"p.png\" alt=\"\">");
}

#[test]
fn inline_several_matches_in_one_text() {
    assert_eq!(process_inline("**a** and **b**"), "<strong>a</strong> and <strong>b</strong>");
}

#[test]
fn inline_without_markers_is_unchanged() {
    assert_eq!(process_inline("nothing to see"), "nothing to see");
}

#[test]
fn inline_mixed_emphasis() {
    assert_eq!(process_inline("~~s~~ _i_ __b__"), "<del>s</del> <em>i</em> <strong>b</strong>");
}

#[test]
fn replace_matches_interleaves_pieces_and_replacements() {
    let pieces = vec!["a".to_string(), "c".to_string(), "e".to_string()];
    let groups = vec![
        vec![Some("**b**".to_string()), Some("b".to_string()), None],
        vec![Some("__d__".to_string()), None, Some("d".to_string())],
    ];
    assert_eq!(
        replace_matches(InlineRule::Bold, &pieces, &groups),
        "a<strong>b</strong>c<strong>d</strong>e"
    );
}

#[test]
fn replace_matches_escapes_code() {
    let pieces = vec!["".to_string(), "!".to_string()];
    let groups = vec![vec![Some("`<>`".to_string()), Some("<>".to_string())]];
    assert_eq!(replace_matches(InlineRule::Code, &pieces, &groups), "<code>&lt;&gt;</code>!");
}

#[test]
fn replace_matches_missing_group_is_empty() {
    let pieces = vec!["x".to_string(), "y".to_string()];
    let groups = vec![vec![Some("[t]()".to_string()), Some("t".to_string()), None]];
    assert_eq!(replace_matches(InlineRule::Link, &pieces, &groups), "x<a href=\"\">t</a>y");
}

#[test]
fn ordered_item_text_takes_group_one_of_first_match() {
    let matches = vec![vec![Some("3. go".to_string()), Some("go".to_string())]];
    assert_eq!(ordered_item_text(&matches), Some("go".to_string()));
    assert_eq!(ordered_item_text(&vec![]), None);
}

// --- Block structure ---

#[test]
fn blocks_never_nest() {
    assert_eq!(
        convert("- a\n> b\n1. c\n* d"),
        "<ul>\n  <li>a</li>\n</ul>\n<blockquote>\n  <p>b</p>\n</blockquote>\n<ol>\n  <li>c</li>\n</ol>\n<ul>\n  <li>d</li>\n</ul>\n"
    );
}

#[test]
fn blank_line_closes_blocks_and_gives_nothing_else() {
    assert_eq!(convert("> q\n   \n- x"), "<blockquote>\n  <p>q</p>\n</blockquote>\n<ul>\n  <li>x</li>\n</ul>\n");
}

#[test]
fn code_block_lines_are_not_markdown() {
    assert_eq!(
        convert("```\n# not a heading\n- not a list\n<b>\n```"),
        "<pre><code># not a heading\n- not a list\n&lt;b&gt;\n</code></pre>\n"
    );
}

#[test]
fn unclosed_code_block_is_closed_at_end() {
    assert_eq!(convert("- item\n```\nx"), "<ul>\n  <li>item</li>\n</ul>\n<pre><code>x\n</code></pre>\n");
}

#[test]
fn code_block_language_is_escaped_and_trimmed() {
    assert_eq!(convert("```  a<b  \n```"), "<pre><code class=\"language-a&lt;b\"></code></pre>\n");
}

#[test]
fn whitespace_only_document_converts_to_nothing() {
    assert_eq!(convert("  \n\t\n\n \u{3000} \n"), "");
}

#[test]
fn crlf_line_endings() {
    assert_eq!(convert("# A\r\n# B\r\n"), "<h1>A</h1>\n<h1>B</h1>\n");
}

#[test]
fn seven_hashes_are_a_paragraph() {
    assert_eq!(convert("####### x"), "<p>####### x</p>\n");
}

#[test]
fn hash_without_space_is_a_paragraph() {
    assert_eq!(convert("#tag"), "<p>#tag</p>\n");
}

#[test]
fn rule_closes_list() {
    assert_eq!(convert("- a\n  ---  "), "<ul>\n  <li>a</li>\n</ul>\n<hr>\n");
}

#[test]
fn paragraph_keeps_leading_whitespace() {
    assert_eq!(convert("  text"), "<p>  text</p>\n");
}

#[test]
fn ordered_list_needs_space_after_dot() {
    assert_eq!(convert("1.x"), "<p>1.x</p>\n");
    assert_eq!(convert("12. twelve"), "<ol>\n  <li>twelve</li>\n</ol>\n");
}

// --- Front matter ---

#[test]
fn front_matter_rest_is_suffix_of_input() {
    for input in ["---\ntitle: a\n---\nbody", "no block", "---\nunclosed", "---\n---\n"] {
        let (_, rest) = parse_front_matter(input);
        assert!(input.ends_with(rest));
    }
}

#[test]
fn front_matter_block_then_markdown() {
    let (fm, rest) = parse_front_matter("---\nauthor:  \"'Bob'\"  \nnote\n---\n---\nx");
    assert_eq!(fm.author.as_deref(), Some("Bob"));
    assert!(fm.title.is_none());
    assert_eq!(rest, "---\nx");
}

#[test]
fn front_matter_later_line_wins() {
    let (fm, _) = parse_front_matter("---\ndate: 1\ndate: 2\n---\n");
    assert_eq!(fm.date.as_deref(), Some("2"));
}

#[test]
fn front_matter_key_is_trimmed_and_value_keeps_colons() {
    let (fm, _) = parse_front_matter("---\n  title : a: b\n---\n");
    assert_eq!(fm.title.as_deref(), Some("a: b"));
}

#[test]
fn front_matter_needs_line_ending_after_opening_fence() {
    let input = "---title: x\n---\n";
    let (fm, rest) = parse_front_matter(input);
    assert!(fm.title.is_none());
    assert_eq!(rest, input);
}

#[test]
fn front_matter_line_without_colon_sets_nothing() {
    let (fm, rest) = parse_front_matter("---\ntitle x\n---\nend");
    assert!(fm.title.is_none());
    assert_eq!(rest, "end");
}

// --- Page ---

fn no_fields() -> FrontMatter {
    FrontMatter { title: None, description: None, author: None, date: None }
}

#[test]
fn page_without_fields() {
    let page = wrap_html("<p>x</p>\n", &no_fields());
    let expected = r####"<!DOCTYPE html>
<html lang="en">
<head>
  <meta charset="UTF-8">
  <meta name="viewport" content="width=device-width, initial-scale=1.0">
  <title>Untitled</title>
  <style>
    *, *::before, *::after { box-sizing: border-box; }

    body {
      font-family: -apple-system, BlinkMacSystemFont, "Segoe UI", Roboto, sans-serif;
      font-size: 1rem;
      line-height: 1.7;
      color: #1a1a1a;
      background: #f9f9f9;
      margin: 0;
      padding: 2rem 1rem;
    }

    main {
      max-width: 740px;
      margin: 0 auto;
      background: #fff;
      padding: 2.5rem 3rem;
      border-radius: 8px;
      box-shadow: 0 2px 12px rgba(0,0,0,0.07);
    }

    h1, h2, h3, h4, h5, h6 {
      line-height: 1.3;
      margin-top: 2rem;
      margin-bottom: 0.5rem;
      font-weight: 600;
    }
    h1 { font-size: 2rem; border-bottom: 2px solid #e0e0e0; padding-bottom: 0.3rem; }
    h2 { font-size: 1.5rem; border-bottom: 1px solid #e0e0e0; padding-bottom: 0.2rem; }
    h3 { font-size: 1.25rem; }

    p { margin: 0.75rem 0; }

    .meta {
      color: #666;
      font-size: 0.9rem;
      margin-top: -0.5rem;
      margin-bottom: 1.5rem;
    }

    a { color: #0070f3; text-decoration: none; }
    a:hover { text-decoration: underline; }

    img { max-width: 100%; height: auto; border-radius: 4px; }

    strong { font-weight: 600; }
    em { font-style: italic; }
    del { opacity: 0.6; }

    code {
      font-family: "SFMono-Regular", Consolas, "Liberation Mono", Menlo, monospace;
      font-size: 0.875em;
      background: #f0f0f0;
      padding: 0.15em 0.4em;
      border-radius: 4px;
    }

    pre {
      background: #1e1e1e;
      color: #d4d4d4;
      padding: 1.25rem 1.5rem;
      border-radius: 6px;
      overflow-x: auto;
      margin: 1.25rem 0;
    }
    pre code {
      background: none;
      padding: 0;
      font-size: 0.9rem;
      color: inherit;
    }

    blockquote {
      border-left: 4px solid #0070f3;
      margin: 1.25rem 0;
      padding: 0.5rem 1.25rem;
      background: #f0f7ff;
      border-radius: 0 4px 4px 0;
      color: #444;
    }
    blockquote p { margin: 0.3rem 0; }

    ul, ol {
      padding-left: 1.75rem;
      margin: 0.75rem 0;
    }
    li { margin: 0.3rem 0; }

    hr {
      border: none;
      border-top: 1px solid #e0e0e0;
      margin: 2rem 0;
    }
  </style>
</head>
<body>
  <main>
<p>x</p>
  </main>
</body>
</html>
"####;
    assert_eq!(page, expected);
}

#[test]
fn page_with_all_fields_escapes_them() {
    let fm = FrontMatter {
        title: Some("A & B".to_string()),
        description: Some("<d>".to_string()),
        author: Some("\"Al\"".to_string()),
        date: Some("2026".to_string()),
    };
    let page = wrap_html("BODY", &fm);
    let expected = format!(
        "{}{}<title>A &amp; B</title>\n  <meta name=\"description\" content=\"&lt;d&gt;\">\n  <meta name=\"author\" content=\"&quot;Al&quot;\">\n  <style>\n{}  <p class=\"meta\">By &quot;Al&quot; &mdash; 2026</p>\nBODY  </main>\n</body>\n</html>\n",
        PAGE_DOCTYPE, PAGE_META, PAGE_CSS
    );
    assert_eq!(page, expected);
}

#[test]
fn page_banner_with_author_only_or_date_only() {
    let mut fm = no_fields();
    fm.author = Some("Ann".to_string());
    assert!(wrap_html("", &fm).contains("  <p class=\"meta\">By Ann</p>\n"));
    let mut fm = no_fields();
    fm.date = Some("today".to_string());
    let page = wrap_html("", &fm);
    assert!(page.contains("  <p class=\"meta\">today</p>\n"));
    assert!(!page.contains("name=\"author\""));
}

#[test]
fn page_starts_and_ends_as_html_document() {
    let page = wrap_html("", &no_fields());
    assert!(page.starts_with("<!DOCTYPE html>\n<html lang=\"en\">\n<head>\n"));
    assert!(page.ends_with("  </main>\n</body>\n</html>\n"));
    assert!(page.contains("    body {\n      font-family:"));
}

#[test]
fn inline_code_content_is_protected() {
    assert_eq!(process_inline("`*a*`"), "<code>*a*</code>");
    assert_eq!(process_inline("`**x**`"), "<code>**x**</code>");
    assert_eq!(process_inline("*a* `~~b~~` _c_"), "<em>a</em> <code>~~b~~</code> <em>c</em>");
}

#[test]
fn triple_markers_nest_well() {
    assert_eq!(process_inline("***x***"), "<strong><em>x</em></strong>");
    assert_eq!(process_inline("___x___"), "<strong><em>x</em></strong>");
    assert_eq!(convert("***x*** y"), "<p><strong><em>x</em></strong> y</p>\n");
}

#[test]
fn bold_keeps_its_usual_matches() {
    assert_eq!(process_inline("**a*b**"), "<strong>a*b</strong>");
    assert_eq!(process_inline("**a** and __b__"), "<strong>a</strong> and <strong>b</strong>");
    assert_eq!(process_inline("**a***"), "<strong>a</strong>*");
    assert_eq!(process_inline("__a___"), "<strong>a</strong>_");
}

#[test]
fn formatting_goes_around_code_spans() {
    assert_eq!(process_inline("**a `b` c**"), "<strong>a <code>b</code> c</strong>");
    assert_eq!(process_inline("[a `b`](u)"), "<a href=\"u\">a <code>b</code></a>");
    assert_eq!(process_inline("`*x*` and `_y_`"), "<code>*x*</code> and <code>_y_</code>");
}

#[test]
fn marker_character_in_text_is_kept() {
    assert_eq!(process_inline("x \u{e000}0\u{e000} `c`"), "x \u{e000}0\u{e000} <code>c</code>");
    assert_eq!(process_inline("\u{e000}\u{e000} `c` \u{e000}"), "\u{e000}\u{e000} <code>c</code> \u{e000}");
}

#[test]
fn protect_code_spans_formats_around_spans() {
    let pieces = vec!["*a* ".to_string(), " b".to_string()];
    let groups = vec![vec![Some("`*x*`".to_string()), Some("*x*".to_string())]];
    assert_eq!(protect_code_spans(&pieces, &groups), "<em>a</em> <code>*x*</code> b");
    let pieces = vec!["**a ".to_string(), " c**".to_string()];
    let groups = vec![vec![Some("`<b>`".to_string()), Some("<b>".to_string())]];
    assert_eq!(protect_code_spans(&pieces, &groups), "<strong>a <code>&lt;b&gt;</code> c</strong>");
}

#[test]
fn front_matter_empty_block_then_markdown() {
    let (fm, rest) = parse_front_matter("---\n---\n");
    assert!(fm.title.is_none() && fm.description.is_none() && fm.author.is_none() && fm.date.is_none());
    assert_eq!(rest, "");
}

#[test]
fn escape_reads_back() {
    for t in ["a<b>&\"c\"", "&amp;", "plain", "&lt;&gt;", ""] {
        let e = escape_html(t);
        let back = e.replace("&quot;", "\"").replace("&gt;", ">").replace("&lt;", "<").replace("&amp;", "&");
        assert_eq!(back, t);
    }
}

#[test]
fn blank_line_splits_document() {
    let pairs = [
        ("- a\n> b", "1. c\n# d"),
        ("```\ncode\n```", "text"),
        ("para\n", "- x"),
        ("", "> q"),
    ];
    for (a, b) in pairs {
        assert_eq!(convert(&format!("{}\n\n{}", a, b)), convert(a) + &convert(b));
    }
}

#[test]
fn front_matter_field_from_last_line_naming_it() {
    let (fm, _) = parse_front_matter("---\ntitle: one\nnote: x\ntitle two\n title : 'three'\nauthor: a\n---\n");
    assert_eq!(fm.title.as_deref(), Some("three"));
    assert_eq!(fm.author.as_deref(), Some("a"));
    assert!(fm.date.is_none());
}
