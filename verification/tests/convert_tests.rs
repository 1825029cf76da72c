use md_to_html::convert::convert;

// --- Headings ---
#[test]
fn test_h1() {
    assert_eq!(convert("# Hello"), "<h1>Hello</h1>\n");
}

#[test]
fn test_h2() {
    assert_eq!(convert("## Hello"), "<h2>Hello</h2>\n");
}

#[test]
fn test_h3() {
    assert_eq!(convert("### Hello"), "<h3>Hello</h3>\n");
}

#[test]
fn test_h4() {
    assert_eq!(convert("#### Hello"), "<h4>Hello</h4>\n");
}

#[test]
fn test_h5() {
    assert_eq!(convert("##### Hello"), "<h5>Hello</h5>\n");
}

#[test]
fn test_h6() {
    assert_eq!(convert("###### Hello"), "<h6>Hello</h6>\n");
}

// --- Inline formatting ---
#[test]
fn test_bold_asterisk() {
    assert_eq!(convert("**bold**"), "<p><strong>bold</strong></p>\n");
}

#[test]
fn test_bold_underscore() {
    assert_eq!(convert("__bold__"), "<p><strong>bold</strong></p>\n");
}

#[test]
fn test_italic_asterisk() {
    assert_eq!(convert("*italic*"), "<p><em>italic</em></p>\n");
}

#[test]
fn test_italic_underscore() {
    assert_eq!(convert("_italic_"), "<p><em>italic</em></p>\n");
}

#[test]
fn test_strikethrough() {
    assert_eq!(convert("~~text~~"), "<p><del>text</del></p>\n");
}

#[test]
fn test_inline_code() {
    assert_eq!(convert("`code`"), "<p><code>code</code></p>\n");
}

// --- Links & images ---
#[test]
fn test_link() {
    assert_eq!(
        convert("[Rust](https://rust-lang.org)"),
        "<p><a href=\"https://rust-lang.org\">Rust</a></p>\n"
    );
}

#[test]
fn test_image() {
    assert_eq!(
        convert("![alt](img.png)"),
        "<p><img src=\"img.png\" alt=\"alt\"></p>\n"
    );
}

// --- Block elements ---
#[test]
fn test_paragraph() {
    assert_eq!(convert("hello world"), "<p>hello world</p>\n");
}

#[test]
fn test_horizontal_rule_dashes() {
    assert_eq!(convert("---"), "<hr>\n");
}

#[test]
fn test_horizontal_rule_asterisks() {
    assert_eq!(convert("***"), "<hr>\n");
}

#[test]
fn test_horizontal_rule_underscores() {
    assert_eq!(convert("___"), "<hr>\n");
}

#[test]
fn test_unordered_list_dash() {
    let input = "- one\n- two";
    let expected = "<ul>\n  <li>one</li>\n  <li>two</li>\n</ul>\n";
    assert_eq!(convert(input), expected);
}

#[test]
fn test_unordered_list_asterisk() {
    let input = "* one\n* two";
    let expected = "<ul>\n  <li>one</li>\n  <li>two</li>\n</ul>\n";
    assert_eq!(convert(input), expected);
}

#[test]
fn test_ordered_list() {
    let input = "1. first\n2. second";
    let expected = "<ol>\n  <li>first</li>\n  <li>second</li>\n</ol>\n";
    assert_eq!(convert(input), expected);
}

#[test]
fn test_blockquote() {
    let input = "> hello";
    let expected = "<blockquote>\n  <p>hello</p>\n</blockquote>\n";
    assert_eq!(convert(input), expected);
}

#[test]
fn test_code_block_no_lang() {
    let input = "```\nfn main() {}\n```";
    let expected = "<pre><code>fn main() {}\n</code></pre>\n";
    assert_eq!(convert(input), expected);
}

#[test]
fn test_code_block_with_lang() {
    let input = "```rust\nlet x = 1;\n```";
    assert!(convert(input).contains("class=\"language-rust\""));
}

// --- Security (HTML escaping) ---
#[test]
fn test_code_block_escapes_html() {
    let input = "```\n<script>alert(1)</script>\n```";
    let output = convert(input);
    assert!(!output.contains("<script>"));
    assert!(output.contains("&lt;script&gt;"));
}

#[test]
fn test_inline_code_escapes_html() {
    assert_eq!(convert("`<b>`"), "<p><code>&lt;b&gt;</code></p>\n");
}

// --- State / edge cases ---
#[test]
fn test_empty_input() {
    assert_eq!(convert(""), "");
}

#[test]
fn test_blank_line_closes_list() {
    let input = "- item\n\n# After";
    let output = convert(input);
    assert!(output.contains("</ul>"));
    assert!(output.contains("<h1>After</h1>"));
}

#[test]
fn test_blank_line_closes_blockquote() {
    let input = "> quote\n\n# After";
    let output = convert(input);
    assert!(output.contains("</blockquote>"));
    assert!(output.contains("<h1>After</h1>"));
}

#[test]
fn test_inline_formatting_in_list_item() {
    let input = "- **bold** item";
    assert!(convert(input).contains("<strong>bold</strong>"));
}

#[test]
fn test_inline_formatting_in_heading() {
    let input = "# Hello `world`";
    assert!(convert(input).contains("<code>world</code>"));
}

#[test]
fn test_image_before_link_match() {
    let input = "![alt](img.png)";
    let output = convert(input);
    assert!(output.contains("<img"));
    assert!(!output.contains("<a href"));
}
