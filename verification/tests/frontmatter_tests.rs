use md_to_html::frontmatter::parse_front_matter;

#[test]
fn test_front_matter_all_fields() {
    let input = "---\ntitle: My Title\ndescription: A description\nauthor: Alice\ndate: 2026-01-01\n---\n# Hello";
    let (fm, rest) = parse_front_matter(input);
    assert_eq!(fm.title.as_deref(), Some("My Title"));
    assert_eq!(fm.description.as_deref(), Some("A description"));
    assert_eq!(fm.author.as_deref(), Some("Alice"));
    assert_eq!(fm.date.as_deref(), Some("2026-01-01"));
    assert_eq!(rest, "# Hello");
}

#[test]
fn test_front_matter_strips_from_markdown() {
    let input = "---\ntitle: Test\n---\n# Heading";
    let (_, rest) = parse_front_matter(input);
    assert_eq!(rest, "# Heading");
    assert!(!rest.contains("---"));
    assert!(!rest.contains("title"));
}

#[test]
fn test_front_matter_no_block_returns_input_unchanged() {
    let input = "# Just a heading\nNo front matter here.";
    let (fm, rest) = parse_front_matter(input);
    assert!(fm.title.is_none());
    assert!(fm.description.is_none());
    assert!(fm.author.is_none());
    assert!(fm.date.is_none());
    assert_eq!(rest, input);
}

#[test]
fn test_front_matter_unclosed_returns_input_unchanged() {
    let input = "---\ntitle: Oops\n# No closing fence";
    let (fm, rest) = parse_front_matter(input);
    assert!(fm.title.is_none());
    assert_eq!(rest, input);
}

#[test]
fn test_front_matter_quoted_values() {
    let input = "---\ntitle: \"Quoted Title\"\nauthor: 'Single Quoted'\n---\n";
    let (fm, _) = parse_front_matter(input);
    assert_eq!(fm.title.as_deref(), Some("Quoted Title"));
    assert_eq!(fm.author.as_deref(), Some("Single Quoted"));
}

#[test]
fn test_front_matter_unknown_keys_ignored() {
    let input = "---\ntitle: Known\nunknown_key: ignored\n---\n";
    let (fm, _) = parse_front_matter(input);
    assert_eq!(fm.title.as_deref(), Some("Known"));
}

#[test]
fn test_front_matter_partial_fields() {
    let input = "---\ntitle: Only Title\n---\n";
    let (fm, _) = parse_front_matter(input);
    assert_eq!(fm.title.as_deref(), Some("Only Title"));
    assert!(fm.description.is_none());
    assert!(fm.author.is_none());
    assert!(fm.date.is_none());
}

#[test]
fn test_front_matter_empty_block() {
    let input = "---\n---\n# Content";
    let (fm, rest) = parse_front_matter(input);
    assert!(fm.title.is_none());
    assert_eq!(rest, "# Content");
}
