use resonant_search::page::extract_page;

const PAGE: &str = r#"<html><head><title>Hello Page</title>
<meta name="robots" content="noindex, follow"><meta name="description" content="x">
</head><body><p>Visible words</p><script>var hidden = 1;</script><style>p {}</style>
<a href="/one">one</a><a href="two.html" rel="nofollow">two</a><a>none</a></body></html>"#;

#[test]
fn page_title_and_directives() {
    let p = extract_page(200, "text/html".into(), PAGE);
    assert_eq!(p.status, 200);
    assert_eq!(p.content_type, "text/html");
    assert_eq!(p.title.as_deref(), Some("Hello Page"));
    assert_eq!(p.robots_meta, vec!["noindex, follow".to_string()]);
}

#[test]
fn page_text_leaves_out_scripts_and_styles() {
    let p = extract_page(200, "text/html".into(), PAGE);
    assert!(p.text.contains("Visible words"));
    assert!(!p.text.contains("hidden"));
    assert!(!p.text.contains("p {}"));
}

#[test]
fn page_links_keep_their_rel() {
    let p = extract_page(200, "text/html".into(), PAGE);
    assert_eq!(p.links.len(), 2);
    assert_eq!(p.links[0].href, "/one");
    assert_eq!(p.links[0].rel, None);
    assert_eq!(p.links[1].href, "two.html");
    assert_eq!(p.links[1].rel.as_deref(), Some("nofollow"));
}

#[test]
fn page_without_title_or_body() {
    let p = extract_page(200, "text/html".into(), "");
    assert_eq!(p.title, None);
    assert!(p.links.is_empty());
    assert!(p.robots_meta.is_empty());
}

#[test]
fn text_nodes_are_joined_with_spaces() {
    let p = extract_page(200, "text/html".into(), "<html><body><p>one</p><p>two</p></body></html>");
    assert_eq!(p.text, "one two");
}
