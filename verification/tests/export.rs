use cliboard::document::{Block, Document, Theme};
use cliboard::export::{export_page, html_escape, rewrite_font_urls};

#[test]
fn export_test_html_escape() {
    assert_eq!(html_escape("<b>\"a&b\"</b>"), "&lt;b&gt;&quot;a&amp;b&quot;&lt;/b&gt;");
}

#[test]
fn export_keeps_single_quotes() {
    assert_eq!(html_escape("it's"), "it's");
}

#[test]
fn export_page_two_steps() {
    let doc = Document {
        title: "Test Export".to_string(),
        theme: Theme::Dark,
        blocks: vec![
            Block::Step {
                id: 1,
                title: "First Step".to_string(),
                equations: vec!["E = mc^2".to_string()],
                notes: vec!["Famous equation".to_string()],
                is_result: false,
            },
            Block::Divider,
            Block::Step {
                id: 2,
                title: "Result".to_string(),
                equations: vec!["F = ma".to_string()],
                notes: vec![],
                is_result: true,
            },
        ],
    };
    let content = export_page(&doc, "@font-face{src:url(fonts/a.woff2)}", "");
    assert!(content.contains("<!DOCTYPE html>"));
    assert!(content.contains("Test Export"));
    assert!(content.contains("2 steps"));
    assert!(content.contains("katex"));
    assert!(content.contains("equation-card"));
    assert!(!content.contains("<script"));
    assert!(content.contains("cdn.jsdelivr.net/npm/katex"));
}

#[test]
fn export_page_empty_document() {
    let doc = Document::new("Empty");
    let content = export_page(&doc, "", "");
    assert!(content.contains("Empty"));
    assert!(content.contains("0 steps"));
}

#[test]
fn export_page_escapes_title() {
    let doc = Document::new("<script>alert('xss')</script>");
    let content = export_page(&doc, "", "");
    assert!(!content.contains("<script>alert"));
    assert!(content.contains("&lt;script&gt;"));
}

#[test]
fn font_urls_point_to_cdn() {
    assert_eq!(
        rewrite_font_urls("a{src:url(fonts/x.woff2)} b{src:url(fonts/y.woff2)}"),
        "a{src:url(https://cdn.jsdelivr.net/npm/katex@0.16.22/dist/fonts/x.woff2)} b{src:url(https://cdn.jsdelivr.net/npm/katex@0.16.22/dist/fonts/y.woff2)}"
    );
    assert_eq!(rewrite_font_urls("no fonts here"), "no fonts here");
}

#[test]
fn exported_page_holds_its_parts() {
    let doc = cliboard::document::Document::new("<script>x</script>");
    let page = cliboard::export::export_page(&doc, "a{b:url(fonts/k.woff2)}", ".v{}");
    assert!(page.starts_with("<!DOCTYPE html>"));
    assert!(page.contains("<h1 id=\"board-title\">&lt;script&gt;x&lt;/script&gt;</h1>"));
    assert!(page.contains("0 steps"));
    assert!(page.contains("url(https://cdn.jsdelivr.net/npm/katex@0.16.22/dist/fonts/k.woff2)"));
    assert!(page.contains(".v{}"));
    assert!(!page.contains("<script"));
}

#[test]
fn exported_page_adds_no_script() {
    let doc = cliboard::document::Document::new("script <script>");
    let page = cliboard::export::export_page(&doc, "", "");
    assert!(!page.contains("<script"));
}
