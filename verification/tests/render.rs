use cliboard::document::{Block, Document, Theme};
use cliboard::render::{
    html_escape, process_inline_math, render_block, render_blocks_html, render_equation,
    render_full_page, render_inline_math, render_reply_content,
};

#[test]
fn test_render_equation_success() {
    let result = render_equation("E = mc^2");
    assert!(result.is_ok());
    let html = result.unwrap();
    assert!(html.contains("katex"));
}

#[test]
fn test_render_equation_error() {
    let result = render_equation(r"\");
    assert!(result.is_err());
}

#[test]
fn test_render_inline_math() {
    let result = render_inline_math("x^2");
    assert!(result.is_ok());
    let html = result.unwrap();
    assert!(html.contains("katex"));
    // Inline mode should NOT contain katex-display
    assert!(!html.contains("katex-display"));
}

#[test]
fn render_test_html_escape() {
    assert_eq!(html_escape("<div>"), "&lt;div&gt;");
    assert_eq!(html_escape("a&b"), "a&amp;b");
    assert_eq!(html_escape("x=\"y\""), "x=&quot;y&quot;");
}

#[test]
fn test_process_inline_math() {
    let result = process_inline_math("The value $x^2$ is positive");
    assert!(result.contains("katex"));
    assert!(result.contains("The value "));
    assert!(result.contains(" is positive"));
}

#[test]
fn test_process_inline_math_no_math() {
    let result = process_inline_math("No math here");
    assert_eq!(result, "No math here");
}

#[test]
fn test_process_inline_math_error() {
    let result = process_inline_math("Bad: $\\$ end");
    assert!(result.contains("error-inline"));
}

#[test]
fn test_render_blocks_html_step() {
    let doc = Document {
        title: "Test".to_string(),
        theme: Theme::Dark,
        blocks: vec![Block::Step {
            id: 1,
            title: "First Step".to_string(),
            equations: vec!["E = mc^2".to_string()],
            notes: vec!["Energy equation".to_string()],
            is_result: false,
        }],
    };
    let html = render_blocks_html(&doc);
    assert!(html.contains("data-step-id=\"1\""));
    assert!(html.contains("First Step"));
    assert!(html.contains("equation-card"));
    assert!(html.contains("note"));
}

#[test]
fn test_render_blocks_html_result_step() {
    let doc = Document {
        title: "Test".to_string(),
        theme: Theme::Dark,
        blocks: vec![Block::Step {
            id: 2,
            title: "Result".to_string(),
            equations: vec!["F = ma".to_string()],
            notes: vec![],
            is_result: true,
        }],
    };
    let html = render_blocks_html(&doc);
    assert!(html.contains("class=\"step result\""));
}

#[test]
fn test_render_blocks_html_prose() {
    let doc = Document {
        title: "Test".to_string(),
        theme: Theme::Dark,
        blocks: vec![Block::Prose {
            content: "Some text with $x$ inline".to_string(),
        }],
    };
    let html = render_blocks_html(&doc);
    assert!(html.contains("class=\"prose\""));
    assert!(html.contains("katex"));
}

#[test]
fn test_render_blocks_html_divider() {
    let doc = Document {
        title: "Test".to_string(),
        theme: Theme::Dark,
        blocks: vec![Block::Divider],
    };
    let html = render_blocks_html(&doc);
    assert!(html.contains("<hr class=\"divider\">"));
}

#[test]
fn test_render_full_page() {
    let doc = Document {
        title: "Physics".to_string(),
        theme: Theme::Dark,
        blocks: vec![Block::Divider],
    };
    let html = render_full_page(&doc);
    assert!(html.contains("<!DOCTYPE html>"));
    assert!(html.contains("Physics"));
    assert!(html.contains("data-theme=\"dark\""));
    assert!(html.contains("viewer.js"));
}

#[test]
fn test_render_full_page_light_theme() {
    let doc = Document {
        title: "Math".to_string(),
        theme: Theme::Light,
        blocks: vec![],
    };
    let html = render_full_page(&doc);
    assert!(html.contains("data-theme=\"light\""));
}

#[test]
fn test_render_equation_simple_display() {
    let result = render_equation("a + b = c");
    assert!(result.is_ok());
    let html = result.unwrap();
    assert!(html.contains("katex-display"));
}

#[test]
fn test_render_equation_invalid_latex_error_card() {
    // Completely invalid LaTeX should produce an error
    let result = render_equation(r"\invalidcommand{");
    assert!(result.is_err());
}

#[test]
fn test_render_block_step_html_structure() {
    let block = Block::Step {
        id: 3,
        title: "Test Step".to_string(),
        equations: vec!["x = 1".to_string()],
        notes: vec!["A note".to_string()],
        is_result: false,
    };
    let html = render_block(&block);
    assert!(html.contains("class=\"step\""));
    assert!(html.contains("data-step-id=\"3\""));
    assert!(html.contains("data-step-title=\"Test Step\""));
    assert!(html.contains("step-number"));
    assert!(html.contains("3."));
    assert!(html.contains("step-title"));
    assert!(html.contains("equation-card"));
    assert!(html.contains("class=\"note\""));
    assert!(html.contains("A note"));
}

#[test]
fn test_render_block_prose() {
    let block = Block::Prose {
        content: "Simple paragraph".to_string(),
    };
    let html = render_block(&block);
    assert!(html.contains("class=\"prose\""));
    assert!(html.contains("Simple paragraph"));
}

#[test]
fn test_render_block_divider() {
    let block = Block::Divider;
    let html = render_block(&block);
    assert_eq!(html, "<hr class=\"divider\">");
}

#[test]
fn test_render_block_result_class() {
    let block = Block::Step {
        id: 1,
        title: "Final".to_string(),
        equations: vec!["y = 42".to_string()],
        notes: vec![],
        is_result: true,
    };
    let html = render_block(&block);
    assert!(html.contains("class=\"step result\""));
}

#[test]
fn test_render_block_multiple_equations() {
    let block = Block::Step {
        id: 1,
        title: "Multi".to_string(),
        equations: vec!["a = 1".to_string(), "b = 2".to_string(), "c = 3".to_string()],
        notes: vec![],
        is_result: false,
    };
    let html = render_block(&block);
    // Should have 3 equation-card divs
    let count = html.matches("equation-card").count();
    assert_eq!(count, 3);
}

#[test]
fn test_render_block_notes_with_inline_math() {
    let block = Block::Step {
        id: 1,
        title: "Notes".to_string(),
        equations: vec!["x = 1".to_string()],
        notes: vec!["Where $x$ is a variable".to_string()],
        is_result: false,
    };
    let html = render_block(&block);
    // Inline math should be rendered via KaTeX
    assert!(html.contains("katex"));
    assert!(html.contains("class=\"note\""));
}

#[test]
fn test_html_escape_single_quote() {
    assert_eq!(html_escape("it's"), "it&#x27;s");
}

#[test]
fn test_render_block_data_latex_escaped() {
    let block = Block::Step {
        id: 1,
        title: "Test".to_string(),
        equations: vec!["a < b & c > d".to_string()],
        notes: vec![],
        is_result: false,
    };
    let html = render_block(&block);
    assert!(html.contains("data-latex=\"a &lt; b &amp; c &gt; d\""));
}

#[test]
fn test_render_empty_document() {
    let doc = Document {
        title: "Empty".to_string(),
        theme: Theme::Dark,
        blocks: vec![],
    };
    let html = render_blocks_html(&doc);
    assert!(html.is_empty());

    let full = render_full_page(&doc);
    assert!(full.contains("Empty"));
    assert!(full.contains("board-content"));
}

#[test]
fn test_render_equation_error_card_in_step() {
    // Use invalid LaTeX that will trigger error-card rendering within a step
    let block = Block::Step {
        id: 1,
        title: "Bad".to_string(),
        equations: vec!["\\frac{".to_string()],
        notes: vec![],
        is_result: false,
    };
    let html = render_block(&block);
    assert!(html.contains("error-card"));
    assert!(html.contains("error-msg"));
}

#[test]
fn test_render_reply_content_prose_only() {
    let html = render_reply_content("Just some text with $x^2$ inline", 1);
    assert!(html.contains("reply-content"));
    assert!(html.contains("reply-prose"));
    assert!(html.contains("katex"));
    assert!(!html.contains("equation-card"));
}

#[test]
fn test_render_reply_content_single_equation() {
    let html = render_reply_content("Before $$E = mc^2$$ after", 3);
    assert!(html.contains("reply-content"));
    assert!(html.contains("reply-equation"));
    assert!(html.contains("(3.1)"));
    assert!(html.contains("Before"));
    assert!(html.contains("after"));
}

#[test]
fn test_render_reply_content_multiple_equations() {
    let html = render_reply_content("Start $$a = 1$$ middle $$b = 2$$ end", 2);
    assert!(html.contains("(2.1)"));
    assert!(html.contains("(2.2)"));
    assert!(html.contains("Start"));
    assert!(html.contains("middle"));
    assert!(html.contains("end"));
}

#[test]
fn test_render_reply_content_equation_only() {
    let html = render_reply_content("$$x = 1$$", 1);
    assert!(html.contains("(1.1)"));
    assert!(html.contains("equation-card"));
    // No prose paragraphs
    assert!(!html.contains("reply-prose"));
}

#[test]
fn test_render_reply_content_invalid_latex() {
    let html = render_reply_content("Bad: $$\\frac{$$ ok", 1);
    assert!(html.contains("error-card"));
    assert!(html.contains("ok"));
}

#[test]
fn test_render_reply_content_empty() {
    let html = render_reply_content("", 1);
    assert!(html.contains("reply-content"));
    assert!(!html.contains("reply-prose"));
    assert!(!html.contains("equation-card"));
}

#[test]
fn test_render_reply_content_inline_math_in_prose() {
    let html = render_reply_content("Where $n$ is the quantum number $$E_n = -13.6/n^2$$", 1);
    assert!(html.contains("(1.1)"));
    // Inline math in prose should be rendered
    assert!(html.contains("katex"));
}

#[test]
fn test_render_reply_content_unclosed_display_math() {
    let html = render_reply_content("Text $$ unclosed", 1);
    // Should treat as prose, not crash
    assert!(html.contains("reply-prose"));
    assert!(!html.contains("equation-card"));
}

#[test]
fn equation_page_wraps_the_rendered_equation() {
    let page = cliboard::render::render_equation_page("x^2").unwrap();
    assert!(page.starts_with("<!DOCTYPE html>"));
    assert!(page.contains("katex"));
    assert!(page.ends_with("</body></html>"));
    assert!(cliboard::render::render_equation_page(r"\").is_err());
}

#[test]
fn growing_board_keeps_earlier_rendering() {
    let first = Block::Step {
        id: 1,
        title: "One".to_string(),
        equations: vec!["a = 1".to_string(), "b = 2".to_string()],
        notes: vec![],
        is_result: false,
    };
    let second = Block::Step {
        id: 2,
        title: "Two".to_string(),
        equations: vec!["c = 3".to_string()],
        notes: vec![],
        is_result: true,
    };
    let small = Document { title: "T".to_string(), theme: Theme::Dark, blocks: vec![first.clone()] };
    let grown = Document {
        title: "T".to_string(),
        theme: Theme::Dark,
        blocks: vec![first, Block::Divider, second],
    };
    let before = render_blocks_html(&small);
    let after = render_blocks_html(&grown);
    assert!(after.starts_with(&before));
    let added = &after[before.len()..];
    assert!(added.contains("<span class=\"equation-number\">(3)</span>"));
    assert!(!added.contains("(1)</span>"));
    assert!(before.contains("(1)</span>") && before.contains("(2)</span>"));
}

#[test]
fn full_page_holds_its_parts() {
    let doc = Document {
        title: "A <b> & 'c'".to_string(),
        theme: Theme::Light,
        blocks: vec![Block::Divider],
    };
    let page = render_full_page(&doc);
    assert!(page.starts_with("<!DOCTYPE html>"));
    assert!(page.contains("data-theme=\"light\""));
    assert!(page.contains("<h1>A &lt;b&gt; &amp; &#x27;c&#x27;</h1>"));
    assert!(page.contains(&render_blocks_html(&doc)));
    assert!(page.contains("<script src=\"/viewer.js\"></script>"));
}
