use cliboard::document::{Block, Document, Theme};

#[test]
fn test_document_new_defaults() {
    let doc = Document::new("My Title");
    assert_eq!(doc.title, "My Title");
    assert_eq!(doc.theme, Theme::Dark);
    assert!(doc.blocks.is_empty());
}

#[test]
fn test_document_new_untitled() {
    let doc = Document::new("Untitled");
    assert_eq!(doc.title, "Untitled");
}

#[test]
fn test_step_count_empty() {
    let doc = Document::new("Test");
    assert_eq!(doc.step_count(), 0);
}

#[test]
fn test_step_count_only_steps() {
    let doc = Document {
        title: "T".to_string(),
        theme: Theme::Dark,
        blocks: vec![
            Block::Step {
                id: 1,
                title: "A".to_string(),
                equations: vec![],
                notes: vec![],
                is_result: false,
            },
            Block::Step {
                id: 2,
                title: "B".to_string(),
                equations: vec![],
                notes: vec![],
                is_result: false,
            },
        ],
    };
    assert_eq!(doc.step_count(), 2);
}

#[test]
fn test_step_count_mixed_blocks() {
    let doc = Document {
        title: "T".to_string(),
        theme: Theme::Dark,
        blocks: vec![
            Block::Prose {
                content: "intro".to_string(),
            },
            Block::Step {
                id: 1,
                title: "S1".to_string(),
                equations: vec![],
                notes: vec![],
                is_result: false,
            },
            Block::Divider,
            Block::Step {
                id: 2,
                title: "S2".to_string(),
                equations: vec![],
                notes: vec![],
                is_result: true,
            },
            Block::Prose {
                content: "outro".to_string(),
            },
        ],
    };
    assert_eq!(doc.step_count(), 2);
}

#[test]
fn test_theme_default() {
    assert_eq!(Theme::default(), Theme::Dark);
}

#[test]
fn test_theme_equality() {
    assert_eq!(Theme::Dark, Theme::Dark);
    assert_eq!(Theme::Light, Theme::Light);
    assert_ne!(Theme::Dark, Theme::Light);
}
