use cliboard::cli::{board_entry, count_steps, selection_summary, status_line, Command};
use cliboard::document::Selection;

#[test]
fn entries_of_content_commands() {
    let step = Command::Step { title: "Start".to_string(), latex: "x = 1".to_string() };
    assert_eq!(board_entry(&step), Some("\n## Start\n\n$$x = 1$$\n".to_string()));
    let eq = Command::Eq { latex: "y = 2".to_string() };
    assert_eq!(board_entry(&eq), Some("\n$$y = 2$$\n".to_string()));
    let note = Command::Note { text: "a note".to_string() };
    assert_eq!(board_entry(&note), Some("\n> a note\n".to_string()));
    let text = Command::Text { text: "prose".to_string() };
    assert_eq!(board_entry(&text), Some("\nprose\n".to_string()));
    let result = Command::Result { title: "End".to_string(), latex: "z".to_string() };
    assert_eq!(board_entry(&result), Some("\n## End {.result}\n\n$$z$$\n".to_string()));
    assert_eq!(board_entry(&Command::Divider), Some("\n---\n".to_string()));
}

#[test]
fn other_commands_append_nothing() {
    assert_eq!(board_entry(&Command::Stop), None);
    assert_eq!(board_entry(&Command::Status), None);
    assert_eq!(board_entry(&Command::New { title: "T".to_string() }), None);
    assert_eq!(board_entry(&Command::Export { output: "o.html".to_string() }), None);
    assert_eq!(board_entry(&Command::Reply { step_id: 1, text: "hi".to_string() }), None);
}

#[test]
fn step_headings_are_counted() {
    assert_eq!(count_steps(""), 0);
    assert_eq!(count_steps("---\ntitle: T\n---\n\n## One\n\n$$a$$\n\n## Two {.result}\n"), 2);
    // Only lines that begin with "## " count.
    assert_eq!(count_steps("### Three\n##No\n ## indented\ntext ## inline\n## Yes"), 1);
}

#[test]
fn each_step_entry_adds_one_step() {
    let mut board = "---\ntitle: T\n---\n\n".to_string();
    let mut n = count_steps(&board);
    let commands = vec![
        Command::Step { title: "A".to_string(), latex: "a".to_string() },
        Command::Note { text: "## not a heading".to_string() },
        Command::Eq { latex: "b".to_string() },
        Command::Result { title: "R".to_string(), latex: "r".to_string() },
        Command::Divider,
        Command::Text { text: "## prose heading".to_string() },
    ];
    let added = [1, 0, 0, 1, 0, 1];
    for (c, k) in commands.iter().zip(added.iter()) {
        board.push_str(&board_entry(c).unwrap());
        let m = count_steps(&board);
        assert_eq!(m, n + k);
        n = m;
    }
}

#[test]
fn status_lines() {
    assert_eq!(status_line(true, Some(8377), 3), "Running on :8377, 3 steps");
    assert_eq!(status_line(true, None, 0), "Running on unknown port, 0 steps");
    assert_eq!(status_line(false, Some(8377), 12), "Not running (12 steps in board)");
}

#[test]
fn selection_summary_lines() {
    let s = Selection {
        step_id: 1,
        title: "Test Step".to_string(),
        latex: "E = mc^2".to_string(),
        unicode: "E = mc\u{00B2}".to_string(),
        formatted: "E = mc^2".to_string(),
        notes: vec!["Famous equation".to_string()],
        selected_at: "2026-03-16T00:00:00".to_string(),
    };
    assert_eq!(selection_summary(&s), "Step 1: Test Step\nLaTeX: E = mc^2\nUnicode: E = mc\u{00B2}");
}
