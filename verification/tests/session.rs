use cliboard::parser::parse;
use cliboard::session::{board_header, new_session, session_at, session_dir_name, slugify, Session};

#[test]
fn test_slugify() {
    assert_eq!(slugify("Hello World"), "hello-world");
    assert_eq!(slugify("E = mc^2"), "e-mc-2");
    assert_eq!(slugify("  spaces  "), "spaces");
    assert_eq!(slugify("Already-Slugged"), "already-slugged");
}

#[test]
fn test_slugify_special_chars() {
    assert_eq!(slugify("Hello, World!"), "hello-world");
    assert_eq!(slugify("a/b\\c"), "a-b-c");
    assert_eq!(slugify("---dashes---"), "dashes");
    assert_eq!(slugify("MiXeD CaSe"), "mixed-case");
    assert_eq!(slugify("123 Numbers"), "123-numbers");
}

#[test]
fn test_slugify_unicode() {
    // Unicode alphanumeric chars are kept by is_alphanumeric()
    assert_eq!(slugify("café"), "café");
    // ï is alphanumeric in Unicode, so it's kept
    assert_eq!(slugify("naïve"), "naïve");
}

#[test]
fn board_header_holds_the_title() {
    assert_eq!(board_header("Test"), "---\ntitle: Test\n---\n\n");
    assert_eq!(board_header(""), "---\ntitle: \n---\n\n");
}

#[test]
fn new_board_shows_its_title() {
    let board = format!("{}{}", board_header("Hydrogen Atom"), "\n## Step 1\n\n$$x = 1$$\n");
    let doc = parse(&board);
    assert_eq!(doc.title, "Hydrogen Atom");
    assert_eq!(doc.step_count(), 1);
    let empty = parse(&board_header("Only a title"));
    assert_eq!(empty.title, "Only a title");
    assert_eq!(empty.step_count(), 0);
}

#[test]
fn quoted_title_loses_its_quotes() {
    let doc = parse(&board_header("\"Quoted\""));
    assert_eq!(doc.title, "Quoted");
}

#[test]
fn session_dir_name_is_date_and_slug() {
    assert_eq!(session_dir_name("2026-03-16", "Hello World"), "2026-03-16-hello-world");
    assert_eq!(session_dir_name("2026-03-16", "E = mc^2"), "2026-03-16-e-mc-2");
}

#[test]
fn session_files_are_in_its_directory() {
    let session = Session {
        dir: "/tmp/sessions/2026-03-16-test".to_string(),
        board_path: "/tmp/sessions/2026-03-16-test/board.cb.md".to_string(),
    };
    assert_eq!(session.pid_path(), "/tmp/sessions/2026-03-16-test/server.pid".to_string());
    assert_eq!(session.port_path(), "/tmp/sessions/2026-03-16-test/server.port".to_string());
    assert_eq!(session.messages_path(), "/tmp/sessions/2026-03-16-test/messages.json".to_string());
    let slashed = Session { dir: "/tmp/x/".to_string(), board_path: "/tmp/x/board.cb.md".to_string() };
    assert_eq!(slashed.pid_path(), "/tmp/x/server.pid");
}

#[test]
fn a_new_session_and_its_board() {
    let (session, header) = new_session("/home/u/.cliboard/sessions", "2026-03-16", "Hello World");
    assert_eq!(session.dir, "/home/u/.cliboard/sessions/2026-03-16-hello-world");
    assert_eq!(session.board_path, "/home/u/.cliboard/sessions/2026-03-16-hello-world/board.cb.md");
    assert_eq!(header, "---\ntitle: Hello World\n---\n\n");
    assert_eq!(parse(&header).title, "Hello World");
}

#[test]
fn the_current_session_from_its_marker() {
    let session = session_at("/home/u/.cliboard/sessions/2026-03-16-test\n");
    assert_eq!(session.dir, "/home/u/.cliboard/sessions/2026-03-16-test");
    assert_eq!(session.board_path, "/home/u/.cliboard/sessions/2026-03-16-test/board.cb.md");
}
