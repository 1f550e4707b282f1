use cliboard::server::{
    board_changed, parse_pid, parse_port, select_refusal, FileChange, MAX_SELECT_BODY,
    is_up_to_date, parse_version_param, route, selection_of, terminal_reference, RequestMethod,
    Route,
};

fn asset_of(r: Route) -> Option<(bool, String, String)> {
    match r {
        Route::Asset { katex, file, content_type } => Some((katex, file, content_type)),
        _ => None,
    }
}

#[test]
fn routes_the_viewer_files() {
    assert_eq!(
        asset_of(route(RequestMethod::Get, "/")),
        Some((false, "viewer.html".to_string(), "text/html; charset=utf-8".to_string()))
    );
    assert_eq!(
        asset_of(route(RequestMethod::Get, "/viewer.css")),
        Some((false, "viewer.css".to_string(), "text/css".to_string()))
    );
    assert_eq!(
        asset_of(route(RequestMethod::Get, "/viewer.js")),
        Some((false, "viewer.js".to_string(), "application/javascript".to_string()))
    );
}

#[test]
fn routes_katex_files() {
    assert_eq!(
        asset_of(route(RequestMethod::Get, "/katex/katex.min.css")),
        Some((true, "katex.min.css".to_string(), "text/css".to_string()))
    );
    assert_eq!(
        asset_of(route(RequestMethod::Get, "/katex/fonts/KaTeX_Main-Regular.woff2")),
        Some((true, "fonts/KaTeX_Main-Regular.woff2".to_string(), "font/woff2".to_string()))
    );
}

#[test]
fn routes_the_board_and_selections() {
    assert!(matches!(route(RequestMethod::Get, "/board"), Route::Board));
    assert!(matches!(route(RequestMethod::Get, "/board?v=3"), Route::Board));
    assert!(matches!(route(RequestMethod::Get, "/boards"), Route::NotFound));
    assert!(matches!(route(RequestMethod::Post, "/select"), Route::Select));
    assert!(matches!(route(RequestMethod::Get, "/select"), Route::NotFound));
    assert!(matches!(route(RequestMethod::Post, "/board"), Route::NotFound));
    assert!(matches!(route(RequestMethod::Other, "/"), Route::NotFound));
    assert!(matches!(route(RequestMethod::Get, "/viewer.html"), Route::NotFound));
}

#[test]
fn version_parameter_of_board_urls() {
    assert_eq!(parse_version_param("/board?v=42"), Some(42));
    assert_eq!(parse_version_param("/board?x=1&v=7"), Some(7));
    assert_eq!(parse_version_param("/board?v=+5"), Some(5));
    assert_eq!(parse_version_param("/board"), None);
    assert_eq!(parse_version_param("/board?v=abc"), None);
    assert_eq!(parse_version_param("/board?v="), None);
    assert_eq!(parse_version_param("/board?v=18446744073709551616"), None);
    assert_eq!(parse_version_param("/board?v=18446744073709551615"), Some(u64::MAX));
    assert_eq!(parse_version_param("/board?v=1&v=2"), Some(1));
}

#[test]
fn viewer_up_to_date_from_its_version() {
    assert!(is_up_to_date("/board?v=3", 3));
    assert!(is_up_to_date("/board?v=4", 3));
    assert!(!is_up_to_date("/board?v=2", 3));
    assert!(!is_up_to_date("/board", 1));
}

#[test]
fn selection_from_a_viewer_request() {
    let s = selection_of(
        2,
        "Energy".to_string(),
        "E = mc^2".to_string(),
        "  mc^2 \n",
        "2026-03-16T00:00:00".to_string(),
    );
    assert_eq!(s.step_id, 2);
    assert_eq!(s.title, "Energy");
    assert_eq!(s.latex, "E = mc^2");
    assert_eq!(s.unicode, "E = mc\u{00B2}");
    assert_eq!(s.formatted, "mc^2 in [Step 2] E = mc\u{00B2}");
    let whole = selection_of(4, "T".to_string(), "x".to_string(), "  ", "now".to_string());
    assert_eq!(whole.formatted, "[Step 4] x");
    assert!(s.notes.is_empty());
    assert_eq!(s.selected_at, "2026-03-16T00:00:00");
}

#[test]
fn terminal_reference_of_part_or_whole() {
    assert_eq!(terminal_reference("mc\u{00B2}", 1, "E = mc\u{00B2}"), "mc\u{00B2} in [Step 1] E = mc\u{00B2}");
    assert_eq!(terminal_reference("", 12, "E = mc\u{00B2}"), "[Step 12] E = mc\u{00B2}");
    assert_eq!(terminal_reference("E = mc\u{00B2}", 3, "E = mc\u{00B2}"), "[Step 3] E = mc\u{00B2}");
    // Three quarters of the equation is still a part; more is the whole.
    assert_eq!(terminal_reference("abc", 0, "abcd"), "abc in [Step 0] abcd");
    assert_eq!(terminal_reference("abcd", 0, "abcde"), "[Step 0] abcde");
}

#[test]
fn pid_and_port_files() {
    assert_eq!(parse_pid("12345\n"), Some(12345));
    assert_eq!(parse_pid("  +7 "), Some(7));
    assert_eq!(parse_pid(""), None);
    assert_eq!(parse_pid("12a"), None);
    assert_eq!(parse_pid("4294967295"), Some(u32::MAX));
    assert_eq!(parse_pid("4294967296"), None);
    assert_eq!(parse_port("8377"), Some(8377));
    assert_eq!(parse_port("65536"), None);
    assert_eq!(parse_port("-1"), None);
}

#[test]
fn posted_selection_refusals() {
    assert_eq!(select_refusal(Some(10), Some(10)), None);
    assert_eq!(select_refusal(None, Some(MAX_SELECT_BODY)), None);
    assert_eq!(select_refusal(Some(MAX_SELECT_BODY + 1), Some(0)), Some(413));
    assert_eq!(select_refusal(None, Some(MAX_SELECT_BODY + 1)), Some(413));
    assert_eq!(select_refusal(Some(5), None), Some(400));
    assert_eq!(MAX_SELECT_BODY, 64 * 1024);
}

#[test]
fn board_changes_that_call_for_rendering() {
    let board = "/tmp/s/board.cb.md";
    let paths = vec!["/tmp/s/other".to_string(), board.to_string()];
    assert!(board_changed(FileChange::Modified, &paths, board));
    assert!(board_changed(FileChange::Created, &paths, board));
    assert!(!board_changed(FileChange::Other, &paths, board));
    assert!(!board_changed(FileChange::Modified, &vec!["/tmp/s/other".to_string()], board));
    assert!(!board_changed(FileChange::Modified, &vec![], board));
}
