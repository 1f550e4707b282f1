use cliboard::render::{render_chat_text, render_reply_content, render_reply_content_ctx, reply_equation_context};
use cliboard::session::{ChatMessage, ChatRole, ChatStore, Session};

fn msg(id: &str, step_id: usize, role: ChatRole, text: &str) -> ChatMessage {
    ChatMessage {
        id: id.to_string(),
        step_id,
        role,
        text: text.to_string(),
        rendered: String::new(),
        timestamp: "2026-03-16T00:00:00".to_string(),
        context: None,
    }
}

fn session() -> Session {
    Session { dir: "/tmp/s".to_string(), board_path: "/tmp/s/board.cb.md".to_string() }
}

fn ids(ms: &[ChatMessage]) -> Vec<String> {
    ms.iter().map(|m| m.id.clone()).collect()
}

fn store() -> ChatStore {
    ChatStore {
        messages: vec![
            msg("a", 1, ChatRole::User, "What is H?"),
            msg("b", 2, ChatRole::User, "Why n^2?"),
            msg("c", 1, ChatRole::Assistant, "The Hamiltonian."),
            msg("d", 3, ChatRole::User, "And this?"),
            msg("e", 2, ChatRole::Assistant, "Bohr model."),
            msg("f", 2, ChatRole::User, "Thanks, and then?"),
        ],
    }
}

#[test]
fn pending_are_the_threads_ending_in_a_question() {
    let pending = session().pending_messages(store());
    assert_eq!(ids(&pending), vec!["b", "d", "e", "f"]);
}

#[test]
fn no_messages_none_pending() {
    assert!(session().pending_messages(ChatStore::default()).is_empty());
}

#[test]
fn messages_of_one_step() {
    assert_eq!(ids(&session().messages_for_step(store(), 2)), vec!["b", "e", "f"]);
    assert_eq!(ids(&session().messages_for_step(store(), 1)), vec!["a", "c"]);
    assert!(session().messages_for_step(store(), 9).is_empty());
}

#[test]
fn an_answer_clears_its_step_only() {
    let mut s = store();
    s.messages.push(msg("g", 2, ChatRole::Assistant, "Then the series."));
    let pending = session().pending_messages(s);
    assert_eq!(ids(&pending), vec!["d"]);
}

#[test]
fn a_question_reopens_its_whole_thread() {
    let mut s = store();
    s.messages.push(msg("g", 1, ChatRole::User, "More on H?"));
    let pending = session().pending_messages(s);
    assert_eq!(ids(&pending), vec!["a", "b", "c", "d", "e", "f", "g"]);
}

#[test]
fn reply_numbers_continue_within_a_step() {
    let ms = vec![
        msg("a", 3, ChatRole::User, "Why?"),
        msg("b", 3, ChatRole::Assistant, "Because $$x = 1$$ and $$y = 2$$."),
        msg("c", 4, ChatRole::Assistant, "Elsewhere $$z = 3$$."),
        msg("d", 3, ChatRole::User, "Also $$w = 4$$?"),
        msg("e", 3, ChatRole::Assistant, "Again $$x  =  1$$ then $$v = 5$$."),
    ];
    let (known, next) = reply_equation_context(&ms, 3);
    assert_eq!(next, 3);
    assert_eq!(known.len(), 3);
    assert_eq!(known[0].1, "3.1");
    assert_eq!(known[1].1, "3.2");
    assert_eq!(known[2].1, "3.3");
    let html = render_reply_content_ctx("See $$y = 2$$ and $$u = 6$$.", 3, &known, next);
    assert!(html.contains("(3.2)"));
    assert!(html.contains("(3.4)"));
    assert!(!html.contains("(3.1)"));
}

#[test]
fn first_reply_numbers_from_one() {
    let html = render_reply_content("Start $$a = b$$ then $$c = d$$", 5);
    assert!(html.contains("(5.1)"));
    assert!(html.contains("(5.2)"));
}

#[test]
fn chat_text_renders_inline_math_and_escapes() {
    let html = render_chat_text("Is <b> $x^2$ right?");
    assert!(html.contains("&lt;b&gt;"));
    assert!(html.contains("katex"));
    assert!(!html.contains("<b>"));
}

#[test]
fn unclosed_display_math_is_one_paragraph() {
    let html = render_reply_content("Text $$ unclosed", 1);
    assert_eq!(html.matches("Text").count(), 1);
    assert_eq!(html.matches("reply-prose").count(), 1);
    assert!(html.contains("$$ unclosed"));
}

#[test]
fn equation_keys_are_normalized() {
    let ms = vec![msg("a", 2, ChatRole::Assistant, "So $$ x  =\n 1 $$ and $$y$$ and $$   $$.")];
    let (known, next) = reply_equation_context(&ms, 2);
    assert_eq!(next, 2);
    assert_eq!(known[0].0, "x = 1");
    assert_eq!(known[1].0, "y");
}

#[test]
fn only_replies_on_the_step_number_its_equations() {
    let replies = vec![msg("a", 2, ChatRole::Assistant, "$$a$$ then $$b$$")];
    let mixed = vec![
        msg("q", 2, ChatRole::User, "What about $$z$$?"),
        msg("o", 3, ChatRole::Assistant, "$$w$$"),
        msg("a", 2, ChatRole::Assistant, "$$a$$ then $$b$$"),
        msg("p", 5, ChatRole::User, "$$c$$"),
    ];
    assert_eq!(reply_equation_context(&replies, 2), reply_equation_context(&mixed, 2));
}

#[test]
fn stored_reply_keeps_the_numbers_it_showed() {
    let mut ms = vec![msg("a", 4, ChatRole::Assistant, "First $$p = q$$.")];
    let (known, next) = reply_equation_context(&ms, 4);
    let text = "Recall $$p  =  q$$, then $$r = s$$ and $$t$$.";
    let html = render_reply_content_ctx(text, 4, &known, next);
    assert!(html.contains("(4.1)") && html.contains("(4.2)") && html.contains("(4.3)"));
    ms.push(msg("b", 4, ChatRole::Assistant, text));
    let (after, count) = reply_equation_context(&ms, 4);
    assert_eq!(count, 3);
    assert_eq!(after[0], ("p = q".to_string(), "4.1".to_string()));
    assert_eq!(after[1], ("r = s".to_string(), "4.2".to_string()));
    assert_eq!(after[2], ("t".to_string(), "4.3".to_string()));
}
