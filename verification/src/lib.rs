//! A verified core for a live math whiteboard: the `.cb.md` document model,
//! its parser, the HTML renderer, LaTeX-to-Unicode conversion and the chat
//! bookkeeping of a session.
pub mod text;
pub mod cli;
pub mod document;
pub mod export;
pub mod parser;
pub mod render;
pub mod server;
pub mod session;
pub mod unicode;
