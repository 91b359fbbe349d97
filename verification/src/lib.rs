//! Core of a project launcher: the stored entry model and the text that
//! shows an entry, expansion of entry patterns into a duplicate-free
//! candidate list, the parsers for a multiplexer's session listings, and the
//! decision whether to attach to, recreate or create a session.

pub mod entry;
pub mod expand;
pub mod grammar;
pub mod quote;
pub mod resolve;
pub mod session;
pub mod stored;
pub mod text;
pub mod tmux;
