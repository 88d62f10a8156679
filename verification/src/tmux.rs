//! Talking to tmux: what to ask, and what to make of the answer.

pub mod args;
pub mod buffers;
pub mod invoke;
pub mod keys;
pub mod match_laws;
pub mod matching;
pub mod paging_laws;
pub mod parse;
pub mod parse_laws;
pub mod recover;
pub mod search;
pub mod search_laws;
pub mod subsearch;
pub mod window;
pub mod window_laws;

pub use invoke::resolve_socket;
pub use keys::parse_hex_tokens;
pub use parse::{parse_buffers, parse_clients, parse_panes, parse_sessions, parse_windows};
pub use search::{search_text, SearchOptions};
pub use subsearch::{subsearch_text, SubsearchOptions};
