//! The decision-making core of the zellij session server.

pub mod client_metadata;
pub mod fd_client;
pub mod fd_daemon;
pub mod fd_table;
pub mod hot_reload;
pub mod json;
pub mod json_reader;
pub mod layout;
pub mod logging;
pub mod manifest;
pub mod pane_laws;
pub mod path;
pub mod protocol_laws;
pub mod retry_budget;
pub mod session_laws;
pub mod session_layout_metadata;
pub mod tab_jump;
pub mod text;
pub mod text_laws;
pub mod utf8;
