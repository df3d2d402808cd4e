//! Core of a modal, client/server text editor: the client event protocol
//! (keys, resizes, command strings) with its binary codec, the incremental
//! per-line syntax highlighter, and the editor-side state that both drive.

pub mod buffer;
pub mod client;
pub mod client_event;
pub mod connection;
pub mod diagnostics;
pub mod glob;
pub mod key;
pub mod mode;
pub mod navigation_history;
pub mod pattern;
pub mod serialization;
pub mod syntax;
