//! The browser, minus the window: tab bookkeeping, recently-used and recently-closed
//! state, downloads, the developer panel's data, generated pages and the session file.
//! Nothing here depends on a toolkit; frontends drive it with plain values.

pub mod beacon;
pub mod cli;
pub mod command;
pub mod devtools;
pub mod download;
pub mod error_page;
pub mod event;
pub mod platform;
pub mod pages;
pub mod paths;
pub mod session;
pub mod settings;
pub mod source_page;
pub mod state;
pub mod tab;
pub mod text;
