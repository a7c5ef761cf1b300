//! Wynn: the verified core of a sidebar-first web browser.

pub mod adblocker;
pub mod bookmarks;
pub mod browser_tab;
pub mod command_palette;
pub mod crypto;
pub mod database;
pub mod downloads;
pub mod encoding;
pub mod history;
pub mod json;
pub mod keepassxc;
pub mod number;
pub mod passwords;
pub mod records;
pub mod script;
pub mod settings;
pub mod sorting;
pub mod text;
pub mod webview;
pub mod window;
