//! Dialog scripts: the script parser and the manager and player that run the
//! parsed dialogs.

pub mod manager;
pub mod parser;
