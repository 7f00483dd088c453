//! Dialogue scripts for Live2D scenes: a verified lexer and parser for the
//! dialog script format, the dialog manager that indexes parsed dialogs, and
//! the dialog player state machine that walks them.

pub mod astc;
pub mod clipping;
pub mod conversation_builder;
pub mod dialog;
pub mod editor;
pub mod scene_dialog;
pub mod script;
pub mod text;
