//! ved: an ed-style line editor, with its buffer, address language,
//! BRE regex engine and command interpreter verified in Verus.

pub mod action;
pub mod args;
pub mod address;
pub mod ascii;
pub mod buffer;
pub mod command;
pub mod edit;
pub mod enc;
pub mod files;
pub mod laws;
pub mod bre;
pub mod repl;
pub mod subst;
pub mod text;
