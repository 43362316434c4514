//! Compare and resolve multi-sided Jujutsu conflicts.
//!
//! The verified core reads Jujutsu's *snapshot* conflict markers into a
//! [`conflict::ParsedFile`] ([`parser`]), re-emits it with or without
//! resolutions, and drives the review state machine in [`app`]. Around it:
//! what `jj`'s output means ([`jj`]), the side-versus-base diff ([`diff`]),
//! syntax highlighting ([`highlight`]), what the screen shows ([`view`]) and
//! the hand-off to the user's editor ([`editor`]). Running `jj`, the terminal
//! and the editor is the program's business.

pub mod app;
pub mod conflict;
pub mod diff;
pub mod editor;
pub mod highlight;
pub mod jj;
pub mod parser;
pub mod text;
pub mod treesitter;
pub mod view;
