//! A collaborative text buffer: a piece table that stores the text, a revision
//! history that rebases concurrent edits, and an editor that coordinates both
//! for a set of connected clients.

pub mod client;
pub mod edit;
pub mod editor;
pub mod greeting;
pub mod history;
pub mod pieces;
pub mod pt;
pub mod server;
pub mod text;

pub use edit::{Edit, EditAction, Refusal};
pub use editor::Editor;
pub use history::History;
pub use pt::PieceTable;
