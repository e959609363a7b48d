//! A text-buffer engine for an editor: logical lines of text, a cursor and an
//! optional selection over them, edit commands that mutate the text while
//! keeping every position valid, a projector that wraps logical lines into
//! fixed-width visual rows, and a registry of open buffers. A workspace
//! model sorts directory listings into the file panel's order.

pub mod actions;
pub mod buffer;
pub mod bufferset;
pub mod cursor;
pub mod keys;
pub mod line;
pub mod rows;
pub mod segment;
pub mod text;
pub mod workspace;

pub use actions::EditAction;
pub use buffer::Buffer;
pub use buffer::BufferKind;
pub use bufferset::BufferSet;
pub use cursor::Cursor;
pub use cursor::Selection;
pub use line::Line;
pub use rows::Row;
pub use workspace::Entry;
pub use workspace::EntryView;
pub use workspace::RawEntry;
pub use workspace::Workspace;
pub use workspace::WorkspaceInfo;
