//! A line-oriented editing buffer for a terminal input widget, and the
//! messages of the chat that it writes for.
//!
//! The buffer keeps a document as a sequence of lines, re-flows the paragraph
//! under the cursor to a display width after every edit, and keeps the cursor
//! on the same character while lines are re-broken.
//!
//! - [`wrap`]: greedy word-wrap of one paragraph; [`wrap_laws`]: what holds of
//!   every wrapped text.
//! - [`paragraph`]: the bounds of a paragraph, and positions within one.
//! - [`editor`]: the buffer and its cursor; [`editor_laws`]: what holds of
//!   moving the cursor and of setting the width.
//! - [`reflow`]: the whole document at another width; [`reflow_laws`]: what
//!   holds of it.
//! - [`text`]: white space, and lines as sequences of characters.
//! - [`protocol`]: users, messages and events as plain data.

pub mod text;
pub mod wrap;
pub mod wrap_laws;
pub mod paragraph;
pub mod reflow;
pub mod reflow_laws;
pub mod editor;
pub mod editor_laws;
pub mod protocol;

pub use protocol::{Color, ConnectionKind, Event, LoginResponse, Message, User};
