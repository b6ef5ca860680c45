//! Suggestions for text being typed: stored fragments are ranked by how far
//! they continue the tail of an edit buffer, and laid out for a terminal.
//!
//! - [`overlap`]: how much of a fragment's head the buffer's tail already is.
//! - [`fragment`]: a fragment with its count and its overlap.
//! - [`text`]: strings and lines as sequences of characters.
//! - [`store`]: the lines of a source grouped into counted fragments.
//! - [`rank`]: scoring the fragments and putting them in order.
//! - [`layout`]: the frame to draw for a buffer and its ranked fragments.
//! - [`session`]: the input loop, as a state machine over terminal events.

pub mod fragment;
pub mod layout;
pub mod overlap;
pub mod rank;
pub mod session;
pub mod store;
pub mod text;
