//! Character-level differences between two texts, and the text of the
//! exchange that asks a chat-completion service about them.
//!
//! [`diff::diff`] aligns a source text with a changed text along a longest
//! common subsequence; [`diff::Diff::render`] classifies every character
//! of both texts as removed, added or common, and [`diff::Diff::print`]
//! paints them for a terminal. [`laws`] states what holds of every
//! alignment and rendering.
//!
//! [`openai`] writes the HTTP request and undoes the escapes in the answer;
//! [`chunked`] reads the body out of a response that is sent in chunks.

pub mod chunked;
pub mod diff;
pub mod laws;
pub mod lcs;
pub mod openai;
pub mod render;
pub mod text;
