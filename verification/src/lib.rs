//! Live-state engine for a terminal dashboard over an instrumented remote
//! process: a reference-counted string-interning pool, a metadata table with
//! a wire-field decoder, task/resource substates merged from streamed update
//! batches with time-windowed retention, and the input-driven view state
//! machine that decides which screen is shown and which detail subscriptions
//! the caller must open or close.

pub mod fields;
pub mod intern;
pub mod state;
pub mod ui;
