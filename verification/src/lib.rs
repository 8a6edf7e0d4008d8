//! An incremental, resumable shortest-path search engine over an abstract
//! weighted graph, together with a minimal grid-based graph implementation.
//!
//! The engine performs a priority-queue-driven uniform-cost search that can be
//! advanced one expansion at a time, so a caller can animate or inspect the
//! frontier as it grows rather than only consuming a final answer.

pub mod event;
pub mod find;
pub mod grid;
