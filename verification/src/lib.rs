//! A templated, hot-reloadable declarative view engine.
//!
//! The library parses a textual, data-bound description of a UI tree,
//! resolves it against an application state mapping, materializes a
//! renderable element tree, and keeps per-element interaction state
//! alive across rebuilds and live edits of the layout source.
//!
//! The host around it (an event loop, a renderer) performs the file
//! stat and read that the reload monitor decides on, paints the
//! renderable tree, and applies resolved messages to the application
//! state between renders.

pub mod bytes;
pub mod num;
pub mod parse;
pub mod render;
pub mod resolver;
pub mod session;
pub mod state;
pub mod store;
pub mod template;
pub mod tree;
