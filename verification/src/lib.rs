//! Server-driven incremental UI updates: a typed tree for rendered HTML, a
//! diff engine that turns two trees into a list of patches, and an applier
//! that replays such a list against a tree; and the template language that
//! the HTML is rendered from.

pub mod errors;
pub mod templates;
pub mod text;
pub mod vdom;
