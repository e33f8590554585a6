//! A markup-generation engine that keeps author text and document
//! structure apart: untrusted text is normalized and escaped at a typed
//! trust boundary, attributes live in a deterministic sorted collection,
//! and an immutable node tree is serialized by a visitor in one
//! deterministic walk.

pub mod attributes;
pub mod block;
pub mod elements;
pub mod node;
pub mod page;
pub mod renderer;
pub mod rules;
pub mod sanitize;
pub mod trust;
