//! A selector-driven, in-place mutation engine over a parsed, tree-shaped
//! document model: it inserts, removes, replaces and visits nodes matched by
//! a predicate, and it normalizes whitespace and comment noise.

pub mod dom;
pub mod edit;
pub mod error;
pub mod laws;
pub mod ops;
pub mod replace;
pub mod selector;
pub mod text;
pub mod visit;

pub use dom::Element;
pub use dom::Node;
pub use edit::Editable;
pub use error::Error;
pub use error::ErrorDetail;
pub use selector::Selector;
