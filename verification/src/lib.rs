//! A path-segment trie: registers values against hierarchical path patterns
//! and resolves concrete paths to the best matching value using a fixed
//! precedence of match kinds (literal, regex, named parameter, catchall).

mod assoc;
mod keys;
mod map;
mod pattern;
mod tree;

pub use keys::KeyKind;
pub use keys::classify;
pub use map::SegmentMap;
pub use tree::Node;
