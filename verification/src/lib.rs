//! The front end of a minimal document-rendering pipeline: a markup parser
//! producing a node tree, a stylesheet parser producing style rules, and a
//! cascade resolver that matches selectors against nodes and merges the
//! matching declarations, by specificity, into a styled tree.

pub mod cursor;
pub mod css;
pub mod dom;
pub mod style;
