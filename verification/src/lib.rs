//! # etree
//!
//! `etree` is a DOM library for XML files.
//!
//! A document is read into an [`ETree`], a flat sequence of [`ETreeNode`]s in
//! document order.  Nothing points from one node to another: every node
//! carries the identities of its ancestors as its label, and parents,
//! children and siblings are read off the labels.  A tree can be searched
//! with addresses, edited in place, laid out anew and written back with its
//! formatting kept.
//!
//! - [`etreenode`]: one node
//! - [`label`]: labels and their text
//! - [`model`]: the tree as a mathematical object, over which the contracts
//!   are stated
//! - [`etree`]: storage, navigation and edits
//! - [`reader`], [`writer`]: documents in and out
//! - [`layout`]: indentation
//! - [`xpath`], [`predicate`], [`evaluator`], [`query`]: addresses
//! - [`laws`], [`wellformed`], [`graft`], [`alike`], [`regraft`],
//!   [`settled`]: what holds of every tree

pub mod alike;
pub mod etree;
pub mod etreenode;
pub mod evaluator;
pub mod graft;
pub mod label;
pub mod laws;
pub mod layout;
pub mod model;
pub mod predicate;
pub mod query;
pub mod reader;
pub mod regraft;
pub mod settled;
pub mod text;
pub mod wellformed;
pub mod writer;
pub mod xpath;

pub use self::etree::ETree;
pub use self::etreenode::ETreeNode;
pub use self::query::XPathIterator;
pub use self::xpath::{Predictor, XPathSegment};
