//! A CSS object model layer: a live, identity-stable view over a parsed
//! stylesheet's rule tree.
//!
//! The stylesheet owns a single mutable tree of rule nodes. Callers address
//! rule sequences (the top level, or the children of a grouping or keyframes
//! rule) through sequence views, and individual rules through handles. A
//! handle is `Connected` while its slot exists and becomes `Disconnected`,
//! holding an owned snapshot, when its rule is removed or the whole tree is
//! replaced. Index bookkeeping on insert and delete is centralized in the
//! per-view identity caches, so repeated observation of the same slot yields
//! the same handle and no handle ever dangles.
//!
//! Parsing and serializing of selectors, declarations, media queries and
//! whole rules is delegated to the `parcel_css` engine behind the trusted
//! boundary in [`engine`].

pub mod engine;
pub mod tree;
pub mod sheet;
