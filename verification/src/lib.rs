//! Disk-usage treemap core: a size-annotated file-system tree and the
//! slice-and-dice layout that turns it into a flat list of drawable nodes.
//!
//! The tree side ([`scanner`]) defines [`scanner::FileSystemNode`] together
//! with its well-formedness invariant (a directory's size is the exact sum of
//! its children's sizes; children are sorted by name) and the verified
//! constructors that establish it.
//!
//! The layout side ([`treemap`]) consumes such a tree and emits one
//! [`treemap::TreemapNode`] per descendant, in depth-first order, carrying the
//! exact proportional geometry (group total, offset of earlier siblings, and
//! the slicing axis) from which a renderer derives pixel rectangles.

pub mod scanner;
pub mod treemap;
