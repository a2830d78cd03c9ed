//! The data model: tree nodes as plain values, and the error taxonomy.

use vstd::prelude::*;

verus! {

/// Why a node could not be fingerprinted.
#[derive(Clone, Copy, Debug, PartialEq, Eq, Structural)]
pub enum Error {
    /// Reading, listing or classifying the node failed at the filesystem.
    IOError,
    /// A child name or a symlink target is not valid text.
    EncodeError,
    /// The node was excluded by the skip predicate.
    Ignore,
    /// The node is neither a file, a directory nor a symlink.
    UnsupportedKind,
    /// Two children of one directory carry the same name.
    DuplicateName,
}

/// A filesystem node, read into plain values.
///
/// A symlink holds its literal target bytes; it is never followed. A node
/// whose metadata or contents could not be read is `Unreadable`; a kind other
/// than file, directory or symlink is `Other`.
pub enum Node {
    File(Vec<u8>),
    Symlink(Vec<u8>),
    Dir(Vec<Entry>),
    Other,
    Unreadable,
}

/// A named child of a directory.
pub struct Entry {
    pub name: Vec<u8>,
    pub node: Node,
}

} // verus!
