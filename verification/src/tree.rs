//! Model of one disk's on-disk directory layout under a bucket prefix.
//!
//! A node is either an object — a directory holding the backend's canonical
//! per-object metadata file, whose internal layout is opaque — or a plain
//! directory with named children. Well-formedness pins down what a real
//! directory scan guarantees: child names are non-empty, free of the path
//! separator, and listed in strictly ascending emission-key order, where a
//! plain directory's key carries a trailing separator exactly as its
//! entries will.

use vstd::prelude::*;
use crate::entry::SLASH;
use crate::order::lex_lt;

verus! {

/// One named child of a directory.
pub struct Child {
    /// Name of the child within its parent; never empty, never contains
    /// the path separator.
    pub name: Vec<u8>,
    /// What the child holds.
    pub node: Node,
}

/// A directory subtree on one disk.
pub enum Node {
    /// A directory with the canonical object-metadata file: one object,
    /// never descended into.
    Object { meta: Vec<u8> },
    /// A plain directory: not itself an object.
    Branch { children: Vec<Child> },
}

/// A syntactically valid child name: non-empty, no path separator.
pub open spec fn valid_name(name: Seq<u8>) -> bool {
    name.len() > 0 && forall|i: int| 0 <= i < name.len() ==> name[i] != SLASH
}

/// The key under which a child sorts among its siblings: its name, with a
/// trailing separator when the child is a plain directory, matching the
/// names its walk entries will carry.
pub open spec fn child_key(c: Child) -> Seq<u8> {
    match c.node {
        Node::Object { .. } => c.name@,
        Node::Branch { .. } => c.name@ + seq![SLASH],
    }
}

/// Whether a child is a plain directory with no children at all.
pub open spec fn is_empty_plain_dir(c: Child) -> bool {
    match c.node {
        Node::Object { .. } => false,
        Node::Branch { children } => children@.len() == 0,
    }
}

/// Well-formedness of a sibling list: valid names, well-formed subtrees,
/// and strictly ascending keys (hence unique names).
pub open spec fn wf_children(cs: Seq<Child>) -> bool
    decreases cs,
{
    &&& (forall|i: int| 0 <= i < cs.len() ==> valid_name(#[trigger] cs[i].name@))
    &&& (forall|i: int| 0 <= i < cs.len() ==> wf_node(#[trigger] cs[i].node))
    &&& (forall|i: int, j: int|
        0 <= i < j < cs.len() ==> lex_lt(child_key(cs[i]), child_key(cs[j])))
}

/// Well-formedness of a subtree.
pub open spec fn wf_node(n: Node) -> bool
    decreases n,
{
    match n {
        Node::Object { .. } => true,
        Node::Branch { children } => wf_children(children@),
    }
}

} // verus!
