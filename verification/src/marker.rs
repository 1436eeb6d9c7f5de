//! Zero-sized tags that name how a node is borrowed and what kind of node a
//! reference points at.

use vstd::prelude::*;

verus! {

/// Borrow mode of a node reference.
pub trait BorrowType {
}

/// The reference owns the node.
pub enum Owned {
    /// The only value of this tag.
    Tag,
}

/// The reference borrows the node for reading.
pub struct Immut<'a>(pub core::marker::PhantomData<&'a ()>);

/// The reference borrows the node for writing.
pub struct Mut<'a>(pub core::marker::PhantomData<&'a mut ()>);

impl BorrowType for Owned {
}

impl<'a> BorrowType for Immut<'a> {
}

impl<'a> BorrowType for Mut<'a> {
}

/// The node may be internal or a leaf.
pub enum InternalOrLeaf {
    /// The only value of this tag.
    Tag,
}

/// The node is internal.
pub enum Internal {
    /// The only value of this tag.
    Tag,
}

/// The node is a leaf.
pub enum Leaf {
    /// The only value of this tag.
    Tag,
}

/// A reference to a node, tagged with the way it borrows the node and with
/// what is known of the node's kind.
pub trait Reference {
    /// How the node is borrowed.
    type Borrow: BorrowType;

    /// What kind of node is referred to.
    type Kind;
}

} // verus!
