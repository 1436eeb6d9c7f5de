//! The smallest child layout.

use vstd::prelude::*;
use crate::node::sorted::SortedChildren;

verus! {

/// The number of children that the layout has room for.
pub const NODE4_CAPACITY: usize = 4;

/// Up to four children in parallel arrays sorted by key byte.
pub type Node4Children<V> = SortedChildren<V, 4>;

} // verus!
