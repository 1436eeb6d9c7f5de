//! The second child layout.

use vstd::prelude::*;
use crate::node::sorted::SortedChildren;

verus! {

/// The number of children that the layout has room for.
pub const NODE16_CAPACITY: usize = 16;

/// Up to sixteen children in parallel arrays sorted by key byte.
pub type Node16Children<V> = SortedChildren<V, 16>;

} // verus!
