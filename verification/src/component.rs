//! The marker bound that every component value type must satisfy.

use vstd::prelude::*;

verus! {

/// A component is a plain value attached to an entity through a typed
/// column. Component values are copied out of the store on reads, so the
/// bound asks for `Copy`; every copyable type is a component.
pub trait Component: Copy {

}

impl<T: Copy> Component for T {

}

} // verus!
