use vstd::prelude::*;

verus! {

/// Marks the payload types that a graph may hold in its nodes.
pub trait NodeTypesProps {

}

} // verus!
