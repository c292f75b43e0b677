//! Meshes: shapes that hand out a fixed number of vertices.

use vstd::prelude::*;

verus! {

/// A shape made of `N` vertices of type `T`.
pub trait Mesh<T: Clone, const N: usize> {
    /// The shape's vertices.
    fn vertices(&self) -> [T; N];
}

} // verus!
