//! Grids stored row by row, as the contracts speak of them.

use vstd::prelude::*;

verus! {

/// The rows of a nested vector as a sequence of sequences.
pub open spec fn grid_view<T>(v: Vec<Vec<T>>) -> Seq<Seq<T>> {
    Seq::new(v@.len(), |y: int| v@[y]@)
}

/// Whether `g` has `height` rows of `width` cells each.
pub open spec fn is_grid<T>(g: Seq<Seq<T>>, width: int, height: int) -> bool {
    &&& g.len() == height
    &&& forall|y: int| 0 <= y < height ==> (#[trigger] g[y]).len() == width
}

} // verus!
