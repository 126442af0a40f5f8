//! The dense matrix that holds the junctions: a `DMatrix` of the `nalgebra`
//! crate, with what is taken on trust of it. Rows stand for `x`, columns for
//! `y`.
use vstd::prelude::*;
use crate::geometry::rect;
use crate::junction::Junction;

verus! {

/// A `nalgebra::DMatrix` of junctions, one per vertex. Nothing inside it is
/// seen by the verifier: what it holds is spoken of through `grid_shape` and
/// `grid_cells`.
#[verifier::external_body]
pub struct JunctionGrid {
    cells: nalgebra::DMatrix<Junction>,
}

/// The numbers of rows and of columns of a junction matrix.
pub uninterp spec fn grid_shape(m: JunctionGrid) -> (nat, nat);

/// The junctions that a matrix holds, by row and column.
pub uninterp spec fn grid_cells(m: JunctionGrid) -> Map<(int, int), Junction>;

/// `DMatrix::from_element`: a matrix of the given shape, every component
/// equal to `cell`. The product of the two dimensions is computed in
/// `usize`, so it must fit.
#[verifier::external_body]
pub(crate) fn grid_filled(rows: usize, cols: usize, cell: Junction) -> (m: JunctionGrid)
    requires
        rows * cols <= usize::MAX,
    ensures
        grid_shape(m) == (rows as nat, cols as nat),
        grid_cells(m) == Map::new(
            |p: (int, int)| rect(rows as nat, cols as nat).contains(p),
            |p: (int, int)| cell,
        ),
{
    JunctionGrid { cells: nalgebra::DMatrix::from_element(rows, cols, cell) }
}

/// Indexing by a pair, `Index<(usize, usize)>` for a matrix: the component
/// at that row and column. It panics outside the shape.
#[verifier::external_body]
pub(crate) fn grid_get(m: &JunctionGrid, row: usize, col: usize) -> (cell: &Junction)
    requires
        row < grid_shape(*m).0,
        col < grid_shape(*m).1,
    ensures
        *cell == grid_cells(*m)[(row as int, col as int)],
{
    &m.cells[(row, col)]
}

/// Assignment through `IndexMut<(usize, usize)>` for a matrix: that one
/// component is replaced, the shape and every other component stay. It
/// panics outside the shape.
#[verifier::external_body]
pub(crate) fn grid_set(m: &mut JunctionGrid, row: usize, col: usize, cell: Junction)
    requires
        row < grid_shape(*old(m)).0,
        col < grid_shape(*old(m)).1,
    ensures
        grid_shape(*final(m)) == grid_shape(*old(m)),
        grid_cells(*final(m)) == grid_cells(*old(m)).insert((row as int, col as int), cell),
{
    m.cells[(row, col)] = cell;
}

} // verus!
