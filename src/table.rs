//! Storage of the all-pairs table: a square ndarray of optional hops, seen
//! through its rows of cells.

use ndarray::Array2;
use vstd::prelude::*;

verus! {

/// The largest number of systems that a table is built for, so that its
/// square of cells stays addressable.
pub const MAX_TABLE_SIDE: usize = 0x100_0000;

/// An entry in the all-pairs shortest-path table.
#[derive(Clone, Debug)]
pub struct Hop {
    /// Positions of the next systems on shortest routes, each once.
    pub next: Vec<usize>,
    /// Distance from the row's system to the column's.
    pub dist: usize,
}

/// Table of all-pairs shortest paths: row `i`, column `j` holds the hop
/// from the system at position `i` toward the one at position `j`, or none
/// where there is no route.
#[verifier::external_body]
pub struct APSPTable {
    hops: Array2<Option<Hop>>,
}

/// The cells of a table, row by row.
pub uninterp spec fn table_cells(t: APSPTable) -> Seq<Seq<Option<Hop>>>;

/// A square of `n` by `n` empty cells.
pub open spec fn empty_cells(n: nat) -> Seq<Seq<Option<Hop>>> {
    Seq::new(n, |i: int| Seq::new(n, |j: int| None::<Hop>))
}

impl APSPTable {
    /// Relies on ndarray's `Array2::from_elem`: an `n` by `n` array whose
    /// cells are all clones of `None`.
    #[verifier::external_body]
    pub(crate) fn filled(n: usize) -> (r: APSPTable)
        requires
            n <= MAX_TABLE_SIDE,
        ensures
            table_cells(r) == empty_cells(n as nat),
    {
        APSPTable { hops: Array2::from_elem((n, n), None) }
    }

    /// Relies on ndarray's indexing by `[i, j]`: the cell at row `i`,
    /// column `j`.
    #[verifier::external_body]
    fn cell_at(&self, i: usize, j: usize) -> (r: &Option<Hop>)
        requires
            (i as int) < table_cells(*self).len(),
            (j as int) < table_cells(*self)[i as int].len(),
        ensures
            *r == table_cells(*self)[i as int][j as int],
    {
        &self.hops[[i, j]]
    }

    /// Relies on ndarray's mutable indexing by `[i, j]`: the cell at row `i`,
    /// column `j` is replaced and no other changes.
    #[verifier::external_body]
    pub(crate) fn set_cell(&mut self, i: usize, j: usize, v: Option<Hop>)
        requires
            (i as int) < table_cells(*old(self)).len(),
            (j as int) < table_cells(*old(self))[i as int].len(),
        ensures
            table_cells(*final(self)) == table_cells(*old(self)).update(
                i as int,
                table_cells(*old(self))[i as int].update(j as int, v),
            ),
    {
        self.hops[[i, j]] = v;
    }

    /// The hop from position `i` toward position `j`.
    pub fn hop(&self, i: usize, j: usize) -> (r: &Option<Hop>)
        requires
            (i as int) < table_cells(*self).len(),
            (j as int) < table_cells(*self)[i as int].len(),
        ensures
            *r == table_cells(*self)[i as int][j as int],
    {
        self.cell_at(i, j)
    }
}

} // verus!
