//! The compressed-sparse-row matrix and the mapping it stores.

use vstd::prelude::*;

verus! {

/// A compressed-sparse-row snapshot of a matrix.
///
/// Row `r` owns positions `rows_index[r] .. rows_index[r + 1]` of `values`
/// and `columns_index`; within a row the columns increase strictly.
#[derive(Debug, Clone, PartialEq)]
pub struct CsrMat<V> {
    pub rows: usize,
    pub columns: usize,
    pub values: Vec<V>,
    pub columns_index: Vec<usize>,
    pub rows_index: Vec<usize>,
}

impl<V> CsrMat<V> {
    /// The row boundaries, the column indices and the values agree with one another.
    pub open spec fn wf(&self) -> bool {
        &&& self.rows_index@.len() == self.rows + 1
        &&& self.rows_index@[0] == 0
        &&& self.rows_index@[self.rows as int] == self.values@.len()
        &&& self.columns_index@.len() == self.values@.len()
        &&& forall|q: int|
            0 <= q < self.rows ==> #[trigger] self.rows_index@[q] <= self.rows_index@[q + 1]
        &&& forall|p: int|
            0 <= p < self.columns_index@.len() ==> #[trigger] self.columns_index@[p]
                < self.columns
        &&& forall|q: int, p1: int, p2: int|
            #![trigger self.rows_index@[q], self.columns_index@[p1], self.columns_index@[p2]]
            0 <= q < self.rows && self.rows_index@[q] <= p1 < p2 < self.rows_index@[q + 1]
                ==> self.columns_index@[p1] < self.columns_index@[p2]
    }

    /// Position `p` holds the entry at coordinate `k`.
    pub open spec fn slot_holds(&self, p: int, k: (int, int)) -> bool {
        &&& 0 <= k.0 < self.rows
        &&& self.rows_index@[k.0] <= p < self.rows_index@[k.0 + 1]
        &&& self.columns_index@[p] == k.1
    }

    /// The stored values keyed by coordinate.
    pub open spec fn view(&self) -> Map<(int, int), V> {
        Map::new(
            |k: (int, int)| exists|p: int| #[trigger] self.slot_holds(p, k),
            |k: (int, int)| self.values@[choose|p: int| #[trigger] self.slot_holds(p, k)],
        )
    }
}

} // verus!
