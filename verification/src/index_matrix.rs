//! Matrices of indices: for each row, if it has been set, a set of columns.

use crate::index_set::IndexSet;
use vstd::prelude::*;

verus! {

/// A relation between indices, as the set of columns of each row.
#[derive(Debug)]
pub struct IndexMatrix {
    pub rows: Vec<Option<IndexSet>>,
}

impl IndexMatrix {
    /// The columns of a row; a row that is not set has none.
    pub open spec fn row(&self, row: int) -> Set<usize> {
        match self.rows@[row] {
            Some(columns) => columns@,
            None => Set::empty(),
        }
    }

    /// Whether the matrix has the given number of rows and of columns.
    pub open spec fn has_shape(&self, rows: nat, columns: nat) -> bool {
        &&& self.rows@.len() == rows
        &&& forall|i: int|
            0 <= i < self.rows@.len() ==> (#[trigger] self.rows@[i] matches Some(row)
                ==> row.domain_size() == columns)
    }

    /// Whether the matrix has the given number of rows and of columns.
    pub fn is_shaped(&self, rows: usize, columns: usize) -> (holds: bool)
        ensures
            holds == self.has_shape(rows as nat, columns as nat),
    {
        if self.rows.len() != rows {
            return false;
        }
        let mut i: usize = 0;
        while i < self.rows.len()
            invariant
                i <= self.rows@.len(),
                forall|k: int|
                    0 <= k < i ==> (#[trigger] self.rows@[k] matches Some(row)
                        ==> row.domain_size() == columns),
            decreases self.rows@.len() - i,
        {
            if let Some(row) = &self.rows[i] {
                assert(self.rows@[i as int] == Some(*row));
                if row.domain_len() != columns {
                    return false;
                }
            }
            i = i + 1;
        }
        true
    }

    /// The columns of a row, if it is set.
    pub fn row_set(&self, row: usize) -> (columns: Option<&IndexSet>)
        requires
            row < self.rows@.len(),
        ensures
            columns is Some <==> self.rows@[row as int] is Some,
            columns matches Some(c) ==> self.rows@[row as int] == Some(*c) && c@ == self.row(
                row as int,
            ),
    {
        self.rows[row].as_ref()
    }
}

} // verus!
