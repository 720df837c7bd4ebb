//! Boolean matrices, stored column-major.
//!
//! A gate-synthesis matrix has one row per active qubit and one column
//! per non-Clifford gadget; the algorithms walk it column by column, so
//! each column is one `Vec<bool>` of length `rows`.

use vstd::prelude::*;

verus! {

/// A boolean matrix with `rows` rows, stored as a list of columns.
#[derive(Debug, Clone)]
pub struct BoolMat {
    pub rows: usize,
    pub cols: Vec<Vec<bool>>,
}

impl BoolMat {
    /// The columns as mathematical sequences.
    pub open spec fn view_cols(self) -> Seq<Seq<bool>> {
        self.cols@.map_values(|c: Vec<bool>| c@)
    }

    pub open spec fn wf(self) -> bool {
        forall|c: int| 0 <= c < self.cols@.len() ==> (#[trigger] self.cols@[c])@.len() == self.rows
    }

    pub open spec fn entry(self, r: int, c: int) -> bool {
        self.cols@[c]@[r]
    }

    /// A matrix with `rows` rows and no columns.
    pub fn new(rows: usize) -> (m: BoolMat)
        ensures
            m.rows == rows,
            m.view_cols() == Seq::<Seq<bool>>::empty(),
            m.wf(),
    {
        let m = BoolMat { rows, cols: Vec::new() };
        proof {
            assert(m.view_cols() =~= Seq::<Seq<bool>>::empty());
        }
        m
    }

    pub fn num_cols(&self) -> (n: usize)
        ensures
            n == self.view_cols().len(),
    {
        self.cols.len()
    }

    pub fn num_rows(&self) -> (n: usize)
        ensures
            n == self.rows,
    {
        self.rows
    }

    pub fn get(&self, r: usize, c: usize) -> (b: bool)
        requires
            self.wf(),
            c < self.view_cols().len(),
            r < self.rows,
        ensures
            b == self.entry(r as int, c as int),
    {
        self.cols[c][r]
    }

    /// Append one column.
    pub fn push_col(&mut self, col: Vec<bool>)
        requires
            old(self).wf(),
            col@.len() == old(self).rows,
        ensures
            final(self).wf(),
            final(self).rows == old(self).rows,
            final(self).view_cols() == old(self).view_cols().push(col@),
    {
        self.cols.push(col);
        proof {
            assert(self.view_cols() =~= old(self).view_cols().push(col@));
        }
    }
}

/// The column holds no true entry.
pub open spec fn zero_col(col: Seq<bool>) -> bool {
    forall|r: int| 0 <= r < col.len() ==> !(#[trigger] col[r])
}

/// Whether some column of the matrix is identically false.
pub open spec fn spec_has_zero_col(cols: Seq<Seq<bool>>) -> bool {
    exists|c: int| 0 <= c < cols.len() && zero_col(#[trigger] cols[c])
}

} // verus!
