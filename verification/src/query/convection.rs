//! Complete thermodynamic columns for deep convection: each successful row
//! carries one local column; every other row carries only its typed status.

use vstd::prelude::*;
use crate::query::output::{SampleStatus, StatusColumn};

verus! {

/// Rows do not pair a column with exactly the points whose status is `Valid`.
#[derive(Clone, Copy, Debug, PartialEq, Eq, Structural)]
pub enum ConvectionColumnOutputError {
    InvalidRows,
}

/// Each row has a column exactly when its status is `Valid`.
pub open spec fn rows_consistent<C>(columns: Seq<Option<C>>, status: Seq<SampleStatus>) -> bool {
    &&& columns.len() == status.len()
    &&& forall|k: int| 0 <= k < columns.len() ==> (#[trigger] columns[k] is Some) == (status[k] == SampleStatus::Valid)
}

/// I/O-free complete columns returned in caller order.
#[derive(Debug, PartialEq)]
pub struct ConvectionColumnOutput<C> {
    columns: Vec<Option<C>>,
    status: StatusColumn,
}

impl<C> ConvectionColumnOutput<C> {
    #[verifier::type_invariant]
    spec fn rows_match(self) -> bool {
        rows_consistent(self.columns@, self.status@)
    }

    /// The columns, in caller order.
    pub closed spec fn spec_columns(self) -> Seq<Option<C>> {
        self.columns@
    }

    /// The statuses, in caller order.
    pub closed spec fn spec_status(self) -> Seq<SampleStatus> {
        self.status@
    }

    /// Pairs columns with statuses, refusing rows whose column presence
    /// disagrees with a `Valid` status.
    pub fn new(columns: Vec<Option<C>>, status: StatusColumn) -> (result: Result<Self, ConvectionColumnOutputError>)
        ensures
            rows_consistent(columns@, status@) ==> (result matches Ok(output)
                && output.spec_columns() == columns@ && output.spec_status() == status@),
            !rows_consistent(columns@, status@) ==> result == Err::<Self, ConvectionColumnOutputError>(
                ConvectionColumnOutputError::InvalidRows,
            ),
    {
        if columns.len() != status.len() {
            return Err(ConvectionColumnOutputError::InvalidRows);
        }
        let statuses = status.values();
        let mut k: usize = 0;
        while k < columns.len()
            invariant
                columns@.len() == status@.len(),
                statuses@ == status@,
                k <= columns@.len(),
                forall|q: int| 0 <= q < k ==> (#[trigger] columns@[q] is Some) == (status@[q] == SampleStatus::Valid),
            decreases columns@.len() - k,
        {
            if columns[k].is_some() != (statuses[k] == SampleStatus::Valid) {
                return Err(ConvectionColumnOutputError::InvalidRows);
            }
            k += 1;
        }
        Ok(ConvectionColumnOutput { columns, status })
    }

    /// Returns typed sample status in caller order.
    pub fn status(&self) -> (status: &StatusColumn)
        ensures
            status@ == self.spec_status(),
    {
        &self.status
    }

    /// Returns a complete column only when the corresponding status is `Valid`.
    pub fn column(&self, index: usize) -> (column: Option<&C>)
        ensures
            index < self.spec_columns().len() && self.spec_columns()[index as int] is Some
                ==> column == Some(&self.spec_columns()[index as int]->0),
            index >= self.spec_columns().len() || self.spec_columns()[index as int] is None ==> column is None,
            column is Some <==> index < self.spec_status().len() && self.spec_status()[index as int] == SampleStatus::Valid,
    {
        proof {
            use_type_invariant(self);
        }
        if index < self.columns.len() {
            match &self.columns[index] {
                Some(column) => Some(column),
                None => None,
            }
        } else {
            None
        }
    }
}

} // verus!
