use vstd::prelude::*;

use crate::ids::{BindingId, RowId};
use crate::sets::{contains_row_id, ids_sorted, insert_row_id, remove_row_id};

verus! {

/// A named selection of rows of one table.
#[derive(Debug, Clone, PartialEq, Eq)]
pub struct BindingSet {
    pub id: BindingId,
    pub table_name: String,
    pub rows: Vec<RowId>,
}

impl BindingSet {
    pub open spec fn wf(&self) -> bool {
        ids_sorted(self.rows@)
    }

    pub fn new(id: BindingId, table_name: String) -> (r: Self)
        ensures
            r.wf(),
            r.id == id,
            r.table_name == table_name,
            r.rows@.len() == 0,
    {
        BindingSet { id, table_name, rows: Vec::new() }
    }

    pub fn id(&self) -> (r: BindingId)
        ensures
            r == self.id,
    {
        self.id
    }

    pub fn table_name(&self) -> (r: &str)
        ensures
            r@ == self.table_name@,
    {
        self.table_name.as_str()
    }

    /// The bound rows, in increasing order.
    pub fn rows(&self) -> (r: &[RowId])
        ensures
            r@ == self.rows@,
    {
        self.rows.as_slice()
    }

    pub fn contains(&self, row_id: RowId) -> (r: bool)
        ensures
            r == self.rows@.contains(row_id),
    {
        contains_row_id(self.rows.as_slice(), row_id)
    }

    /// Binds a row; tells whether it was not bound before.
    pub fn bind_row(&mut self, row_id: RowId) -> (r: bool)
        requires
            old(self).wf(),
        ensures
            final(self).wf(),
            final(self).id == old(self).id,
            final(self).table_name == old(self).table_name,
            final(self).rows@.to_set() == old(self).rows@.to_set().insert(row_id),
            r == !old(self).rows@.contains(row_id),
    {
        insert_row_id(&mut self.rows, row_id)
    }

    /// Unbinds a row; tells whether it was bound.
    pub fn unbind_row(&mut self, row_id: RowId) -> (r: bool)
        requires
            old(self).wf(),
        ensures
            final(self).wf(),
            final(self).id == old(self).id,
            final(self).table_name == old(self).table_name,
            final(self).rows@.to_set() == old(self).rows@.to_set().remove(row_id),
            r == old(self).rows@.contains(row_id),
    {
        remove_row_id(&mut self.rows, row_id)
    }
}

} // verus!
