use vstd::prelude::*;
use vstd::string::*;

use crate::binding::BindingSet;
use crate::db::{binding_ids, id_pos, Database};
use crate::error::DbError;
use crate::ids::{BindingId, RowId};
use crate::table::has_row;

verus! {

impl Database {
    /// Creates an empty binding set over the named table.
    pub fn create_binding_set(&mut self, table_name: &str) -> (r: Result<BindingId, DbError>)
        requires
            old(self).wf(),
            old(self).next_binding_id < u64::MAX,
        ensures
            final(self).wf(),
            final(self).tables == old(self).tables,
            match r {
                Ok(id) => {
                    &&& old(self).has_table(table_name@)
                    &&& id.0 == if old(self).next_binding_id >= 1 {
                        old(self).next_binding_id
                    } else {
                        1
                    }
                    &&& final(self).next_binding_id == id.0 + 1
                    &&& final(self).binding_sets@.drop_last() == old(self).binding_sets@
                    &&& final(self).binding_sets@.len() == old(self).binding_sets@.len() + 1
                    &&& final(self).binding_sets@.last().id == id
                    &&& final(self).binding_sets@.last().table_name@ == table_name@
                    &&& final(self).binding_sets@.last().rows@.len() == 0
                },
                Err(DbError::TableNotFound(name)) => {
                    &&& name@ == table_name@
                    &&& !old(self).has_table(table_name@)
                    &&& *final(self) == *old(self)
                },
                Err(_) => false,
            },
    {
        if self.table_index(table_name).is_none() {
            return Err(DbError::TableNotFound(String::from_str(table_name)));
        }
        let id_value = if self.next_binding_id >= 1 {
            self.next_binding_id
        } else {
            1
        };
        let binding_id = BindingId(id_value);
        let ghost old_db = *self;
        self.next_binding_id = id_value + 1;
        self.binding_sets.push(BindingSet::new(binding_id, String::from_str(table_name)));
        proof {
            assert(self.binding_sets@.drop_last() =~= old_db.binding_sets@);
            assert forall|a: int, b: int| 0 <= a < b < self.binding_sets@.len() implies self.binding_sets@[a].id
                != self.binding_sets@[b].id by {
                if b == self.binding_sets@.len() - 1 {
                    assert(old_db.binding_sets@[a].id.0 < old_db.next_binding_id);
                } else {
                    assert(old_db.binding_sets@[a].id != old_db.binding_sets@[b].id);
                }
            }
            assert forall|i: int| 0 <= i < self.binding_sets@.len() implies {
                let b = #[trigger] self.binding_sets@[i];
                &&& b.wf()
                &&& b.id.0 < self.next_binding_id
                &&& self.has_table(b.table_name@)
                &&& forall|j: int|
                    0 <= j < b.rows@.len() ==> has_row(self.table_at(b.table_name@).rows@, b.rows@[j])
            } by {
                if i < old_db.binding_sets@.len() {
                    assert(self.binding_sets@[i] == old_db.binding_sets@[i]);
                }
            }
        }
        Ok(binding_id)
    }

    /// Binds an existing row of the binding set's table; tells whether it was
    /// not bound before.
    pub fn bind_row(&mut self, binding_id: BindingId, row_id: RowId) -> (r: Result<bool, DbError>)
        requires
            old(self).wf(),
        ensures
            final(self).wf(),
            final(self).tables == old(self).tables,
            final(self).next_binding_id == old(self).next_binding_id,
            match r {
                Ok(changed) => {
                    let b = old(self).binding_at(binding_id);
                    &&& old(self).has_binding(binding_id)
                    &&& has_row(old(self).table_at(b.table_name@).rows@, row_id)
                    &&& changed == !b.rows@.contains(row_id)
                    &&& final(self).binding_sets@.len() == old(self).binding_sets@.len()
                    &&& forall|j: int|
                        0 <= j < old(self).binding_sets@.len() && j != id_pos(
                            binding_ids(old(self).binding_sets@),
                            binding_id,
                        ) ==> final(self).binding_sets@[j] == old(self).binding_sets@[j]
                    &&& final(self).has_binding(binding_id)
                    &&& final(self).binding_at(binding_id).table_name == b.table_name
                    &&& final(self).binding_at(binding_id).rows@.to_set() == b.rows@.to_set().insert(row_id)
                },
                Err(DbError::BindingSetNotFound(id)) => {
                    &&& id == binding_id
                    &&& !old(self).has_binding(binding_id)
                    &&& *final(self) == *old(self)
                },
                Err(DbError::RowNotFound { table, row_id: id }) => {
                    let b = old(self).binding_at(binding_id);
                    &&& old(self).has_binding(binding_id)
                    &&& table@ == b.table_name@
                    &&& id == row_id
                    &&& !has_row(old(self).table_at(b.table_name@).rows@, row_id)
                    &&& *final(self) == *old(self)
                },
                Err(_) => false,
            },
    {
        let i = match self.binding_index(binding_id) {
            Some(i) => i,
            None => {
                return Err(DbError::BindingSetNotFound(binding_id));
            },
        };
        let ghost b = self.binding_sets@[i as int];
        assert(self.binding_sets@[i as int].wf());
        if self.row(self.binding_sets[i].table_name.as_str(), row_id).is_err() {
            return Err(DbError::RowNotFound { table: self.binding_sets[i].table_name.clone(), row_id });
        }
        let ghost old_db = *self;
        let changed = self.binding_sets[i].bind_row(row_id);
        proof {
            let ids = binding_ids(self.binding_sets@);
            assert(ids =~= binding_ids(old_db.binding_sets@));
            assert forall|a: int, c: int| 0 <= a < c < self.binding_sets@.len() implies self.binding_sets@[a].id
                != self.binding_sets@[c].id by {
                assert(old_db.binding_sets@[a].id != old_db.binding_sets@[c].id);
            }
            assert forall|k: int| 0 <= k < self.binding_sets@.len() implies {
                let bb = #[trigger] self.binding_sets@[k];
                &&& bb.wf()
                &&& bb.id.0 < self.next_binding_id
                &&& self.has_table(bb.table_name@)
                &&& forall|j: int|
                    0 <= j < bb.rows@.len() ==> has_row(self.table_at(bb.table_name@).rows@, bb.rows@[j])
            } by {
                if k != i {
                    assert(self.binding_sets@[k] == old_db.binding_sets@[k]);
                } else {
                    let bb = self.binding_sets@[k];
                    assert forall|j: int| 0 <= j < bb.rows@.len() implies has_row(
                        self.table_at(bb.table_name@).rows@,
                        bb.rows@[j],
                    ) by {
                        assert(bb.rows@.to_set().contains(bb.rows@[j]));
                        if bb.rows@[j] != row_id {
                            assert(b.rows@.to_set().contains(bb.rows@[j]));
                            let w = choose|w: int| 0 <= w < b.rows@.len() && b.rows@[w] == bb.rows@[j];
                            assert(has_row(old_db.table_at(b.table_name@).rows@, b.rows@[w]));
                        }
                    }
                }
            }
        }
        Ok(changed)
    }

    /// Unbinds a row; tells whether it was bound.
    pub fn unbind_row(&mut self, binding_id: BindingId, row_id: RowId) -> (r: Result<bool, DbError>)
        requires
            old(self).wf(),
        ensures
            final(self).wf(),
            final(self).tables == old(self).tables,
            final(self).next_binding_id == old(self).next_binding_id,
            match r {
                Ok(changed) => {
                    let b = old(self).binding_at(binding_id);
                    &&& old(self).has_binding(binding_id)
                    &&& changed == b.rows@.contains(row_id)
                    &&& final(self).binding_sets@.len() == old(self).binding_sets@.len()
                    &&& forall|j: int|
                        0 <= j < old(self).binding_sets@.len() && j != id_pos(
                            binding_ids(old(self).binding_sets@),
                            binding_id,
                        ) ==> final(self).binding_sets@[j] == old(self).binding_sets@[j]
                    &&& final(self).has_binding(binding_id)
                    &&& final(self).binding_at(binding_id).table_name == b.table_name
                    &&& final(self).binding_at(binding_id).rows@.to_set() == b.rows@.to_set().remove(row_id)
                },
                Err(DbError::BindingSetNotFound(id)) => {
                    &&& id == binding_id
                    &&& !old(self).has_binding(binding_id)
                    &&& *final(self) == *old(self)
                },
                Err(_) => false,
            },
    {
        let i = match self.binding_index(binding_id) {
            Some(i) => i,
            None => {
                return Err(DbError::BindingSetNotFound(binding_id));
            },
        };
        let ghost b = self.binding_sets@[i as int];
        assert(self.binding_sets@[i as int].wf());
        let ghost old_db = *self;
        let changed = self.binding_sets[i].unbind_row(row_id);
        proof {
            let ids = binding_ids(self.binding_sets@);
            assert(ids =~= binding_ids(old_db.binding_sets@));
            assert forall|a: int, c: int| 0 <= a < c < self.binding_sets@.len() implies self.binding_sets@[a].id
                != self.binding_sets@[c].id by {
                assert(old_db.binding_sets@[a].id != old_db.binding_sets@[c].id);
            }
            assert forall|k: int| 0 <= k < self.binding_sets@.len() implies {
                let bb = #[trigger] self.binding_sets@[k];
                &&& bb.wf()
                &&& bb.id.0 < self.next_binding_id
                &&& self.has_table(bb.table_name@)
                &&& forall|j: int|
                    0 <= j < bb.rows@.len() ==> has_row(self.table_at(bb.table_name@).rows@, bb.rows@[j])
            } by {
                if k != i {
                    assert(self.binding_sets@[k] == old_db.binding_sets@[k]);
                } else {
                    let bb = self.binding_sets@[k];
                    assert forall|j: int| 0 <= j < bb.rows@.len() implies has_row(
                        self.table_at(bb.table_name@).rows@,
                        bb.rows@[j],
                    ) by {
                        assert(bb.rows@.to_set().contains(bb.rows@[j]));
                        assert(b.rows@.to_set().contains(bb.rows@[j]));
                        let w = choose|w: int| 0 <= w < b.rows@.len() && b.rows@[w] == bb.rows@[j];
                        assert(has_row(old_db.table_at(b.table_name@).rows@, b.rows@[w]));
                    }
                }
            }
        }
        Ok(changed)
    }
}

} // verus!
