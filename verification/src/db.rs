use vstd::prelude::*;
use vstd::string::*;

use crate::binding::BindingSet;
use crate::error::DbError;
use crate::ids::{BindingId, RowId};
use crate::row::Row;
use crate::schema::TableSchema;
use crate::table::{has_row, row_of, Table};
use crate::text::text_eq;

pub mod binding_ops;
pub mod effects;
pub mod judging;
pub mod laws;
pub mod persist_ops;
pub mod projection_ops;
pub mod query_ops;
pub mod relation_ops;
pub mod semantic_write;
pub mod traversal_ops;
pub mod validation;

verus! {

/// The names of the tables, in order.
pub open spec fn table_names(tables: Seq<Table>) -> Seq<Seq<char>> {
    tables.map_values(|t: Table| t.schema.name@)
}

/// A position of `name` in `names`; with distinct names, the only one.
pub open spec fn name_pos(names: Seq<Seq<char>>, name: Seq<char>) -> int {
    choose|i: int| 0 <= i < names.len() && names[i] == name
}

/// Binding identifiers, in order.
pub open spec fn binding_ids(sets: Seq<BindingSet>) -> Seq<BindingId> {
    sets.map_values(|b: BindingSet| b.id)
}

pub open spec fn id_pos(ids: Seq<BindingId>, id: BindingId) -> int {
    choose|i: int| 0 <= i < ids.len() && ids[i] == id
}

/// A database: tables by name, and binding sets over their rows.
#[derive(Debug, Clone)]
pub struct Database {
    pub tables: Vec<Table>,
    pub binding_sets: Vec<BindingSet>,
    pub next_binding_id: u64,
}

impl Database {
    pub open spec fn has_table(&self, name: Seq<char>) -> bool {
        table_names(self.tables@).contains(name)
    }

    pub open spec fn table_pos(&self, name: Seq<char>) -> int {
        name_pos(table_names(self.tables@), name)
    }

    /// The table named `name`.
    pub open spec fn table_at(&self, name: Seq<char>) -> Table {
        self.tables@[self.table_pos(name)]
    }

    pub open spec fn has_binding(&self, id: BindingId) -> bool {
        binding_ids(self.binding_sets@).contains(id)
    }

    /// The binding set with identifier `id`.
    pub open spec fn binding_at(&self, id: BindingId) -> BindingSet {
        self.binding_sets@[id_pos(binding_ids(self.binding_sets@), id)]
    }

    pub open spec fn wf(&self) -> bool {
        &&& forall|i: int| 0 <= i < self.tables@.len() ==> (#[trigger] self.tables@[i]).wf()
        &&& forall|a: int, b: int|
            0 <= a < b < self.tables@.len() ==> self.tables@[a].schema.name@
                != self.tables@[b].schema.name@
        &&& forall|a: int, b: int|
            0 <= a < b < self.binding_sets@.len() ==> self.binding_sets@[a].id
                != self.binding_sets@[b].id
        &&& forall|i: int|
            0 <= i < self.binding_sets@.len() ==> {
                let b = #[trigger] self.binding_sets@[i];
                &&& b.wf()
                &&& b.id.0 < self.next_binding_id
                &&& self.has_table(b.table_name@)
                &&& forall|j: int|
                    0 <= j < b.rows@.len() ==> has_row(self.table_at(b.table_name@).rows@, b.rows@[j])
            }
    }

    /// Only the table at `pos` may differ between the two databases, and
    /// its name did not change.
    pub open spec fn only_table_changed(&self, other: Database, pos: int) -> bool {
        &&& self.tables@.len() == other.tables@.len()
        &&& 0 <= pos < self.tables@.len()
        &&& forall|j: int| 0 <= j < self.tables@.len() && j != pos ==> self.tables@[j] == other.tables@[j]
        &&& self.tables@[pos].schema == other.tables@[pos].schema
        &&& self.binding_sets == other.binding_sets
        &&& self.next_binding_id == other.next_binding_id
    }

    /// The two databases hold the same tables and binding sets.
    pub open spec fn same_as(&self, other: Database) -> bool {
        &&& self.tables@ == other.tables@
        &&& self.binding_sets@ == other.binding_sets@
        &&& self.next_binding_id == other.next_binding_id
    }

    pub fn new() -> (db: Self)
        ensures
            db.wf(),
            db.tables@.len() == 0,
            db.binding_sets@.len() == 0,
            db.next_binding_id == 0,
    {
        Database { tables: Vec::new(), binding_sets: Vec::new(), next_binding_id: 0 }
    }

    /// Position of the table named `name`.
    pub fn table_index(&self, name: &str) -> (r: Option<usize>)
        requires
            self.wf(),
        ensures
            match r {
                Some(i) => self.has_table(name@) && i == self.table_pos(name@) && i < self.tables@.len()
                    && self.tables@[i as int].schema.name@ == name@,
                None => !self.has_table(name@),
            },
    {
        let mut i: usize = 0;
        while i < self.tables.len()
            invariant
                self.wf(),
                i <= self.tables@.len(),
                forall|k: int| 0 <= k < i ==> self.tables@[k].schema.name@ != name@,
            decreases self.tables@.len() - i,
        {
            if text_eq(self.tables[i].schema.name.as_str(), name) {
                proof {
                    let names = table_names(self.tables@);
                    assert(names[i as int] == name@);
                    let p = name_pos(names, name@);
                    if p != i {
                        assert(names[p] == self.tables@[p].schema.name@);
                    }
                }
                return Some(i);
            }
            i = i + 1;
        }
        proof {
            if self.has_table(name@) {
                let names = table_names(self.tables@);
                let k = choose|k: int| 0 <= k < names.len() && names[k] == name@;
                assert(names[k] == self.tables@[k].schema.name@);
            }
        }
        None
    }

    /// Position of the binding set with identifier `id`.
    pub fn binding_index(&self, id: BindingId) -> (r: Option<usize>)
        requires
            self.wf(),
        ensures
            match r {
                Some(i) => self.has_binding(id) && i < self.binding_sets@.len() && self.binding_sets@[i as int]
                    == self.binding_at(id) && self.binding_sets@[i as int].id == id,
                None => !self.has_binding(id),
            },
    {
        let mut i: usize = 0;
        while i < self.binding_sets.len()
            invariant
                self.wf(),
                i <= self.binding_sets@.len(),
                forall|k: int| 0 <= k < i ==> self.binding_sets@[k].id != id,
            decreases self.binding_sets@.len() - i,
        {
            if self.binding_sets[i].id.0 == id.0 {
                proof {
                    let ids = binding_ids(self.binding_sets@);
                    assert(ids[i as int] == id);
                    let p = id_pos(ids, id);
                    if p != i {
                        assert(ids[p] == self.binding_sets@[p].id);
                    }
                }
                return Some(i);
            }
            i = i + 1;
        }
        proof {
            if self.has_binding(id) {
                let ids = binding_ids(self.binding_sets@);
                let k = choose|k: int| 0 <= k < ids.len() && ids[k] == id;
                assert(ids[k] == self.binding_sets@[k].id);
            }
        }
        None
    }

    /// Adds an empty table with the given schema.
    pub fn create_table(&mut self, schema: TableSchema) -> (r: Result<(), DbError>)
        requires
            old(self).wf(),
            schema.wf(),
        ensures
            final(self).wf(),
            match r {
                Ok(()) => {
                    &&& !old(self).has_table(schema.name@)
                    &&& final(self).tables@.len() == old(self).tables@.len() + 1
                    &&& final(self).tables@.drop_last() == old(self).tables@
                    &&& final(self).tables@.last().is_new_for(schema)
                    &&& final(self).binding_sets == old(self).binding_sets
                    &&& final(self).next_binding_id == old(self).next_binding_id
                },
                Err(DbError::TableAlreadyExists(name)) => {
                    &&& name@ == schema.name@
                    &&& old(self).has_table(schema.name@)
                    &&& *final(self) == *old(self)
                },
                Err(_) => false,
            },
    {
        if self.table_index(schema.name.as_str()).is_some() {
            return Err(DbError::TableAlreadyExists(schema.name.clone()));
        }
        let ghost old_db = *self;
        let table = Table::new(schema);
        self.tables.push(table);
        proof {
            assert(self.tables@.drop_last() =~= old_db.tables@);
            let names = table_names(self.tables@);
            assert(names =~= table_names(old_db.tables@).push(schema.name@));
            assert forall|a: int, b: int| 0 <= a < b < self.tables@.len() implies self.tables@[a].schema.name@
                != self.tables@[b].schema.name@ by {
                if b == self.tables@.len() - 1 {
                    assert(table_names(old_db.tables@)[a] == old_db.tables@[a].schema.name@);
                }
            }
            lemma_table_at_preserved(old_db, *self);
        }
        Ok(())
    }

    pub fn binding_set(&self, binding_id: BindingId) -> (r: Result<&BindingSet, DbError>)
        requires
            self.wf(),
        ensures
            match r {
                Ok(b) => self.has_binding(binding_id) && *b == self.binding_at(binding_id),
                Err(e) => !self.has_binding(binding_id) && e == DbError::BindingSetNotFound(binding_id),
            },
    {
        match self.binding_index(binding_id) {
            Some(i) => Ok(&self.binding_sets[i]),
            None => Err(DbError::BindingSetNotFound(binding_id)),
        }
    }

    pub fn table(&self, table_name: &str) -> (r: Result<&Table, DbError>)
        requires
            self.wf(),
        ensures
            match r {
                Ok(t) => self.has_table(table_name@) && *t == self.table_at(table_name@),
                Err(DbError::TableNotFound(name)) => name@ == table_name@ && !self.has_table(table_name@),
                Err(_) => false,
            },
    {
        match self.table_index(table_name) {
            Some(i) => Ok(&self.tables[i]),
            None => Err(DbError::TableNotFound(String::from_str(table_name))),
        }
    }

    pub fn row(&self, table_name: &str, row_id: RowId) -> (r: Result<&Row, DbError>)
        requires
            self.wf(),
        ensures
            match r {
                Ok(row) => self.has_table(table_name@) && has_row(self.table_at(table_name@).rows@, row_id)
                    && *row == row_of(self.table_at(table_name@).rows@, row_id),
                Err(DbError::TableNotFound(name)) => name@ == table_name@ && !self.has_table(table_name@),
                Err(DbError::RowNotFound { table, row_id: id }) => {
                    &&& table@ == table_name@
                    &&& id == row_id
                    &&& self.has_table(table_name@)
                    &&& !has_row(self.table_at(table_name@).rows@, row_id)
                },
                Err(_) => false,
            },
    {
        let table = self.table(table_name)?;
        proof {
            assert(self.tables@[self.table_pos(table_name@)].wf());
        }
        match table.row(row_id) {
            Some(row) => Ok(row),
            None => Err(DbError::RowNotFound { table: String::from_str(table_name), row_id }),
        }
    }
}

impl Table {
    /// `self` is the table that `Table::new` makes from `schema`.
    pub open spec fn is_new_for(&self, schema: TableSchema) -> bool {
        &&& self.schema == schema
        &&& self.rows@.len() == 0
        &&& self.compatible_edges@.len() == 0
        &&& self.support_edges@.len() == 0
        &&& self.compressible_edges@.len() == 0
        &&& self.conflict_edges@.len() == 0
        &&& self.conflict_records@.len() == 0
        &&& self.next_row_id == 1
        &&& self.next_conflict_id == 1
    }
}

/// Tables that kept their names and rows keep the tables that the binding
/// sets name, and their rows.
pub proof fn lemma_table_at_preserved(before: Database, after: Database)
    requires
        before.wf(),
        after.binding_sets == before.binding_sets,
        after.next_binding_id == before.next_binding_id,
        forall|i: int| 0 <= i < after.tables@.len() ==> (#[trigger] after.tables@[i]).wf(),
        forall|a: int, b: int|
            0 <= a < b < after.tables@.len() ==> after.tables@[a].schema.name@
                != after.tables@[b].schema.name@,
        after.tables@.len() >= before.tables@.len(),
        forall|i: int|
            0 <= i < before.tables@.len() ==> after.tables@[i].schema.name@
                == before.tables@[i].schema.name@,
        forall|i: int, id: RowId|
            0 <= i < before.tables@.len() && has_row(before.tables@[i].rows@, id) ==> has_row(
                after.tables@[i].rows@,
                id,
            ),
    ensures
        after.wf(),
        forall|name: Seq<char>| before.has_table(name) ==> after.has_table(name) && after.table_pos(name) == before.table_pos(name),
{
    assert forall|name: Seq<char>| before.has_table(name) implies after.has_table(name) && after.table_pos(name)
        == before.table_pos(name) by {
        let bn = table_names(before.tables@);
        let an = table_names(after.tables@);
        let p = name_pos(bn, name);
        assert(bn[p] == before.tables@[p].schema.name@);
        assert(an[p] == after.tables@[p].schema.name@);
        let q = name_pos(an, name);
        assert(an[q] == after.tables@[q].schema.name@);
        if q != p {
            if q < p {
                assert(after.tables@[q].schema.name@ != after.tables@[p].schema.name@);
            } else {
                assert(after.tables@[p].schema.name@ != after.tables@[q].schema.name@);
            }
        }
    }
    assert forall|i: int| 0 <= i < after.binding_sets@.len() implies {
        let b = #[trigger] after.binding_sets@[i];
        &&& b.wf()
        &&& b.id.0 < after.next_binding_id
        &&& after.has_table(b.table_name@)
        &&& forall|j: int|
            0 <= j < b.rows@.len() ==> has_row(after.table_at(b.table_name@).rows@, b.rows@[j])
    } by {
        let b = after.binding_sets@[i];
        assert(before.binding_sets@[i] == b);
        assert(before.has_table(b.table_name@));
        let p = before.table_pos(b.table_name@);
        assert forall|j: int| 0 <= j < b.rows@.len() implies has_row(after.table_at(b.table_name@).rows@, b.rows@[j]) by {
            assert(has_row(before.tables@[p].rows@, b.rows@[j]));
        }
    }
}

} // verus!
