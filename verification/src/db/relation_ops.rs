use vstd::prelude::*;
use vstd::string::*;

use crate::db::{lemma_table_at_preserved, Database};
use crate::error::DbError;
use crate::ids::{ConflictId, RowId};
use crate::relation::{edge_of, ConflictRecord, ConflictStatus, SemanticEdge};
use crate::sets::ids_sorted;
use crate::table::{edge_allowed, has_row, Table};

verus! {

/// The table at `pos` changed, keeping its rows; the database stays well
/// formed, and every name still finds the same position.
pub proof fn lemma_one_table_changed(before: Database, after: Database, pos: int)
    requires
        before.wf(),
        after.only_table_changed(before, pos),
        after.tables@[pos].wf(),
        forall|id: RowId| has_row(before.tables@[pos].rows@, id) ==> has_row(after.tables@[pos].rows@, id),
    ensures
        after.wf(),
        forall|name: Seq<char>|
            #![trigger after.has_table(name)]
            before.has_table(name) <==> after.has_table(name),
        forall|name: Seq<char>| before.has_table(name) ==> after.table_pos(name) == before.table_pos(name),
{
    assert forall|i: int| 0 <= i < after.tables@.len() implies (#[trigger] after.tables@[i]).wf() by {
        if i != pos {
            assert(after.tables@[i] == before.tables@[i]);
        }
    }
    assert forall|a: int, b: int| 0 <= a < b < after.tables@.len() implies after.tables@[a].schema.name@
        != after.tables@[b].schema.name@ by {
        assert(before.tables@[a].schema.name@ != before.tables@[b].schema.name@);
        if a != pos {
            assert(after.tables@[a] == before.tables@[a]);
        }
        if b != pos {
            assert(after.tables@[b] == before.tables@[b]);
        }
    }
    assert forall|i: int, id: RowId|
        0 <= i < before.tables@.len() && has_row(before.tables@[i].rows@, id) implies has_row(
        after.tables@[i].rows@,
        id,
    ) by {
        if i != pos {
            assert(after.tables@[i] == before.tables@[i]);
        }
    }
    assert forall|i: int| 0 <= i < before.tables@.len() implies after.tables@[i].schema.name@
        == before.tables@[i].schema.name@ by {
        if i != pos {
            assert(after.tables@[i] == before.tables@[i]);
        }
    }
    lemma_table_at_preserved(before, after);
    assert forall|name: Seq<char>| #![trigger after.has_table(name)] after.has_table(name) implies before.has_table(name) by {
        let an = crate::db::table_names(after.tables@);
        let k = choose|k: int| 0 <= k < an.len() && an[k] == name;
        assert(an[k] == after.tables@[k].schema.name@);
        assert(crate::db::table_names(before.tables@)[k] == before.tables@[k].schema.name@);
    }
}

/// What adding an edge of some kind did to a table, or why it did not.
pub open spec fn edge_result(
    r: Result<(), DbError>,
    before: Database,
    after: Database,
    table_name: Seq<char>,
    left: RowId,
    right: RowId,
    changed: spec_fn(Table, Table) -> bool,
) -> bool {
    match r {
        Ok(()) => {
            &&& before.has_table(table_name)
            &&& after.only_table_changed(before, before.table_pos(table_name))
            &&& edge_allowed(before.table_at(table_name).rows@, left, right)
            &&& after.table_at(table_name).same_but_edges(before.table_at(table_name))
            &&& changed(before.table_at(table_name), after.table_at(table_name))
        },
        Err(DbError::TableNotFound(name)) => {
            &&& name@ == table_name
            &&& !before.has_table(table_name)
            &&& after.same_as(before)
        },
        Err(DbError::InvalidSemanticEdge { table, left: l, right: rr }) => {
            &&& before.has_table(table_name)
            &&& table@ == table_name
            &&& l == left
            &&& rr == right
            &&& !edge_allowed(before.table_at(table_name).rows@, left, right)
            &&& after.same_as(before)
        },
        Err(_) => false,
    }
}

/// A support edge was added: it is also a compatible one.
pub open spec fn support_added(left: RowId, right: RowId) -> spec_fn(Table, Table) -> bool {
    |t0: Table, t1: Table|
        {
            &&& t1.support_edges@.to_set() == t0.support_edges@.to_set().insert(edge_of(left, right))
            &&& t1.compatible_edges@.to_set() == t0.compatible_edges@.to_set().insert(edge_of(left, right))
            &&& t1.compressible_edges == t0.compressible_edges
            &&& t1.conflict_edges == t0.conflict_edges
        }
}

/// A compressible edge was added: it is also a compatible one.
pub open spec fn compressible_added(left: RowId, right: RowId) -> spec_fn(Table, Table) -> bool {
    |t0: Table, t1: Table|
        {
            &&& t1.compressible_edges@.to_set() == t0.compressible_edges@.to_set().insert(edge_of(left, right))
            &&& t1.compatible_edges@.to_set() == t0.compatible_edges@.to_set().insert(edge_of(left, right))
            &&& t1.support_edges == t0.support_edges
            &&& t1.conflict_edges == t0.conflict_edges
        }
}

/// A generic compatible edge was added.
pub open spec fn compatible_added(left: RowId, right: RowId) -> spec_fn(Table, Table) -> bool {
    |t0: Table, t1: Table|
        {
            &&& t1.compatible_edges@.to_set() == t0.compatible_edges@.to_set().insert(edge_of(left, right))
            &&& t1.support_edges == t0.support_edges
            &&& t1.compressible_edges == t0.compressible_edges
            &&& t1.conflict_edges == t0.conflict_edges
        }
}

/// A conflict edge was added.
pub open spec fn conflict_added(left: RowId, right: RowId) -> spec_fn(Table, Table) -> bool {
    |t0: Table, t1: Table|
        {
            &&& t1.conflict_edges@.to_set() == t0.conflict_edges@.to_set().insert(edge_of(left, right))
            &&& t1.compatible_edges == t0.compatible_edges
            &&& t1.support_edges == t0.support_edges
            &&& t1.compressible_edges == t0.compressible_edges
        }
}

impl Database {
    pub fn add_compatible_edge(&mut self, table_name: &str, left: RowId, right: RowId) -> (r: Result<(), DbError>)
        requires
            old(self).wf(),
        ensures
            final(self).wf(),
            edge_result(r, *old(self), *final(self), table_name@, left, right, compatible_added(left, right)),
    {
        let i = match self.table_index(table_name) {
            Some(i) => i,
            None => {
                return Err(DbError::TableNotFound(String::from_str(table_name)));
            },
        };
        assert(self.tables@[i as int].wf());
        let ghost before = *self;
        let r = self.tables[i].add_compatible_edge(left, right);
        proof {
            lemma_one_table_changed(before, *self, i as int);
            assert(before.has_table(table_name@));
            assert(self.table_pos(table_name@) == i);
            assert(self.table_at(table_name@) == self.tables@[i as int]);
            assert(before.table_at(table_name@) == before.tables@[i as int]);
            match r {
                Ok(()) => {
                    assert(self.only_table_changed(before, before.table_pos(table_name@)));
                    assert(compatible_added(left, right)(before.table_at(table_name@), self.table_at(table_name@)));
                },
                Err(_) => {
                    assert(self.tables@ =~= before.tables@);
                },
            }
        }
        r
    }

    pub fn add_support_edge(&mut self, table_name: &str, left: RowId, right: RowId) -> (r: Result<(), DbError>)
        requires
            old(self).wf(),
        ensures
            final(self).wf(),
            edge_result(r, *old(self), *final(self), table_name@, left, right, support_added(left, right)),
    {
        let i = match self.table_index(table_name) {
            Some(i) => i,
            None => {
                return Err(DbError::TableNotFound(String::from_str(table_name)));
            },
        };
        assert(self.tables@[i as int].wf());
        let ghost before = *self;
        let r = self.tables[i].add_support_edge(left, right);
        proof {
            lemma_one_table_changed(before, *self, i as int);
            assert(before.has_table(table_name@));
            assert(self.table_pos(table_name@) == i);
            assert(self.table_at(table_name@) == self.tables@[i as int]);
            assert(before.table_at(table_name@) == before.tables@[i as int]);
            match r {
                Ok(()) => {
                    assert(self.only_table_changed(before, before.table_pos(table_name@)));
                    assert(support_added(left, right)(before.table_at(table_name@), self.table_at(table_name@)));
                },
                Err(_) => {
                    assert(self.tables@ =~= before.tables@);
                },
            }
        }
        r
    }

    pub fn add_compressible_edge(&mut self, table_name: &str, left: RowId, right: RowId) -> (r: Result<(), DbError>)
        requires
            old(self).wf(),
        ensures
            final(self).wf(),
            edge_result(r, *old(self), *final(self), table_name@, left, right, compressible_added(left, right)),
    {
        let i = match self.table_index(table_name) {
            Some(i) => i,
            None => {
                return Err(DbError::TableNotFound(String::from_str(table_name)));
            },
        };
        assert(self.tables@[i as int].wf());
        let ghost before = *self;
        let r = self.tables[i].add_compressible_edge(left, right);
        proof {
            lemma_one_table_changed(before, *self, i as int);
            assert(before.has_table(table_name@));
            assert(self.table_pos(table_name@) == i);
            assert(self.table_at(table_name@) == self.tables@[i as int]);
            assert(before.table_at(table_name@) == before.tables@[i as int]);
            match r {
                Ok(()) => {
                    assert(self.only_table_changed(before, before.table_pos(table_name@)));
                    assert(compressible_added(left, right)(before.table_at(table_name@), self.table_at(table_name@)));
                },
                Err(_) => {
                    assert(self.tables@ =~= before.tables@);
                },
            }
        }
        r
    }

    pub fn add_conflict_edge(&mut self, table_name: &str, left: RowId, right: RowId) -> (r: Result<(), DbError>)
        requires
            old(self).wf(),
        ensures
            final(self).wf(),
            edge_result(r, *old(self), *final(self), table_name@, left, right, conflict_added(left, right)),
    {
        let i = match self.table_index(table_name) {
            Some(i) => i,
            None => {
                return Err(DbError::TableNotFound(String::from_str(table_name)));
            },
        };
        assert(self.tables@[i as int].wf());
        let ghost before = *self;
        let r = self.tables[i].add_conflict_edge(left, right);
        proof {
            lemma_one_table_changed(before, *self, i as int);
            assert(before.has_table(table_name@));
            assert(self.table_pos(table_name@) == i);
            assert(self.table_at(table_name@) == self.tables@[i as int]);
            assert(before.table_at(table_name@) == before.tables@[i as int]);
            match r {
                Ok(()) => {
                    assert(self.only_table_changed(before, before.table_pos(table_name@)));
                    assert(conflict_added(left, right)(before.table_at(table_name@), self.table_at(table_name@)));
                },
                Err(_) => {
                    assert(self.tables@ =~= before.tables@);
                },
            }
        }
        r
    }
}

impl Database {
    pub fn support_edges(&self, table_name: &str) -> (r: Result<&[SemanticEdge], DbError>)
        requires
            self.wf(),
        ensures
            match r {
                Ok(es) => self.has_table(table_name@) && es@ == self.table_at(table_name@).support_edges@,
                Err(DbError::TableNotFound(name)) => name@ == table_name@ && !self.has_table(table_name@),
                Err(_) => false,
            },
    {
        let table = self.table(table_name)?;
        Ok(table.support_edges())
    }

    pub fn compatible_edges(&self, table_name: &str) -> (r: Result<&[SemanticEdge], DbError>)
        requires
            self.wf(),
        ensures
            match r {
                Ok(es) => self.has_table(table_name@) && es@ == self.table_at(table_name@).compatible_edges@,
                Err(DbError::TableNotFound(name)) => name@ == table_name@ && !self.has_table(table_name@),
                Err(_) => false,
            },
    {
        let table = self.table(table_name)?;
        Ok(table.compatible_edges())
    }

    pub fn conflict_edges(&self, table_name: &str) -> (r: Result<&[SemanticEdge], DbError>)
        requires
            self.wf(),
        ensures
            match r {
                Ok(es) => self.has_table(table_name@) && es@ == self.table_at(table_name@).conflict_edges@,
                Err(DbError::TableNotFound(name)) => name@ == table_name@ && !self.has_table(table_name@),
                Err(_) => false,
            },
    {
        let table = self.table(table_name)?;
        Ok(table.conflict_edges())
    }

    pub fn compressible_edges(&self, table_name: &str) -> (r: Result<&[SemanticEdge], DbError>)
        requires
            self.wf(),
        ensures
            match r {
                Ok(es) => self.has_table(table_name@) && es@ == self.table_at(table_name@).compressible_edges@,
                Err(DbError::TableNotFound(name)) => name@ == table_name@ && !self.has_table(table_name@),
                Err(_) => false,
            },
    {
        let table = self.table(table_name)?;
        Ok(table.compressible_edges())
    }

    /// Records a conflict among the given rows of a table.
    pub fn create_conflict_record(&mut self, table_name: &str, row_ids: &[RowId]) -> (r: Result<ConflictId, DbError>)
        requires
            old(self).wf(),
            old(self).has_table(table_name@) ==> old(self).table_at(table_name@).next_conflict_id < u64::MAX,
        ensures
            final(self).wf(),
            match r {
                Ok(id) => {
                    let t0 = old(self).table_at(table_name@);
                    let t1 = final(self).table_at(table_name@);
                    &&& old(self).has_table(table_name@)
                    &&& final(self).only_table_changed(*old(self), old(self).table_pos(table_name@))
                    &&& t1.same_but_records(t0)
                    &&& id.0 == t0.next_conflict_id
                    &&& id.0 == t0.conflict_records@.len() + 1
                    &&& t1.next_conflict_id == t0.next_conflict_id + 1
                    &&& t1.conflict_records@.drop_last() == t0.conflict_records@
                    &&& t1.conflict_records@.len() == t0.conflict_records@.len() + 1
                    &&& t1.conflict_records@.last().id == id
                    &&& t1.conflict_records@.last().status == ConflictStatus::Open
                    &&& t1.conflict_records@.last().rows@.to_set() == row_ids@.to_set()
                    &&& ids_sorted(t1.conflict_records@.last().rows@)
                    &&& row_ids@.len() > 0
                    &&& forall|x: RowId| row_ids@.contains(x) ==> has_row(t0.rows@, x)
                },
                Err(DbError::TableNotFound(name)) => {
                    &&& name@ == table_name@
                    &&& !old(self).has_table(table_name@)
                    &&& final(self).same_as(*old(self))
                },
                Err(DbError::EmptyConflictRecordRows { table }) => {
                    &&& old(self).has_table(table_name@)
                    &&& table@ == table_name@
                    &&& row_ids@.len() == 0
                    &&& final(self).same_as(*old(self))
                },
                Err(DbError::RowNotFound { table, row_id }) => {
                    let t0 = old(self).table_at(table_name@);
                    &&& old(self).has_table(table_name@)
                    &&& table@ == table_name@
                    &&& row_ids@.contains(row_id)
                    &&& !has_row(t0.rows@, row_id)
                    &&& forall|x: RowId| row_ids@.contains(x) && x.0 < row_id.0 ==> has_row(t0.rows@, x)
                    &&& final(self).same_as(*old(self))
                },
                Err(_) => false,
            },
    {
        let i = match self.table_index(table_name) {
            Some(i) => i,
            None => {
                return Err(DbError::TableNotFound(String::from_str(table_name)));
            },
        };
        assert(self.tables@[i as int].wf());
        let ghost before = *self;
        let r = self.tables[i].create_conflict_record(row_ids);
        proof {
            lemma_one_table_changed(before, *self, i as int);
            assert(self.table_pos(table_name@) == i);
            match r {
                Ok(_) => {},
                Err(_) => {
                    assert(self.tables@ =~= before.tables@);
                },
            }
        }
        r
    }

    pub fn conflict_record(&self, table_name: &str, conflict_id: ConflictId) -> (r: Result<&ConflictRecord, DbError>)
        requires
            self.wf(),
        ensures
            match r {
                Ok(rec) => {
                    &&& self.has_table(table_name@)
                    &&& rec.id == conflict_id
                    &&& self.table_at(table_name@).conflict_records@.contains(*rec)
                },
                Err(DbError::TableNotFound(name)) => name@ == table_name@ && !self.has_table(table_name@),
                Err(DbError::ConflictRecordNotFound { table, conflict_id: c }) => {
                    &&& self.has_table(table_name@)
                    &&& table@ == table_name@
                    &&& c == conflict_id
                    &&& forall|k: int|
                        0 <= k < self.table_at(table_name@).conflict_records@.len() ==> self.table_at(
                            table_name@,
                        ).conflict_records@[k].id != conflict_id
                },
                Err(_) => false,
            },
    {
        let table = self.table(table_name)?;
        match table.conflict_record(conflict_id) {
            Some(rec) => {
                proof {
                    let k = choose|k: int|
                        0 <= k < table.conflict_records@.len() && table.conflict_records@[k] == *rec
                            && rec.id == conflict_id;
                    assert(table.conflict_records@[k] == *rec);
                }
                Ok(rec)
            },
            None => Err(
                DbError::ConflictRecordNotFound { table: String::from_str(table_name), conflict_id },
            ),
        }
    }

    pub fn conflict_records(&self, table_name: &str) -> (r: Result<&[ConflictRecord], DbError>)
        requires
            self.wf(),
        ensures
            match r {
                Ok(recs) => self.has_table(table_name@) && recs@ == self.table_at(table_name@).conflict_records@,
                Err(DbError::TableNotFound(name)) => name@ == table_name@ && !self.has_table(table_name@),
                Err(_) => false,
            },
    {
        let table = self.table(table_name)?;
        Ok(table.conflict_records())
    }

    /// Sets the status of a conflict record of a table.
    pub fn set_conflict_status(
        &mut self,
        table_name: &str,
        conflict_id: ConflictId,
        status: ConflictStatus,
    ) -> (r: Result<(), DbError>)
        requires
            old(self).wf(),
        ensures
            final(self).wf(),
            match r {
                Ok(()) => {
                    let t0 = old(self).table_at(table_name@);
                    let t1 = final(self).table_at(table_name@);
                    &&& old(self).has_table(table_name@)
                    &&& final(self).only_table_changed(*old(self), old(self).table_pos(table_name@))
                    &&& exists|i: int|
                        0 <= i < t0.conflict_records@.len() && t0.conflict_records@[i].id == conflict_id
                            && t1.conflict_records@ == t0.conflict_records@.update(
                            i,
                            ConflictRecord { status, ..t0.conflict_records@[i] },
                        )
                    &&& t1 == (Table { conflict_records: t1.conflict_records, ..t0 })
                },
                Err(DbError::TableNotFound(name)) => {
                    &&& name@ == table_name@
                    &&& !old(self).has_table(table_name@)
                    &&& final(self).same_as(*old(self))
                },
                Err(DbError::ConflictRecordNotFound { table, conflict_id: c }) => {
                    let t0 = old(self).table_at(table_name@);
                    &&& old(self).has_table(table_name@)
                    &&& table@ == table_name@
                    &&& c == conflict_id
                    &&& forall|k: int| 0 <= k < t0.conflict_records@.len() ==> t0.conflict_records@[k].id != conflict_id
                    &&& final(self).same_as(*old(self))
                },
                Err(_) => false,
            },
    {
        let i = match self.table_index(table_name) {
            Some(i) => i,
            None => {
                return Err(DbError::TableNotFound(String::from_str(table_name)));
            },
        };
        assert(self.tables@[i as int].wf());
        let ghost before = *self;
        let r = self.tables[i].set_conflict_status(conflict_id, status);
        proof {
            lemma_one_table_changed(before, *self, i as int);
            assert(self.table_pos(table_name@) == i);
            match r {
                Ok(_) => {},
                Err(_) => {
                    assert(self.tables@ =~= before.tables@);
                },
            }
        }
        r
    }
}

} // verus!
