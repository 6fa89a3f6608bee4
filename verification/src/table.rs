use vstd::prelude::*;

use crate::error::DbError;
use crate::ids::{ConflictId, RowId};
use crate::relation::{edge_of, ConflictRecord, ConflictStatus, SemanticEdge};
use crate::row::{keys_sorted, last_value, lemma_sorted_entries_unique, named_len, value_of, NamedValues, Row};
use crate::schema::TableSchema;
use crate::sets::{contains_edge, edges_sorted, ids_sorted, insert_edge, insert_row_id};
use crate::value::Value;

verus! {

/// The identifiers of `rows`, in order.
pub open spec fn row_ids_of(rows: Seq<Row>) -> Seq<RowId> {
    rows.map_values(|r: Row| r.id)
}

/// Some row of `rows` has identifier `id`.
pub open spec fn has_row(rows: Seq<Row>, id: RowId) -> bool {
    exists|i: int| 0 <= i < rows.len() && #[trigger] rows[i].id == id
}

/// The row of `rows` with identifier `id`; with distinct identifiers, the
/// only one.
pub open spec fn row_of(rows: Seq<Row>, id: RowId) -> Row {
    rows[choose|i: int| 0 <= i < rows.len() && #[trigger] rows[i].id == id]
}

/// `values` holds one value per column, of the column's type.
pub open spec fn values_fit(schema: TableSchema, values: Seq<Value>) -> bool {
    &&& values.len() == schema.columns@.len()
    &&& forall|c: int|
        0 <= c < values.len() ==> (#[trigger] values[c]).spec_data_type()
            == schema.columns@[c].data_type
}

/// Each edge joins two different existing rows, and the edges are sorted.
pub open spec fn edges_valid(es: Seq<SemanticEdge>, rows: Seq<Row>) -> bool {
    &&& edges_sorted(es)
    &&& forall|i: int|
        0 <= i < es.len() ==> {
            &&& (#[trigger] es[i]).first.0 < es[i].second.0
            &&& has_row(rows, es[i].first)
            &&& has_row(rows, es[i].second)
        }
}

/// Conflict records have increasing identifiers below `next`, and each names a
/// non-empty sorted set of existing rows.
pub open spec fn records_valid(recs: Seq<ConflictRecord>, rows: Seq<Row>, next: u64) -> bool {
    &&& forall|a: int, b: int| 0 <= a < b < recs.len() ==> recs[a].id.0 < recs[b].id.0
    &&& forall|i: int|
        0 <= i < recs.len() ==> {
            &&& 1 <= (#[trigger] recs[i]).id.0 < next
            &&& recs[i].rows@.len() > 0
            &&& ids_sorted(recs[i].rows@)
            &&& forall|j: int| 0 <= j < recs[i].rows@.len() ==> has_row(rows, recs[i].rows@[j])
        }
}

/// A two-row edge `e` touches only rows of `rows`.
pub open spec fn edge_valid(e: SemanticEdge, rows: Seq<Row>) -> bool {
    e.first.0 < e.second.0 && has_row(rows, e.first) && has_row(rows, e.second)
}

/// Why `left` and `right` cannot be related.
pub open spec fn edge_allowed(rows: Seq<Row>, left: RowId, right: RowId) -> bool {
    left != right && has_row(rows, left) && has_row(rows, right)
}

/// A table: its schema, its rows in the order they were written, its
/// semantic relations and its conflict records.
#[derive(Debug, Clone)]
pub struct Table {
    pub schema: TableSchema,
    pub rows: Vec<Row>,
    pub compatible_edges: Vec<SemanticEdge>,
    pub support_edges: Vec<SemanticEdge>,
    pub compressible_edges: Vec<SemanticEdge>,
    pub conflict_edges: Vec<SemanticEdge>,
    pub conflict_records: Vec<ConflictRecord>,
    pub next_row_id: u64,
    pub next_conflict_id: u64,
}

impl Table {
    pub open spec fn wf(&self) -> bool {
        &&& self.schema.wf()
        &&& ids_sorted(row_ids_of(self.rows@))
        &&& forall|i: int|
            0 <= i < self.rows@.len() ==> 1 <= (#[trigger] self.rows@[i]).id.0 < self.next_row_id
        &&& forall|i: int|
            0 <= i < self.rows@.len() ==> values_fit(self.schema, (#[trigger] self.rows@[i]).values@)
        &&& edges_valid(self.compatible_edges@, self.rows@)
        &&& edges_valid(self.support_edges@, self.rows@)
        &&& edges_valid(self.compressible_edges@, self.rows@)
        &&& edges_valid(self.conflict_edges@, self.rows@)
        &&& self.support_edges@.to_set().subset_of(self.compatible_edges@.to_set())
        &&& self.compressible_edges@.to_set().subset_of(self.compatible_edges@.to_set())
        &&& records_valid(self.conflict_records@, self.rows@, self.next_conflict_id)
        &&& self.next_row_id == self.rows@.len() + 1
        &&& self.next_conflict_id == self.conflict_records@.len() + 1
    }

    /// Everything but the relation edges is the same in both tables.
    pub open spec fn same_but_edges(&self, other: Table) -> bool {
        &&& self.schema == other.schema
        &&& self.rows == other.rows
        &&& self.conflict_records == other.conflict_records
        &&& self.next_row_id == other.next_row_id
        &&& self.next_conflict_id == other.next_conflict_id
    }

    /// Everything but the conflict records is the same in both tables.
    pub open spec fn same_but_records(&self, other: Table) -> bool {
        &&& self.schema == other.schema
        &&& self.rows == other.rows
        &&& self.compatible_edges == other.compatible_edges
        &&& self.support_edges == other.support_edges
        &&& self.compressible_edges == other.compressible_edges
        &&& self.conflict_edges == other.conflict_edges
        &&& self.next_row_id == other.next_row_id
    }

    pub(crate) fn new(schema: TableSchema) -> (t: Self)
        requires
            schema.wf(),
        ensures
            t.wf(),
            t.schema == schema,
            t.rows@.len() == 0,
            t.compatible_edges@.len() == 0,
            t.support_edges@.len() == 0,
            t.compressible_edges@.len() == 0,
            t.conflict_edges@.len() == 0,
            t.conflict_records@.len() == 0,
            t.next_row_id == 1,
            t.next_conflict_id == 1,
    {
        let t = Table {
            schema,
            rows: Vec::new(),
            compatible_edges: Vec::new(),
            support_edges: Vec::new(),
            compressible_edges: Vec::new(),
            conflict_edges: Vec::new(),
            conflict_records: Vec::new(),
            next_row_id: 1,
            next_conflict_id: 1,
        };
        assert(row_ids_of(t.rows@) =~= Seq::<RowId>::empty());
        assert(t.support_edges@.to_set() =~= Set::<SemanticEdge>::empty());
        assert(t.compressible_edges@.to_set() =~= Set::<SemanticEdge>::empty());
        t
    }

    /// Appends a row under the next row identifier.
    pub(crate) fn insert_row(&mut self, values: Vec<Value>) -> (r: RowId)
        requires
            old(self).wf(),
            old(self).next_row_id < u64::MAX,
            values_fit(old(self).schema, values@),
        ensures
            final(self).wf(),
            r == RowId(old(self).next_row_id),
            r.0 == old(self).rows@.len() + 1,
            final(self).rows@ == old(self).rows@.push(Row { id: r, values }),
            final(self).next_row_id == old(self).next_row_id + 1,
            final(self).schema == old(self).schema,
            final(self).compatible_edges == old(self).compatible_edges,
            final(self).support_edges == old(self).support_edges,
            final(self).compressible_edges == old(self).compressible_edges,
            final(self).conflict_edges == old(self).conflict_edges,
            final(self).conflict_records == old(self).conflict_records,
            final(self).next_conflict_id == old(self).next_conflict_id,
    {
        let row_id = RowId(self.next_row_id);
        self.next_row_id = self.next_row_id + 1;
        let ghost old_rows = self.rows@;
        self.rows.push(Row { id: row_id, values });
        proof {
            lemma_rows_grow(old_rows, self.rows@);
            assert(row_ids_of(self.rows@) =~= row_ids_of(old_rows).push(row_id));
            assert forall|a: int, b: int|
                0 <= a < b < row_ids_of(self.rows@).len() implies row_ids_of(self.rows@)[a].0
                < row_ids_of(self.rows@)[b].0 by {
                if b < old_rows.len() {
                    assert(row_ids_of(old_rows)[a].0 < row_ids_of(old_rows)[b].0);
                } else {
                    assert(old_rows[a].id.0 < old(self).next_row_id);
                }
            }
            assert forall|i: int| 0 <= i < self.rows@.len() implies values_fit(
                self.schema,
                (#[trigger] self.rows@[i]).values@,
            ) by {
                if i < old_rows.len() {
                    assert(self.rows@[i] == old_rows[i]);
                }
            }
        }
        row_id
    }

    pub fn schema(&self) -> (r: &TableSchema)
        ensures
            *r == self.schema,
    {
        &self.schema
    }

    pub fn rows(&self) -> (r: &[Row])
        ensures
            r@ == self.rows@,
    {
        self.rows.as_slice()
    }

    /// Position of the row with identifier `row_id`.
    pub fn row_position(&self, row_id: RowId) -> (r: Option<usize>)
        requires
            self.wf(),
        ensures
            match r {
                Some(i) => i < self.rows@.len() && self.rows@[i as int].id == row_id && self.rows@[i as int]
                    == row_of(self.rows@, row_id),
                None => !has_row(self.rows@, row_id),
            },
    {
        let mut i: usize = 0;
        while i < self.rows.len()
            invariant
                self.wf(),
                i <= self.rows@.len(),
                forall|k: int| 0 <= k < i ==> self.rows@[k].id != row_id,
            decreases self.rows@.len() - i,
        {
            if self.rows[i].id.0 == row_id.0 {
                proof {
                    lemma_row_of_at(self.rows@, i as int);
                }
                return Some(i);
            }
            i = i + 1;
        }
        None
    }

    /// The row with identifier `row_id`.
    pub fn row(&self, row_id: RowId) -> (r: Option<&Row>)
        requires
            self.wf(),
        ensures
            match r {
                Some(row) => has_row(self.rows@, row_id) && *row == row_of(self.rows@, row_id)
                    && row.id == row_id,
                None => !has_row(self.rows@, row_id),
            },
    {
        match self.row_position(row_id) {
            Some(i) => Some(&self.rows[i]),
            None => None,
        }
    }

    fn validate_edge(&self, left: RowId, right: RowId) -> (r: Result<SemanticEdge, DbError>)
        requires
            self.wf(),
        ensures
            match r {
                Ok(e) => e == edge_of(left, right) && edge_allowed(self.rows@, left, right)
                    && edge_valid(e, self.rows@),
                Err(DbError::InvalidSemanticEdge { table, left: l, right: rr }) => {
                    &&& table@ == self.schema.name@
                    &&& l == left
                    &&& rr == right
                    &&& !edge_allowed(self.rows@, left, right)
                },
                Err(_) => false,
            },
    {
        if left.0 == right.0 || self.row(left).is_none() || self.row(right).is_none() {
            return Err(
                DbError::InvalidSemanticEdge { table: self.schema.name.clone(), left, right },
            );
        }
        Ok(SemanticEdge::new(left, right))
    }

    /// Records that two rows support each other; a support relation is also
    /// a compatible one.
    pub fn add_support_edge(&mut self, left: RowId, right: RowId) -> (r: Result<(), DbError>)
        requires
            old(self).wf(),
        ensures
            final(self).wf(),
            final(self).same_but_edges(*old(self)),
            match r {
                Ok(()) => {
                    &&& edge_allowed(old(self).rows@, left, right)
                    &&& final(self).support_edges@.to_set() == old(self).support_edges@.to_set().insert(edge_of(left, right))
                    &&& final(self).compatible_edges@.to_set() == old(self).compatible_edges@.to_set().insert(edge_of(left, right))
                    &&& final(self).compressible_edges == old(self).compressible_edges
                    &&& final(self).conflict_edges == old(self).conflict_edges
                },
                Err(DbError::InvalidSemanticEdge { table, left: l, right: rr }) => {
                    &&& table@ == old(self).schema.name@
                    &&& l == left
                    &&& rr == right
                    &&& !edge_allowed(old(self).rows@, left, right)
                    &&& *final(self) == *old(self)
                },
                Err(_) => false,
            },
    {
        let edge = self.validate_edge(left, right)?;
        insert_edge(&mut self.compatible_edges, edge);
        insert_edge(&mut self.support_edges, edge);
        proof {
            self.lemma_edges_grow(*old(self), edge);
        }
        Ok(())
    }

    /// Records that two rows conflict.
    pub fn add_conflict_edge(&mut self, left: RowId, right: RowId) -> (r: Result<(), DbError>)
        requires
            old(self).wf(),
        ensures
            final(self).wf(),
            final(self).same_but_edges(*old(self)),
            match r {
                Ok(()) => {
                    &&& edge_allowed(old(self).rows@, left, right)
                    &&& final(self).conflict_edges@.to_set() == old(self).conflict_edges@.to_set().insert(edge_of(left, right))
                    &&& final(self).compatible_edges == old(self).compatible_edges
                    &&& final(self).support_edges == old(self).support_edges
                    &&& final(self).compressible_edges == old(self).compressible_edges
                },
                Err(DbError::InvalidSemanticEdge { table, left: l, right: rr }) => {
                    &&& table@ == old(self).schema.name@
                    &&& l == left
                    &&& rr == right
                    &&& !edge_allowed(old(self).rows@, left, right)
                    &&& *final(self) == *old(self)
                },
                Err(_) => false,
            },
    {
        let edge = self.validate_edge(left, right)?;
        insert_edge(&mut self.conflict_edges, edge);
        proof {
            self.lemma_edges_grow(*old(self), edge);
        }
        Ok(())
    }

    /// Records that one of two rows makes the other redundant; a compressible
    /// relation is also a compatible one.
    pub fn add_compressible_edge(&mut self, left: RowId, right: RowId) -> (r: Result<(), DbError>)
        requires
            old(self).wf(),
        ensures
            final(self).wf(),
            final(self).same_but_edges(*old(self)),
            match r {
                Ok(()) => {
                    &&& edge_allowed(old(self).rows@, left, right)
                    &&& final(self).compressible_edges@.to_set() == old(self).compressible_edges@.to_set().insert(edge_of(left, right))
                    &&& final(self).compatible_edges@.to_set() == old(self).compatible_edges@.to_set().insert(edge_of(left, right))
                    &&& final(self).support_edges == old(self).support_edges
                    &&& final(self).conflict_edges == old(self).conflict_edges
                },
                Err(DbError::InvalidSemanticEdge { table, left: l, right: rr }) => {
                    &&& table@ == old(self).schema.name@
                    &&& l == left
                    &&& rr == right
                    &&& !edge_allowed(old(self).rows@, left, right)
                    &&& *final(self) == *old(self)
                },
                Err(_) => false,
            },
    {
        let edge = self.validate_edge(left, right)?;
        insert_edge(&mut self.compatible_edges, edge);
        insert_edge(&mut self.compressible_edges, edge);
        proof {
            self.lemma_edges_grow(*old(self), edge);
        }
        Ok(())
    }

    /// Records that two rows are compatible.
    pub fn add_compatible_edge(&mut self, left: RowId, right: RowId) -> (r: Result<(), DbError>)
        requires
            old(self).wf(),
        ensures
            final(self).wf(),
            final(self).same_but_edges(*old(self)),
            match r {
                Ok(()) => {
                    &&& edge_allowed(old(self).rows@, left, right)
                    &&& final(self).compatible_edges@.to_set() == old(self).compatible_edges@.to_set().insert(edge_of(left, right))
                    &&& final(self).support_edges == old(self).support_edges
                    &&& final(self).compressible_edges == old(self).compressible_edges
                    &&& final(self).conflict_edges == old(self).conflict_edges
                },
                Err(DbError::InvalidSemanticEdge { table, left: l, right: rr }) => {
                    &&& table@ == old(self).schema.name@
                    &&& l == left
                    &&& rr == right
                    &&& !edge_allowed(old(self).rows@, left, right)
                    &&& *final(self) == *old(self)
                },
                Err(_) => false,
            },
    {
        let edge = self.validate_edge(left, right)?;
        insert_edge(&mut self.compatible_edges, edge);
        proof {
            self.lemma_edges_grow(*old(self), edge);
        }
        Ok(())
    }

    /// Edge sets that grew by a valid edge keep the table well formed.
    proof fn lemma_edges_grow(&self, before: Table, e: SemanticEdge)
        requires
            before.wf(),
            self.same_but_edges(before),
            edge_valid(e, before.rows@),
            edges_sorted(self.compatible_edges@),
            edges_sorted(self.support_edges@),
            edges_sorted(self.compressible_edges@),
            edges_sorted(self.conflict_edges@),
            self.compatible_edges@.to_set() == before.compatible_edges@.to_set()
                || self.compatible_edges@.to_set() == before.compatible_edges@.to_set().insert(e),
            self.support_edges@.to_set() == before.support_edges@.to_set()
                || self.support_edges@.to_set() == before.support_edges@.to_set().insert(e),
            self.compressible_edges@.to_set() == before.compressible_edges@.to_set()
                || self.compressible_edges@.to_set() == before.compressible_edges@.to_set().insert(e),
            self.conflict_edges@.to_set() == before.conflict_edges@.to_set()
                || self.conflict_edges@.to_set() == before.conflict_edges@.to_set().insert(e),
            self.support_edges@.to_set() != before.support_edges@.to_set()
                ==> self.compatible_edges@.to_set().contains(e),
            self.compressible_edges@.to_set() != before.compressible_edges@.to_set()
                ==> self.compatible_edges@.to_set().contains(e),
            self.compatible_edges@.to_set().subset_of(before.compatible_edges@.to_set().insert(e)),
            before.compatible_edges@.to_set().subset_of(self.compatible_edges@.to_set()),
        ensures
            self.wf(),
    {
        lemma_edges_valid_grow(before.compatible_edges@, self.compatible_edges@, before.rows@, e);
        lemma_edges_valid_grow(before.support_edges@, self.support_edges@, before.rows@, e);
        lemma_edges_valid_grow(before.compressible_edges@, self.compressible_edges@, before.rows@, e);
        lemma_edges_valid_grow(before.conflict_edges@, self.conflict_edges@, before.rows@, e);
        assert(self.support_edges@.to_set().subset_of(self.compatible_edges@.to_set()));
        assert(self.compressible_edges@.to_set().subset_of(self.compatible_edges@.to_set()));
    }

    pub fn compatible_edges(&self) -> (r: &[SemanticEdge])
        ensures
            r@ == self.compatible_edges@,
    {
        self.compatible_edges.as_slice()
    }

    pub fn support_edges(&self) -> (r: &[SemanticEdge])
        ensures
            r@ == self.support_edges@,
    {
        self.support_edges.as_slice()
    }

    pub fn conflict_edges(&self) -> (r: &[SemanticEdge])
        ensures
            r@ == self.conflict_edges@,
    {
        self.conflict_edges.as_slice()
    }

    pub fn compressible_edges(&self) -> (r: &[SemanticEdge])
        ensures
            r@ == self.compressible_edges@,
    {
        self.compressible_edges.as_slice()
    }

    pub fn has_support_edge(&self, left: RowId, right: RowId) -> (r: bool)
        ensures
            r == self.support_edges@.contains(edge_of(left, right)),
    {
        contains_edge(self.support_edges.as_slice(), SemanticEdge::new(left, right))
    }

    pub fn has_compatible_edge(&self, left: RowId, right: RowId) -> (r: bool)
        ensures
            r == self.compatible_edges@.contains(edge_of(left, right)),
    {
        contains_edge(self.compatible_edges.as_slice(), SemanticEdge::new(left, right))
    }

    pub fn has_compressible_edge(&self, left: RowId, right: RowId) -> (r: bool)
        ensures
            r == self.compressible_edges@.contains(edge_of(left, right)),
    {
        contains_edge(self.compressible_edges.as_slice(), SemanticEdge::new(left, right))
    }

    pub fn has_conflict_edge(&self, left: RowId, right: RowId) -> (r: bool)
        ensures
            r == self.conflict_edges@.contains(edge_of(left, right)),
    {
        contains_edge(self.conflict_edges.as_slice(), SemanticEdge::new(left, right))
    }
}

impl Table {
    /// Position of the conflict record with identifier `conflict_id`.
    pub fn conflict_position(&self, conflict_id: ConflictId) -> (r: Option<usize>)
        ensures
            match r {
                Some(i) => i < self.conflict_records@.len() && self.conflict_records@[i as int].id
                    == conflict_id,
                None => forall|k: int|
                    0 <= k < self.conflict_records@.len() ==> self.conflict_records@[k].id
                        != conflict_id,
            },
    {
        let mut i: usize = 0;
        while i < self.conflict_records.len()
            invariant
                i <= self.conflict_records@.len(),
                forall|k: int| 0 <= k < i ==> self.conflict_records@[k].id != conflict_id,
            decreases self.conflict_records@.len() - i,
        {
            if self.conflict_records[i].id.0 == conflict_id.0 {
                return Some(i);
            }
            i = i + 1;
        }
        None
    }

    /// Records a conflict among the given rows, each named once; the record
    /// starts open.
    pub fn create_conflict_record(&mut self, row_ids: &[RowId]) -> (r: Result<ConflictId, DbError>)
        requires
            old(self).wf(),
            old(self).next_conflict_id < u64::MAX,
        ensures
            final(self).wf(),
            final(self).same_but_records(*old(self)),
            match r {
                Ok(id) => {
                    &&& id.0 == old(self).next_conflict_id
                    &&& id.0 == old(self).conflict_records@.len() + 1
                    &&& final(self).next_conflict_id == old(self).next_conflict_id + 1
                    &&& final(self).conflict_records@.len() == old(self).conflict_records@.len() + 1
                    &&& final(self).conflict_records@.drop_last() == old(self).conflict_records@
                    &&& final(self).conflict_records@.last().id == id
                    &&& final(self).conflict_records@.last().status == ConflictStatus::Open
                    &&& final(self).conflict_records@.last().rows@.to_set() == row_ids@.to_set()
                    &&& ids_sorted(final(self).conflict_records@.last().rows@)
                    &&& row_ids@.len() > 0
                    &&& forall|x: RowId| row_ids@.contains(x) ==> has_row(old(self).rows@, x)
                },
                Err(DbError::EmptyConflictRecordRows { table }) => {
                    &&& table@ == old(self).schema.name@
                    &&& row_ids@.len() == 0
                    &&& *final(self) == *old(self)
                },
                Err(DbError::RowNotFound { table, row_id }) => {
                    &&& table@ == old(self).schema.name@
                    &&& row_ids@.contains(row_id)
                    &&& !has_row(old(self).rows@, row_id)
                    &&& forall|x: RowId|
                        row_ids@.contains(x) && x.0 < row_id.0 ==> has_row(old(self).rows@, x)
                    &&& *final(self) == *old(self)
                },
                Err(_) => false,
            },
    {
        let mut rows: Vec<RowId> = Vec::new();
        let mut i: usize = 0;
        while i < row_ids.len()
            invariant
                i <= row_ids@.len(),
                ids_sorted(rows@),
                rows@.to_set() == row_ids@.take(i as int).to_set(),
            decreases row_ids@.len() - i,
        {
            insert_row_id(&mut rows, row_ids[i]);
            assert(row_ids@.take(i + 1) =~= row_ids@.take(i as int).push(row_ids@[i as int]));
            proof {
                row_ids@.take(i as int).lemma_push_to_set_commute(row_ids@[i as int]);
            }
            i = i + 1;
        }
        assert(row_ids@.take(row_ids@.len() as int) =~= row_ids@);
        if rows.len() == 0 {
            assert(row_ids@.len() == 0) by {
                if row_ids@.len() > 0 {
                    assert(row_ids@.to_set().contains(row_ids@[0]));
                    assert(rows@.to_set() =~= Set::<RowId>::empty());
                }
            }
            return Err(DbError::EmptyConflictRecordRows { table: self.schema.name.clone() });
        }
        let mut j: usize = 0;
        while j < rows.len()
            invariant
                self.wf(),
                j <= rows@.len(),
                ids_sorted(rows@),
                rows@.to_set() == row_ids@.to_set(),
                forall|k: int| 0 <= k < j ==> has_row(self.rows@, #[trigger] rows@[k]),
            decreases rows@.len() - j,
        {
            if self.row(rows[j]).is_none() {
                let missing = rows[j];
                proof {
                    assert(rows@.to_set().contains(missing));
                    assert forall|x: RowId| row_ids@.contains(x) && x.0 < missing.0 implies has_row(
                        self.rows@,
                        x,
                    ) by {
                        assert(row_ids@.to_set().contains(x));
                        assert(rows@.to_set().contains(x));
                        let k = choose|k: int| 0 <= k < rows@.len() && rows@[k] == x;
                        if k >= j {
                            if k > j {
                                assert(rows@[j as int].0 < rows@[k].0);
                            }
                        }
                    }
                }
                return Err(DbError::RowNotFound { table: self.schema.name.clone(), row_id: missing });
            }
            j = j + 1;
        }
        assert(row_ids@.len() > 0) by {
            assert(rows@.to_set().contains(rows@[0]));
            if row_ids@.len() == 0 {
                assert(row_ids@.to_set() =~= Set::<RowId>::empty());
            }
        }
        let conflict_id = ConflictId(self.next_conflict_id);
        self.next_conflict_id = self.next_conflict_id + 1;
        let ghost old_records = self.conflict_records@;
        self.conflict_records.push(ConflictRecord::new(conflict_id, rows));
        proof {
            assert(self.conflict_records@.drop_last() =~= old_records);
            assert forall|x: RowId| row_ids@.contains(x) implies has_row(old(self).rows@, x) by {
                assert(row_ids@.to_set().contains(x));
                let k = choose|k: int| 0 <= k < rows@.len() && rows@[k] == x;
                assert(has_row(self.rows@, rows@[k]));
            }
            let recs = self.conflict_records@;
            assert forall|a: int, b: int| 0 <= a < b < recs.len() implies recs[a].id.0 < recs[b].id.0 by {
                if b < old_records.len() {
                    assert(old_records[a].id.0 < old_records[b].id.0);
                } else {
                    assert(old_records[a].id.0 < old(self).next_conflict_id);
                }
            }
            assert forall|i2: int| 0 <= i2 < recs.len() implies {
                &&& 1 <= (#[trigger] recs[i2]).id.0 < self.next_conflict_id
                &&& recs[i2].rows@.len() > 0
                &&& ids_sorted(recs[i2].rows@)
                &&& forall|j2: int| 0 <= j2 < recs[i2].rows@.len() ==> has_row(self.rows@, recs[i2].rows@[j2])
            } by {
                if i2 < old_records.len() {
                    assert(recs[i2] == old_records[i2]);
                } else {
                    assert forall|j2: int| 0 <= j2 < recs[i2].rows@.len() implies has_row(self.rows@, recs[i2].rows@[j2]) by {
                        assert(has_row(self.rows@, rows@[j2]));
                    }
                }
            }
        }
        Ok(conflict_id)
    }

    /// The conflict record with identifier `conflict_id`.
    pub fn conflict_record(&self, conflict_id: ConflictId) -> (r: Option<&ConflictRecord>)
        ensures
            match r {
                Some(rec) => exists|i: int|
                    0 <= i < self.conflict_records@.len() && self.conflict_records@[i] == *rec
                        && rec.id == conflict_id,
                None => forall|k: int|
                    0 <= k < self.conflict_records@.len() ==> self.conflict_records@[k].id
                        != conflict_id,
            },
    {
        match self.conflict_position(conflict_id) {
            Some(i) => Some(&self.conflict_records[i]),
            None => None,
        }
    }

    /// The conflict records, by increasing identifier.
    pub fn conflict_records(&self) -> (r: &[ConflictRecord])
        ensures
            r@ == self.conflict_records@,
    {
        self.conflict_records.as_slice()
    }

    /// Sets the status of a conflict record.
    pub fn set_conflict_status(&mut self, conflict_id: ConflictId, status: ConflictStatus) -> (r: Result<
        (),
        DbError,
    >)
        requires
            old(self).wf(),
        ensures
            final(self).wf(),
            match r {
                Ok(()) => exists|i: int|
                    0 <= i < old(self).conflict_records@.len() && old(self).conflict_records@[i].id
                        == conflict_id && final(self).conflict_records@
                        == old(self).conflict_records@.update(
                        i,
                        ConflictRecord { status, ..old(self).conflict_records@[i] },
                    ) && *final(self) == (Table {
                        conflict_records: final(self).conflict_records,
                        ..*old(self)
                    }),
                Err(DbError::ConflictRecordNotFound { table, conflict_id: c }) => {
                    &&& table@ == old(self).schema.name@
                    &&& c == conflict_id
                    &&& forall|k: int|
                        0 <= k < old(self).conflict_records@.len() ==> old(
                            self,
                        ).conflict_records@[k].id != conflict_id
                    &&& *final(self) == *old(self)
                },
                Err(_) => false,
            },
    {
        match self.conflict_position(conflict_id) {
            Some(i) => {
                self.conflict_records[i].set_status(status);
                proof {
                    let recs = self.conflict_records@;
                    assert(recs =~= old(self).conflict_records@.update(
                        i as int,
                        ConflictRecord { status, ..old(self).conflict_records@[i as int] },
                    ));
                    assert forall|i2: int| 0 <= i2 < recs.len() implies {
                        &&& 1 <= (#[trigger] recs[i2]).id.0 < self.next_conflict_id
                        &&& recs[i2].rows@.len() > 0
                        &&& ids_sorted(recs[i2].rows@)
                        &&& forall|j2: int| 0 <= j2 < recs[i2].rows@.len() ==> has_row(self.rows@, recs[i2].rows@[j2])
                    } by {
                        assert(recs[i2].rows == old(self).conflict_records@[i2].rows);
                    }
                }
                Ok(())
            },
            None => Err(
                DbError::ConflictRecordNotFound { table: self.schema.name.clone(), conflict_id },
            ),
        }
    }

    /// Each row as column names paired with its values.
    pub fn named_rows(&self) -> (r: Vec<NamedValues>)
        requires
            self.wf(),
        ensures
            r@.len() == self.rows@.len(),
            forall|i: int|
                0 <= i < r@.len() ==> named_row_of(#[trigger] r@[i], self.schema, self.rows@[i]),
    {
        let mut out: Vec<NamedValues> = Vec::new();
        let mut i: usize = 0;
        while i < self.rows.len()
            invariant
                self.wf(),
                i <= self.rows@.len(),
                out@.len() == i,
                forall|k: int|
                    0 <= k < i ==> named_row_of(#[trigger] out@[k], self.schema, self.rows@[k]),
            decreases self.rows@.len() - i,
        {
            assert(values_fit(self.schema, self.rows@[i as int].values@));
            let named = self.rows[i].as_named_values(&self.schema);
            assert(named_row_of(named, self.schema, self.rows@[i as int]));
            out.push(named);
            i = i + 1;
        }
        out
    }
}

/// `nv` pairs each column name of `schema` with the value that `row` has in
/// that column, in the order of the names.
pub open spec fn named_row_of(nv: NamedValues, schema: TableSchema, row: Row) -> bool {
    &&& keys_sorted(nv.entries@)
    &&& forall|k: Seq<char>|
        #[trigger] value_of(nv.entries@, k) == last_value(schema.columns@, row.values@, schema.columns@.len() as int, k)
}

/// What `named_rows` gives for a row of a table holds, position by position,
/// the names and values that `Row::as_named_values` gives for that row.
pub proof fn lemma_named_row_is_as_named_values(nv: NamedValues, other: NamedValues, schema: TableSchema, row: Row)
    requires
        named_row_of(nv, schema, row),
        values_fit(schema, row.values@),
        keys_sorted(other.entries@),
        forall|k: Seq<char>|
            #[trigger] value_of(other.entries@, k) == last_value(
                schema.columns@,
                row.values@,
                named_len(schema.columns@, row.values@),
                k,
            ),
    ensures
        nv.entries@.len() == other.entries@.len(),
        forall|i: int|
            0 <= i < nv.entries@.len() ==> (#[trigger] nv.entries@[i]).0@ == other.entries@[i].0@
                && nv.entries@[i].1 == other.entries@[i].1,
{
    assert forall|k: Seq<char>| #[trigger] value_of(nv.entries@, k) == value_of(other.entries@, k) by {
        assert(value_of(other.entries@, k) == last_value(
            schema.columns@,
            row.values@,
            named_len(schema.columns@, row.values@),
            k,
        ));
    }
    lemma_sorted_entries_unique(nv.entries@, other.entries@);
}

/// Row identifiers kept by appending a row with a larger identifier.
pub proof fn lemma_rows_grow(before: Seq<Row>, after: Seq<Row>)
    requires
        after.len() == before.len() + 1,
        forall|i: int| 0 <= i < before.len() ==> after[i] == before[i],
    ensures
        forall|id: RowId| has_row(before, id) ==> has_row(after, id),
{
    assert forall|id: RowId| has_row(before, id) implies has_row(after, id) by {
        let i = choose|i: int| 0 <= i < before.len() && #[trigger] before[i].id == id;
        assert(after[i].id == id);
    }
}

/// With distinct identifiers, the row at `i` is the row of its identifier.
pub proof fn lemma_row_of_at(rows: Seq<Row>, i: int)
    requires
        ids_sorted(row_ids_of(rows)),
        0 <= i < rows.len(),
    ensures
        row_of(rows, rows[i].id) == rows[i],
        has_row(rows, rows[i].id),
{
    let id = rows[i].id;
    assert(rows[i].id == id);
    let c = choose|c: int| 0 <= c < rows.len() && #[trigger] rows[c].id == id;
    if c < i {
        assert(row_ids_of(rows)[c].0 < row_ids_of(rows)[i].0);
    } else if c > i {
        assert(row_ids_of(rows)[i].0 < row_ids_of(rows)[c].0);
    }
}

/// A sorted edge sequence that grew by a valid edge is still valid.
pub proof fn lemma_edges_valid_grow(
    before: Seq<SemanticEdge>,
    after: Seq<SemanticEdge>,
    rows: Seq<Row>,
    e: SemanticEdge,
)
    requires
        edges_valid(before, rows),
        edges_sorted(after),
        edge_valid(e, rows),
        after.to_set() == before.to_set() || after.to_set() == before.to_set().insert(e),
    ensures
        edges_valid(after, rows),
{
    assert forall|i: int| 0 <= i < after.len() implies {
        &&& (#[trigger] after[i]).first.0 < after[i].second.0
        &&& has_row(rows, after[i].first)
        &&& has_row(rows, after[i].second)
    } by {
        assert(after.to_set().contains(after[i]));
        if after[i] != e {
            assert(before.to_set().contains(after[i]));
            let k = choose|k: int| 0 <= k < before.len() && before[k] == after[i];
            assert(before[k] == after[i]);
        }
    }
}

} // verus!
