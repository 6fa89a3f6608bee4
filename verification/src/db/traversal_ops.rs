use vstd::prelude::*;
use vstd::string::*;

use crate::db::Database;
use crate::error::DbError;
use crate::ids::RowId;
use crate::relation::SemanticEdge;
use crate::sets::{ids_sorted, insert_row_id};
use crate::table::has_row;

verus! {

/// `x` is the other end of the edge at some position of `es` that touches
/// `r`.
pub open spec fn is_neighbor(es: Seq<SemanticEdge>, r: RowId, x: RowId) -> bool {
    exists|i: int|
        0 <= i < es.len() && ((#[trigger] es[i]).first == r && es[i].second == x || es[i].second
            == r && es[i].first == x)
}

/// The rows joined to `r` by an edge of `es`.
pub open spec fn neighbors(es: Seq<SemanticEdge>, r: RowId) -> Set<RowId> {
    Set::new(|x: RowId| is_neighbor(es, r, x))
}

/// The rows joined to `row_id` by an edge, in increasing order.
pub fn collect_neighbors(edges: &[SemanticEdge], row_id: RowId) -> (r: Vec<RowId>)
    ensures
        ids_sorted(r@),
        r@.to_set() == neighbors(edges@, row_id),
{
    let mut out: Vec<RowId> = Vec::new();
    let mut i: usize = 0;
    while i < edges.len()
        invariant
            i <= edges@.len(),
            ids_sorted(out@),
            out@.to_set() == neighbors(edges@.take(i as int), row_id),
        decreases edges@.len() - i,
    {
        let e = edges[i];
        let ghost before = out@.to_set();
        if e.first.0 == row_id.0 {
            insert_row_id(&mut out, e.second);
        } else if e.second.0 == row_id.0 {
            insert_row_id(&mut out, e.first);
        }
        proof {
            let t = edges@.take(i + 1);
            let t0 = edges@.take(i as int);
            assert forall|x: RowId| #![trigger is_neighbor(t, row_id, x)] out@.to_set().contains(x) <==> is_neighbor(t, row_id, x) by {
                if is_neighbor(t, row_id, x) {
                    let k = choose|k: int|
                        0 <= k < t.len() && ((#[trigger] t[k]).first == row_id && t[k].second == x
                            || t[k].second == row_id && t[k].first == x);
                    if k < i {
                        assert(t0[k] == t[k]);
                        assert(is_neighbor(t0, row_id, x));
                    }
                }
                if before.contains(x) {
                    assert(is_neighbor(t0, row_id, x));
                    let k = choose|k: int|
                        0 <= k < t0.len() && ((#[trigger] t0[k]).first == row_id && t0[k].second == x
                            || t0[k].second == row_id && t0[k].first == x);
                    assert(t[k] == t0[k]);
                }
                if out@.to_set().contains(x) && !before.contains(x) {
                    assert(t[i as int] == e);
                }
            }
            assert(out@.to_set() =~= neighbors(t, row_id));
        }
        i = i + 1;
    }
    assert(edges@.take(edges@.len() as int) =~= edges@);
    out
}

/// Being neighbors is mutual: `b` is a neighbor of `a` exactly when `a` is
/// a neighbor of `b`.
pub proof fn lemma_neighbors_mutual(es: Seq<SemanticEdge>, a: RowId, b: RowId)
    ensures
        neighbors(es, a).contains(b) == neighbors(es, b).contains(a),
{
    if is_neighbor(es, a, b) {
        let i = choose|i: int|
            0 <= i < es.len() && ((#[trigger] es[i]).first == a && es[i].second == b || es[i].second == a
                && es[i].first == b);
        assert(is_neighbor(es, b, a));
    }
    if is_neighbor(es, b, a) {
        let i = choose|i: int|
            0 <= i < es.len() && ((#[trigger] es[i]).first == b && es[i].second == a || es[i].second == b
                && es[i].first == a);
        assert(is_neighbor(es, a, b));
    }
}

/// What a neighbor query returned, or why it failed.
pub open spec fn neighbor_result(
    r: Result<Vec<RowId>, DbError>,
    db: Database,
    table_name: Seq<char>,
    row_id: RowId,
    edges: spec_fn(crate::table::Table) -> Seq<SemanticEdge>,
) -> bool {
    match r {
        Ok(v) => {
            &&& db.has_table(table_name)
            &&& has_row(db.table_at(table_name).rows@, row_id)
            &&& ids_sorted(v@)
            &&& v@.to_set() == neighbors(edges(db.table_at(table_name)), row_id)
        },
        Err(DbError::TableNotFound(name)) => name@ == table_name && !db.has_table(table_name),
        Err(DbError::RowNotFound { table, row_id: id }) => {
            &&& db.has_table(table_name)
            &&& table@ == table_name
            &&& id == row_id
            &&& !has_row(db.table_at(table_name).rows@, row_id)
        },
        Err(_) => false,
    }
}

impl Database {
    pub fn compatible_neighbors(&self, table_name: &str, row_id: RowId) -> (r: Result<Vec<RowId>, DbError>)
        requires
            self.wf(),
        ensures
            neighbor_result(r, *self, table_name@, row_id, |t: crate::table::Table| t.compatible_edges@),
    {
        let table = self.table(table_name)?;
        assert(self.tables@[self.table_pos(table_name@)].wf());
        if table.row(row_id).is_none() {
            return Err(DbError::RowNotFound { table: String::from_str(table_name), row_id });
        }
        Ok(collect_neighbors(table.compatible_edges.as_slice(), row_id))
    }

    pub fn support_neighbors(&self, table_name: &str, row_id: RowId) -> (r: Result<Vec<RowId>, DbError>)
        requires
            self.wf(),
        ensures
            neighbor_result(r, *self, table_name@, row_id, |t: crate::table::Table| t.support_edges@),
    {
        let table = self.table(table_name)?;
        assert(self.tables@[self.table_pos(table_name@)].wf());
        if table.row(row_id).is_none() {
            return Err(DbError::RowNotFound { table: String::from_str(table_name), row_id });
        }
        Ok(collect_neighbors(table.support_edges.as_slice(), row_id))
    }

    pub fn compressible_neighbors(&self, table_name: &str, row_id: RowId) -> (r: Result<Vec<RowId>, DbError>)
        requires
            self.wf(),
        ensures
            neighbor_result(r, *self, table_name@, row_id, |t: crate::table::Table| t.compressible_edges@),
    {
        let table = self.table(table_name)?;
        assert(self.tables@[self.table_pos(table_name@)].wf());
        if table.row(row_id).is_none() {
            return Err(DbError::RowNotFound { table: String::from_str(table_name), row_id });
        }
        Ok(collect_neighbors(table.compressible_edges.as_slice(), row_id))
    }

    pub fn conflict_neighbors(&self, table_name: &str, row_id: RowId) -> (r: Result<Vec<RowId>, DbError>)
        requires
            self.wf(),
        ensures
            neighbor_result(r, *self, table_name@, row_id, |t: crate::table::Table| t.conflict_edges@),
    {
        let table = self.table(table_name)?;
        assert(self.tables@[self.table_pos(table_name@)].wf());
        if table.row(row_id).is_none() {
            return Err(DbError::RowNotFound { table: String::from_str(table_name), row_id });
        }
        Ok(collect_neighbors(table.conflict_edges.as_slice(), row_id))
    }
}

} // verus!
