use vstd::prelude::*;
use vstd::string::*;

use crate::db::query_ops::matching;
use crate::db::relation_ops::lemma_one_table_changed;
use crate::db::semantic_write::{
    enrich_existing_row_with_candidates, enrich_failed, judging_failed, persist_insert_with_candidate_rows,
    semantic_enrich_done, semantic_insert_done,
};
use crate::db::validation::{
    columns_given_upto, filters_ok_upto, keys_known_upto, materialize_result, materialize_row_values,
    resolve_exact_filters, resolve_result, row_matches_exact_filters,
};
use crate::db::Database;
use crate::error::DbError;
use crate::ids::RowId;
use crate::judge::SemanticJudge;
use crate::persist::PersistOutcome;
use crate::row::{ExactFilter, Row, RowInput};
use crate::schema::{column_pos, TableSchema};
use crate::semantic::SemanticRelation;
use crate::table::{has_row, row_ids_of, values_fit, Table};
use crate::value::Value;

verus! {

/// `t1` is `t0` with one more row, of identifier `id`, whose values are the
/// ones that `input` gives to the columns.
pub open spec fn row_appended(t0: Table, t1: Table, input: RowInput, id: RowId) -> bool {
    &&& id.0 == t0.next_row_id
    &&& id.0 == t0.rows@.len() + 1
    &&& t1 == (Table { rows: t1.rows, next_row_id: t1.next_row_id, ..t0 })
    &&& t1.next_row_id == t0.next_row_id + 1
    &&& t1.rows@.len() == t0.rows@.len() + 1
    &&& t1.rows@.drop_last() == t0.rows@
    &&& t1.rows@.last().id == id
    &&& materialize_result(Ok(t1.rows@.last().values), t0.schema.name@, t0.schema, input)
}

/// Every key of `input` names a column of `schema`, and every column has an
/// input value of its type.
pub open spec fn input_fits(schema: TableSchema, input: RowInput) -> bool {
    &&& keys_known_upto(schema, input, input.entries@.len() as int)
    &&& columns_given_upto(schema, input, schema.columns@.len() as int)
}

/// A semantic write with `n` candidates fits the identifier counters of `t`.
pub open spec fn write_room(t: Table, n: int) -> bool {
    &&& t.next_row_id < u64::MAX
    &&& t.next_conflict_id + n < u64::MAX
}

/// `db1` is `db0` after a semantic write of `input` into the table `name`,
/// judged against the rows `candidates`, as `o` reports it.
pub open spec fn semantic_persisted<J: SemanticJudge>(
    judge: J,
    db0: Database,
    db1: Database,
    name: Seq<char>,
    input: RowInput,
    candidates: Seq<RowId>,
    o: PersistOutcome,
) -> bool {
    let t0 = db0.table_at(name);
    let t1 = db1.table_at(name);
    &&& db0.has_table(name)
    &&& db1.only_table_changed(db0, db0.table_pos(name))
    &&& materialize_result(Ok(t1.rows@.last().values), name, t0.schema, input)
    &&& exists|rels: Seq<SemanticRelation>| #[trigger] semantic_insert_done(judge, t0, t1, candidates, rels, o)
}

/// Why a semantic write of `input` into `t`, judged against `candidates`,
/// failed: the input makes no row, or judging the candidates against the
/// values it makes failed.
pub open spec fn semantic_write_failed<J: SemanticJudge>(
    judge: J,
    t: Table,
    name: Seq<char>,
    input: RowInput,
    candidates: Seq<RowId>,
    e: DbError,
) -> bool {
    ||| materialize_result(Err(e), name, t.schema, input)
    ||| input_fits(t.schema, input) && exists|v: Vec<Value>|
        #[trigger] materialize_result(Ok(v), name, t.schema, input) && judging_failed(judge, t, v@, candidates, None, e)
}

/// The identifiers of the rows of `t` that match the filters, in order.
pub open spec fn matching_ids(t: Table, filters: Seq<ExactFilter>) -> Seq<RowId> {
    row_ids_of(matching(t.schema, t.rows@, filters))
}

/// The identifiers of the rows that hold each filter's value at the
/// filter's column position.
fn matching_row_ids(table: &Table, indices: &[usize], filters: &[ExactFilter]) -> (r: Vec<RowId>)
    requires
        table.wf(),
        filters_ok_upto(table.schema, filters@, filters@.len() as int),
        indices@.len() == filters@.len(),
        forall|k: int|
            0 <= k < filters@.len() ==> #[trigger] indices@[k] == column_pos(
                table.schema.columns@,
                filters@[k].column@,
            ),
    ensures
        r@ == matching_ids(*table, filters@),
{
    let mut out: Vec<RowId> = Vec::new();
    let mut i: usize = 0;
    while i < table.rows.len()
        invariant
            table.wf(),
            filters_ok_upto(table.schema, filters@, filters@.len() as int),
            indices@.len() == filters@.len(),
            forall|k: int|
                0 <= k < filters@.len() ==> #[trigger] indices@[k] == column_pos(
                    table.schema.columns@,
                    filters@[k].column@,
                ),
            i <= table.rows@.len(),
            out@ == row_ids_of(matching(table.schema, table.rows@.take(i as int), filters@)),
        decreases table.rows@.len() - i,
    {
        let row = &table.rows[i];
        let ghost t = table.rows@.take(i + 1);
        let ghost m0 = matching(table.schema, table.rows@.take(i as int), filters@);
        assert(t.drop_last() =~= table.rows@.take(i as int));
        assert(t.last() == *row);
        let is_match = row_matches_exact_filters(row, indices, filters);
        proof {
            assert(values_fit(table.schema, row.values@));
            if is_match {
                assert forall|k: int| 0 <= k < filters@.len() implies (crate::row::cell(
                    table.schema.columns@,
                    row.values@,
                    (#[trigger] filters@[k]).column@,
                ) matches Some(v) && v@ == filters@[k].value@) by {
                    assert(crate::db::validation::filter_ok(table.schema, filters@[k]));
                    assert(indices@[k] < row.values@.len());
                }
            } else {
                let k = choose|k: int|
                    0 <= k < filters@.len() && !(#[trigger] indices@[k] < row.values@.len()
                        && row.values@[indices@[k] as int]@ == filters@[k].value@);
                assert(crate::db::validation::filter_ok(table.schema, filters@[k]));
                assert(!(crate::row::cell(table.schema.columns@, row.values@, filters@[k].column@) matches Some(
                    v,
                ) && v@ == filters@[k].value@));
            }
        }
        if is_match {
            out.push(row.id);
            proof {
                assert(row_ids_of(m0.push(*row)) =~= row_ids_of(m0).push(row.id));
            }
        }
        i = i + 1;
    }
    assert(table.rows@.take(table.rows@.len() as int) =~= table.rows@);
    out
}

/// No more rows match than there are.
pub proof fn lemma_matching_len(schema: TableSchema, rows: Seq<Row>, filters: Seq<ExactFilter>)
    ensures
        matching(schema, rows, filters).len() <= rows.len(),
    decreases rows.len(),
{
    if rows.len() > 0 {
        lemma_matching_len(schema, rows.drop_last(), filters);
    }
}

/// With no filter, every row matches.
pub proof fn lemma_matching_no_filters(schema: TableSchema, rows: Seq<Row>)
    ensures
        matching(schema, rows, Seq::empty()) == rows,
    decreases rows.len(),
{
    if rows.len() > 0 {
        lemma_matching_no_filters(schema, rows.drop_last());
        assert(rows.drop_last().push(rows.last()) =~= rows);
    }
}

impl Database {
    /// Writes a row; a plain write records no relation.
    pub fn persist(&mut self, table_name: &str, input: RowInput) -> (r: Result<PersistOutcome, DbError>)
        requires
            old(self).wf(),
            input.wf(),
            old(self).has_table(table_name@) ==> old(self).table_at(table_name@).next_row_id < u64::MAX,
        ensures
            final(self).wf(),
            match r {
                Ok(outcome) => {
                    &&& old(self).has_table(table_name@)
                    &&& final(self).only_table_changed(*old(self), old(self).table_pos(table_name@))
                    &&& outcome.effects_empty()
                    &&& row_appended(
                        old(self).table_at(table_name@),
                        final(self).table_at(table_name@),
                        input,
                        outcome.row_id,
                    )
                },
                Err(DbError::TableNotFound(name)) => {
                    &&& name@ == table_name@
                    &&& !old(self).has_table(table_name@)
                    &&& final(self).same_as(*old(self))
                },
                Err(e) => {
                    &&& old(self).has_table(table_name@)
                    &&& materialize_result(
                        Err(e),
                        table_name@,
                        old(self).table_at(table_name@).schema,
                        input,
                    )
                    &&& final(self).same_as(*old(self))
                },
            },
    {
        let i = match self.table_index(table_name) {
            Some(i) => i,
            None => {
                return Err(DbError::TableNotFound(String::from_str(table_name)));
            },
        };
        assert(self.tables@[i as int].wf());
        let values = materialize_row_values(table_name, &self.tables[i].schema, &input)?;
        let ghost before = *self;
        let row_id = self.tables[i].insert_row(values);
        proof {
            assert forall|id: RowId| has_row(before.tables@[i as int].rows@, id) implies has_row(
                self.tables@[i as int].rows@,
                id,
            ) by {
                crate::table::lemma_rows_grow(before.tables@[i as int].rows@, self.tables@[i as int].rows@);
            }
            lemma_one_table_changed(before, *self, i as int);
            assert(self.table_pos(table_name@) == i);
            let t1 = self.tables@[i as int];
            assert(t1.rows@.drop_last() =~= before.tables@[i as int].rows@);
        }
        Ok(PersistOutcome::plain(row_id))
    }

    /// Writes a row and records the relations that `judge` finds between
    /// it and each distinct candidate row.
    pub fn persist_semantic_with_candidates<J: SemanticJudge>(
        &mut self,
        table_name: &str,
        input: RowInput,
        candidates: &[RowId],
        judge: &J,
    ) -> (r: Result<PersistOutcome, DbError>)
        requires
            old(self).wf(),
            input.wf(),
            old(self).has_table(table_name@) ==> write_room(old(self).table_at(table_name@), candidates@.len() as int),
        ensures
            final(self).wf(),
            match r {
                Ok(o) => semantic_persisted(*judge, *old(self), *final(self), table_name@, input, candidates@, o),
                Err(DbError::TableNotFound(name)) => {
                    &&& name@ == table_name@
                    &&& !old(self).has_table(table_name@)
                    &&& final(self).same_as(*old(self))
                },
                Err(e) => {
                    &&& old(self).has_table(table_name@)
                    &&& final(self).same_as(*old(self))
                    &&& semantic_write_failed(*judge, old(self).table_at(table_name@), table_name@, input, candidates@, e)
                },
            },
    {
        let i = match self.table_index(table_name) {
            Some(i) => i,
            None => {
                return Err(DbError::TableNotFound(String::from_str(table_name)));
            },
        };
        assert(self.tables@[i as int].wf());
        let values = materialize_row_values(table_name, &self.tables[i].schema, &input)?;
        let ghost before = *self;
        let ghost vals = values;
        let r = persist_insert_with_candidate_rows(&mut self.tables[i], values, candidates, judge);
        proof {
            let t0 = before.tables@[i as int];
            let t1 = self.tables@[i as int];
            assert(before.table_pos(table_name@) == i);
            if r is Ok {
                let o = r->Ok_0;
                let rels = choose|rels: Seq<SemanticRelation>| #[trigger] semantic_insert_done(*judge, t0, t1, candidates@, rels, o);
                assert forall|id: RowId| has_row(t0.rows@, id) implies has_row(t1.rows@, id) by {
                    crate::table::lemma_rows_grow(t0.rows@, t1.rows@);
                }
                lemma_one_table_changed(before, *self, i as int);
                assert(self.table_pos(table_name@) == i);
                assert(semantic_insert_done(*judge, before.table_at(table_name@), self.table_at(table_name@), candidates@, rels, o));
            } else {
                assert(self.tables@ =~= before.tables@);
                assert(materialize_result(Ok(vals), table_name@, t0.schema, input));
            }
        }
        r
    }

    /// Writes a row and records the relations that `judge` finds between
    /// it and each row that matches the filters.
    pub fn persist_semantic_with_filters<J: SemanticJudge>(
        &mut self,
        table_name: &str,
        input: RowInput,
        filters: &[ExactFilter],
        judge: &J,
    ) -> (r: Result<PersistOutcome, DbError>)
        requires
            old(self).wf(),
            input.wf(),
            old(self).has_table(table_name@) ==> write_room(
                old(self).table_at(table_name@),
                old(self).table_at(table_name@).rows@.len() as int,
            ),
        ensures
            final(self).wf(),
            match r {
                Ok(o) => {
                    &&& filters_ok_upto(old(self).table_at(table_name@).schema, filters@, filters@.len() as int)
                    &&& semantic_persisted(
                        *judge,
                        *old(self),
                        *final(self),
                        table_name@,
                        input,
                        matching_ids(old(self).table_at(table_name@), filters@),
                        o,
                    )
                },
                Err(DbError::TableNotFound(name)) => {
                    &&& name@ == table_name@
                    &&& !old(self).has_table(table_name@)
                    &&& final(self).same_as(*old(self))
                },
                Err(e) => {
                    let t = old(self).table_at(table_name@);
                    &&& old(self).has_table(table_name@)
                    &&& final(self).same_as(*old(self))
                    &&& {
                        ||| materialize_result(Err(e), table_name@, t.schema, input)
                        ||| input_fits(t.schema, input) && resolve_result(Err(e), table_name@, t.schema, filters@)
                        ||| input_fits(t.schema, input) && filters_ok_upto(t.schema, filters@, filters@.len() as int)
                            && exists|v: Vec<Value>|
                            #[trigger] materialize_result(Ok(v), table_name@, t.schema, input) && judging_failed(
                                *judge,
                                t,
                                v@,
                                matching_ids(t, filters@),
                                None,
                                e,
                            )
                    }
                },
            },
    {
        let i = match self.table_index(table_name) {
            Some(i) => i,
            None => {
                return Err(DbError::TableNotFound(String::from_str(table_name)));
            },
        };
        assert(self.tables@[i as int].wf());
        let values = materialize_row_values(table_name, &self.tables[i].schema, &input)?;
        let indices = resolve_exact_filters(&self.tables[i].schema, table_name, filters)?;
        let candidates = matching_row_ids(&self.tables[i], indices.as_slice(), filters);
        proof {
            lemma_matching_len(self.tables@[i as int].schema, self.tables@[i as int].rows@, filters@);
        }
        let ghost before = *self;
        let ghost vals = values;
        let r = persist_insert_with_candidate_rows(&mut self.tables[i], values, candidates.as_slice(), judge);
        proof {
            let t0 = before.tables@[i as int];
            let t1 = self.tables@[i as int];
            assert(before.table_pos(table_name@) == i);
            if r is Ok {
                let o = r->Ok_0;
                let rels = choose|rels: Seq<SemanticRelation>| #[trigger] semantic_insert_done(*judge, t0, t1, candidates@, rels, o);
                assert forall|id: RowId| has_row(t0.rows@, id) implies has_row(t1.rows@, id) by {
                    crate::table::lemma_rows_grow(t0.rows@, t1.rows@);
                }
                lemma_one_table_changed(before, *self, i as int);
                assert(self.table_pos(table_name@) == i);
                assert(semantic_insert_done(*judge, before.table_at(table_name@), self.table_at(table_name@), candidates@, rels, o));
            } else {
                assert(self.tables@ =~= before.tables@);
                assert(materialize_result(Ok(vals), table_name@, t0.schema, input));
            }
        }
        r
    }

    /// Writes a row and records the relations that `judge` finds between
    /// it and each row already in the table.
    pub fn persist_semantic<J: SemanticJudge>(&mut self, table_name: &str, input: RowInput, judge: &J) -> (r:
        Result<PersistOutcome, DbError>)
        requires
            old(self).wf(),
            input.wf(),
            old(self).has_table(table_name@) ==> write_room(
                old(self).table_at(table_name@),
                old(self).table_at(table_name@).rows@.len() as int,
            ),
        ensures
            final(self).wf(),
            match r {
                Ok(o) => semantic_persisted(
                    *judge,
                    *old(self),
                    *final(self),
                    table_name@,
                    input,
                    row_ids_of(old(self).table_at(table_name@).rows@),
                    o,
                ),
                Err(DbError::TableNotFound(name)) => {
                    &&& name@ == table_name@
                    &&& !old(self).has_table(table_name@)
                    &&& final(self).same_as(*old(self))
                },
                Err(e) => {
                    &&& old(self).has_table(table_name@)
                    &&& final(self).same_as(*old(self))
                    &&& semantic_write_failed(
                        *judge,
                        old(self).table_at(table_name@),
                        table_name@,
                        input,
                        row_ids_of(old(self).table_at(table_name@).rows@),
                        e,
                    )
                },
            },
    {
        let no_filters: Vec<ExactFilter> = Vec::new();
        let ghost before = *self;
        let r = self.persist_semantic_with_filters(table_name, input, no_filters.as_slice(), judge);
        proof {
            if before.has_table(table_name@) {
                let t = before.table_at(table_name@);
                lemma_matching_no_filters(t.schema, t.rows@);
                assert(no_filters@ =~= Seq::<ExactFilter>::empty());
                assert(matching_ids(t, no_filters@) == row_ids_of(t.rows@));
                assert(!resolve_result(Err(r->Err_0), table_name@, t.schema, no_filters@));
            }
        }
        r
    }

    /// Records the relations that `judge` finds between the row `row_id`
    /// and each distinct candidate row other than it.
    pub fn enrich_row_semantic<J: SemanticJudge>(
        &mut self,
        table_name: &str,
        row_id: RowId,
        candidates: &[RowId],
        judge: &J,
    ) -> (r: Result<PersistOutcome, DbError>)
        requires
            old(self).wf(),
            old(self).has_table(table_name@) ==> old(self).table_at(table_name@).next_conflict_id
                + candidates@.len() < u64::MAX,
        ensures
            final(self).wf(),
            match r {
                Ok(o) => {
                    &&& old(self).has_table(table_name@)
                    &&& final(self).only_table_changed(*old(self), old(self).table_pos(table_name@))
                    &&& exists|rels: Seq<SemanticRelation>|
                        #[trigger] semantic_enrich_done(
                            *judge,
                            old(self).table_at(table_name@),
                            final(self).table_at(table_name@),
                            row_id,
                            candidates@,
                            rels,
                            o,
                        )
                },
                Err(DbError::TableNotFound(name)) => {
                    &&& name@ == table_name@
                    &&& !old(self).has_table(table_name@)
                    &&& final(self).same_as(*old(self))
                },
                Err(e) => {
                    &&& old(self).has_table(table_name@)
                    &&& final(self).same_as(*old(self))
                    &&& enrich_failed(*judge, old(self).table_at(table_name@), row_id, candidates@, e)
                },
            },
    {
        let i = match self.table_index(table_name) {
            Some(i) => i,
            None => {
                return Err(DbError::TableNotFound(String::from_str(table_name)));
            },
        };
        assert(self.tables@[i as int].wf());
        let ghost before = *self;
        let r = enrich_existing_row_with_candidates(&mut self.tables[i], row_id, candidates, judge);
        proof {
            let t0 = before.tables@[i as int];
            let t1 = self.tables@[i as int];
            assert(before.table_pos(table_name@) == i);
            if r is Ok {
                let o = r->Ok_0;
                let rels = choose|rels: Seq<SemanticRelation>|
                    #[trigger] semantic_enrich_done(*judge, t0, t1, row_id, candidates@, rels, o);
                lemma_one_table_changed(before, *self, i as int);
                assert(self.table_pos(table_name@) == i);
                assert(semantic_enrich_done(*judge, before.table_at(table_name@), self.table_at(table_name@), row_id, candidates@, rels, o));
            } else {
                assert(self.tables@ =~= before.tables@);
            }
        }
        r
    }
}

} // verus!
