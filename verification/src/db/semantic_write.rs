use vstd::prelude::*;

use crate::db::effects::{apply_semantic_effects, effects_applied, outcome_effects, relations_applied, targets_ok};
use crate::db::judging::{
    classified, classify, distinct_candidates, judge_candidate_rows, judging_error, lemma_classify,
    lemma_distinct_candidates, subject_of_values, verdicts_of,
};
use crate::error::{DbError, SemanticJudgeError};
use crate::ids::RowId;
use crate::judge::{SemanticJudge, SemanticSubject};
use crate::persist::PersistOutcome;
use crate::row::Row;
use crate::semantic::{CompatibleRelation, SemanticRelation};
use crate::table::{has_row, row_of, values_fit, Table};
use crate::value::Value;

verus! {

/// Why judging the candidates of a write in `t`, for a row with the values
/// `values`, can fail: the table has no semantic scope; or, for the subject of
/// those values, a candidate names no row or the judge answered an error, as
/// `judging_error` details.
pub open spec fn judging_failed<J: SemanticJudge>(
    judge: J,
    t: Table,
    values: Seq<Value>,
    candidates: Seq<RowId>,
    skipped: Option<RowId>,
    e: DbError,
) -> bool {
    if t.schema.semantic_scope is None {
        e == DbError::SemanticJudge(SemanticJudgeError::NoSemanticScopeDefined)
    } else {
        exists|subject: SemanticSubject|
            #[trigger] subject_of_values(t, values, subject) && judging_error(
                judge,
                t,
                subject,
                candidates,
                skipped,
                e,
            )
    }
}

/// `t1` is `t0` with one more row, of identifier `id`, and no other change.
pub open spec fn row_inserted(t0: Table, t1: Table, id: RowId) -> bool {
    &&& id.0 == t0.next_row_id
    &&& id.0 == t0.rows@.len() + 1
    &&& t1.schema == t0.schema
    &&& t1.next_row_id == t0.next_row_id + 1
    &&& t1.rows@.len() == t0.rows@.len() + 1
    &&& t1.rows@.drop_last() == t0.rows@
    &&& t1.rows@.last().id == id
}

/// `t1` is `t0` after a semantic write of a row with identifier `o.row_id`:
/// the row is appended, and the relations that the verdicts `rels` give
/// between it and each distinct candidate are recorded, as `o` lists.
pub open spec fn semantic_insert_done<J: SemanticJudge>(
    judge: J,
    t0: Table,
    t1: Table,
    candidates: Seq<RowId>,
    rels: Seq<SemanticRelation>,
    o: PersistOutcome,
) -> bool {
    let d = distinct_candidates(candidates, None);
    &&& t0.schema.semantic_scope is Some
    &&& rels.len() == d.len()
    &&& forall|x: RowId| d.contains(x) ==> has_row(t0.rows@, x)
    &&& row_inserted(t0, t1, o.row_id)
    &&& exists|subject: SemanticSubject|
        #[trigger] subject_of_values(t0, t1.rows@.last().values@, subject) && verdicts_of(
            judge,
            t0,
            subject,
            d,
            rels,
        )
    &&& relations_applied(t0, t1, o.row_id, classified(d, rels), outcome_effects(o))
}

/// `t1` is `t0` after a semantic enrichment of its row `row_id`: the
/// relations that the verdicts `rels` give between that row and each distinct
/// candidate other than it are recorded, as `o` lists.
pub open spec fn semantic_enrich_done<J: SemanticJudge>(
    judge: J,
    t0: Table,
    t1: Table,
    row_id: RowId,
    candidates: Seq<RowId>,
    rels: Seq<SemanticRelation>,
    o: PersistOutcome,
) -> bool {
    let d = distinct_candidates(candidates, Some(row_id));
    &&& t0.schema.semantic_scope is Some
    &&& has_row(t0.rows@, row_id)
    &&& o.row_id == row_id
    &&& rels.len() == d.len()
    &&& forall|x: RowId| d.contains(x) ==> has_row(t0.rows@, x)
    &&& exists|subject: SemanticSubject|
        #[trigger] subject_of_values(t0, row_of(t0.rows@, row_id).values@, subject) && verdicts_of(
            judge,
            t0,
            subject,
            d,
            rels,
        )
    &&& effects_applied(t0, t1, row_id, classified(d, rels), outcome_effects(o))
}

/// Why enriching the row `row_id` of `t` can fail: the row does not exist,
/// or judging its candidates failed.
pub open spec fn enrich_failed<J: SemanticJudge>(
    judge: J,
    t: Table,
    row_id: RowId,
    candidates: Seq<RowId>,
    e: DbError,
) -> bool {
    if !has_row(t.rows@, row_id) {
        e matches DbError::RowNotFound { table: name, row_id: missing } && name@ == t.schema.name@
            && missing == row_id
    } else {
        judging_failed(judge, t, row_of(t.rows@, row_id).values@, candidates, Some(row_id), e)
    }
}

/// There are no more distinct candidates than candidates.
pub proof fn lemma_distinct_candidates_len(c: Seq<RowId>, skipped: Option<RowId>)
    ensures
        distinct_candidates(c, skipped).len() <= c.len(),
    decreases c.len(),
{
    if c.len() > 0 {
        lemma_distinct_candidates_len(c.drop_last(), skipped);
    }
}

/// There are no more rows of one kind than rows.
pub proof fn lemma_classify_len(d: Seq<RowId>, rels: Seq<SemanticRelation>, kind: SemanticRelation)
    ensures
        classify(d, rels, kind).len() <= d.len(),
    decreases d.len(),
{
    if d.len() > 0 && rels.len() > 0 {
        lemma_classify_len(d.drop_last(), rels.drop_last(), kind);
    }
}

/// The targets of each kind, for distinct existing candidates other than
/// `row`, are distinct existing rows other than `row`.
proof fn lemma_targets_ok(t: Table, row: RowId, d: Seq<RowId>, rels: Seq<SemanticRelation>, kind: SemanticRelation)
    requires
        d.no_duplicates(),
        rels.len() == d.len(),
        forall|x: RowId| #[trigger] d.contains(x) ==> has_row(t.rows@, x) && x != row,
    ensures
        targets_ok(t, row, classify(d, rels, kind)),
{
    lemma_classify(d, rels, kind);
    let c = classify(d, rels, kind);
    assert forall|i: int| 0 <= i < c.len() implies has_row(t.rows@, #[trigger] c[i]) && c[i] != row by {
        assert(c.contains(c[i]));
        assert(d.contains(c[i]));
    }
}

/// Writes `values` as a new row of `table` and records the relations that
/// `judge` finds between it and each distinct candidate row.
pub fn persist_insert_with_candidate_rows<J: SemanticJudge>(
    table: &mut Table,
    values: Vec<Value>,
    candidates: &[RowId],
    judge: &J,
) -> (r: Result<PersistOutcome, DbError>)
    requires
        old(table).wf(),
        values_fit(old(table).schema, values@),
        old(table).next_row_id < u64::MAX,
        old(table).next_conflict_id + candidates@.len() < u64::MAX,
    ensures
        final(table).wf(),
        r is Ok ==> final(table).rows@.last().values@ == values@,
        r is Ok ==> exists|rels: Seq<SemanticRelation>|
            #[trigger] semantic_insert_done(*judge, *old(table), *final(table), candidates@, rels, r->Ok_0),
        r is Err ==> *final(table) == *old(table) && judging_failed(*judge, *old(table), values@, candidates@, None, r->Err_0),
{
    let ghost t0 = *table;
    let ghost vals = values@;
    let candidate_row = Row { id: RowId(0), values };
    let subject = match SemanticSubject::from_row(&table.schema, &candidate_row) {
        Ok(s) => s,
        Err(e) => {
            proof {
                if table.schema.semantic_scope is Some {
                    crate::judge::lemma_table_row_has_subject(table.schema, candidate_row.values@);
                    let sc = table.schema.semantic_scope->0;
                    if e is MissingScopeValue {
                        let j = choose|j: int|
                            0 <= j < sc.columns@.len() && (forall|k: int|
                                0 <= k < j ==> crate::row::cell(table.schema.columns@, candidate_row.values@, #[trigger] sc.columns@[k]@)
                                    is Some) && crate::row::cell(table.schema.columns@, candidate_row.values@, sc.columns@[j]@) is None
                                && #[trigger] sc.columns@[j]@ == e->MissingScopeValue_0@;
                        assert(crate::row::cell(table.schema.columns@, candidate_row.values@, sc.columns@[j]@) is Some);
                    }
                }
            }
            return Err(DbError::SemanticJudge(e));
        },
    };
    assert(subject_of_values(*table, vals, subject));
    let judged = judge_candidate_rows(table, &subject, candidates, None, judge);
    let (targets, rels) = match judged {
        Ok(v) => v,
        Err(e) => {
            assert(judging_error(*judge, *table, subject, candidates@, None, e));
            return Err(e);
        },
    };
    let ghost d = distinct_candidates(candidates@, None);
    let Row { id: _, values } = candidate_row;
    let row_id = table.insert_row(values);
    let ghost mid = *table;
    proof {
        lemma_distinct_candidates(candidates@, None);
        lemma_distinct_candidates_len(candidates@, None);
        crate::table::lemma_rows_grow(t0.rows@, mid.rows@);
        assert forall|x: RowId| #[trigger] d.contains(x) implies has_row(mid.rows@, x) && x != row_id by {
            assert(has_row(t0.rows@, x));
            let k = choose|k: int| 0 <= k < t0.rows@.len() && #[trigger] t0.rows@[k].id == x;
            assert(t0.rows@[k].id.0 < t0.next_row_id);
        }
        lemma_targets_ok(mid, row_id, d, rels@, SemanticRelation::Compatible(CompatibleRelation::Generic));
        lemma_targets_ok(mid, row_id, d, rels@, SemanticRelation::Compatible(CompatibleRelation::Nonredundant));
        lemma_targets_ok(mid, row_id, d, rels@, SemanticRelation::Compatible(CompatibleRelation::Redundant));
        lemma_targets_ok(mid, row_id, d, rels@, SemanticRelation::Conflict);
        lemma_classify_len(d, rels@, SemanticRelation::Conflict);
        assert(has_row(mid.rows@, row_id)) by {
            assert(mid.rows@[mid.rows@.len() - 1].id == row_id);
        }
    }
    let effects = apply_semantic_effects(table, row_id, &targets);
    let o = PersistOutcome::new(
        row_id,
        effects.compatible,
        effects.support,
        effects.compressible,
        effects.conflict,
        effects.conflict_ids,
    );
    proof {
        assert(outcome_effects(o) == effects@);
        assert(table.rows@.drop_last() =~= t0.rows@);
        assert(subject_of_values(t0, table.rows@.last().values@, subject));
        assert(semantic_insert_done(*judge, t0, *table, candidates@, rels@, o));
        assert(table.rows@.last() == mid.rows@.last());
        assert(table.rows@.last().values@ == vals);
    }
    let res: Result<PersistOutcome, DbError> = Ok(o);
    proof {
        assert(semantic_insert_done(*judge, *old(table), *final(table), candidates@, rels@, res->Ok_0));
    }
    res
}

/// Records the relations that `judge` finds between the existing row
/// `row_id` and each distinct candidate row other than it.
pub fn enrich_existing_row_with_candidates<J: SemanticJudge>(
    table: &mut Table,
    row_id: RowId,
    candidates: &[RowId],
    judge: &J,
) -> (r: Result<PersistOutcome, DbError>)
    requires
        old(table).wf(),
        old(table).next_conflict_id + candidates@.len() < u64::MAX,
    ensures
        final(table).wf(),
        r is Ok ==> exists|rels: Seq<SemanticRelation>|
            #[trigger] semantic_enrich_done(*judge, *old(table), *final(table), row_id, candidates@, rels, r->Ok_0),
        r is Err ==> *final(table) == *old(table) && enrich_failed(*judge, *old(table), row_id, candidates@, r->Err_0),
{
    let ghost t0 = *table;
    let row = match table.row(row_id) {
        Some(row) => row,
        None => {
            return Err(DbError::RowNotFound { table: table.schema.name.clone(), row_id });
        },
    };
    proof {
        let k = choose|k: int| 0 <= k < table.rows@.len() && #[trigger] table.rows@[k].id == row_id;
        crate::table::lemma_row_of_at(table.rows@, k);
        assert(values_fit(table.schema, table.rows@[k].values@));
    }
    let subject = match SemanticSubject::from_row(&table.schema, row) {
        Ok(s) => s,
        Err(e) => {
            proof {
                if table.schema.semantic_scope is Some {
                    crate::judge::lemma_table_row_has_subject(table.schema, row.values@);
                    let sc = table.schema.semantic_scope->0;
                    if e is MissingScopeValue {
                        let j = choose|j: int|
                            0 <= j < sc.columns@.len() && (forall|k: int|
                                0 <= k < j ==> crate::row::cell(table.schema.columns@, row.values@, #[trigger] sc.columns@[k]@)
                                    is Some) && crate::row::cell(table.schema.columns@, row.values@, sc.columns@[j]@) is None
                                && #[trigger] sc.columns@[j]@ == e->MissingScopeValue_0@;
                        assert(crate::row::cell(table.schema.columns@, row.values@, sc.columns@[j]@) is Some);
                    }
                }
            }
            return Err(DbError::SemanticJudge(e));
        },
    };
    assert(subject_of_values(*table, row_of(table.rows@, row_id).values@, subject));
    let judged = judge_candidate_rows(table, &subject, candidates, Some(row_id), judge);
    let (targets, rels) = match judged {
        Ok(v) => v,
        Err(e) => {
            assert(judging_error(*judge, *table, subject, candidates@, Some(row_id), e));
            return Err(e);
        },
    };
    let ghost d = distinct_candidates(candidates@, Some(row_id));
    proof {
        lemma_distinct_candidates(candidates@, Some(row_id));
        lemma_distinct_candidates_len(candidates@, Some(row_id));
        assert forall|x: RowId| #[trigger] d.contains(x) implies has_row(t0.rows@, x) && x != row_id by {
        }
        lemma_targets_ok(t0, row_id, d, rels@, SemanticRelation::Compatible(CompatibleRelation::Generic));
        lemma_targets_ok(t0, row_id, d, rels@, SemanticRelation::Compatible(CompatibleRelation::Nonredundant));
        lemma_targets_ok(t0, row_id, d, rels@, SemanticRelation::Compatible(CompatibleRelation::Redundant));
        lemma_targets_ok(t0, row_id, d, rels@, SemanticRelation::Conflict);
        lemma_classify_len(d, rels@, SemanticRelation::Conflict);
    }
    let effects = apply_semantic_effects(table, row_id, &targets);
    let o = PersistOutcome::new(
        row_id,
        effects.compatible,
        effects.support,
        effects.compressible,
        effects.conflict,
        effects.conflict_ids,
    );
    proof {
        assert(outcome_effects(o) == effects@);
    }
    let res: Result<PersistOutcome, DbError> = Ok(o);
    proof {
        assert(subject_of_values(t0, row_of(t0.rows@, row_id).values@, subject));
        assert(semantic_enrich_done(*judge, *old(table), *final(table), row_id, candidates@, rels@, res->Ok_0));
    }
    res
}

} // verus!
