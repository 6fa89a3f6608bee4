use vstd::prelude::*;

use crate::db::effects::{TargetView, Targets};
use crate::error::{DbError, SemanticJudgeError};
use crate::ids::RowId;
use crate::judge::{is_subject_of, SemanticJudge, SemanticSubject};
use crate::semantic::{CompatibleRelation, SemanticRelation};
use crate::sets::{ids_sorted, insert_row_id};
use crate::table::{has_row, row_of, values_fit, Table};
use crate::value::Value;

verus! {

/// The candidates in order, each once, without `skipped`.
pub open spec fn distinct_candidates(c: Seq<RowId>, skipped: Option<RowId>) -> Seq<RowId>
    decreases c.len(),
{
    if c.len() == 0 {
        Seq::empty()
    } else {
        let d = distinct_candidates(c.drop_last(), skipped);
        if skipped == Some(c.last()) || d.contains(c.last()) {
            d
        } else {
            d.push(c.last())
        }
    }
}

/// The rows of `d` whose relation in `rels` is `kind`, in order.
pub open spec fn classify(d: Seq<RowId>, rels: Seq<SemanticRelation>, kind: SemanticRelation) -> Seq<RowId>
    decreases d.len(),
{
    if d.len() == 0 || rels.len() == 0 {
        Seq::empty()
    } else {
        let p = classify(d.drop_last(), rels.drop_last(), kind);
        if rels.last() == kind {
            p.push(d.last())
        } else {
            p
        }
    }
}

/// The rows of `d` sorted by the relation that `rels` gives each; rows
/// without relation are in none of the lists.
pub open spec fn classified(d: Seq<RowId>, rels: Seq<SemanticRelation>) -> TargetView {
    TargetView {
        compatible: classify(d, rels, SemanticRelation::Compatible(CompatibleRelation::Generic)),
        support: classify(d, rels, SemanticRelation::Compatible(CompatibleRelation::Nonredundant)),
        compressible: classify(d, rels, SemanticRelation::Compatible(CompatibleRelation::Redundant)),
        conflict: classify(d, rels, SemanticRelation::Conflict),
    }
}

/// `s` is the semantic subject of a row of `t` with the values `values`:
/// the scope columns of `t`, in scope order, with the values shown.
pub open spec fn subject_of_values(t: Table, values: Seq<Value>, s: SemanticSubject) -> bool {
    t.schema.semantic_scope matches Some(sc) && is_subject_of(sc.columns@, t.schema, values, s.fields@)
}

/// Asked for the relation of `subject` to the row `x` of `t`, the judge
/// answers `r`.
pub open spec fn judged_row<J: SemanticJudge>(
    judge: J,
    t: Table,
    subject: SemanticSubject,
    x: RowId,
    r: Result<SemanticRelation, SemanticJudgeError>,
) -> bool {
    exists|s: SemanticSubject|
        #![trigger judge.judged(subject, s, r)]
        subject_of_values(t, row_of(t.rows@, x).values@, s) && judge.judged(subject, s, r)
}

/// Each verdict of `rels` is the judge's answer for `subject` and the row of
/// `d` at the same position.
pub open spec fn verdicts_of<J: SemanticJudge>(
    judge: J,
    t: Table,
    subject: SemanticSubject,
    d: Seq<RowId>,
    rels: Seq<SemanticRelation>,
) -> bool {
    &&& rels.len() == d.len()
    &&& forall|i: int|
        0 <= i < d.len() ==> #[trigger] judged_row(
            judge,
            t,
            subject,
            d[i],
            Ok::<SemanticRelation, SemanticJudgeError>(rels[i]),
        )
}

/// Every row of `d` exists in `t`, and the judge answered a relation for it.
pub open spec fn all_judged<J: SemanticJudge>(judge: J, t: Table, subject: SemanticSubject, d: Seq<RowId>) -> bool {
    forall|x: RowId|
        #[trigger] d.contains(x) ==> has_row(t.rows@, x) && exists|rel: SemanticRelation|
            #[trigger] judged_row(judge, t, subject, x, Ok::<SemanticRelation, SemanticJudgeError>(rel))
}

/// Why judging `subject` against the candidates stopped with `e`: at the
/// candidate `candidates[i]`, each distinct candidate before it existed and
/// was judged, and either it names no row of `t`, or the judge answered the
/// error for it.
pub open spec fn judging_error<J: SemanticJudge>(
    judge: J,
    t: Table,
    subject: SemanticSubject,
    candidates: Seq<RowId>,
    skipped: Option<RowId>,
    e: DbError,
) -> bool {
    exists|i: int|
        #![trigger candidates[i]]
        0 <= i < candidates.len() && skipped != Some(candidates[i]) && all_judged(
            judge,
            t,
            subject,
            distinct_candidates(candidates.take(i), skipped),
        ) && match e {
            DbError::RowNotFound { table: name, row_id } => {
                &&& name@ == t.schema.name@
                &&& row_id == candidates[i]
                &&& !has_row(t.rows@, row_id)
            },
            DbError::SemanticJudge(je) => {
                &&& has_row(t.rows@, candidates[i])
                &&& judged_row(judge, t, subject, candidates[i], Err::<SemanticRelation, SemanticJudgeError>(je))
            },
            _ => false,
        }
}

/// Distinct candidates are distinct, and none is the skipped row.
pub proof fn lemma_distinct_candidates(c: Seq<RowId>, skipped: Option<RowId>)
    ensures
        distinct_candidates(c, skipped).no_duplicates(),
        forall|x: RowId| #[trigger] distinct_candidates(c, skipped).contains(x) ==> c.contains(x) && skipped != Some(x),
        forall|x: RowId| #[trigger] c.contains(x) && skipped != Some(x) ==> distinct_candidates(c, skipped).contains(x),
    decreases c.len(),
{
    if c.len() > 0 {
        lemma_distinct_candidates(c.drop_last(), skipped);
        let d = distinct_candidates(c.drop_last(), skipped);
        assert forall|x: RowId| distinct_candidates(c, skipped).contains(x) implies c.contains(x) && skipped != Some(x) by {
            if d.contains(x) {
                assert(c.drop_last().contains(x) && skipped != Some(x));
                let k = choose|k: int| 0 <= k < c.drop_last().len() && c.drop_last()[k] == x;
                assert(c[k] == x);
            } else {
                assert(x == c.last());
                assert(c[c.len() - 1] == x);
            }
        }
        assert forall|x: RowId| c.contains(x) && skipped != Some(x) implies distinct_candidates(c, skipped).contains(x) by {
            let k = choose|k: int| 0 <= k < c.len() && c[k] == x;
            if k < c.len() - 1 {
                assert(c.drop_last()[k] == x);
                assert(c.drop_last().contains(x));
                assert(d.contains(x));
                if !(skipped == Some(c.last()) || d.contains(c.last())) {
                    let w = choose|w: int| 0 <= w < d.len() && d[w] == x;
                    assert(d.push(c.last())[w] == x);
                }
            } else {
                if !(skipped == Some(c.last()) || d.contains(c.last())) {
                    assert(d.push(c.last())[d.len() as int] == x);
                }
            }
        }
    }
}

/// The rows of one kind are distinct rows of `d`.
pub proof fn lemma_classify(d: Seq<RowId>, rels: Seq<SemanticRelation>, kind: SemanticRelation)
    requires
        d.no_duplicates(),
        rels.len() == d.len(),
    ensures
        classify(d, rels, kind).no_duplicates(),
        forall|x: RowId| #[trigger] classify(d, rels, kind).contains(x) ==> d.contains(x),
    decreases d.len(),
{
    if d.len() > 0 {
        lemma_classify(d.drop_last(), rels.drop_last(), kind);
        let p = classify(d.drop_last(), rels.drop_last(), kind);
        assert forall|x: RowId| classify(d, rels, kind).contains(x) implies d.contains(x) by {
            if p.contains(x) {
                assert(d.drop_last().contains(x));
                let k = choose|k: int| 0 <= k < d.drop_last().len() && d.drop_last()[k] == x;
                assert(d[k] == x);
            } else {
                assert(d[d.len() - 1] == x);
            }
        }
        if rels.last() == kind {
            assert(!p.contains(d.last())) by {
                if p.contains(d.last()) {
                    let k = choose|k: int| 0 <= k < d.drop_last().len() && d.drop_last()[k] == d.last();
                    assert(d[k] == d[d.len() - 1]);
                }
            }
        }
    }
}

/// Asks the judge for the relation between `subject` and each distinct
/// candidate row other than `skipped`, and sorts the candidates by relation.
pub fn judge_candidate_rows<J: SemanticJudge>(
    table: &Table,
    subject: &SemanticSubject,
    candidates: &[RowId],
    skipped: Option<RowId>,
    judge: &J,
) -> (r: Result<(Targets, Ghost<Seq<SemanticRelation>>), DbError>)
    requires
        table.wf(),
        table.schema.semantic_scope is Some,
    ensures
        match r {
            Ok((tg, rels)) => {
                let d = distinct_candidates(candidates@, skipped);
                &&& tg@ == classified(d, rels@)
                &&& forall|x: RowId| d.contains(x) ==> has_row(table.rows@, x)
                &&& verdicts_of(*judge, *table, *subject, d, rels@)
            },
            Err(e) => judging_error(*judge, *table, *subject, candidates@, skipped, e),
        },
{
    let mut visited: Vec<RowId> = Vec::new();
    let mut tg = Targets {
        compatible: Vec::new(),
        support: Vec::new(),
        compressible: Vec::new(),
        conflict: Vec::new(),
    };
    let ghost mut rels: Seq<SemanticRelation> = Seq::empty();
    let mut i: usize = 0;
    while i < candidates.len()
        invariant
            table.wf(),
            table.schema.semantic_scope is Some,
            i <= candidates@.len(),
            ids_sorted(visited@),
            visited@.to_set() == distinct_candidates(candidates@.take(i as int), skipped).to_set(),
            tg@ == classified(distinct_candidates(candidates@.take(i as int), skipped), rels),
            forall|x: RowId|
                distinct_candidates(candidates@.take(i as int), skipped).contains(x) ==> has_row(
                    table.rows@,
                    x,
                ),
            verdicts_of(*judge, *table, *subject, distinct_candidates(candidates@.take(i as int), skipped), rels),
        decreases candidates@.len() - i,
    {
        let c = candidates[i];
        let ghost d0 = distinct_candidates(candidates@.take(i as int), skipped);
        proof {
            assert(candidates@.take(i + 1).drop_last() =~= candidates@.take(i as int));
            assert(candidates@.take(i + 1).last() == c);
            assert(d0.contains(c) == d0.to_set().contains(c));
            lemma_verdicts_all_judged(*judge, *table, *subject, d0, rels);
        }
        let is_skipped = match skipped {
            Some(s) => s.0 == c.0,
            None => false,
        };
        if is_skipped {
            i = i + 1;
            continue;
        }
        assert(skipped != Some(candidates@[i as int]));
        if !insert_row_id(&mut visited, c) {
            i = i + 1;
            continue;
        }
        let existing = match table.row(c) {
            Some(row) => row,
            None => {
                let e = DbError::RowNotFound { table: table.schema.name.clone(), row_id: c };
                proof {
                    assert(candidates@[i as int] == c);
                    assert(judging_error(*judge, *table, *subject, candidates@, skipped, e));
                }
                return Err(e);
            },
        };
        proof {
            let k = choose|k: int| 0 <= k < table.rows@.len() && #[trigger] table.rows@[k].id == c;
            crate::table::lemma_row_of_at(table.rows@, k);
            assert(values_fit(table.schema, table.rows@[k].values@));
            crate::judge::lemma_table_row_has_subject(table.schema, table.rows@[k].values@);
        }
        let existing_subject = match SemanticSubject::from_row(&table.schema, existing) {
            Ok(s) => s,
            Err(e) => {
                proof {
                    let sc = table.schema.semantic_scope->0;
                    if e is MissingScopeValue {
                        let j = choose|j: int|
                            0 <= j < sc.columns@.len() && (forall|k: int|
                                0 <= k < j ==> crate::row::cell(table.schema.columns@, existing.values@, #[trigger] sc.columns@[k]@)
                                    is Some) && crate::row::cell(table.schema.columns@, existing.values@, sc.columns@[j]@) is None
                                && #[trigger] sc.columns@[j]@ == e->MissingScopeValue_0@;
                        assert(crate::row::cell(table.schema.columns@, existing.values@, sc.columns@[j]@) is Some);
                    }
                }
                return Err(DbError::SemanticJudge(e));
            },
        };
        assert(subject_of_values(*table, row_of(table.rows@, c).values@, existing_subject));
        let relation = match judge.judge(subject, &existing_subject) {
            Ok(rel) => rel,
            Err(e) => {
                let err = DbError::SemanticJudge(e);
                proof {
                    assert(candidates@[i as int] == c);
                    assert(judged_row(*judge, *table, *subject, c, Err::<SemanticRelation, SemanticJudgeError>(e)));
                    assert(judging_error(*judge, *table, *subject, candidates@, skipped, err));
                }
                return Err(err);
            },
        };
        assert(judged_row(*judge, *table, *subject, c, Ok::<SemanticRelation, SemanticJudgeError>(relation)));
        let ghost old_rels = rels;
        match relation {
            SemanticRelation::Compatible(CompatibleRelation::Generic) => tg.compatible.push(c),
            SemanticRelation::Compatible(CompatibleRelation::Nonredundant) => tg.support.push(c),
            SemanticRelation::Compatible(CompatibleRelation::Redundant) => tg.compressible.push(c),
            SemanticRelation::Conflict => tg.conflict.push(c),
            SemanticRelation::NoRelation => {},
        }
        proof {
            rels = rels.push(relation);
            let d1 = d0.push(c);
            assert(distinct_candidates(candidates@.take(i + 1), skipped) == d1);
            assert(d1.drop_last() =~= d0);
            assert(rels.drop_last() =~= old_rels);
            d0.lemma_push_to_set_commute(c);
            assert forall|j: int| 0 <= j < d1.len() implies #[trigger] judged_row(
                *judge,
                *table,
                *subject,
                d1[j],
                Ok::<SemanticRelation, SemanticJudgeError>(rels[j]),
            ) by {
                if j < d0.len() {
                    assert(d1[j] == d0[j]);
                    assert(rels[j] == old_rels[j]);
                }
            }
        }
        i = i + 1;
    }
    proof {
        assert(candidates@.take(candidates@.len() as int) =~= candidates@);
    }
    Ok((tg, Ghost(rels)))
}

/// Verdicts for rows that exist mean that every row was judged.
pub proof fn lemma_verdicts_all_judged<J: SemanticJudge>(
    judge: J,
    t: Table,
    subject: SemanticSubject,
    d: Seq<RowId>,
    rels: Seq<SemanticRelation>,
)
    requires
        verdicts_of(judge, t, subject, d, rels),
        forall|x: RowId| d.contains(x) ==> has_row(t.rows@, x),
    ensures
        all_judged(judge, t, subject, d),
{
    assert forall|x: RowId| #[trigger] d.contains(x) implies has_row(t.rows@, x) && exists|rel: SemanticRelation|
        #[trigger] judged_row(judge, t, subject, x, Ok::<SemanticRelation, SemanticJudgeError>(rel)) by {
        let k = choose|k: int| 0 <= k < d.len() && d[k] == x;
        assert(judged_row(judge, t, subject, d[k], Ok::<SemanticRelation, SemanticJudgeError>(rels[k])));
    }
}

} // verus!
