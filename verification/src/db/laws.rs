use vstd::prelude::*;

use crate::db::effects::{edges_to, fresh_targets, outcome_effects, relations_applied};
use crate::db::judging::{classified, distinct_candidates, judged_row, subject_of_values, verdicts_of};
use crate::db::persist_ops::row_appended;
use crate::db::semantic_write::{semantic_enrich_done, semantic_insert_done};
use crate::error::SemanticJudgeError;
use crate::judge::{lemma_subject_canonical, FixedSemanticJudge, SemanticJudge, SemanticSubject};
use crate::ids::{ConflictId, RowId};
use crate::relation::ConflictRecord;
use crate::persist::PersistOutcome;
use crate::relation::{edge_of, ConflictStatus, SemanticEdge};
use crate::row::RowInput;
use crate::semantic::SemanticRelation;
use crate::sets::{edge_lt, edges_sorted, ids_sorted};
use crate::table::{has_row, row_of, Table};

verus! {

/// Two increasing sequences of identifiers with the same elements are equal.
pub proof fn lemma_sorted_ids_unique(a: Seq<RowId>, b: Seq<RowId>)
    requires
        ids_sorted(a),
        ids_sorted(b),
        a.to_set() == b.to_set(),
    ensures
        a == b,
    decreases a.len(),
{
    if a.len() == 0 {
        if b.len() > 0 {
            assert(b.to_set().contains(b[0]));
        }
    } else if b.len() == 0 {
        assert(a.to_set().contains(a[0]));
    } else {
        let x = a.last();
        let y = b.last();
        assert(a.to_set().contains(x));
        assert(b.to_set().contains(y));
        assert(b.contains(x));
        assert(a.contains(y));
        let i = choose|i: int| 0 <= i < b.len() && b[i] == x;
        let j = choose|j: int| 0 <= j < a.len() && a[j] == y;
        assert(x == y) by {
            if x.0 < y.0 {
                assert(a[j].0 <= a[a.len() - 1].0);
            } else if y.0 < x.0 {
                assert(b[i].0 <= b[b.len() - 1].0);
            }
        }
        let a0 = a.drop_last();
        let b0 = b.drop_last();
        assert(a0.to_set() =~= b0.to_set()) by {
            assert forall|z: RowId| a0.to_set().contains(z) implies b0.to_set().contains(z) by {
                let k = choose|k: int| 0 <= k < a0.len() && a0[k] == z;
                assert(a[k] == z);
                assert(z.0 < x.0);
                assert(b.to_set().contains(z));
                let m = choose|m: int| 0 <= m < b.len() && b[m] == z;
                assert(m != b.len() - 1);
                assert(b0[m] == z);
            }
            assert forall|z: RowId| b0.to_set().contains(z) implies a0.to_set().contains(z) by {
                let k = choose|k: int| 0 <= k < b0.len() && b0[k] == z;
                assert(b[k] == z);
                assert(z.0 < y.0);
                assert(a.to_set().contains(z));
                let m = choose|m: int| 0 <= m < a.len() && a[m] == z;
                assert(m != a.len() - 1);
                assert(a0[m] == z);
            }
        }
        lemma_sorted_ids_unique(a0, b0);
        assert(a =~= a0.push(x));
        assert(b =~= b0.push(y));
    }
}

/// Two increasing sequences of edges with the same elements are equal.
pub proof fn lemma_sorted_edges_unique(a: Seq<SemanticEdge>, b: Seq<SemanticEdge>)
    requires
        edges_sorted(a),
        edges_sorted(b),
        a.to_set() == b.to_set(),
    ensures
        a == b,
    decreases a.len(),
{
    if a.len() == 0 {
        if b.len() > 0 {
            assert(b.to_set().contains(b[0]));
        }
    } else if b.len() == 0 {
        assert(a.to_set().contains(a[0]));
    } else {
        let x = a.last();
        let y = b.last();
        assert(a.to_set().contains(x));
        assert(b.to_set().contains(y));
        assert(b.contains(x));
        assert(a.contains(y));
        let i = choose|i: int| 0 <= i < b.len() && b[i] == x;
        let j = choose|j: int| 0 <= j < a.len() && a[j] == y;
        assert(x == y) by {
            if j < a.len() - 1 {
                assert(edge_lt(a[j], a[a.len() - 1]));
            }
            if i < b.len() - 1 {
                assert(edge_lt(b[i], b[b.len() - 1]));
            }
        }
        let a0 = a.drop_last();
        let b0 = b.drop_last();
        assert(a0.to_set() =~= b0.to_set()) by {
            assert forall|z: SemanticEdge| a0.to_set().contains(z) implies b0.to_set().contains(z) by {
                let k = choose|k: int| 0 <= k < a0.len() && a0[k] == z;
                assert(a[k] == z);
                assert(edge_lt(z, x));
                assert(b.to_set().contains(z));
                let m = choose|m: int| 0 <= m < b.len() && b[m] == z;
                assert(m != b.len() - 1);
                assert(b0[m] == z);
            }
            assert forall|z: SemanticEdge| b0.to_set().contains(z) implies a0.to_set().contains(z) by {
                let k = choose|k: int| 0 <= k < b0.len() && b0[k] == z;
                assert(b[k] == z);
                assert(edge_lt(z, y));
                assert(a.to_set().contains(z));
                let m = choose|m: int| 0 <= m < a.len() && a[m] == z;
                assert(m != a.len() - 1);
                assert(a0[m] == z);
            }
        }
        lemma_sorted_edges_unique(a0, b0);
        assert(a =~= a0.push(x));
        assert(b =~= b0.push(y));
    }
}

/// Binding a row that was not bound and then unbinding it leaves the rows
/// of the binding set exactly as they were.
pub proof fn lemma_bind_then_unbind(before: Seq<RowId>, mid: Seq<RowId>, after: Seq<RowId>, x: RowId)
    requires
        ids_sorted(before),
        ids_sorted(mid),
        ids_sorted(after),
        !before.contains(x),
        mid.to_set() == before.to_set().insert(x),
        after.to_set() == mid.to_set().remove(x),
    ensures
        after == before,
{
    assert(after.to_set() =~= before.to_set());
    lemma_sorted_ids_unique(after, before);
}

/// Binding a row twice changes the binding set once: the second binding
/// finds the row bound and leaves the rows as they were.
pub proof fn lemma_bind_twice(before: Seq<RowId>, mid: Seq<RowId>, after: Seq<RowId>, x: RowId)
    requires
        ids_sorted(mid),
        ids_sorted(after),
        mid.to_set() == before.to_set().insert(x),
        after.to_set() == mid.to_set().insert(x),
    ensures
        mid.contains(x),
        after == mid,
{
    assert(mid.to_set().contains(x));
    assert(after.to_set() =~= mid.to_set());
    lemma_sorted_ids_unique(after, mid);
}

/// Adding the same relation edge twice changes the edges once.
pub proof fn lemma_add_edge_twice(
    before: Seq<SemanticEdge>,
    mid: Seq<SemanticEdge>,
    after: Seq<SemanticEdge>,
    e: SemanticEdge,
)
    requires
        edges_sorted(mid),
        edges_sorted(after),
        mid.to_set() == before.to_set().insert(e),
        after.to_set() == mid.to_set().insert(e),
    ensures
        after == mid,
{
    assert(after.to_set() =~= mid.to_set());
    lemma_sorted_edges_unique(after, mid);
}

/// After `Table::insert_row`, the new identifier is one past the number of
/// earlier rows and was not in use; the new row reads back under it; and
/// every other identifier names the same row as before, or none as before.
pub proof fn lemma_inserted_row_reads_back(t0: Table, t1: Table, id: RowId, values: Vec<crate::value::Value>)
    requires
        t0.wf(),
        t1.wf(),
        id == RowId(t0.next_row_id),
        t1.rows@ == t0.rows@.push(crate::row::Row { id, values }),
    ensures
        id.0 == t0.rows@.len() + 1,
        !has_row(t0.rows@, id),
        has_row(t1.rows@, id),
        row_of(t1.rows@, id) == (crate::row::Row { id, values }),
        forall|x: RowId| x != id ==> (#[trigger] has_row(t1.rows@, x) <==> has_row(t0.rows@, x)),
        forall|x: RowId| has_row(t0.rows@, x) ==> #[trigger] row_of(t1.rows@, x) == row_of(t0.rows@, x),
{
    let n = t0.rows@.len();
    assert(t1.rows@[n as int] == t1.rows@.last());
    crate::table::lemma_row_of_at(t1.rows@, n as int);
    if has_row(t0.rows@, id) {
        let k = choose|k: int| 0 <= k < t0.rows@.len() && #[trigger] t0.rows@[k].id == id;
        assert(t0.rows@[k].id.0 < t0.next_row_id);
    }
    assert forall|x: RowId| x != id implies (#[trigger] has_row(t1.rows@, x) <==> has_row(t0.rows@, x)) by {
        if has_row(t1.rows@, x) {
            let k = choose|k: int| 0 <= k < t1.rows@.len() && #[trigger] t1.rows@[k].id == x;
            assert(k < n);
            assert(t0.rows@[k] == t1.rows@[k]);
        }
        if has_row(t0.rows@, x) {
            let k = choose|k: int| 0 <= k < t0.rows@.len() && #[trigger] t0.rows@[k].id == x;
            assert(t1.rows@[k] == t0.rows@[k]);
        }
    }
    assert forall|x: RowId| has_row(t0.rows@, x) implies #[trigger] row_of(t1.rows@, x) == row_of(t0.rows@, x) by {
        let k = choose|k: int| 0 <= k < t0.rows@.len() && #[trigger] t0.rows@[k].id == x;
        assert(t1.rows@[k] == t0.rows@[k]);
        crate::table::lemma_row_of_at(t0.rows@, k);
        crate::table::lemma_row_of_at(t1.rows@, k);
    }
}

/// After a plain write, the new row can be read back under the returned
/// identifier, with the values that the input gives to the columns, and
/// every earlier row is still there, unchanged.
pub proof fn lemma_persisted_row_readable(t0: Table, t1: Table, input: RowInput, id: RowId)
    requires
        t0.wf(),
        t1.wf(),
        row_appended(t0, t1, input, id),
    ensures
        !has_row(t0.rows@, id),
        has_row(t1.rows@, id),
        forall|c: int|
            0 <= c < t0.schema.columns@.len() ==> input.get_spec((#[trigger] t0.schema.columns@[c]).name@) == Some(
                row_of(t1.rows@, id).values@[c],
            ),
        forall|x: RowId| has_row(t0.rows@, x) ==> has_row(t1.rows@, x) && row_of(t1.rows@, x) == row_of(t0.rows@, x),
{
    let n = t0.rows@.len();
    assert(t1.rows@[n as int] == t1.rows@.last());
    crate::table::lemma_row_of_at(t1.rows@, n as int);
    if has_row(t0.rows@, id) {
        let k = choose|k: int| 0 <= k < t0.rows@.len() && #[trigger] t0.rows@[k].id == id;
        assert(t0.rows@[k].id.0 < t0.next_row_id);
    }
    assert forall|x: RowId| has_row(t0.rows@, x) implies has_row(t1.rows@, x) && row_of(t1.rows@, x) == row_of(
        t0.rows@,
        x,
    ) by {
        let k = choose|k: int| 0 <= k < t0.rows@.len() && #[trigger] t0.rows@[k].id == x;
        assert(t1.rows@.drop_last()[k] == t1.rows@[k]);
        crate::table::lemma_row_of_at(t0.rows@, k);
        crate::table::lemma_row_of_at(t1.rows@, k);
    }
}

/// A write only adds: every earlier row stays as it was, every relation
/// edge stays, and every earlier conflict record stays as it was.
pub proof fn lemma_semantic_write_keeps_memory<J: SemanticJudge>(
    judge: J,
    t0: Table,
    t1: Table,
    candidates: Seq<RowId>,
    rels: Seq<SemanticRelation>,
    o: PersistOutcome,
)
    requires
        semantic_insert_done(judge, t0, t1, candidates, rels, o),
    ensures
        t1.rows@.take(t0.rows@.len() as int) == t0.rows@,
        t0.compatible_edges@.to_set().subset_of(t1.compatible_edges@.to_set()),
        t0.support_edges@.to_set().subset_of(t1.support_edges@.to_set()),
        t0.compressible_edges@.to_set().subset_of(t1.compressible_edges@.to_set()),
        t0.conflict_edges@.to_set().subset_of(t1.conflict_edges@.to_set()),
        t1.conflict_records@.take(t0.conflict_records@.len() as int) == t0.conflict_records@,
{
    assert(t1.rows@.take(t0.rows@.len() as int) =~= t1.rows@.drop_last());
}

/// Each conflict edge that a write reports has an open conflict record,
/// under the reported identifier, that names exactly the two rows of the
/// edge.
pub proof fn lemma_conflicts_recorded(
    t0: Table,
    t1: Table,
    row: RowId,
    tg: crate::db::effects::TargetView,
    out: crate::db::effects::EffectsView,
)
    requires
        relations_applied(t0, t1, row, tg, out),
    ensures
        out.conflict_ids.len() == out.conflict.len(),
        forall|k: int|
            0 <= k < out.conflict.len() ==> {
                let rec = t1.conflict_records@[t0.conflict_records@.len() + k];
                &&& rec.id == out.conflict_ids[k]
                &&& rec.status == ConflictStatus::Open
                &&& rec.rows@.to_set() == set![(#[trigger] out.conflict[k]).first, out.conflict[k].second]
            },
{
    let ft = fresh_targets(t0.conflict_edges@.to_set(), row, tg.conflict);
    assert forall|k: int| 0 <= k < out.conflict.len() implies {
        let rec = t1.conflict_records@[t0.conflict_records@.len() + k];
        &&& rec.id == out.conflict_ids[k]
        &&& rec.status == ConflictStatus::Open
        &&& rec.rows@.to_set() == set![(#[trigger] out.conflict[k]).first, out.conflict[k].second]
    } by {
        assert(out.conflict[k] == edge_of(row, ft[k]));
        assert(out.conflict_ids[k] == out.conflict_ids[k]);
        assert(set![row, ft[k]] =~= set![out.conflict[k].first, out.conflict[k].second]);
    }
}

/// A candidate whose verdict is `kind` is among the rows that `classify`
/// gives for `kind`.
proof fn lemma_classify_has(d: Seq<RowId>, rels: Seq<SemanticRelation>, kind: SemanticRelation, i: int)
    requires
        rels.len() == d.len(),
        0 <= i < d.len(),
        rels[i] == kind,
    ensures
        crate::db::judging::classify(d, rels, kind).contains(d[i]),
    decreases d.len(),
{
    let p = crate::db::judging::classify(d.drop_last(), rels.drop_last(), kind);
    if i == d.len() - 1 {
        assert(crate::db::judging::classify(d, rels, kind) == p.push(d[i]));
        assert(p.push(d[i])[p.len() as int] == d[i]);
    } else {
        lemma_classify_has(d.drop_last(), rels.drop_last(), kind, i);
        let k = choose|k: int| 0 <= k < p.len() && p[k] == d[i];
        if rels.last() == kind {
            assert(p.push(d.last())[k] == d[i]);
        }
    }
}

/// A semantic write records every conflict that the judge finds: for each
/// candidate judged in conflict with the new row, the table afterwards holds
/// the conflict edge between the two rows.
pub proof fn lemma_conflict_verdicts_recorded<J: SemanticJudge>(
    judge: J,
    t0: Table,
    t1: Table,
    candidates: Seq<RowId>,
    rels: Seq<SemanticRelation>,
    o: PersistOutcome,
)
    requires
        semantic_insert_done(judge, t0, t1, candidates, rels, o),
    ensures
        forall|i: int|
            0 <= i < distinct_candidates(candidates, None).len() && rels[i] == SemanticRelation::Conflict
                ==> t1.conflict_edges@.contains(
                edge_of(o.row_id, #[trigger] distinct_candidates(candidates, None)[i]),
            ),
{
    let d = distinct_candidates(candidates, None);
    let tg = classified(d, rels);
    assert forall|i: int|
        0 <= i < d.len() && rels[i] == SemanticRelation::Conflict implies t1.conflict_edges@.contains(
        edge_of(o.row_id, #[trigger] d[i]),
    ) by {
        lemma_classify_has(d, rels, SemanticRelation::Conflict, i);
        let k = choose|k: int| 0 <= k < tg.conflict.len() && tg.conflict[k] == d[i];
        assert(edges_to(o.row_id, tg.conflict)[k] == edge_of(o.row_id, d[i]));
        assert(edges_to(o.row_id, tg.conflict).to_set().contains(edge_of(o.row_id, d[i])));
        assert(t1.conflict_edges@.to_set().contains(edge_of(o.row_id, d[i])));
    }
}

/// With every edge from `row` to the targets already present, no target is
/// fresh.
proof fn lemma_no_fresh(present: Set<SemanticEdge>, row: RowId, targets: Seq<RowId>)
    requires
        edges_to(row, targets).to_set().subset_of(present),
    ensures
        fresh_targets(present, row, targets) == Seq::<RowId>::empty(),
    decreases targets.len(),
{
    if targets.len() > 0 {
        let t0 = targets.drop_last();
        assert(edges_to(row, targets)[targets.len() - 1] == edge_of(row, targets.last()));
        assert(edges_to(row, targets).to_set().contains(edge_of(row, targets.last())));
        assert forall|e: SemanticEdge| edges_to(row, t0).to_set().contains(e) implies present.contains(e) by {
            let k = choose|k: int| 0 <= k < edges_to(row, t0).len() && edges_to(row, t0)[k] == e;
            assert(edges_to(row, targets)[k] == e);
            assert(edges_to(row, targets).to_set().contains(e));
        }
        lemma_no_fresh(present, row, t0);
    }
}

/// Enriching a row a second time with the same verdicts records nothing new:
/// the outcome lists no relation, and the table keeps its rows, relation
/// edges and conflict records as they were.
pub proof fn lemma_enrich_idempotent<J: SemanticJudge>(
    judge: J,
    t0: Table,
    t1: Table,
    t2: Table,
    row_id: RowId,
    candidates: Seq<RowId>,
    rels: Seq<SemanticRelation>,
    o1: PersistOutcome,
    o2: PersistOutcome,
)
    requires
        t1.wf(),
        t2.wf(),
        semantic_enrich_done(judge, t0, t1, row_id, candidates, rels, o1),
        semantic_enrich_done(judge, t1, t2, row_id, candidates, rels, o2),
    ensures
        o2.effects_empty(),
        t2.rows == t1.rows,
        t2.compatible_edges@ == t1.compatible_edges@,
        t2.support_edges@ == t1.support_edges@,
        t2.compressible_edges@ == t1.compressible_edges@,
        t2.conflict_edges@ == t1.conflict_edges@,
        t2.conflict_records@ == t1.conflict_records@,
        t2.next_conflict_id == t1.next_conflict_id,
{
    let d = distinct_candidates(candidates, Some(row_id));
    let tg = classified(d, rels);
    let out = outcome_effects(o2);
    let ec = edges_to(row_id, tg.compatible).to_set();
    let es = edges_to(row_id, tg.support).to_set();
    let em = edges_to(row_id, tg.compressible).to_set();
    let ef = edges_to(row_id, tg.conflict).to_set();
    lemma_no_fresh(t1.compatible_edges@.to_set(), row_id, tg.compatible);
    lemma_no_fresh(t1.support_edges@.to_set(), row_id, tg.support);
    lemma_no_fresh(t1.compressible_edges@.to_set(), row_id, tg.compressible);
    lemma_no_fresh(t1.conflict_edges@.to_set(), row_id, tg.conflict);
    assert(out.support =~= Seq::<SemanticEdge>::empty());
    assert(out.compressible =~= Seq::<SemanticEdge>::empty());
    assert(out.conflict =~= Seq::<SemanticEdge>::empty());
    assert(out.compatible =~= Seq::<SemanticEdge>::empty());
    assert(t2.compatible_edges@.to_set() =~= t1.compatible_edges@.to_set());
    assert(t2.support_edges@.to_set() =~= t1.support_edges@.to_set());
    assert(t2.compressible_edges@.to_set() =~= t1.compressible_edges@.to_set());
    assert(t2.conflict_edges@.to_set() =~= t1.conflict_edges@.to_set());
    lemma_sorted_edges_unique(t2.compatible_edges@, t1.compatible_edges@);
    lemma_sorted_edges_unique(t2.support_edges@, t1.support_edges@);
    lemma_sorted_edges_unique(t2.compressible_edges@, t1.compressible_edges@);
    lemma_sorted_edges_unique(t2.conflict_edges@, t1.conflict_edges@);
    assert(t2.conflict_records@ =~= t1.conflict_records@.take(t1.conflict_records@.len() as int));
}

/// Enriching a row a second time against the same candidates, with a fixed
/// judge, records nothing new: the judge answers as it did the first time,
/// so the outcome lists no relation, and the table keeps its rows, relation
/// edges and conflict records as they were.
pub proof fn lemma_fixed_judge_enrich_idempotent(
    judge: FixedSemanticJudge,
    t0: Table,
    t1: Table,
    t2: Table,
    row_id: RowId,
    candidates: Seq<RowId>,
    rels1: Seq<SemanticRelation>,
    rels2: Seq<SemanticRelation>,
    o1: PersistOutcome,
    o2: PersistOutcome,
)
    requires
        t1.wf(),
        t2.wf(),
        semantic_enrich_done(judge, t0, t1, row_id, candidates, rels1, o1),
        semantic_enrich_done(judge, t1, t2, row_id, candidates, rels2, o2),
    ensures
        o2.effects_empty(),
        t2.rows == t1.rows,
        t2.compatible_edges@ == t1.compatible_edges@,
        t2.support_edges@ == t1.support_edges@,
        t2.compressible_edges@ == t1.compressible_edges@,
        t2.conflict_edges@ == t1.conflict_edges@,
        t2.conflict_records@ == t1.conflict_records@,
        t2.next_conflict_id == t1.next_conflict_id,
{
    let d = distinct_candidates(candidates, Some(row_id));
    let sc = t0.schema.semantic_scope->0;
    let a = choose|s: SemanticSubject|
        #[trigger] subject_of_values(t0, row_of(t0.rows@, row_id).values@, s) && verdicts_of(judge, t0, s, d, rels1);
    let b = choose|s: SemanticSubject|
        #[trigger] subject_of_values(t1, row_of(t1.rows@, row_id).values@, s) && verdicts_of(judge, t1, s, d, rels2);
    lemma_subject_canonical(sc.columns@, t0.schema, row_of(t0.rows@, row_id).values@, a.fields@, b.fields@);
    assert forall|i: int| 0 <= i < d.len() implies rels1[i] == rels2[i] by {
        assert(judged_row(judge, t0, a, d[i], Ok::<SemanticRelation, SemanticJudgeError>(rels1[i])));
        assert(judged_row(judge, t1, b, d[i], Ok::<SemanticRelation, SemanticJudgeError>(rels2[i])));
        let s1 = choose|s: SemanticSubject|
            #![trigger judge.judged(a, s, Ok::<SemanticRelation, SemanticJudgeError>(rels1[i]))]
            subject_of_values(t0, row_of(t0.rows@, d[i]).values@, s) && judge.judged(
                a,
                s,
                Ok::<SemanticRelation, SemanticJudgeError>(rels1[i]),
            );
        let s2 = choose|s: SemanticSubject|
            #![trigger judge.judged(b, s, Ok::<SemanticRelation, SemanticJudgeError>(rels2[i]))]
            subject_of_values(t1, row_of(t1.rows@, d[i]).values@, s) && judge.judged(
                b,
                s,
                Ok::<SemanticRelation, SemanticJudgeError>(rels2[i]),
            );
        lemma_subject_canonical(sc.columns@, t0.schema, row_of(t0.rows@, d[i]).values@, s1.fields@, s2.fields@);
    }
    assert(rels1 =~= rels2);
    lemma_enrich_idempotent(judge, t0, t1, t2, row_id, candidates, rels1, o1, o2);
}

/// After the status of a conflict record is set, the record under that
/// identifier carries the new status.
pub proof fn lemma_status_reads_back(t0: Table, t1: Table, id: ConflictId, status: ConflictStatus, rec: ConflictRecord)
    requires
        t1.wf(),
        exists|i: int|
            0 <= i < t0.conflict_records@.len() && t0.conflict_records@[i].id == id && t1.conflict_records@
                == t0.conflict_records@.update(i, ConflictRecord { status, ..t0.conflict_records@[i] }),
        t1.conflict_records@.contains(rec),
        rec.id == id,
    ensures
        rec.status == status,
{
    let i = choose|i: int|
        0 <= i < t0.conflict_records@.len() && t0.conflict_records@[i].id == id && t1.conflict_records@
            == t0.conflict_records@.update(i, ConflictRecord { status, ..t0.conflict_records@[i] });
    let j = choose|j: int| 0 <= j < t1.conflict_records@.len() && t1.conflict_records@[j] == rec;
    assert(t1.conflict_records@[i].id == id);
    if j < i {
        assert(t1.conflict_records@[j].id.0 < t1.conflict_records@[i].id.0);
    } else if j > i {
        assert(t1.conflict_records@[i].id.0 < t1.conflict_records@[j].id.0);
    }
}

/// Giving a value to a column twice keeps the later value.
pub proof fn lemma_later_value_wins(
    r0: RowInput,
    r1: RowInput,
    r2: RowInput,
    column: Seq<char>,
    first: crate::value::Value,
    second: crate::value::Value,
)
    requires
        r1.get_spec(crate::text::trimmed(column)) == Some(first),
        r2.get_spec(crate::text::trimmed(column)) == Some(second),
        forall|k: Seq<char>| k != crate::text::trimmed(column) ==> #[trigger] r2.get_spec(k) == r1.get_spec(k),
        forall|k: Seq<char>| k != crate::text::trimmed(column) ==> #[trigger] r1.get_spec(k) == r0.get_spec(k),
    ensures
        r2.get_spec(crate::text::trimmed(column)) == Some(second),
        forall|k: Seq<char>| k != crate::text::trimmed(column) ==> #[trigger] r2.get_spec(k) == r0.get_spec(k),
{
}

} // verus!
