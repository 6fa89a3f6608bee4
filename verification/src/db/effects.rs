use vstd::prelude::*;

use crate::ids::{ConflictId, RowId};
use crate::persist::PersistOutcome;
use crate::relation::{edge_of, ConflictStatus, SemanticEdge};
use crate::table::{has_row, Table};

verus! {

/// The targets whose edge to `row` is not in `present`, in order.
pub open spec fn fresh_targets(present: Set<SemanticEdge>, row: RowId, targets: Seq<RowId>) -> Seq<RowId>
    decreases targets.len(),
{
    if targets.len() == 0 {
        Seq::empty()
    } else {
        let p = fresh_targets(present, row, targets.drop_last());
        if present.contains(edge_of(row, targets.last())) {
            p
        } else {
            p.push(targets.last())
        }
    }
}

/// The edges from `row` to each target.
pub open spec fn edges_to(row: RowId, targets: Seq<RowId>) -> Seq<SemanticEdge> {
    targets.map_values(|t: RowId| edge_of(row, t))
}

/// The edges from `row` to the targets that are not in `present`, in order.
pub open spec fn fresh_edges(present: Set<SemanticEdge>, row: RowId, targets: Seq<RowId>) -> Seq<SemanticEdge> {
    edges_to(row, fresh_targets(present, row, targets))
}

/// Targets that are distinct existing rows other than `row`.
pub open spec fn targets_ok(t: Table, row: RowId, targets: Seq<RowId>) -> bool {
    &&& targets.no_duplicates()
    &&& forall|i: int| 0 <= i < targets.len() ==> has_row(t.rows@, #[trigger] targets[i]) && targets[i] != row
}

/// Kinds of compatibility edge.
pub enum EdgeKind {
    Compatible,
    Support,
    Compressible,
}

/// The edges of `t` of the given kind.
pub open spec fn kind_edges(t: Table, kind: EdgeKind) -> Set<SemanticEdge> {
    match kind {
        EdgeKind::Compatible => t.compatible_edges@.to_set(),
        EdgeKind::Support => t.support_edges@.to_set(),
        EdgeKind::Compressible => t.compressible_edges@.to_set(),
    }
}

/// `t1` is `t0` with the edges `es` added to the given kind, and to the
/// compatible edges as well.
pub open spec fn kind_grown(t0: Table, t1: Table, kind: EdgeKind, es: Set<SemanticEdge>) -> bool {
    &&& t1.same_but_edges(t0)
    &&& t1.conflict_edges == t0.conflict_edges
    &&& t1.compatible_edges@.to_set() == t0.compatible_edges@.to_set().union(es)
    &&& match kind {
        EdgeKind::Compatible => t1.support_edges == t0.support_edges && t1.compressible_edges
            == t0.compressible_edges,
        EdgeKind::Support => t1.support_edges@.to_set() == t0.support_edges@.to_set().union(es)
            && t1.compressible_edges == t0.compressible_edges,
        EdgeKind::Compressible => t1.compressible_edges@.to_set() == t0.compressible_edges@.to_set().union(
            es,
        ) && t1.support_edges == t0.support_edges,
    }
}

/// Two edges from the same row to rows other than it are equal only when the
/// rows are.
pub proof fn lemma_edge_from_injective(row: RowId, a: RowId, b: RowId)
    requires
        a != row,
        b != row,
        edge_of(row, a) == edge_of(row, b),
    ensures
        a == b,
{
}

proof fn lemma_fresh_step(present: Set<SemanticEdge>, row: RowId, targets: Seq<RowId>, i: int)
    requires
        0 <= i < targets.len(),
    ensures
        fresh_targets(present, row, targets.take(i + 1)) == if present.contains(edge_of(row, targets[i])) {
            fresh_targets(present, row, targets.take(i))
        } else {
            fresh_targets(present, row, targets.take(i)).push(targets[i])
        },
{
    assert(targets.take(i + 1).drop_last() =~= targets.take(i));
}

/// Adds an edge of the given kind from `row_id` to each target that does not
/// have one yet; returns the edges added, in order.
pub fn add_kind_edges(table: &mut Table, row_id: RowId, targets: &[RowId], kind: EdgeKind) -> (r: Vec<
    SemanticEdge,
>)
    requires
        old(table).wf(),
        has_row(old(table).rows@, row_id),
        targets_ok(*old(table), row_id, targets@),
    ensures
        final(table).wf(),
        kind_grown(*old(table), *final(table), kind, edges_to(row_id, targets@).to_set()),
        r@ == fresh_edges(kind_edges(*old(table), kind), row_id, targets@),
{
    let ghost t0 = *table;
    let ghost present = kind_edges(t0, kind);
    let mut out: Vec<SemanticEdge> = Vec::new();
    let mut i: usize = 0;
    proof {
        assert(edges_to(row_id, targets@.take(0)).to_set() =~= Set::<SemanticEdge>::empty());
        assert(t0.compatible_edges@.to_set() =~= t0.compatible_edges@.to_set().union(Set::empty()));
        assert(t0.support_edges@.to_set() =~= t0.support_edges@.to_set().union(Set::empty()));
        assert(t0.compressible_edges@.to_set() =~= t0.compressible_edges@.to_set().union(Set::empty()));
    }
    while i < targets.len()
        invariant
            t0 == *old(table),
            present == kind_edges(t0, kind),
            t0.wf(),
            table.wf(),
            has_row(t0.rows@, row_id),
            targets_ok(t0, row_id, targets@),
            i <= targets@.len(),
            kind_grown(t0, *table, kind, edges_to(row_id, targets@.take(i as int)).to_set()),
            out@ == fresh_edges(present, row_id, targets@.take(i as int)),
        decreases targets@.len() - i,
    {
        let target = targets[i];
        let ghost before = *table;
        let ghost done = edges_to(row_id, targets@.take(i as int)).to_set();
        let ghost e = edge_of(row_id, target);
        proof {
            lemma_fresh_step(present, row_id, targets@, i as int);
            assert(edges_to(row_id, targets@.take(i + 1)) =~= edges_to(row_id, targets@.take(i as int)).push(e));
            edges_to(row_id, targets@.take(i as int)).lemma_push_to_set_commute(e);
            assert(!done.contains(e)) by {
                if done.contains(e) {
                    let k = choose|k: int|
                        0 <= k < edges_to(row_id, targets@.take(i as int)).len() && edges_to(row_id, targets@.take(i as int))[k] == e;
                    lemma_edge_from_injective(row_id, targets@[k], target);
                    assert(targets@[k] == targets@[i as int]);
                }
            }
            assert(kind_edges(before, kind).contains(e) == present.contains(e));
            assert(has_row(t0.rows@, target));
        }
        let exists = match kind {
            EdgeKind::Compatible => table.has_compatible_edge(row_id, target),
            EdgeKind::Support => table.has_support_edge(row_id, target),
            EdgeKind::Compressible => table.has_compressible_edge(row_id, target),
        };
        if !exists {
            let res = match kind {
                EdgeKind::Compatible => table.add_compatible_edge(row_id, target),
                EdgeKind::Support => table.add_support_edge(row_id, target),
                EdgeKind::Compressible => table.add_compressible_edge(row_id, target),
            };
            proof {
                assert(res is Ok);
            }
            out.push(SemanticEdge::new(row_id, target));
        }
        proof {
            let d1 = edges_to(row_id, targets@.take(i + 1)).to_set();
            assert(d1 == done.insert(e));
            if exists {
                assert(kind_edges(before, kind).contains(e));
                match kind {
                    EdgeKind::Compatible => {
                        assert(t0.compatible_edges@.to_set().union(d1) =~= t0.compatible_edges@.to_set().union(done));
                    },
                    EdgeKind::Support => {
                        assert(t0.support_edges@.to_set().union(d1) =~= t0.support_edges@.to_set().union(done));
                        assert(t0.support_edges@.to_set().subset_of(t0.compatible_edges@.to_set()));
                        assert(t0.compatible_edges@.to_set().union(d1) =~= t0.compatible_edges@.to_set().union(done));
                    },
                    EdgeKind::Compressible => {
                        assert(t0.compressible_edges@.to_set().union(d1) =~= t0.compressible_edges@.to_set().union(done));
                        assert(t0.compressible_edges@.to_set().subset_of(t0.compatible_edges@.to_set()));
                        assert(t0.compatible_edges@.to_set().union(d1) =~= t0.compatible_edges@.to_set().union(done));
                    },
                }
            } else {
                assert(t0.compatible_edges@.to_set().union(d1) =~= t0.compatible_edges@.to_set().union(done).insert(e));
                assert(t0.support_edges@.to_set().union(d1) =~= t0.support_edges@.to_set().union(done).insert(e));
                assert(t0.compressible_edges@.to_set().union(d1) =~= t0.compressible_edges@.to_set().union(done).insert(e));
                assert(edges_to(row_id, fresh_targets(present, row_id, targets@.take(i + 1))) =~= edges_to(
                    row_id,
                    fresh_targets(present, row_id, targets@.take(i as int)),
                ).push(e));
            }
        }
        i = i + 1;
    }
    proof {
        assert(targets@.take(targets@.len() as int) =~= targets@);
    }
    out
}

/// `t1` has one new open conflict record for each row of `ft`, naming that
/// row and `row`, with consecutive identifiers `ids` after those of `t0`.
pub open spec fn conflicts_recorded(t0: Table, t1: Table, row: RowId, ft: Seq<RowId>, ids: Seq<ConflictId>) -> bool {
    let n = t0.conflict_records@.len();
    &&& ids.len() == ft.len()
    &&& t1.next_conflict_id == t0.next_conflict_id + ft.len()
    &&& t1.conflict_records@.len() == n + ft.len()
    &&& t1.conflict_records@.take(n as int) == t0.conflict_records@
    &&& forall|k: int|
        0 <= k < ft.len() ==> {
            &&& (#[trigger] ids[k]).0 == t0.next_conflict_id + k
            &&& t1.conflict_records@[n + k].id == ids[k]
            &&& t1.conflict_records@[n + k].status == ConflictStatus::Open
            &&& t1.conflict_records@[n + k].rows@.to_set() == set![row, ft[k]]
        }
}

/// One more conflict record, for one more fresh target, keeps the records
/// in step with the targets.
proof fn lemma_conflict_recorded_step(
    t0: Table,
    before: Table,
    after: Table,
    row: RowId,
    ft0: Seq<RowId>,
    target: RowId,
    ids0: Seq<ConflictId>,
    ids1: Seq<ConflictId>,
    id: ConflictId,
)
    requires
        conflicts_recorded(t0, before, row, ft0, ids0),
        id.0 == before.next_conflict_id,
        after.next_conflict_id == before.next_conflict_id + 1,
        after.conflict_records@.len() == before.conflict_records@.len() + 1,
        after.conflict_records@.drop_last() == before.conflict_records@,
        after.conflict_records@.last().id == id,
        after.conflict_records@.last().status == ConflictStatus::Open,
        after.conflict_records@.last().rows@.to_set() == set![row, target],
        ids1 == ids0.push(id),
    ensures
        conflicts_recorded(t0, after, row, ft0.push(target), ids1),
{
    let n = t0.conflict_records@.len();
    let ft1 = ft0.push(target);
    assert(after.conflict_records@.take(n as int) =~= t0.conflict_records@) by {
        assert(before.conflict_records@.take(n as int) == t0.conflict_records@);
        assert forall|j: int| 0 <= j < n implies after.conflict_records@[j] == before.conflict_records@[j] by {
            assert(after.conflict_records@.drop_last()[j] == after.conflict_records@[j]);
        }
    }
    assert forall|k: int| 0 <= k < ft1.len() implies {
        &&& (#[trigger] ids1[k]).0 == t0.next_conflict_id + k
        &&& after.conflict_records@[n + k].id == ids1[k]
        &&& after.conflict_records@[n + k].status == ConflictStatus::Open
        &&& after.conflict_records@[n + k].rows@.to_set() == set![row, ft1[k]]
    } by {
        if k < ft0.len() {
            assert(ids1[k] == ids0[k]);
            assert(after.conflict_records@.drop_last()[n + k] == after.conflict_records@[n + k]);
            assert(ft1[k] == ft0[k]);
        } else {
            assert(ids1[k] == id);
            assert(after.conflict_records@[n + k] == after.conflict_records@.last());
            assert(ft1[k] == target);
        }
    }
}

/// Adds a conflict edge from `row_id` to each target that does not have one
/// yet, and an open conflict record for each such pair; returns the edges and
/// the record identifiers, in order.
pub fn add_conflicts(table: &mut Table, row_id: RowId, targets: &[RowId]) -> (r: (Vec<SemanticEdge>, Vec<ConflictId>))
    requires
        old(table).wf(),
        has_row(old(table).rows@, row_id),
        targets_ok(*old(table), row_id, targets@),
        old(table).next_conflict_id + targets@.len() < u64::MAX,
    ensures
        final(table).wf(),
        final(table).schema == old(table).schema,
        final(table).rows == old(table).rows,
        final(table).next_row_id == old(table).next_row_id,
        final(table).compatible_edges == old(table).compatible_edges,
        final(table).support_edges == old(table).support_edges,
        final(table).compressible_edges == old(table).compressible_edges,
        final(table).conflict_edges@.to_set() == old(table).conflict_edges@.to_set().union(
            edges_to(row_id, targets@).to_set(),
        ),
        r.0@ == fresh_edges(old(table).conflict_edges@.to_set(), row_id, targets@),
        conflicts_recorded(
            *old(table),
            *final(table),
            row_id,
            fresh_targets(old(table).conflict_edges@.to_set(), row_id, targets@),
            r.1@,
        ),
{
    let ghost t0 = *table;
    let ghost present = t0.conflict_edges@.to_set();
    let mut edges: Vec<SemanticEdge> = Vec::new();
    let mut ids: Vec<ConflictId> = Vec::new();
    let mut i: usize = 0;
    proof {
        assert(edges_to(row_id, targets@.take(0)).to_set() =~= Set::<SemanticEdge>::empty());
        assert(present =~= present.union(Set::empty()));
        assert(t0.conflict_records@.take(t0.conflict_records@.len() as int) =~= t0.conflict_records@);
    }
    while i < targets.len()
        invariant
            t0 == *old(table),
            present == t0.conflict_edges@.to_set(),
            t0.wf(),
            table.wf(),
            has_row(t0.rows@, row_id),
            targets_ok(t0, row_id, targets@),
            t0.next_conflict_id + targets@.len() < u64::MAX,
            i <= targets@.len(),
            table.schema == t0.schema,
            table.rows == t0.rows,
            table.next_row_id == t0.next_row_id,
            table.compatible_edges == t0.compatible_edges,
            table.support_edges == t0.support_edges,
            table.compressible_edges == t0.compressible_edges,
            table.conflict_edges@.to_set() == present.union(edges_to(row_id, targets@.take(i as int)).to_set()),
            edges@ == fresh_edges(present, row_id, targets@.take(i as int)),
            fresh_targets(present, row_id, targets@.take(i as int)).len() <= i,
            conflicts_recorded(t0, *table, row_id, fresh_targets(present, row_id, targets@.take(i as int)), ids@),
        decreases targets@.len() - i,
    {
        let target = targets[i];
        let ghost before = *table;
        let ghost done = edges_to(row_id, targets@.take(i as int)).to_set();
        let ghost e = edge_of(row_id, target);
        let ghost ft0 = fresh_targets(present, row_id, targets@.take(i as int));
        proof {
            lemma_fresh_step(present, row_id, targets@, i as int);
            assert(edges_to(row_id, targets@.take(i + 1)) =~= edges_to(row_id, targets@.take(i as int)).push(e));
            edges_to(row_id, targets@.take(i as int)).lemma_push_to_set_commute(e);
            assert(!done.contains(e)) by {
                if done.contains(e) {
                    let k = choose|k: int|
                        0 <= k < edges_to(row_id, targets@.take(i as int)).len() && edges_to(row_id, targets@.take(i as int))[k] == e;
                    lemma_edge_from_injective(row_id, targets@[k], target);
                    assert(targets@[k] == targets@[i as int]);
                }
            }
            assert(has_row(t0.rows@, target));
            assert(before.conflict_edges@.to_set().contains(e) == present.contains(e));
            assert(before.conflict_edges@.contains(e) == before.conflict_edges@.to_set().contains(e));
        }
        if !table.has_conflict_edge(row_id, target) {
            let res = table.add_conflict_edge(row_id, target);
            proof {
                assert(res is Ok);
            }
            let pair = vec![row_id, target];
            let ghost mid = *table;
            let ghost ids0 = ids@;
            proof {
                assert forall|x: RowId| pair@.contains(x) implies has_row(mid.rows@, x) by {
                    if x == row_id {
                    } else {
                        assert(pair@[1] == target);
                    }
                }
                assert(pair@.len() > 0);
            }
            let created = table.create_conflict_record(pair.as_slice());
            let id = match created {
                Ok(id) => id,
                Err(_) => {
                    proof {
                        assert(false);
                    }
                    ConflictId(0)
                },
            };
            edges.push(SemanticEdge::new(row_id, target));
            ids.push(id);
            proof {
                let ft1 = ft0.push(target);
                assert(fresh_targets(present, row_id, targets@.take(i + 1)) == ft1);
                assert(pair@.to_set() =~= set![row_id, target]) by {
                    assert(pair@[0] == row_id);
                    assert(pair@[1] == target);
                }
                assert(mid.next_conflict_id == before.next_conflict_id);
                lemma_conflict_recorded_step(t0, before, *table, row_id, ft0, target, ids0, ids@, id);
                assert(present.union(edges_to(row_id, targets@.take(i + 1)).to_set()) =~= present.union(done).insert(e));
                assert(edges_to(row_id, ft1) =~= edges_to(row_id, ft0).push(e));
            }
        } else {
            proof {
                assert(present.contains(e));
                assert(present.union(edges_to(row_id, targets@.take(i + 1)).to_set()) =~= present.union(done));
                assert(fresh_targets(present, row_id, targets@.take(i + 1)) == ft0);
                assert(conflicts_recorded(t0, *table, row_id, ft0, ids@));
            }
        }
        i = i + 1;
    }
    proof {
        assert(targets@.take(targets@.len() as int) =~= targets@);
    }
    (edges, ids)
}

/// The edges that a write recorded, by kind, and the conflict records it
/// created.
pub struct Effects {
    pub compatible: Vec<SemanticEdge>,
    pub support: Vec<SemanticEdge>,
    pub compressible: Vec<SemanticEdge>,
    pub conflict: Vec<SemanticEdge>,
    pub conflict_ids: Vec<ConflictId>,
}

pub struct EffectsView {
    pub compatible: Seq<SemanticEdge>,
    pub support: Seq<SemanticEdge>,
    pub compressible: Seq<SemanticEdge>,
    pub conflict: Seq<SemanticEdge>,
    pub conflict_ids: Seq<ConflictId>,
}

impl View for Effects {
    type V = EffectsView;

    open spec fn view(&self) -> EffectsView {
        EffectsView {
            compatible: self.compatible@,
            support: self.support@,
            compressible: self.compressible@,
            conflict: self.conflict@,
            conflict_ids: self.conflict_ids@,
        }
    }
}

/// What a persist outcome reports of the relations the write recorded.
pub open spec fn outcome_effects(o: PersistOutcome) -> EffectsView {
    EffectsView {
        compatible: o.compatible_edges@,
        support: o.support_edges@,
        compressible: o.compressible_edges@,
        conflict: o.conflict_edges@,
        conflict_ids: o.conflict_ids@,
    }
}

/// The targets of a write, by the relation that the judge found.
pub struct Targets {
    pub compatible: Vec<RowId>,
    pub support: Vec<RowId>,
    pub compressible: Vec<RowId>,
    pub conflict: Vec<RowId>,
}

pub struct TargetView {
    pub compatible: Seq<RowId>,
    pub support: Seq<RowId>,
    pub compressible: Seq<RowId>,
    pub conflict: Seq<RowId>,
}

impl View for Targets {
    type V = TargetView;

    open spec fn view(&self) -> TargetView {
        TargetView {
            compatible: self.compatible@,
            support: self.support@,
            compressible: self.compressible@,
            conflict: self.conflict@,
        }
    }
}

/// `t1` is `t0` with the relations from `row` to the targets recorded, and
/// `out` lists what was new.
pub open spec fn effects_applied(t0: Table, t1: Table, row: RowId, tg: TargetView, out: EffectsView) -> bool {
    &&& t1.schema == t0.schema
    &&& t1.rows == t0.rows
    &&& t1.next_row_id == t0.next_row_id
    &&& relations_applied(t0, t1, row, tg, out)
}

/// The edges and conflict records of `t1` are those of `t0` with the
/// relations from `row` to the targets added, and `out` lists what was new.
pub open spec fn relations_applied(t0: Table, t1: Table, row: RowId, tg: TargetView, out: EffectsView) -> bool {
    &&& t1.compatible_edges@.to_set() == t0.compatible_edges@.to_set().union(
        edges_to(row, tg.compatible).to_set(),
    ).union(edges_to(row, tg.support).to_set()).union(edges_to(row, tg.compressible).to_set())
    &&& t1.support_edges@.to_set() == t0.support_edges@.to_set().union(edges_to(row, tg.support).to_set())
    &&& t1.compressible_edges@.to_set() == t0.compressible_edges@.to_set().union(
        edges_to(row, tg.compressible).to_set(),
    )
    &&& t1.conflict_edges@.to_set() == t0.conflict_edges@.to_set().union(edges_to(row, tg.conflict).to_set())
    &&& out.support == fresh_edges(t0.support_edges@.to_set(), row, tg.support)
    &&& out.compressible == fresh_edges(t0.compressible_edges@.to_set(), row, tg.compressible)
    &&& out.compatible == fresh_edges(t0.compatible_edges@.to_set(), row, tg.compatible) + out.support
        + out.compressible
    &&& out.conflict == fresh_edges(t0.conflict_edges@.to_set(), row, tg.conflict)
    &&& conflicts_recorded(
        t0,
        t1,
        row,
        fresh_targets(t0.conflict_edges@.to_set(), row, tg.conflict),
        out.conflict_ids,
    )
}

/// Appends `b` to `a`.
pub fn append_edges(a: &mut Vec<SemanticEdge>, b: &[SemanticEdge])
    ensures
        final(a)@ == old(a)@ + b@,
{
    let mut i: usize = 0;
    while i < b.len()
        invariant
            i <= b@.len(),
            a@ == old(a)@ + b@.take(i as int),
        decreases b@.len() - i,
    {
        a.push(b[i]);
        assert(b@.take(i + 1) =~= b@.take(i as int).push(b@[i as int]));
        i = i + 1;
    }
    assert(b@.take(b@.len() as int) =~= b@);
}

/// Records the relations from `row_id` to each target that it does not have
/// yet: compatible, support and compressible edges, then conflict edges with
/// one conflict record each.
pub fn apply_semantic_effects(table: &mut Table, row_id: RowId, targets: &Targets) -> (r: Effects)
    requires
        old(table).wf(),
        has_row(old(table).rows@, row_id),
        targets_ok(*old(table), row_id, targets.compatible@),
        targets_ok(*old(table), row_id, targets.support@),
        targets_ok(*old(table), row_id, targets.compressible@),
        targets_ok(*old(table), row_id, targets.conflict@),
        old(table).next_conflict_id + targets.conflict@.len() < u64::MAX,
    ensures
        final(table).wf(),
        effects_applied(*old(table), *final(table), row_id, targets@, r@),
{
    let ghost t0 = *table;
    let mut compatible = add_kind_edges(table, row_id, targets.compatible.as_slice(), EdgeKind::Compatible);
    let ghost t1 = *table;
    let support = add_kind_edges(table, row_id, targets.support.as_slice(), EdgeKind::Support);
    let ghost t2 = *table;
    let compressible = add_kind_edges(table, row_id, targets.compressible.as_slice(), EdgeKind::Compressible);
    let ghost t3 = *table;
    append_edges(&mut compatible, support.as_slice());
    append_edges(&mut compatible, compressible.as_slice());
    let (conflict, conflict_ids) = add_conflicts(table, row_id, targets.conflict.as_slice());
    let out = Effects { compatible, support, compressible, conflict, conflict_ids };
    proof {
        assert(t2.compressible_edges == t0.compressible_edges);
        assert(t1.support_edges == t0.support_edges);
        assert(t3.conflict_edges == t0.conflict_edges);
        assert(t3.conflict_records == t0.conflict_records);
        assert(t3.next_conflict_id == t0.next_conflict_id);
        assert(table.compatible_edges@.to_set() =~= t0.compatible_edges@.to_set().union(
            edges_to(row_id, targets.compatible@).to_set(),
        ).union(edges_to(row_id, targets.support@).to_set()).union(edges_to(row_id, targets.compressible@).to_set()));
        assert(t3.conflict_records@.len() == t0.conflict_records@.len());
    }
    out
}

} // verus!
