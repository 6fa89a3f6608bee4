use vstd::prelude::*;

use crate::ids::{BindingId, ConflictId, RowId};
use crate::db::Database;
use crate::error::DbError;
use crate::projection::{ProjectionMode, ProjectionOutcome, ProjectionPolicy};
use crate::relation::{edge_of, ConflictRecord, ConflictStatus, SemanticEdge};
use crate::table::Table;
use crate::sets::{contains_row_id, ids_sorted, insert_row_id, position_of_row_id, remove_row_id};

verus! {

/// Both ends of `e` are in `cs`.
pub open spec fn inside(cs: Set<RowId>, e: SemanticEdge) -> bool {
    cs.contains(e.first) && cs.contains(e.second)
}

/// How many times `r` is an end of an edge of `es` inside `cs`: its support
/// score when `es` are the support edges and `cs` the considered rows.
pub open spec fn support_score(cs: Set<RowId>, es: Seq<SemanticEdge>, r: RowId) -> nat
    decreases es.len(),
{
    if es.len() == 0 {
        0
    } else {
        let e = es.last();
        support_score(cs, es.drop_last(), r) + if inside(cs, e) {
            (if e.first == r { 1nat } else { 0nat }) + (if e.second == r { 1nat } else { 0nat })
        } else {
            0nat
        }
    }
}

/// An edge whose ends differ adds at most one to a score.
proof fn lemma_support_score_bound(cs: Set<RowId>, es: Seq<SemanticEdge>, r: RowId)
    requires
        forall|k: int| 0 <= k < es.len() ==> (#[trigger] es[k]).first != es[k].second,
    ensures
        support_score(cs, es, r) <= es.len(),
    decreases es.len(),
{
    if es.len() > 0 {
        lemma_support_score_bound(cs, es.drop_last(), r);
        assert(es.last() == es[es.len() - 1]);
    }
}

/// The support score of each considered row, by position.
pub fn build_support_scores(considered: &[RowId], support: &[SemanticEdge]) -> (r: Vec<usize>)
    requires
        ids_sorted(considered@),
        forall|k: int| 0 <= k < support@.len() ==> (#[trigger] support@[k]).first != support@[k].second,
    ensures
        r@.len() == considered@.len(),
        forall|i: int|
            0 <= i < considered@.len() ==> r@[i] == support_score(considered@.to_set(), support@, #[trigger] considered@[i]),
{
    let ghost cs = considered@.to_set();
    let mut scores: Vec<usize> = Vec::new();
    let mut i: usize = 0;
    while i < considered.len()
        invariant
            i <= considered@.len(),
            scores@.len() == i,
            forall|k: int| 0 <= k < i ==> scores@[k] == 0,
        decreases considered@.len() - i,
    {
        scores.push(0);
        i = i + 1;
    }
    let mut j: usize = 0;
    while j < support.len()
        invariant
            ids_sorted(considered@),
            cs == considered@.to_set(),
            forall|k: int| 0 <= k < support@.len() ==> (#[trigger] support@[k]).first != support@[k].second,
            j <= support@.len(),
            scores@.len() == considered@.len(),
            forall|k: int|
                0 <= k < considered@.len() ==> scores@[k] == support_score(cs, support@.take(j as int), #[trigger] considered@[k]),
        decreases support@.len() - j,
    {
        let e = support[j];
        let ghost before = scores@;
        let pa = position_of_row_id(considered, e.first);
        let pb = position_of_row_id(considered, e.second);
        proof {
            assert(support@.take(j + 1).drop_last() =~= support@.take(j as int));
            assert(support@.take(j + 1).last() == e);
            assert forall|k: int| 0 <= k < support@.take(j as int).len() implies (#[trigger] support@.take(j as int)[k]).first
                != support@.take(j as int)[k].second by {
                assert(support@.take(j as int)[k] == support@[k]);
            }
            assert(cs.contains(e.first) == considered@.contains(e.first));
            assert(cs.contains(e.second) == considered@.contains(e.second));
        }
        match (pa, pb) {
            (Some(a), Some(b)) => {
                proof {
                    lemma_support_score_bound(cs, support@.take(j as int), e.first);
                    lemma_support_score_bound(cs, support@.take(j as int), e.second);
                    assert(a != b);
                }
                scores.set(a, scores[a] + 1);
                scores.set(b, scores[b] + 1);
                proof {
                    assert forall|k: int| 0 <= k < considered@.len() implies scores@[k] == support_score(
                        cs,
                        support@.take(j + 1),
                        #[trigger] considered@[k],
                    ) by {
                        if k != a && k != b {
                            assert(considered@[k] != e.first) by {
                                if considered@[k] == e.first {
                                    assert(considered@[k] == considered@[a as int]);
                                }
                            }
                            assert(considered@[k] != e.second) by {
                                if considered@[k] == e.second {
                                    assert(considered@[k] == considered@[b as int]);
                                }
                            }
                        }
                    }
                }
            },
            _ => {
                proof {
                    assert(!inside(cs, e));
                }
            },
        }
        j = j + 1;
    }
    proof {
        assert(support@.take(support@.len() as int) =~= support@);
    }
    scores
}

/// `a` and `b` are the two ends of an edge of `es` inside `cs`.
pub open spec fn linked(cs: Set<RowId>, es: Seq<SemanticEdge>, a: RowId, b: RowId) -> bool {
    exists|k: int|
        0 <= k < es.len() && inside(cs, #[trigger] es[k]) && ((es[k].first == a && es[k].second == b) || (
        es[k].first == b && es[k].second == a))
}

/// Each row of `p` is linked to the next.
pub open spec fn is_walk(cs: Set<RowId>, es: Seq<SemanticEdge>, p: Seq<RowId>) -> bool {
    &&& p.len() > 0
    &&& forall|i: int| 0 <= i < p.len() - 1 ==> #[trigger] linked(cs, es, p[i], p[i + 1])
}

/// A walk along edges of `es` inside `cs` leads from `a` to `b`: they are in
/// one component.
pub open spec fn connected(cs: Set<RowId>, es: Seq<SemanticEdge>, a: RowId, b: RowId) -> bool {
    exists|p: Seq<RowId>| #[trigger] is_walk(cs, es, p) && p[0] == a && p.last() == b
}

/// `a` ranks above `b`: a higher support score, or an equal one and a
/// smaller identifier.
pub open spec fn beats(cs: Set<RowId>, sup: Seq<SemanticEdge>, a: RowId, b: RowId) -> bool {
    ||| support_score(cs, sup, a) > support_score(cs, sup, b)
    ||| support_score(cs, sup, a) == support_score(cs, sup, b) && a.0 < b.0
}

/// The considered rows that lose to a row of their compressible component:
/// all but the best row of each component.
pub open spec fn compress_suppressed(c: Seq<RowId>, comp: Seq<SemanticEdge>, sup: Seq<SemanticEdge>) -> Set<
    RowId,
> {
    let cs = c.to_set();
    Set::new(|r: RowId| cs.contains(r) && exists|w: RowId| #[trigger] connected(cs, comp, r, w) && beats(cs, sup, w, r))
}

/// `x` ranks above `y` by the scores `s`, positions breaking ties.
pub open spec fn pos_beats(s: Seq<usize>, x: int, y: int) -> bool {
    s[x] > s[y] || (s[x] == s[y] && x < y)
}

/// How many positions below `m` rank above `y`.
pub open spec fn rank_below(s: Seq<usize>, m: int, y: int) -> nat
    decreases m,
{
    if m <= 0 {
        0
    } else {
        rank_below(s, m - 1, y) + if pos_beats(s, m - 1, y) { 1nat } else { 0nat }
    }
}

/// The total rank of the labels: it falls whenever a label improves.
pub open spec fn rank_sum(s: Seq<usize>, lab: Seq<usize>) -> nat
    decreases lab.len(),
{
    if lab.len() == 0 {
        0
    } else {
        rank_sum(s, lab.drop_last()) + rank_below(s, s.len() as int, lab.last() as int)
    }
}

proof fn lemma_rank_below_lt(s: Seq<usize>, m: int, x: int, y: int)
    requires
        0 <= m,
        0 <= y,
        pos_beats(s, y, x),
    ensures
        rank_below(s, m, y) + (if y < m { 1int } else { 0int }) <= rank_below(s, m, x),
    decreases m,
{
    if m > 0 {
        lemma_rank_below_lt(s, m - 1, x, y);
        if pos_beats(s, m - 1, y) {
            assert(pos_beats(s, m - 1, x));
        }
        if m - 1 == y {
            assert(!pos_beats(s, y, y));
        }
    }
}

proof fn lemma_rank_sum_update(s: Seq<usize>, lab: Seq<usize>, a: int, v: usize)
    requires
        0 <= a < lab.len(),
    ensures
        rank_sum(s, lab.update(a, v)) + rank_below(s, s.len() as int, lab[a] as int) == rank_sum(s, lab)
            + rank_below(s, s.len() as int, v as int),
    decreases lab.len(),
{
    let u = lab.update(a, v);
    if a == lab.len() - 1 {
        assert(u.drop_last() =~= lab.drop_last());
    } else {
        assert(u.drop_last() =~= lab.drop_last().update(a, v));
        lemma_rank_sum_update(s, lab.drop_last(), a, v);
    }
}

/// The positions of the ends of each compressible edge inside the
/// considered rows.
fn compressible_edge_pairs(considered: &[RowId], comp: &[SemanticEdge]) -> (r: Vec<(usize, usize)>)
    requires
        ids_sorted(considered@),
    ensures
        forall|k: int|
            0 <= k < r@.len() ==> {
                &&& (#[trigger] r@[k]).0 < considered@.len()
                &&& r@[k].1 < considered@.len()
                &&& linked(considered@.to_set(), comp@, considered@[r@[k].0 as int], considered@[r@[k].1 as int])
            },
        forall|x: int, y: int|
            0 <= x < considered@.len() && 0 <= y < considered@.len() && linked(
                considered@.to_set(),
                comp@,
                #[trigger] considered@[x],
                #[trigger] considered@[y],
            ) ==> exists|k: int|
                0 <= k < r@.len() && ((#[trigger] r@[k]).0 == x && r@[k].1 == y || r@[k].0 == y && r@[k].1 == x),
{
    let ghost cs = considered@.to_set();
    let mut pairs: Vec<(usize, usize)> = Vec::new();
    let mut j: usize = 0;
    while j < comp.len()
        invariant
            ids_sorted(considered@),
            cs == considered@.to_set(),
            j <= comp@.len(),
            forall|k: int|
                0 <= k < pairs@.len() ==> {
                    &&& (#[trigger] pairs@[k]).0 < considered@.len()
                    &&& pairs@[k].1 < considered@.len()
                    &&& linked(cs, comp@, considered@[pairs@[k].0 as int], considered@[pairs@[k].1 as int])
                },
            forall|x: int, y: int|
                0 <= x < considered@.len() && 0 <= y < considered@.len() && linked(
                    cs,
                    comp@.take(j as int),
                    #[trigger] considered@[x],
                    #[trigger] considered@[y],
                ) ==> exists|k: int|
                    0 <= k < pairs@.len() && ((#[trigger] pairs@[k]).0 == x && pairs@[k].1 == y || pairs@[k].0 == y
                        && pairs@[k].1 == x),
        decreases comp@.len() - j,
    {
        let e = comp[j];
        let pa = position_of_row_id(considered, e.first);
        let pb = position_of_row_id(considered, e.second);
        let ghost old_pairs = pairs@;
        proof {
            assert(cs.contains(e.first) == considered@.contains(e.first));
            assert(cs.contains(e.second) == considered@.contains(e.second));
        }
        match (pa, pb) {
            (Some(a), Some(b)) => {
                pairs.push((a, b));
                proof {
                    assert(comp@[j as int] == e);
                    assert(linked(cs, comp@, considered@[a as int], considered@[b as int]));
                }
            },
            _ => {},
        }
        proof {
            assert forall|k: int| 0 <= k < old_pairs.len() implies #[trigger] pairs@[k] == old_pairs[k] by {}
            assert forall|x: int, y: int|
                0 <= x < considered@.len() && 0 <= y < considered@.len() && linked(
                    cs,
                    comp@.take(j + 1),
                    #[trigger] considered@[x],
                    #[trigger] considered@[y],
                ) implies exists|k: int|
                    0 <= k < pairs@.len() && ((#[trigger] pairs@[k]).0 == x && pairs@[k].1 == y || pairs@[k].0 == y
                        && pairs@[k].1 == x) by {
                let t = comp@.take(j + 1);
                let w = choose|w: int|
                    0 <= w < t.len() && inside(cs, #[trigger] t[w]) && ((t[w].first == considered@[x]
                        && t[w].second == considered@[y]) || (t[w].first == considered@[y] && t[w].second
                        == considered@[x]));
                if w < j {
                    assert(comp@.take(j as int)[w] == t[w]);
                    assert(linked(cs, comp@.take(j as int), considered@[x], considered@[y]));
                    let k = choose|k: int|
                        0 <= k < old_pairs.len() && ((#[trigger] old_pairs[k]).0 == x && old_pairs[k].1 == y
                            || old_pairs[k].0 == y && old_pairs[k].1 == x);
                    assert(pairs@[k] == old_pairs[k]);
                } else {
                    assert(t[w] == e);
                    let a = pa->Some_0;
                    let b = pb->Some_0;
                    assert(considered@[a as int] == e.first);
                    assert(considered@[b as int] == e.second);
                    assert(pairs@[old_pairs.len() as int] == (a, b));
                    if e.first == considered@[x] {
                        assert(x == a) by {
                            if x != a {
                                if x < a {
                                    assert(considered@[x].0 < considered@[a as int].0);
                                } else {
                                    assert(considered@[a as int].0 < considered@[x].0);
                                }
                            }
                        }
                        assert(y == b) by {
                            if y != b {
                                if y < b {
                                    assert(considered@[y].0 < considered@[b as int].0);
                                } else {
                                    assert(considered@[b as int].0 < considered@[y].0);
                                }
                            }
                        }
                    } else {
                        assert(y == a) by {
                            if y != a {
                                if y < a {
                                    assert(considered@[y].0 < considered@[a as int].0);
                                } else {
                                    assert(considered@[a as int].0 < considered@[y].0);
                                }
                            }
                        }
                        assert(x == b) by {
                            if x != b {
                                if x < b {
                                    assert(considered@[x].0 < considered@[b as int].0);
                                } else {
                                    assert(considered@[b as int].0 < considered@[x].0);
                                }
                            }
                        }
                    }
                }
            }
        }
        j = j + 1;
    }
    proof {
        assert(comp@.take(comp@.len() as int) =~= comp@);
    }
    pairs
}

/// Each label names a considered row in the component of its own row that
/// ranks at least as high as it.
pub open spec fn labels_ok(
    c: Seq<RowId>,
    comp: Seq<SemanticEdge>,
    s: Seq<usize>,
    lab: Seq<usize>,
) -> bool {
    &&& lab.len() == c.len()
    &&& forall|i: int|
        0 <= i < lab.len() ==> {
            &&& (#[trigger] lab[i]) < c.len()
            &&& connected(c.to_set(), comp, c[i], c[lab[i] as int])
            &&& (lab[i] == i || pos_beats(s, lab[i] as int, i))
        }
}

/// The pairs are the positions of the ends of the edges inside the rows.
pub open spec fn pairs_exact(c: Seq<RowId>, comp: Seq<SemanticEdge>, pairs: Seq<(usize, usize)>) -> bool {
    &&& forall|k: int|
        0 <= k < pairs.len() ==> {
            &&& (#[trigger] pairs[k]).0 < c.len()
            &&& pairs[k].1 < c.len()
            &&& linked(c.to_set(), comp, c[pairs[k].0 as int], c[pairs[k].1 as int])
        }
    &&& forall|x: int, y: int|
        0 <= x < c.len() && 0 <= y < c.len() && linked(c.to_set(), comp, #[trigger] c[x], #[trigger] c[y])
            ==> exists|k: int|
            0 <= k < pairs.len() && ((#[trigger] pairs[k]).0 == x && pairs[k].1 == y || pairs[k].0 == y
                && pairs[k].1 == x)
}

/// The ends of each pair have the same label.
pub open spec fn labels_settled(pairs: Seq<(usize, usize)>, lab: Seq<usize>, upto: int) -> bool {
    forall|k: int| 0 <= k < upto ==> lab[(#[trigger] pairs[k]).0 as int] == lab[pairs[k].1 as int]
}

proof fn lemma_walk_one(cs: Set<RowId>, es: Seq<SemanticEdge>, x: RowId)
    ensures
        connected(cs, es, x, x),
{
    let p = seq![x];
    assert(is_walk(cs, es, p));
}

proof fn lemma_walk_prepend(cs: Set<RowId>, es: Seq<SemanticEdge>, x: RowId, y: RowId, z: RowId)
    requires
        linked(cs, es, x, y),
        connected(cs, es, y, z),
    ensures
        connected(cs, es, x, z),
{
    let p = choose|p: Seq<RowId>| #[trigger] is_walk(cs, es, p) && p[0] == y && p.last() == z;
    let q = seq![x] + p;
    assert forall|i: int| 0 <= i < q.len() - 1 implies #[trigger] linked(cs, es, q[i], q[i + 1]) by {
        if i > 0 {
            assert(q[i] == p[i - 1]);
            assert(q[i + 1] == p[i]);
            assert(linked(cs, es, p[i - 1], p[(i - 1) + 1]));
        }
    }
    assert(is_walk(cs, es, q));
    assert(q.last() == p.last());
}

/// A row of `c` has a position in it.
proof fn lemma_position(c: Seq<RowId>, x: RowId) -> (j: int)
    requires
        c.to_set().contains(x),
    ensures
        0 <= j < c.len(),
        c[j] == x,
{
    assert(c.contains(x));
    choose|j: int| 0 <= j < c.len() && c[j] == x
}

/// Once the labels agree across every pair, a walk keeps the label.
proof fn lemma_walk_same_label(
    c: Seq<RowId>,
    comp: Seq<SemanticEdge>,
    pairs: Seq<(usize, usize)>,
    lab: Seq<usize>,
    p: Seq<RowId>,
    i: int,
) -> (j: int)
    requires
        lab.len() == c.len(),
        pairs_exact(c, comp, pairs),
        labels_settled(pairs, lab, pairs.len() as int),
        is_walk(c.to_set(), comp, p),
        0 <= i < c.len(),
        p[0] == c[i],
    ensures
        0 <= j < c.len(),
        c[j] == p.last(),
        lab[j] == lab[i],
    decreases p.len(),
{
    if p.len() == 1 {
        i
    } else {
        let q = p.drop_last();
        assert forall|k: int| 0 <= k < q.len() - 1 implies #[trigger] linked(c.to_set(), comp, q[k], q[k + 1]) by {
            assert(linked(c.to_set(), comp, p[k], p[k + 1]));
        }
        let j0 = lemma_walk_same_label(c, comp, pairs, lab, q, i);
        let n = p.len() - 2;
        assert(linked(c.to_set(), comp, p[n], p[n + 1]));
        let w = choose|w: int|
            0 <= w < comp.len() && inside(c.to_set(), #[trigger] comp[w]) && ((comp[w].first == p[n] && comp[w].second
                == p[n + 1]) || (comp[w].first == p[n + 1] && comp[w].second == p[n]));
        let j = lemma_position(c, p[n + 1]);
        assert(q.last() == p[n]);
        assert(linked(c.to_set(), comp, c[j0], c[j]));
        let k = choose|k: int|
            0 <= k < pairs.len() && ((#[trigger] pairs[k]).0 == j0 && pairs[k].1 == j || pairs[k].0 == j
                && pairs[k].1 == j0);
        assert(lab[pairs[k].0 as int] == lab[pairs[k].1 as int]);
        j
    }
}

/// Whether position `x` ranks above position `y` by the scores.
fn ranks_above(scores: &[usize], x: usize, y: usize) -> (r: bool)
    requires
        x < scores@.len(),
        y < scores@.len(),
    ensures
        r == pos_beats(scores@, x as int, y as int),
{
    scores[x] > scores[y] || (scores[x] == scores[y] && x < y)
}

/// For each considered row, the position of the best row of its
/// compressible component, by support score and then by identifier; a row
/// that touches no compressible edge among the considered rows is its own.
fn compressible_components(
    considered: &[RowId],
    comp: &[SemanticEdge],
    scores: &[usize],
    Ghost(sup): Ghost<Seq<SemanticEdge>>,
) -> (lab: Vec<usize>)
    requires
        ids_sorted(considered@),
        scores@.len() == considered@.len(),
        forall|i: int|
            0 <= i < considered@.len() ==> scores@[i] == support_score(considered@.to_set(), sup, #[trigger] considered@[i]),
    ensures
        lab@.len() == considered@.len(),
        forall|i: int|
            0 <= i < considered@.len() ==> {
                &&& (#[trigger] lab@[i]) < considered@.len()
                &&& connected(considered@.to_set(), comp@, considered@[i], considered@[lab@[i] as int])
            },
        forall|i: int, w: RowId|
            #![trigger connected(considered@.to_set(), comp@, considered@[i], w), lab@[i]]
            0 <= i < considered@.len() && connected(considered@.to_set(), comp@, considered@[i], w) ==> !beats(
                considered@.to_set(),
                sup,
                w,
                considered@[lab@[i] as int],
            ),
        forall|i: int|
            0 <= i < considered@.len() ==> (#[trigger] lab@[i] != i) == compress_suppressed(considered@, comp@, sup).contains(
                considered@[i],
            ),
{
    let ghost c = considered@;
    let ghost cs = c.to_set();
    let pairs = compressible_edge_pairs(considered, comp);
    let n = considered.len();
    let mut lab: Vec<usize> = Vec::new();
    let mut i: usize = 0;
    while i < n
        invariant
            n == c.len(),
            c == considered@,
            cs == c.to_set(),
            i <= n,
            lab@.len() == i,
            forall|k: int| 0 <= k < i ==> #[trigger] lab@[k] == k,
        decreases n - i,
    {
        lab.push(i);
        i = i + 1;
    }
    proof {
        assert forall|k: int| 0 <= k < lab@.len() implies connected(cs, comp@, c[k], c[#[trigger] lab@[k] as int]) by {
            lemma_walk_one(cs, comp@, c[k]);
        }
    }
    let mut changed = true;
    while changed
        invariant
            n == c.len(),
            c == considered@,
            cs == c.to_set(),
            ids_sorted(c),
            scores@.len() == n,
            pairs_exact(c, comp@, pairs@),
            labels_ok(c, comp@, scores@, lab@),
            !changed ==> labels_settled(pairs@, lab@, pairs@.len() as int),
        decreases rank_sum(scores@, lab@) + if changed { 1nat } else { 0nat },
    {
        changed = false;
        let ghost start = lab@;
        let mut k: usize = 0;
        while k < pairs.len()
            invariant
                n == c.len(),
                c == considered@,
                cs == c.to_set(),
                scores@.len() == n,
                pairs_exact(c, comp@, pairs@),
                labels_ok(c, comp@, scores@, lab@),
                k <= pairs@.len(),
                changed ==> rank_sum(scores@, lab@) < rank_sum(scores@, start),
                !changed ==> lab@ == start,
                !changed ==> labels_settled(pairs@, lab@, k as int),
            decreases pairs@.len() - k,
        {
            let (a, b) = pairs[k];
            let la = lab[a];
            let lb = lab[b];
            proof {
                assert(linked(cs, comp@, c[a as int], c[b as int]));
            }
            if ranks_above(scores, lb, la) {
                proof {
                    lemma_rank_sum_update(scores@, lab@, a as int, lb);
                    lemma_rank_below_lt(scores@, n as int, la as int, lb as int);
                    lemma_walk_prepend(cs, comp@, c[a as int], c[b as int], c[lb as int]);
                }
                lab.set(a, lb);
                changed = true;
            } else if ranks_above(scores, la, lb) {
                proof {
                    lemma_rank_sum_update(scores@, lab@, b as int, la);
                    lemma_rank_below_lt(scores@, n as int, lb as int, la as int);
                    assert(linked(cs, comp@, c[b as int], c[a as int]));
                    lemma_walk_prepend(cs, comp@, c[b as int], c[a as int], c[la as int]);
                }
                lab.set(b, la);
                changed = true;
            } else {
                proof {
                    assert(la == lb);
                }
            }
            k = k + 1;
        }
    }
    proof {
        assert forall|i: int| 0 <= i < n implies (#[trigger] lab@[i] != i) == compress_suppressed(c, comp@, sup).contains(c[i]) by {
            assert(cs.contains(c[i]));
            if lab@[i] != i {
                let w = c[lab@[i] as int];
                assert(connected(cs, comp@, c[i], w));
                if scores@[lab@[i] as int] == scores@[i] {
                    assert(lab@[i] < i);
                    assert(w.0 < c[i].0);
                }
                assert(beats(cs, sup, w, c[i]));
            }
            if compress_suppressed(c, comp@, sup).contains(c[i]) {
                let w = choose|w: RowId| #[trigger] connected(cs, comp@, c[i], w) && beats(cs, sup, w, c[i]);
                let p = choose|p: Seq<RowId>| #[trigger] is_walk(cs, comp@, p) && p[0] == c[i] && p.last() == w;
                let j = lemma_walk_same_label(c, comp@, pairs@, lab@, p, i);
                assert(c[j] == w);
                assert(pos_beats(scores@, j, i)) by {
                    if scores@[j] == scores@[i] {
                        assert(c[j].0 < c[i].0);
                        if j >= i {
                            if j > i {
                                assert(c[i].0 < c[j].0);
                            }
                        }
                    }
                }
                assert(lab@[j] == j || pos_beats(scores@, lab@[j] as int, j));
                assert(pos_beats(scores@, lab@[i] as int, i));
            }
        }
        assert forall|i: int, w: RowId|
            #![trigger connected(cs, comp@, c[i], w), lab@[i]]
            0 <= i < n && connected(cs, comp@, c[i], w) implies !beats(cs, sup, w, c[lab@[i] as int]) by {
            let l = lab@[i] as int;
            if beats(cs, sup, w, c[l]) {
                let p = choose|p: Seq<RowId>| #[trigger] is_walk(cs, comp@, p) && p[0] == c[i] && p.last() == w;
                let j = lemma_walk_same_label(c, comp@, pairs@, lab@, p, i);
                assert(c[j] == w);
                assert(scores@[j] == support_score(cs, sup, c[j]));
                assert(scores@[l] == support_score(cs, sup, c[l]));
                assert(pos_beats(scores@, j, l)) by {
                    if scores@[j] == scores@[l] {
                        assert(w.0 < c[l].0);
                        if j > l {
                            assert(c[l].0 < c[j].0);
                        }
                    }
                }
                assert(lab@[j] == j || pos_beats(scores@, lab@[j] as int, j));
            }
        }
    }
    lab
}

/// The rows of `s` that are in `keep`, in order.
pub open spec fn rows_in(s: Seq<RowId>, keep: Set<RowId>) -> Seq<RowId>
    decreases s.len(),
{
    if s.len() == 0 {
        Seq::empty()
    } else {
        let p = rows_in(s.drop_last(), keep);
        if keep.contains(s.last()) {
            p.push(s.last())
        } else {
            p
        }
    }
}

/// What `rows_in` keeps, and that it keeps the order.
pub proof fn lemma_rows_in(s: Seq<RowId>, keep: Set<RowId>)
    ensures
        forall|x: RowId| #[trigger] rows_in(s, keep).contains(x) <==> s.contains(x) && keep.contains(x),
        rows_in(s, keep).len() <= s.len(),
        ids_sorted(s) ==> ids_sorted(rows_in(s, keep)),
        ids_sorted(s) ==> rows_in(s, keep).no_duplicates(),
    decreases s.len(),
{
    if s.len() > 0 {
        let q = s.drop_last();
        lemma_rows_in(q, keep);
        let p = rows_in(q, keep);
        assert forall|x: RowId| #[trigger] rows_in(s, keep).contains(x) <==> s.contains(x) && keep.contains(x) by {
            if s.contains(x) && keep.contains(x) {
                let k = choose|k: int| 0 <= k < s.len() && s[k] == x;
                if k < s.len() - 1 {
                    assert(q[k] == x);
                    assert(q.contains(x));
                    assert(rows_in(q, keep).contains(x));
                    assert(p.contains(x));
                    let w = choose|w: int| 0 <= w < p.len() && p[w] == x;
                    if keep.contains(s.last()) {
                        assert(p.push(s.last())[w] == x);
                    }
                } else {
                    assert(p.push(s.last())[p.len() as int] == x);
                }
            }
            if rows_in(s, keep).contains(x) {
                if p.contains(x) {
                    let w = choose|w: int| 0 <= w < q.len() && q[w] == x;
                    assert(s[w] == x);
                } else {
                    assert(x == s.last());
                    assert(s[s.len() - 1] == x);
                }
            }
        }
        if ids_sorted(s) {
            assert(ids_sorted(q));
            if keep.contains(s.last()) {
                assert forall|a: int, b: int| 0 <= a < b < p.len() + 1 implies p.push(s.last())[a].0 < p.push(
                    s.last(),
                )[b].0 by {
                    if b == p.len() {
                        assert(p.contains(p[a]));
                        let w = choose|w: int| 0 <= w < q.len() && q[w] == p[a];
                        assert(s[w] == p[a]);
                    }
                }
            }
            let r = rows_in(s, keep);
            assert forall|a: int, b: int| 0 <= a < r.len() && 0 <= b < r.len() && a != b implies r[a] != r[b] by {
                if a < b {
                    assert(r[a].0 < r[b].0);
                } else {
                    assert(r[b].0 < r[a].0);
                }
            }
        }
    }
}

/// The rows of `s` that are not in `a` nor in `b`, in order.
fn rows_outside(s: &[RowId], a: &[RowId], b: &[RowId]) -> (r: Vec<RowId>)
    ensures
        r@ == rows_in(s@, a@.to_set().union(b@.to_set()).complement()),
{
    let ghost keep = a@.to_set().union(b@.to_set()).complement();
    let mut out: Vec<RowId> = Vec::new();
    let mut i: usize = 0;
    while i < s.len()
        invariant
            keep == a@.to_set().union(b@.to_set()).complement(),
            i <= s@.len(),
            out@ == rows_in(s@.take(i as int), keep),
        decreases s@.len() - i,
    {
        let x = s[i];
        proof {
            assert(s@.take(i + 1).drop_last() =~= s@.take(i as int));
            assert(s@.take(i + 1).last() == x);
            assert(a@.to_set().contains(x) == a@.contains(x));
            assert(b@.to_set().contains(x) == b@.contains(x));
        }
        if !contains_row_id(a, x) && !contains_row_id(b, x) {
            out.push(x);
        }
        i = i + 1;
    }
    proof {
        assert(s@.take(s@.len() as int) =~= s@);
    }
    out
}

/// The rows of `s` that are in `a` and not in `b`, in order.
fn rows_within(s: &[RowId], a: &[RowId], b: &[RowId]) -> (r: Vec<RowId>)
    ensures
        r@ == rows_in(s@, a@.to_set().difference(b@.to_set())),
{
    let ghost keep = a@.to_set().difference(b@.to_set());
    let mut out: Vec<RowId> = Vec::new();
    let mut i: usize = 0;
    while i < s.len()
        invariant
            keep == a@.to_set().difference(b@.to_set()),
            i <= s@.len(),
            out@ == rows_in(s@.take(i as int), keep),
        decreases s@.len() - i,
    {
        let x = s[i];
        proof {
            assert(s@.take(i + 1).drop_last() =~= s@.take(i as int));
            assert(s@.take(i + 1).last() == x);
            assert(a@.to_set().contains(x) == a@.contains(x));
            assert(b@.to_set().contains(x) == b@.contains(x));
        }
        if contains_row_id(a, x) && !contains_row_id(b, x) {
            out.push(x);
        }
        i = i + 1;
    }
    proof {
        assert(s@.take(s@.len() as int) =~= s@);
    }
    out
}

/// `w` is the only row of `g` with the highest support score, and that
/// score is positive.
pub open spec fn group_winner(cs: Set<RowId>, sup: Seq<SemanticEdge>, g: Set<RowId>, w: RowId) -> bool {
    &&& g.contains(w)
    &&& support_score(cs, sup, w) > 0
    &&& forall|r: RowId| g.contains(r) && r != w ==> support_score(cs, sup, r) < support_score(cs, sup, w)
}

/// The suppressed and ambiguous rows after resolving the conflict group `g`:
/// a sole best-supported row wins and the others of the group are
/// suppressed; without one, the rows of the group not yet suppressed become
/// ambiguous.
pub open spec fn resolve_group(
    cs: Set<RowId>,
    sup: Seq<SemanticEdge>,
    g: Set<RowId>,
    st: (Set<RowId>, Set<RowId>),
) -> (Set<RowId>, Set<RowId>) {
    if exists|w: RowId| #[trigger] group_winner(cs, sup, g, w) {
        let w = choose|w: RowId| #[trigger] group_winner(cs, sup, g, w);
        (st.0.union(g.remove(w)), st.1.difference(g))
    } else {
        (st.0, st.1.union(g.difference(st.0)))
    }
}

/// The support score of a considered row.
fn score_of(considered: &[RowId], scores: &[usize], r: RowId, Ghost(sup): Ghost<Seq<SemanticEdge>>) -> (s: usize)
    requires
        scores@.len() == considered@.len(),
        forall|i: int|
            0 <= i < considered@.len() ==> scores@[i] == support_score(considered@.to_set(), sup, #[trigger] considered@[i]),
        considered@.contains(r),
    ensures
        s == support_score(considered@.to_set(), sup, r),
{
    match position_of_row_id(considered, r) {
        Some(i) => scores[i],
        None => 0,
    }
}

/// Resolves one conflict group: a sole best-supported row wins and the
/// others are suppressed; otherwise the rows not yet suppressed become
/// ambiguous.
fn resolve_conflict_group(
    group: &[RowId],
    considered: &[RowId],
    scores: &[usize],
    suppressed: &mut Vec<RowId>,
    ambiguous: &mut Vec<RowId>,
    Ghost(sup): Ghost<Seq<SemanticEdge>>,
)
    requires
        scores@.len() == considered@.len(),
        forall|i: int|
            0 <= i < considered@.len() ==> scores@[i] == support_score(considered@.to_set(), sup, #[trigger] considered@[i]),
        group@.no_duplicates(),
        forall|x: RowId| group@.contains(x) ==> considered@.contains(x),
        ids_sorted(old(suppressed)@),
        ids_sorted(old(ambiguous)@),
    ensures
        ids_sorted(final(suppressed)@),
        ids_sorted(final(ambiguous)@),
        (final(suppressed)@.to_set(), final(ambiguous)@.to_set()) == resolve_group(
            considered@.to_set(),
            sup,
            group@.to_set(),
            (old(suppressed)@.to_set(), old(ambiguous)@.to_set()),
        ),
{
    let ghost cs = considered@.to_set();
    let ghost g = group@.to_set();
    let mut max_score: usize = 0;
    let mut count: usize = 0;
    let mut best = RowId(0);
    let mut i: usize = 0;
    while i < group.len()
        invariant
            scores@.len() == considered@.len(),
            forall|i: int|
                0 <= i < considered@.len() ==> scores@[i] == support_score(cs, sup, #[trigger] considered@[i]),
            cs == considered@.to_set(),
            forall|x: RowId| group@.contains(x) ==> considered@.contains(x),
            group@.no_duplicates(),
            i <= group@.len(),
            count <= i,
            forall|j: int| 0 <= j < i ==> support_score(cs, sup, #[trigger] group@[j]) <= max_score,
            max_score > 0 ==> exists|j: int| 0 <= j < i && support_score(cs, sup, #[trigger] group@[j]) == max_score,
            count >= 1 ==> exists|j: int| 0 <= j < i && #[trigger] group@[j] == best && support_score(cs, sup, best) == max_score,
            count == 1 ==> forall|j: int| 0 <= j < i && support_score(cs, sup, #[trigger] group@[j]) == max_score ==> group@[j] == best,
            count >= 2 ==> exists|j1: int, j2: int|
                0 <= j1 < i && 0 <= j2 < i && j1 != j2 && support_score(cs, sup, #[trigger] group@[j1]) == max_score
                    && support_score(cs, sup, #[trigger] group@[j2]) == max_score,
            count == 0 ==> forall|j: int| 0 <= j < i ==> support_score(cs, sup, #[trigger] group@[j]) != max_score,
        decreases group@.len() - i,
    {
        let r = group[i];
        proof {
            assert(group@.contains(r));
        }
        let score = score_of(considered, scores, r, Ghost(sup));
        if score > max_score {
            max_score = score;
            count = 1;
            best = r;
        } else if score == max_score {
            proof {
                if count >= 1 {
                    let j1 = choose|j: int| 0 <= j < i && #[trigger] group@[j] == best && support_score(cs, sup, best) == max_score;
                    assert(group@[j1] != group@[i as int]);
                    assert(support_score(cs, sup, group@[i as int]) == max_score);
                }
            }
            if count == 0 {
                best = r;
            }
            count = count + 1;
        }
        i = i + 1;
    }
    let winner_exists = max_score > 0 && count == 1;
    proof {
        if winner_exists {
            assert(group_winner(cs, sup, g, best)) by {
                let j = choose|j: int| 0 <= j < group@.len() && #[trigger] group@[j] == best && support_score(cs, sup, best) == max_score;
                assert(group@.contains(best));
                assert forall|r: RowId| g.contains(r) && r != best implies support_score(cs, sup, r) < support_score(cs, sup, best) by {
                    assert(group@.contains(r));
                    let k = choose|k: int| 0 <= k < group@.len() && group@[k] == r;
                    assert(support_score(cs, sup, group@[k]) <= max_score);
                }
            }
        } else {
            assert forall|w: RowId| !#[trigger] group_winner(cs, sup, g, w) by {
                if group_winner(cs, sup, g, w) {
                    assert(group@.contains(w));
                    let kw = choose|k: int| 0 <= k < group@.len() && group@[k] == w;
                    assert(support_score(cs, sup, group@[kw]) <= max_score);
                    if max_score > 0 {
                        let j = choose|j: int| 0 <= j < group@.len() && support_score(cs, sup, #[trigger] group@[j]) == max_score;
                        assert(g.contains(group@[j]));
                        assert(group@[j] == w);
                        if count == 0 {
                            assert(support_score(cs, sup, group@[j]) != max_score);
                        } else {
                            assert(count >= 2);
                            let (j1, j2) = choose|j1: int, j2: int|
                                0 <= j1 < group@.len() && 0 <= j2 < group@.len() && j1 != j2 && support_score(cs, sup, #[trigger] group@[j1]) == max_score
                                    && support_score(cs, sup, #[trigger] group@[j2]) == max_score;
                            assert(g.contains(group@[j1]));
                            assert(g.contains(group@[j2]));
                            assert(group@[j1] != group@[j2]);
                        }
                    }
                }
            }
        }
    }
    let ghost sup0 = suppressed@.to_set();
    let ghost amb0 = ambiguous@.to_set();
    if winner_exists {
        remove_row_id(ambiguous, best);
        let mut k: usize = 0;
        while k < group.len()
            invariant
                k <= group@.len(),
                ids_sorted(suppressed@),
                ids_sorted(ambiguous@),
                suppressed@.to_set() == sup0.union(group@.take(k as int).to_set().remove(best)),
                ambiguous@.to_set() == amb0.difference(group@.take(k as int).to_set()).remove(best),
            decreases group@.len() - k,
        {
            let r = group[k];
            proof {
                assert(group@.take(k + 1) =~= group@.take(k as int).push(r));
                group@.take(k as int).lemma_push_to_set_commute(r);
            }
            if r.0 != best.0 {
                insert_row_id(suppressed, r);
                remove_row_id(ambiguous, r);
            }
            proof {
                assert(suppressed@.to_set() =~= sup0.union(group@.take(k + 1).to_set().remove(best)));
                assert(ambiguous@.to_set() =~= amb0.difference(group@.take(k + 1).to_set()).remove(best));
            }
            k = k + 1;
        }
        proof {
            assert(group@.take(group@.len() as int) =~= group@);
            assert(group@.contains(best)) by {
                let j = choose|j: int| 0 <= j < group@.len() && #[trigger] group@[j] == best && support_score(cs, sup, best) == max_score;
            }
            assert(ambiguous@.to_set() =~= amb0.difference(g));
            assert(forall|w: RowId| #[trigger] group_winner(cs, sup, g, w) ==> w == best);
        }
    } else {
        let mut k: usize = 0;
        while k < group.len()
            invariant
                k <= group@.len(),
                ids_sorted(ambiguous@),
                suppressed@.to_set() == sup0,
                ambiguous@.to_set() == amb0.union(group@.take(k as int).to_set().difference(sup0)),
            decreases group@.len() - k,
        {
            let r = group[k];
            proof {
                assert(group@.take(k + 1) =~= group@.take(k as int).push(r));
                group@.take(k as int).lemma_push_to_set_commute(r);
                assert(sup0.contains(r) == suppressed@.contains(r));
            }
            if !contains_row_id(suppressed.as_slice(), r) {
                insert_row_id(ambiguous, r);
            }
            proof {
                assert(ambiguous@.to_set() =~= amb0.union(group@.take(k + 1).to_set().difference(sup0)));
            }
            k = k + 1;
        }
        proof {
            assert(group@.take(group@.len() as int) =~= group@);
        }
    }
}

/// The rows of `c` that `rows_in` keeps are those of `c` in `keep`.
proof fn lemma_rows_in_set(c: Seq<RowId>, keep: Set<RowId>)
    ensures
        rows_in(c, keep).to_set() == c.to_set().intersect(keep),
{
    lemma_rows_in(c, keep);
    assert(rows_in(c, keep).to_set() =~= c.to_set().intersect(keep));
}

/// The considered rows that lose to a better row of their compressible
/// component, in order.
fn resolve_compressible_groups(
    considered: &[RowId],
    comp: &[SemanticEdge],
    scores: &[usize],
    Ghost(sup): Ghost<Seq<SemanticEdge>>,
) -> (r: Vec<RowId>)
    requires
        ids_sorted(considered@),
        scores@.len() == considered@.len(),
        forall|i: int|
            0 <= i < considered@.len() ==> scores@[i] == support_score(considered@.to_set(), sup, #[trigger] considered@[i]),
    ensures
        r@ == rows_in(considered@, compress_suppressed(considered@, comp@, sup)),
{
    let ghost cs_sup = compress_suppressed(considered@, comp@, sup);
    let lab = compressible_components(considered, comp, scores, Ghost(sup));
    let mut out: Vec<RowId> = Vec::new();
    let mut i: usize = 0;
    while i < considered.len()
        invariant
            cs_sup == compress_suppressed(considered@, comp@, sup),
            lab@.len() == considered@.len(),
            forall|i: int|
                0 <= i < considered@.len() ==> (#[trigger] lab@[i] != i) == cs_sup.contains(considered@[i]),
            i <= considered@.len(),
            out@ == rows_in(considered@.take(i as int), cs_sup),
        decreases considered@.len() - i,
    {
        proof {
            assert(considered@.take(i + 1).drop_last() =~= considered@.take(i as int));
            assert(considered@.take(i + 1).last() == considered@[i as int]);
            assert((lab@[i as int] != i) == cs_sup.contains(considered@[i as int]));
        }
        if lab[i] != i {
            out.push(considered[i]);
        }
        i = i + 1;
    }
    proof {
        assert(considered@.take(considered@.len() as int) =~= considered@);
    }
    out
}

/// Some record names exactly two rows, and `e` joins them.
pub open spec fn recorded_pair(recs: Seq<ConflictRecord>, e: SemanticEdge) -> bool {
    exists|i: int|
        0 <= i < recs.len() && (#[trigger] recs[i]).rows@.len() == 2 && edge_of(recs[i].rows@[0], recs[i].rows@[1])
            == e
}

/// Whether some record names exactly the two rows of `e`.
fn has_recorded_pair(recs: &[ConflictRecord], e: SemanticEdge) -> (r: bool)
    ensures
        r == recorded_pair(recs@, e),
{
    let mut i: usize = 0;
    while i < recs.len()
        invariant
            i <= recs@.len(),
            forall|k: int|
                0 <= k < i ==> !((#[trigger] recs@[k]).rows@.len() == 2 && edge_of(recs@[k].rows@[0], recs@[k].rows@[1]) == e),
        decreases recs@.len() - i,
    {
        let rec = &recs[i];
        if rec.rows.len() == 2 {
            let x = SemanticEdge::new(rec.rows[0], rec.rows[1]);
            if x.first.0 == e.first.0 && x.second.0 == e.second.0 {
                proof {
                    assert(recs@[i as int] == *rec);
                }
                return true;
            }
        }
        i = i + 1;
    }
    false
}

/// The suppressed and ambiguous rows after each open record with at least
/// two effective rows is resolved, and the records so consulted.
pub open spec fn record_pass(
    cs: Set<RowId>,
    sup: Seq<SemanticEdge>,
    eff: Set<RowId>,
    recs: Seq<ConflictRecord>,
    st: (Set<RowId>, Set<RowId>),
) -> ((Set<RowId>, Set<RowId>), Seq<ConflictId>)
    decreases recs.len(),
{
    if recs.len() == 0 {
        (st, Seq::empty())
    } else {
        let prev = record_pass(cs, sup, eff, recs.drop_last(), st);
        let rec = recs.last();
        let g = rows_in(rec.rows@, eff);
        if rec.status == ConflictStatus::Open && g.len() >= 2 {
            (resolve_group(cs, sup, g.to_set(), prev.0), prev.1.push(rec.id))
        } else {
            prev
        }
    }
}

/// The suppressed and ambiguous rows after each conflict edge between two
/// effective rows that no two-row record names is resolved.
pub open spec fn edge_pass(
    cs: Set<RowId>,
    sup: Seq<SemanticEdge>,
    eff: Set<RowId>,
    recs: Seq<ConflictRecord>,
    es: Seq<SemanticEdge>,
    st: (Set<RowId>, Set<RowId>),
) -> (Set<RowId>, Set<RowId>)
    decreases es.len(),
{
    if es.len() == 0 {
        st
    } else {
        let prev = edge_pass(cs, sup, eff, recs, es.drop_last(), st);
        let e = es.last();
        if !recorded_pair(recs, e) && eff.contains(e.first) && eff.contains(e.second) {
            resolve_group(cs, sup, set![e.first, e.second], prev)
        } else {
            prev
        }
    }
}

/// `o` is the conservative projection of the considered rows `c` of `t`:
/// compressible duplicates lose to the best row of their component, then
/// open conflicts and unrecorded conflict edges among the remaining rows
/// are resolved by support; each considered row ends accepted, suppressed
/// or ambiguous.
pub open spec fn conservative_outcome(binding_id: BindingId, t: Table, c: Seq<RowId>, o: ProjectionOutcome) -> bool {
    let cs = c.to_set();
    let sup = t.support_edges@;
    let s0 = compress_suppressed(c, t.compressible_edges@, sup);
    let eff = cs.difference(s0);
    let rp = record_pass(cs, sup, eff, t.conflict_records@, (s0, Set::empty()));
    let st = edge_pass(cs, sup, eff, t.conflict_records@, t.conflict_edges@, rp.0);
    let suppressed = st.0;
    let ambiguous = st.1.difference(st.0);
    &&& o.binding_id == binding_id
    &&& o.considered_rows@ == c
    &&& o.accepted_rows@ == rows_in(c, suppressed.union(ambiguous).complement())
    &&& o.suppressed_rows@ == rows_in(c, suppressed)
    &&& o.ambiguous_rows@ == rows_in(c, ambiguous)
    &&& o.consulted_conflicts@ == rp.1
}

/// Resolves the considered rows conservatively: a task-local view in which
/// every considered row is accepted, suppressed or ambiguous.
pub fn project_conservative(binding_id: BindingId, table: &Table, considered: Vec<RowId>) -> (o: ProjectionOutcome)
    requires
        table.wf(),
        ids_sorted(considered@),
    ensures
        conservative_outcome(binding_id, *table, considered@, o),
{
    let ghost c = considered@;
    let ghost cs = c.to_set();
    let ghost supe = table.support_edges@;
    let ghost s0set = compress_suppressed(c, table.compressible_edges@, supe);
    let ghost eff_set = cs.difference(s0set);
    let ghost recs = table.conflict_records@;
    proof {
        assert forall|k: int| 0 <= k < supe.len() implies (#[trigger] supe[k]).first != supe[k].second by {
            assert(supe[k].first.0 < supe[k].second.0);
        }
    }
    let scores = build_support_scores(considered.as_slice(), table.support_edges.as_slice());
    let s0 = resolve_compressible_groups(
        considered.as_slice(),
        table.compressible_edges.as_slice(),
        scores.as_slice(),
        Ghost(supe),
    );
    let none: Vec<RowId> = Vec::new();
    let eff = rows_outside(considered.as_slice(), s0.as_slice(), none.as_slice());
    let mut suppressed = rows_within(considered.as_slice(), s0.as_slice(), none.as_slice());
    let mut ambiguous: Vec<RowId> = Vec::new();
    let mut consulted: Vec<ConflictId> = Vec::new();
    proof {
        lemma_rows_in(c, s0set);
        lemma_rows_in_set(c, s0set);
        assert(s0@.to_set() =~= s0set);
        assert(none@.to_set() =~= Set::<RowId>::empty());
        lemma_rows_in_set(c, s0@.to_set().union(none@.to_set()).complement());
        assert(eff@.to_set() =~= eff_set);
        assert(s0@.to_set().difference(none@.to_set()) =~= s0set);
        lemma_rows_in(c, s0set);
        lemma_rows_in_set(c, s0set);
        assert(suppressed@.to_set() =~= s0set);
        assert(ambiguous@.to_set() =~= Set::<RowId>::empty());
        assert(recs.take(0) =~= Seq::<ConflictRecord>::empty());
    }
    let mut k: usize = 0;
    while k < table.conflict_records.len()
        invariant
            table.wf(),
            c == considered@,
            cs == c.to_set(),
            ids_sorted(c),
            supe == table.support_edges@,
            recs == table.conflict_records@,
            scores@.len() == c.len(),
            forall|i: int| 0 <= i < c.len() ==> scores@[i] == support_score(cs, supe, #[trigger] c[i]),
            eff@.to_set() == eff_set,
            eff_set == cs.difference(s0set),
            none@.len() == 0,
            ids_sorted(suppressed@),
            ids_sorted(ambiguous@),
            k <= recs.len(),
            (suppressed@.to_set(), ambiguous@.to_set()) == record_pass(cs, supe, eff_set, recs.take(k as int), (s0set, Set::empty())).0,
            consulted@ == record_pass(cs, supe, eff_set, recs.take(k as int), (s0set, Set::empty())).1,
        decreases recs.len() - k,
    {
        let rec = &table.conflict_records[k];
        let involved = rows_within(rec.rows.as_slice(), eff.as_slice(), none.as_slice());
        let ghost g = rows_in(rec.rows@, eff_set);
        proof {
            assert(recs.take(k + 1).drop_last() =~= recs.take(k as int));
            assert(recs.take(k + 1).last() == *rec);
            assert(none@.to_set() =~= Set::<RowId>::empty());
            assert(eff@.to_set().difference(none@.to_set()) =~= eff_set);
            assert(involved@ == g);
            assert(crate::table::records_valid(recs, table.rows@, table.next_conflict_id));
            assert(ids_sorted(rec.rows@));
            lemma_rows_in(rec.rows@, eff_set);
        }
        let open = match rec.status {
            ConflictStatus::Open => true,
            _ => false,
        };
        if open && involved.len() >= 2 {
            consulted.push(rec.id);
            proof {
                assert forall|x: RowId| involved@.contains(x) implies considered@.contains(x) by {
                    assert(eff_set.contains(x));
                    assert(cs.contains(x));
                }
            }
            resolve_conflict_group(
                involved.as_slice(),
                considered.as_slice(),
                scores.as_slice(),
                &mut suppressed,
                &mut ambiguous,
                Ghost(supe),
            );
        }
        k = k + 1;
    }
    proof {
        assert(recs.take(recs.len() as int) =~= recs);
    }
    let ghost rp = record_pass(cs, supe, eff_set, recs, (s0set, Set::empty()));
    let ghost es = table.conflict_edges@;
    let mut j: usize = 0;
    proof {
        assert(es.take(0) =~= Seq::<SemanticEdge>::empty());
    }
    while j < table.conflict_edges.len()
        invariant
            table.wf(),
            c == considered@,
            cs == c.to_set(),
            supe == table.support_edges@,
            recs == table.conflict_records@,
            es == table.conflict_edges@,
            scores@.len() == c.len(),
            forall|i: int| 0 <= i < c.len() ==> scores@[i] == support_score(cs, supe, #[trigger] c[i]),
            eff@.to_set() == eff_set,
            eff_set == cs.difference(s0set),
            none@.len() == 0,
            ids_sorted(suppressed@),
            ids_sorted(ambiguous@),
            j <= es.len(),
            (suppressed@.to_set(), ambiguous@.to_set()) == edge_pass(cs, supe, eff_set, recs, es.take(j as int), rp.0),
        decreases es.len() - j,
    {
        let e = table.conflict_edges[j];
        proof {
            assert(es.take(j + 1).drop_last() =~= es.take(j as int));
            assert(es.take(j + 1).last() == e);
            assert(eff_set.contains(e.first) == eff@.contains(e.first));
            assert(eff_set.contains(e.second) == eff@.contains(e.second));
        }
        if !has_recorded_pair(table.conflict_records.as_slice(), e) && contains_row_id(eff.as_slice(), e.first)
            && contains_row_id(eff.as_slice(), e.second) {
            let pair = vec![e.first, e.second];
            proof {
                assert(es[j as int] == e);
                assert(e.first.0 < e.second.0);
                assert(pair@.no_duplicates());
                assert(pair@.to_set() =~= set![e.first, e.second]) by {
                    assert(pair@[0] == e.first);
                    assert(pair@[1] == e.second);
                }
                assert forall|x: RowId| pair@.contains(x) implies considered@.contains(x) by {
                    assert(pair@[0] == e.first);
                    assert(pair@[1] == e.second);
                    assert(cs.contains(x));
                }
            }
            resolve_conflict_group(
                pair.as_slice(),
                considered.as_slice(),
                scores.as_slice(),
                &mut suppressed,
                &mut ambiguous,
                Ghost(supe),
            );
        }
        j = j + 1;
    }
    proof {
        assert(es.take(es.len() as int) =~= es);
    }
    let accepted = rows_outside(considered.as_slice(), suppressed.as_slice(), ambiguous.as_slice());
    let suppressed_rows = rows_within(considered.as_slice(), suppressed.as_slice(), none.as_slice());
    let ambiguous_rows = rows_within(considered.as_slice(), ambiguous.as_slice(), suppressed.as_slice());
    proof {
        let st = edge_pass(cs, supe, eff_set, recs, es, rp.0);
        let sset = st.0;
        let aset = st.1.difference(st.0);
        assert(suppressed@.to_set().union(ambiguous@.to_set()).complement() =~= sset.union(aset).complement());
        assert(none@.to_set() =~= Set::<RowId>::empty());
        assert(suppressed@.to_set().difference(none@.to_set()) =~= sset);
    }
    ProjectionOutcome::new(binding_id, considered, accepted, suppressed_rows, ambiguous_rows, consulted)
}

/// `x` is the other end of an edge of `es` from a seed row.
pub open spec fn seed_neighbor(seeds: Set<RowId>, es: Seq<SemanticEdge>, x: RowId) -> bool {
    exists|k: int|
        0 <= k < es.len() && ((seeds.contains((#[trigger] es[k]).first) && es[k].second == x) || (seeds.contains(
            es[k].second,
        ) && es[k].first == x))
}

/// The rows joined to a seed row by an edge of `es`.
pub open spec fn seed_neighbors(seeds: Set<RowId>, es: Seq<SemanticEdge>) -> Set<RowId> {
    Set::new(|x: RowId| seed_neighbor(seeds, es, x))
}

/// The rows that a projection of the bound rows `seeds` of `t` considers:
/// the seeds, and their neighbors by the kinds of edge that the policy
/// includes.
pub open spec fn considered_set(seeds: Set<RowId>, t: Table, policy: ProjectionPolicy) -> Set<RowId> {
    seeds.union(
        if policy.include_support_neighbors {
            seed_neighbors(seeds, t.support_edges@)
        } else {
            Set::empty()
        },
    ).union(
        if policy.include_compressible_neighbors {
            seed_neighbors(seeds, t.compressible_edges@)
        } else {
            Set::empty()
        },
    ).union(
        if policy.include_conflict_neighbors {
            seed_neighbors(seeds, t.conflict_edges@)
        } else {
            Set::empty()
        },
    )
}

/// Adds to the considered rows each row joined to a seed row by an edge.
fn expand_rows_with_edges(considered: &mut Vec<RowId>, seeds: &[RowId], edges: &[SemanticEdge])
    requires
        ids_sorted(old(considered)@),
    ensures
        ids_sorted(final(considered)@),
        final(considered)@.to_set() == old(considered)@.to_set().union(seed_neighbors(seeds@.to_set(), edges@)),
{
    let ghost start = considered@.to_set();
    let ghost ss = seeds@.to_set();
    let mut k: usize = 0;
    while k < edges.len()
        invariant
            ss == seeds@.to_set(),
            k <= edges@.len(),
            ids_sorted(considered@),
            considered@.to_set() == start.union(seed_neighbors(ss, edges@.take(k as int))),
        decreases edges@.len() - k,
    {
        let e = edges[k];
        let ghost before = considered@.to_set();
        proof {
            assert(ss.contains(e.first) == seeds@.contains(e.first));
            assert(ss.contains(e.second) == seeds@.contains(e.second));
        }
        if contains_row_id(seeds, e.first) {
            insert_row_id(considered, e.second);
        }
        if contains_row_id(seeds, e.second) {
            insert_row_id(considered, e.first);
        }
        proof {
            let t = edges@.take(k + 1);
            let t0 = edges@.take(k as int);
            assert(t[k as int] == e);
            assert forall|x: RowId| #[trigger] seed_neighbors(ss, t).contains(x) == (seed_neighbors(ss, t0).contains(x) || (
            ss.contains(e.first) && e.second == x) || (ss.contains(e.second) && e.first == x)) by {
                if seed_neighbor(ss, t, x) {
                    let w = choose|w: int|
                        0 <= w < t.len() && ((ss.contains((#[trigger] t[w]).first) && t[w].second == x) || (ss.contains(
                            t[w].second,
                        ) && t[w].first == x));
                    if w < k {
                        assert(t0[w] == t[w]);
                        assert(seed_neighbor(ss, t0, x));
                    }
                }
                if seed_neighbor(ss, t0, x) {
                    let w = choose|w: int|
                        0 <= w < t0.len() && ((ss.contains((#[trigger] t0[w]).first) && t0[w].second == x) || (ss.contains(
                            t0[w].second,
                        ) && t0[w].first == x));
                    assert(t[w] == t0[w]);
                    assert(seed_neighbor(ss, t, x));
                }
            }
            assert(considered@.to_set() =~= start.union(seed_neighbors(ss, t)));
        }
        k = k + 1;
    }
    proof {
        assert(edges@.take(edges@.len() as int) =~= edges@);
    }
}

/// A copy of the identifiers.
fn copy_row_ids(s: &[RowId]) -> (r: Vec<RowId>)
    ensures
        r@ == s@,
{
    let mut out: Vec<RowId> = Vec::new();
    let mut i: usize = 0;
    while i < s.len()
        invariant
            i <= s@.len(),
            out@ == s@.take(i as int),
        decreases s@.len() - i,
    {
        out.push(s[i]);
        assert(s@.take(i + 1) =~= s@.take(i as int).push(s@[i as int]));
        i = i + 1;
    }
    assert(s@.take(s@.len() as int) =~= s@);
    out
}

impl Database {
    /// The task-local view of a binding set: its rows and their neighbors by
    /// the edges the policy includes, each accepted, suppressed or
    /// ambiguous. The database is not changed.
    pub fn project_binding(&self, binding_id: BindingId, policy: ProjectionPolicy) -> (r: Result<
        ProjectionOutcome,
        DbError,
    >)
        requires
            self.wf(),
        ensures
            match r {
                Ok(o) => {
                    let b = self.binding_at(binding_id);
                    let t = self.table_at(b.table_name@);
                    &&& self.has_binding(binding_id)
                    &&& ids_sorted(o.considered_rows@)
                    &&& o.considered_rows@.to_set() == considered_set(b.rows@.to_set(), t, policy)
                    &&& conservative_outcome(binding_id, t, o.considered_rows@, o)
                },
                Err(e) => !self.has_binding(binding_id) && e == DbError::BindingSetNotFound(binding_id),
            },
    {
        let binding = self.binding_set(binding_id)?;
        proof {
            let i = crate::db::id_pos(crate::db::binding_ids(self.binding_sets@), binding_id);
            assert(crate::db::binding_ids(self.binding_sets@)[i] == binding_id);
            assert(self.binding_sets@[i] == *binding);
            assert(self.has_table(binding.table_name@));
        }
        let table = match self.table(binding.table_name.as_str()) {
            Ok(t) => t,
            Err(e) => {
                return Err(e);
            },
        };
        proof {
            assert(self.tables@[self.table_pos(binding.table_name@)].wf());
        }
        let seeds = binding.rows.as_slice();
        let mut considered = copy_row_ids(seeds);
        let ghost ss = seeds@.to_set();
        let ghost base = considered@.to_set();
        if policy.include_support_neighbors {
            expand_rows_with_edges(&mut considered, seeds, table.support_edges.as_slice());
        }
        let ghost s1 = considered@.to_set();
        if policy.include_compressible_neighbors {
            expand_rows_with_edges(&mut considered, seeds, table.compressible_edges.as_slice());
        }
        let ghost s2 = considered@.to_set();
        if policy.include_conflict_neighbors {
            expand_rows_with_edges(&mut considered, seeds, table.conflict_edges.as_slice());
        }
        proof {
            if !policy.include_support_neighbors {
                assert(s1 =~= ss.union(Set::empty()));
            }
            if !policy.include_compressible_neighbors {
                assert(s2 =~= s1.union(Set::empty()));
            }
            if !policy.include_conflict_neighbors {
                assert(considered@.to_set() =~= s2.union(Set::empty()));
            }
            assert(considered@.to_set() =~= considered_set(ss, *table, policy));
        }
        match policy.mode {
            ProjectionMode::Conservative => Ok(project_conservative(binding_id, table, considered)),
        }
    }
}

/// A conservative projection sorts each considered row into exactly one of
/// accepted, suppressed and ambiguous, and lists each kind in increasing
/// order.
pub proof fn lemma_projection_partition(binding_id: BindingId, t: Table, c: Seq<RowId>, o: ProjectionOutcome)
    requires
        ids_sorted(c),
        conservative_outcome(binding_id, t, c, o),
    ensures
        forall|x: RowId|
            #[trigger] c.contains(x) ==> {
                ||| o.accepted_rows@.contains(x) && !o.suppressed_rows@.contains(x) && !o.ambiguous_rows@.contains(x)
                ||| !o.accepted_rows@.contains(x) && o.suppressed_rows@.contains(x) && !o.ambiguous_rows@.contains(x)
                ||| !o.accepted_rows@.contains(x) && !o.suppressed_rows@.contains(x) && o.ambiguous_rows@.contains(x)
            },
        forall|x: RowId|
            o.accepted_rows@.contains(x) || o.suppressed_rows@.contains(x) || o.ambiguous_rows@.contains(x)
                ==> #[trigger] c.contains(x),
        ids_sorted(o.accepted_rows@),
        ids_sorted(o.suppressed_rows@),
        ids_sorted(o.ambiguous_rows@),
{
    let cs = c.to_set();
    let sup = t.support_edges@;
    let s0 = compress_suppressed(c, t.compressible_edges@, sup);
    let eff = cs.difference(s0);
    let rp = record_pass(cs, sup, eff, t.conflict_records@, (s0, Set::empty()));
    let st = edge_pass(cs, sup, eff, t.conflict_records@, t.conflict_edges@, rp.0);
    let suppressed = st.0;
    let ambiguous = st.1.difference(st.0);
    lemma_rows_in(c, suppressed.union(ambiguous).complement());
    lemma_rows_in(c, suppressed);
    lemma_rows_in(c, ambiguous);
}

/// A projection always considers every bound row.
pub proof fn lemma_seeds_considered(seeds: Set<RowId>, t: Table, policy: ProjectionPolicy)
    ensures
        seeds.subset_of(considered_set(seeds, t, policy)),
{
}

/// The conflict groups that the open records resolve, in order: the
/// effective rows of each open record that has at least two.
pub open spec fn record_groups(eff: Set<RowId>, recs: Seq<ConflictRecord>) -> Seq<Set<RowId>>
    decreases recs.len(),
{
    if recs.len() == 0 {
        Seq::empty()
    } else {
        let p = record_groups(eff, recs.drop_last());
        let rec = recs.last();
        let g = rows_in(rec.rows@, eff);
        if rec.status == ConflictStatus::Open && g.len() >= 2 {
            p.push(g.to_set())
        } else {
            p
        }
    }
}

/// The conflict groups that the conflict edges resolve, in order: the two
/// rows of each edge between effective rows that no two-row record names.
pub open spec fn edge_groups(eff: Set<RowId>, recs: Seq<ConflictRecord>, es: Seq<SemanticEdge>) -> Seq<Set<RowId>>
    decreases es.len(),
{
    if es.len() == 0 {
        Seq::empty()
    } else {
        let p = edge_groups(eff, recs, es.drop_last());
        let e = es.last();
        if !recorded_pair(recs, e) && eff.contains(e.first) && eff.contains(e.second) {
            p.push(set![e.first, e.second])
        } else {
            p
        }
    }
}

/// The state after resolving each group in turn.
pub open spec fn apply_groups(
    cs: Set<RowId>,
    sup: Seq<SemanticEdge>,
    gs: Seq<Set<RowId>>,
    st: (Set<RowId>, Set<RowId>),
) -> (Set<RowId>, Set<RowId>)
    decreases gs.len(),
{
    if gs.len() == 0 {
        st
    } else {
        resolve_group(cs, sup, gs.last(), apply_groups(cs, sup, gs.drop_last(), st))
    }
}

/// Every conflict group that a conservative projection of `c` in `t`
/// resolves, in the order it resolves them.
pub open spec fn conflict_groups(t: Table, c: Seq<RowId>) -> Seq<Set<RowId>> {
    let eff = c.to_set().difference(compress_suppressed(c, t.compressible_edges@, t.support_edges@));
    record_groups(eff, t.conflict_records@) + edge_groups(eff, t.conflict_records@, t.conflict_edges@)
}

proof fn lemma_record_pass_groups(
    cs: Set<RowId>,
    sup: Seq<SemanticEdge>,
    eff: Set<RowId>,
    recs: Seq<ConflictRecord>,
    st: (Set<RowId>, Set<RowId>),
)
    ensures
        record_pass(cs, sup, eff, recs, st).0 == apply_groups(cs, sup, record_groups(eff, recs), st),
    decreases recs.len(),
{
    if recs.len() > 0 {
        lemma_record_pass_groups(cs, sup, eff, recs.drop_last(), st);
        let p = record_groups(eff, recs.drop_last());
        let g = rows_in(recs.last().rows@, eff);
        if recs.last().status == ConflictStatus::Open && g.len() >= 2 {
            assert(p.push(g.to_set()).drop_last() =~= p);
        }
    }
}

proof fn lemma_edge_pass_groups(
    cs: Set<RowId>,
    sup: Seq<SemanticEdge>,
    eff: Set<RowId>,
    recs: Seq<ConflictRecord>,
    es: Seq<SemanticEdge>,
    st: (Set<RowId>, Set<RowId>),
)
    ensures
        edge_pass(cs, sup, eff, recs, es, st) == apply_groups(cs, sup, edge_groups(eff, recs, es), st),
    decreases es.len(),
{
    if es.len() > 0 {
        lemma_edge_pass_groups(cs, sup, eff, recs, es.drop_last(), st);
        let p = edge_groups(eff, recs, es.drop_last());
        let e = es.last();
        if !recorded_pair(recs, e) && eff.contains(e.first) && eff.contains(e.second) {
            assert(p.push(set![e.first, e.second]).drop_last() =~= p);
        }
    }
}

proof fn lemma_apply_concat(
    cs: Set<RowId>,
    sup: Seq<SemanticEdge>,
    g1: Seq<Set<RowId>>,
    g2: Seq<Set<RowId>>,
    st: (Set<RowId>, Set<RowId>),
)
    ensures
        apply_groups(cs, sup, g1 + g2, st) == apply_groups(cs, sup, g2, apply_groups(cs, sup, g1, st)),
    decreases g2.len(),
{
    if g2.len() == 0 {
        assert(g1 + g2 =~= g1);
    } else {
        lemma_apply_concat(cs, sup, g1, g2.drop_last(), st);
        assert((g1 + g2).drop_last() =~= g1 + g2.drop_last());
        assert((g1 + g2).last() == g2.last());
    }
}

/// A row outside every group keeps its place in the state.
proof fn lemma_apply_untouched(
    cs: Set<RowId>,
    sup: Seq<SemanticEdge>,
    gs: Seq<Set<RowId>>,
    st: (Set<RowId>, Set<RowId>),
    r: RowId,
)
    requires
        forall|j: int| 0 <= j < gs.len() ==> !(#[trigger] gs[j]).contains(r),
    ensures
        apply_groups(cs, sup, gs, st).0.contains(r) == st.0.contains(r),
        apply_groups(cs, sup, gs, st).1.contains(r) == st.1.contains(r),
    decreases gs.len(),
{
    if gs.len() > 0 {
        assert forall|j: int| 0 <= j < gs.drop_last().len() implies !(#[trigger] gs.drop_last()[j]).contains(r) by {
            assert(gs.drop_last()[j] == gs[j]);
        }
        lemma_apply_untouched(cs, sup, gs.drop_last(), st, r);
        assert(!gs.last().contains(r)) by {
            assert(gs.last() == gs[gs.len() - 1]);
        }
    }
}

/// Two rows that share a resolved conflict group, and appear in no other,
/// are not both accepted: the loser of the group is suppressed, and without
/// a sole winner no row of the group is accepted.
pub proof fn lemma_lone_conflict_not_both_accepted(
    binding_id: BindingId,
    t: Table,
    c: Seq<RowId>,
    o: ProjectionOutcome,
    x: RowId,
    y: RowId,
    k: int,
)
    requires
        ids_sorted(c),
        conservative_outcome(binding_id, t, c, o),
        0 <= k < conflict_groups(t, c).len(),
        x != y,
        conflict_groups(t, c)[k].contains(x),
        conflict_groups(t, c)[k].contains(y),
        forall|j: int|
            0 <= j < conflict_groups(t, c).len() && j != k ==> !(#[trigger] conflict_groups(t, c)[j]).contains(x)
                && !conflict_groups(t, c)[j].contains(y),
    ensures
        !(o.accepted_rows@.contains(x) && o.accepted_rows@.contains(y)),
{
    let cs = c.to_set();
    let sup = t.support_edges@;
    let s0 = compress_suppressed(c, t.compressible_edges@, sup);
    let eff = cs.difference(s0);
    let recs = t.conflict_records@;
    let st0 = (s0, Set::<RowId>::empty());
    let rg = record_groups(eff, recs);
    let eg = edge_groups(eff, recs, t.conflict_edges@);
    let gs = conflict_groups(t, c);
    let rp = record_pass(cs, sup, eff, recs, st0);
    lemma_record_pass_groups(cs, sup, eff, recs, st0);
    lemma_edge_pass_groups(cs, sup, eff, recs, t.conflict_edges@, rp.0);
    lemma_apply_concat(cs, sup, rg, eg, st0);
    let fin = apply_groups(cs, sup, gs, st0);
    let before = gs.take(k);
    let after = gs.skip(k + 1);
    let mid = resolve_group(cs, sup, gs[k], apply_groups(cs, sup, before, st0));
    assert(gs =~= before.push(gs[k]) + after);
    lemma_apply_concat(cs, sup, before.push(gs[k]), after, st0);
    assert(before.push(gs[k]).drop_last() =~= before);
    assert(apply_groups(cs, sup, before.push(gs[k]), st0) == mid);
    assert forall|j: int| 0 <= j < after.len() implies !(#[trigger] after[j]).contains(x) by {
        assert(after[j] == gs[k + 1 + j]);
    }
    assert forall|j: int| 0 <= j < after.len() implies !(#[trigger] after[j]).contains(y) by {
        assert(after[j] == gs[k + 1 + j]);
    }
    lemma_apply_untouched(cs, sup, after, mid, x);
    lemma_apply_untouched(cs, sup, after, mid, y);
    let suppressed = fin.0;
    let ambiguous = fin.1.difference(fin.0);
    lemma_rows_in(c, suppressed.union(ambiguous).complement());
    let g = gs[k];
    if exists|w: RowId| #[trigger] group_winner(cs, sup, g, w) {
        let w = choose|w: RowId| #[trigger] group_winner(cs, sup, g, w);
        if x != w {
            assert(mid.0.contains(x));
        } else {
            assert(mid.0.contains(y));
        }
    } else {
        assert(mid.0.contains(x) || mid.1.contains(x));
    }
}

} // verus!
