use vstd::prelude::*;

use crate::ids::RowId;
use crate::relation::SemanticEdge;

verus! {

/// Row identifiers strictly increase along `s`.
pub open spec fn ids_sorted(s: Seq<RowId>) -> bool {
    forall|a: int, b: int| 0 <= a < b < s.len() ==> s[a].0 < s[b].0
}

/// Strict order of edges: by first row, then by second row.
pub open spec fn edge_lt(x: SemanticEdge, y: SemanticEdge) -> bool {
    x.first.0 < y.first.0 || (x.first.0 == y.first.0 && x.second.0 < y.second.0)
}

/// Edges strictly increase along `s`.
pub open spec fn edges_sorted(s: Seq<SemanticEdge>) -> bool {
    forall|a: int, b: int| 0 <= a < b < s.len() ==> edge_lt(s[a], s[b])
}

pub fn contains_row_id(v: &[RowId], x: RowId) -> (r: bool)
    ensures
        r == v@.contains(x),
{
    let mut i: usize = 0;
    while i < v.len()
        invariant
            i <= v@.len(),
            forall|k: int| 0 <= k < i ==> v@[k] != x,
        decreases v@.len() - i,
    {
        if v[i].0 == x.0 {
            assert(v@[i as int] == x);
            return true;
        }
        i = i + 1;
    }
    false
}

/// The position of `x` in `v`, if it is there.
pub fn position_of_row_id(v: &[RowId], x: RowId) -> (r: Option<usize>)
    ensures
        match r {
            Some(i) => i < v@.len() && v@[i as int] == x,
            None => !v@.contains(x),
        },
{
    let mut i: usize = 0;
    while i < v.len()
        invariant
            i <= v@.len(),
            forall|k: int| 0 <= k < i ==> v@[k] != x,
        decreases v@.len() - i,
    {
        if v[i].0 == x.0 {
            assert(v@[i as int] == x);
            return Some(i);
        }
        i = i + 1;
    }
    None
}

/// Adds `x` to a sorted sequence of identifiers; tells whether it was new.
pub fn insert_row_id(v: &mut Vec<RowId>, x: RowId) -> (r: bool)
    requires
        ids_sorted(old(v)@),
    ensures
        ids_sorted(final(v)@),
        final(v)@.to_set() == old(v)@.to_set().insert(x),
        r == !old(v)@.contains(x),
        !r ==> final(v)@ == old(v)@,
{
    let n = v.len();
    let mut i: usize = 0;
    while i < n && v[i].0 < x.0
        invariant
            n == v@.len(),
            i <= n,
            forall|k: int| 0 <= k < i ==> v@[k].0 < x.0,
        decreases n - i,
    {
        i = i + 1;
    }
    if i < n && v[i].0 == x.0 {
        assert(v@[i as int] == x);
        return false;
    }
    let ghost old_v = v@;
    proof {
        assert forall|k: int| 0 <= k < old_v.len() implies old_v[k] != x by {
            if k >= i {
                if k > i {
                    assert(old_v[i as int].0 < old_v[k].0);
                }
            }
        }
    }
    v.insert(i, x);
    proof {
        assert forall|a: int, b: int| 0 <= a < b < v@.len() implies v@[a].0 < v@[b].0 by {
            if b < i {
            } else if b == i {
            } else if a < i {
                if b - 1 > i {
                    assert(old_v[i as int].0 < old_v[b - 1].0);
                }
            } else if a == i {
                if b - 1 > i {
                    assert(old_v[i as int].0 < old_v[b - 1].0);
                }
            } else {
                assert(old_v[a - 1].0 < old_v[b - 1].0);
            }
        }
        assert(v@.to_set() =~= old_v.to_set().insert(x)) by {
            assert forall|y: RowId| v@.to_set().contains(y) <==> old_v.to_set().insert(x).contains(y) by {
                if v@.contains(y) {
                    let k = choose|k: int| 0 <= k < v@.len() && v@[k] == y;
                    if k < i {
                        assert(old_v[k] == y);
                    } else if k > i {
                        assert(old_v[k - 1] == y);
                    }
                }
                if old_v.contains(y) {
                    let k = choose|k: int| 0 <= k < old_v.len() && old_v[k] == y;
                    if k < i {
                        assert(v@[k] == y);
                    } else {
                        assert(v@[k + 1] == y);
                    }
                }
                if y == x {
                    assert(v@[i as int] == x);
                }
            }
        }
    }
    true
}

/// Removes `x` from a sorted sequence of identifiers; tells whether it was
/// there.
pub fn remove_row_id(v: &mut Vec<RowId>, x: RowId) -> (r: bool)
    requires
        ids_sorted(old(v)@),
    ensures
        ids_sorted(final(v)@),
        final(v)@.to_set() == old(v)@.to_set().remove(x),
        r == old(v)@.contains(x),
        !r ==> final(v)@ == old(v)@,
{
    let n = v.len();
    let mut i: usize = 0;
    while i < n && v[i].0 != x.0
        invariant
            n == v@.len(),
            i <= n,
            forall|k: int| 0 <= k < i ==> v@[k] != x,
        decreases n - i,
    {
        i = i + 1;
    }
    if i == n {
        assert(v@.to_set().remove(x) =~= v@.to_set());
        return false;
    }
    let ghost old_v = v@;
    assert(old_v[i as int] == x);
    v.remove(i);
    proof {
        assert forall|a: int, b: int| 0 <= a < b < v@.len() implies v@[a].0 < v@[b].0 by {
            if b < i {
            } else if a < i {
                assert(old_v[a].0 < old_v[b + 1].0);
            } else {
                assert(old_v[a + 1].0 < old_v[b + 1].0);
            }
        }
        assert(v@.to_set() =~= old_v.to_set().remove(x)) by {
            assert forall|y: RowId| v@.to_set().contains(y) <==> old_v.to_set().remove(x).contains(y) by {
                if v@.contains(y) {
                    let k = choose|k: int| 0 <= k < v@.len() && v@[k] == y;
                    if k < i {
                        assert(old_v[k] == y);
                        assert(old_v[k].0 < old_v[i as int].0);
                    } else {
                        assert(old_v[k + 1] == y);
                        assert(old_v[i as int].0 < old_v[k + 1].0);
                    }
                }
                if old_v.contains(y) && y != x {
                    let k = choose|k: int| 0 <= k < old_v.len() && old_v[k] == y;
                    if k < i {
                        assert(v@[k] == y);
                    } else {
                        assert(v@[k - 1] == y);
                    }
                }
            }
        }
    }
    true
}

pub fn contains_edge(v: &[SemanticEdge], e: SemanticEdge) -> (r: bool)
    ensures
        r == v@.contains(e),
{
    let mut i: usize = 0;
    while i < v.len()
        invariant
            i <= v@.len(),
            forall|k: int| 0 <= k < i ==> v@[k] != e,
        decreases v@.len() - i,
    {
        if v[i].first.0 == e.first.0 && v[i].second.0 == e.second.0 {
            assert(v@[i as int] == e);
            return true;
        }
        i = i + 1;
    }
    false
}

/// Adds `e` to a sorted sequence of edges; tells whether it was new.
pub fn insert_edge(v: &mut Vec<SemanticEdge>, e: SemanticEdge) -> (r: bool)
    requires
        edges_sorted(old(v)@),
    ensures
        edges_sorted(final(v)@),
        final(v)@.to_set() == old(v)@.to_set().insert(e),
        r == !old(v)@.contains(e),
        !r ==> final(v)@ == old(v)@,
{
    let n = v.len();
    let mut i: usize = 0;
    while i < n && (v[i].first.0 < e.first.0 || (v[i].first.0 == e.first.0 && v[i].second.0
        < e.second.0))
        invariant
            n == v@.len(),
            i <= n,
            forall|k: int| 0 <= k < i ==> edge_lt(v@[k], e),
        decreases n - i,
    {
        i = i + 1;
    }
    if i < n && v[i].first.0 == e.first.0 && v[i].second.0 == e.second.0 {
        assert(v@[i as int] == e);
        return false;
    }
    let ghost old_v = v@;
    proof {
        assert forall|k: int| 0 <= k < old_v.len() implies old_v[k] != e by {
            if k > i {
                assert(edge_lt(old_v[i as int], old_v[k]));
            }
        }
    }
    v.insert(i, e);
    proof {
        assert forall|a: int, b: int| 0 <= a < b < v@.len() implies edge_lt(v@[a], v@[b]) by {
            if b < i {
            } else if b == i {
            } else if a < i {
                if b - 1 > i {
                    assert(edge_lt(old_v[i as int], old_v[b - 1]));
                }
            } else if a == i {
                if b - 1 > i {
                    assert(edge_lt(old_v[i as int], old_v[b - 1]));
                }
            } else {
                assert(edge_lt(old_v[a - 1], old_v[b - 1]));
            }
        }
        assert(v@.to_set() =~= old_v.to_set().insert(e)) by {
            assert forall|y: SemanticEdge| v@.to_set().contains(y) <==> old_v.to_set().insert(e).contains(y) by {
                if v@.contains(y) {
                    let k = choose|k: int| 0 <= k < v@.len() && v@[k] == y;
                    if k < i {
                        assert(old_v[k] == y);
                    } else if k > i {
                        assert(old_v[k - 1] == y);
                    }
                }
                if old_v.contains(y) {
                    let k = choose|k: int| 0 <= k < old_v.len() && old_v[k] == y;
                    if k < i {
                        assert(v@[k] == y);
                    } else {
                        assert(v@[k + 1] == y);
                    }
                }
                if y == e {
                    assert(v@[i as int] == e);
                }
            }
        }
    }
    true
}

} // verus!
