use vstd::prelude::*;
use vstd::string::*;

use crate::error::SemanticJudgeError;
use crate::row::{cell, Row};
use crate::schema::TableSchema;
use crate::semantic::SemanticRelation;
use crate::text::{lemma_text_lt_trichotomy, text_le, text_less_eq};
use crate::value::value_text;

verus! {

/// One scope column of a row and its displayed value.
#[derive(Debug, Clone, PartialEq, Eq)]
pub struct SemanticFieldValue {
    pub column: String,
    pub value: String,
}

impl SemanticFieldValue {
    pub fn column(&self) -> (r: &str)
        ensures
            r@ == self.column@,
    {
        self.column.as_str()
    }

    pub fn value(&self) -> (r: &str)
        ensures
            r@ == self.value@,
    {
        self.value.as_str()
    }
}

/// `column=value`.
pub open spec fn field_text(f: SemanticFieldValue) -> Seq<char> {
    f.column@ + "="@ + f.value@
}

/// The field texts joined by line breaks.
pub open spec fn canonical(fields: Seq<SemanticFieldValue>) -> Seq<char>
    decreases fields.len(),
{
    if fields.len() == 0 {
        Seq::empty()
    } else if fields.len() == 1 {
        field_text(fields[0])
    } else {
        canonical(fields.drop_last()) + "\n"@ + field_text(fields.last())
    }
}

/// `fields` holds, in scope order, each scope column with the displayed value
/// that the row has in it.
pub open spec fn is_subject_of(
    scope: Seq<String>,
    schema: TableSchema,
    values: Seq<crate::value::Value>,
    fields: Seq<SemanticFieldValue>,
) -> bool {
    &&& fields.len() == scope.len()
    &&& forall|j: int|
        0 <= j < scope.len() ==> {
            &&& (#[trigger] fields[j]).column@ == scope[j]@
            &&& cell(schema.columns@, values, scope[j]@) matches Some(v) && fields[j].value@
                == value_text(v)
        }
}

/// In a well-formed schema with a semantic scope, a row that has a value
/// for every column has a value for every scope column.
pub proof fn lemma_table_row_has_subject(schema: TableSchema, values: Seq<crate::value::Value>)
    requires
        schema.wf(),
        schema.semantic_scope is Some,
        values.len() == schema.columns@.len(),
    ensures
        forall|j: int|
            0 <= j < schema.semantic_scope->0.columns@.len() ==> cell(
                schema.columns@,
                values,
                #[trigger] schema.semantic_scope->0.columns@[j]@,
            ) is Some,
{
    let sc = schema.semantic_scope->0;
    assert forall|j: int| 0 <= j < sc.columns@.len() implies cell(schema.columns@, values, #[trigger] sc.columns@[j]@) is Some by {
        assert(crate::schema::names_semantic_column(schema.columns@, sc.columns@[j]@));
        let w = choose|w: int|
            0 <= w < schema.columns@.len() && #[trigger] schema.columns@[w].name@ == sc.columns@[j]@
                && schema.columns@[w].role == crate::schema::ColumnRole::Semantic;
        assert(crate::schema::names_column(schema.columns@, sc.columns@[j]@));
    }
}

/// Field lists that agree, field by field, on column and value have the
/// same canonical text.
proof fn lemma_canonical_same(f1: Seq<SemanticFieldValue>, f2: Seq<SemanticFieldValue>)
    requires
        f1.len() == f2.len(),
        forall|j: int|
            0 <= j < f1.len() ==> (#[trigger] f1[j]).column@ == f2[j].column@ && f1[j].value@ == f2[j].value@,
    ensures
        canonical(f1) == canonical(f2),
    decreases f1.len(),
{
    if f1.len() > 1 {
        assert forall|j: int| 0 <= j < f1.len() - 1 implies (#[trigger] f1.drop_last()[j]).column@
            == f2.drop_last()[j].column@ && f1.drop_last()[j].value@ == f2.drop_last()[j].value@ by {
            assert(f1.drop_last()[j] == f1[j]);
            assert(f2.drop_last()[j] == f2[j]);
        }
        lemma_canonical_same(f1.drop_last(), f2.drop_last());
        assert(f1.last() == f1[f1.len() - 1]);
        assert(f2.last() == f2[f2.len() - 1]);
    } else if f1.len() == 1 {
        assert(f1[0].column@ == f2[0].column@);
    }
}

/// Two subjects of the same values have the same canonical text.
pub proof fn lemma_subject_canonical(
    scope: Seq<String>,
    schema: TableSchema,
    values: Seq<crate::value::Value>,
    f1: Seq<SemanticFieldValue>,
    f2: Seq<SemanticFieldValue>,
)
    requires
        is_subject_of(scope, schema, values, f1),
        is_subject_of(scope, schema, values, f2),
    ensures
        canonical(f1) == canonical(f2),
{
    assert forall|j: int| 0 <= j < f1.len() implies (#[trigger] f1[j]).column@ == f2[j].column@
        && f1[j].value@ == f2[j].value@ by {
        assert(f2[j].column@ == scope[j]@);
    }
    lemma_canonical_same(f1, f2);
}

/// The values of the semantic scope columns of a row: what semantic judgment
/// compares.
#[derive(Debug, Clone, PartialEq, Eq)]
pub struct SemanticSubject {
    pub fields: Vec<SemanticFieldValue>,
}

impl SemanticSubject {
    pub fn from_row(schema: &TableSchema, row: &Row) -> (r: Result<Self, SemanticJudgeError>)
        requires
            schema.wf(),
        ensures
            match r {
                Ok(s) => schema.semantic_scope matches Some(sc) && is_subject_of(
                    sc.columns@,
                    *schema,
                    row.values@,
                    s.fields@,
                ),
                Err(SemanticJudgeError::NoSemanticScopeDefined) => schema.semantic_scope is None,
                Err(SemanticJudgeError::MissingScopeValue(c)) => schema.semantic_scope matches Some(
                    sc,
                ) && exists|j: int|
                    0 <= j < sc.columns@.len() && (forall|k: int|
                        0 <= k < j ==> cell(schema.columns@, row.values@, #[trigger] sc.columns@[k]@)
                            is Some) && cell(schema.columns@, row.values@, sc.columns@[j]@) is None
                        && #[trigger] sc.columns@[j]@ == c@,
            },
    {
        let scope = match &schema.semantic_scope {
            Some(s) => s,
            None => {
                return Err(SemanticJudgeError::NoSemanticScopeDefined);
            },
        };
        let mut fields: Vec<SemanticFieldValue> = Vec::new();
        let mut j: usize = 0;
        while j < scope.columns.len()
            invariant
                schema.wf(),
                schema.semantic_scope == Some(*scope),
                j <= scope.columns@.len(),
                fields@.len() == j,
                forall|k: int|
                    0 <= k < j ==> {
                        &&& (#[trigger] fields@[k]).column@ == scope.columns@[k]@
                        &&& cell(schema.columns@, row.values@, scope.columns@[k]@) matches Some(v)
                            && fields@[k].value@ == value_text(v)
                    },
            decreases scope.columns@.len() - j,
        {
            match row.get(schema, scope.columns[j].as_str()) {
                Some(v) => {
                    let text = v.to_text();
                    fields.push(SemanticFieldValue { column: scope.columns[j].clone(), value: text });
                },
                None => {
                    let missing = scope.columns[j].clone();
                    assert forall|k: int| 0 <= k < j implies cell(
                        schema.columns@,
                        row.values@,
                        #[trigger] scope.columns@[k]@,
                    ) is Some by {
                        assert(fields@[k].column@ == scope.columns@[k]@);
                    }
                    return Err(SemanticJudgeError::MissingScopeValue(missing));
                },
            }
            j = j + 1;
        }
        Ok(SemanticSubject { fields })
    }

    pub fn fields(&self) -> (r: &[SemanticFieldValue])
        ensures
            r@ == self.fields@,
    {
        self.fields.as_slice()
    }

    /// `column=value` for each field, one per line, in scope order.
    pub fn canonical_text(&self) -> (r: String)
        ensures
            r@ == canonical(self.fields@),
    {
        let mut rendered = String::new();
        let mut i: usize = 0;
        while i < self.fields.len()
            invariant
                i <= self.fields@.len(),
                rendered@ == canonical(self.fields@.take(i as int)),
            decreases self.fields@.len() - i,
        {
            let ghost before = rendered@;
            if i > 0 {
                rendered.append("\n");
            }
            rendered.append(self.fields[i].column.as_str());
            rendered.append("=");
            rendered.append(self.fields[i].value.as_str());
            proof {
                let t = self.fields@.take(i + 1);
                assert(t.drop_last() =~= self.fields@.take(i as int));
                assert(t.last() == self.fields@[i as int]);
                if i == 0 {
                    assert(before =~= Seq::<char>::empty());
                    assert(rendered@ =~= field_text(t[0]));
                } else {
                    assert(rendered@ =~= before + "\n"@ + field_text(t.last()));
                }
            }
            i = i + 1;
        }
        assert(self.fields@.take(self.fields@.len() as int) =~= self.fields@);
        rendered
    }
}

/// Finds the relation between two semantic subjects.  The library offers
/// `FixedSemanticJudge`; users supply their own judges.
pub trait SemanticJudge {
    /// Whether `r` is an answer that the judge gives when asked for the
    /// relation of `left` to `right`.
    spec fn judged(
        &self,
        left: SemanticSubject,
        right: SemanticSubject,
        r: Result<SemanticRelation, SemanticJudgeError>,
    ) -> bool;

    fn judge(&self, left: &SemanticSubject, right: &SemanticSubject) -> (r: Result<
        SemanticRelation,
        SemanticJudgeError,
    >)
        ensures
            self.judged(*left, *right, r),
    ;
}

/// The key of an unordered pair of texts: the smaller text first.
pub open spec fn pair_key(a: Seq<char>, b: Seq<char>) -> (Seq<char>, Seq<char>) {
    if text_le(a, b) {
        (a, b)
    } else {
        (b, a)
    }
}

/// The key of an unordered pair does not depend on the order of the texts.
pub proof fn lemma_pair_key_symmetric(a: Seq<char>, b: Seq<char>)
    ensures
        pair_key(a, b) == pair_key(b, a),
{
    lemma_text_lt_trichotomy(a, b);
}

pub open spec fn entry_key(e: (String, String, SemanticRelation)) -> (Seq<char>, Seq<char>) {
    (e.0@, e.1@)
}

/// A judge that answers from a fixed table of text pairs, and with a default
/// relation for every other pair.
#[derive(Debug, Clone)]
pub struct FixedSemanticJudge {
    pub default_relation: SemanticRelation,
    pub pairs: Vec<(String, String, SemanticRelation)>,
}

/// The relation of the first entry of `pairs` whose key is `k`.
pub open spec fn lookup(pairs: Seq<(String, String, SemanticRelation)>, k: (Seq<char>, Seq<char>)) -> Option<
    SemanticRelation,
>
    decreases pairs.len(),
{
    if pairs.len() == 0 {
        None
    } else if entry_key(pairs[0]) == k {
        Some(pairs[0].2)
    } else {
        lookup(pairs.drop_first(), k)
    }
}

proof fn lemma_lookup_skip(pairs: Seq<(String, String, SemanticRelation)>, k: (Seq<char>, Seq<char>), i: int)
    requires
        0 <= i <= pairs.len(),
        forall|j: int| 0 <= j < i ==> entry_key(#[trigger] pairs[j]) != k,
    ensures
        lookup(pairs, k) == lookup(pairs.skip(i), k),
    decreases i,
{
    if i > 0 {
        assert(entry_key(pairs[0]) != k);
        assert forall|j: int| 0 <= j < i - 1 implies entry_key(#[trigger] pairs.drop_first()[j]) != k by {
            assert(pairs.drop_first()[j] == pairs[j + 1]);
        }
        lemma_lookup_skip(pairs.drop_first(), k, i - 1);
        assert(pairs.drop_first().skip(i - 1) =~= pairs.skip(i));
    } else {
        assert(pairs.skip(0) =~= pairs);
    }
}

/// The entry at `i` is the first with key `k`.
proof fn lemma_lookup_at(pairs: Seq<(String, String, SemanticRelation)>, k: (Seq<char>, Seq<char>), i: int)
    requires
        0 <= i < pairs.len(),
        entry_key(pairs[i]) == k,
        forall|j: int| 0 <= j < i ==> entry_key(#[trigger] pairs[j]) != k,
    ensures
        lookup(pairs, k) == Some(pairs[i].2),
{
    lemma_lookup_skip(pairs, k, i);
    assert(pairs.skip(i)[0] == pairs[i]);
}

/// No entry has key `k`.
proof fn lemma_lookup_none(pairs: Seq<(String, String, SemanticRelation)>, k: (Seq<char>, Seq<char>))
    requires
        forall|j: int| 0 <= j < pairs.len() ==> entry_key(#[trigger] pairs[j]) != k,
    ensures
        lookup(pairs, k) is None,
{
    lemma_lookup_skip(pairs, k, pairs.len() as int);
    assert(pairs.skip(pairs.len() as int).len() == 0);
}

impl FixedSemanticJudge {
    pub open spec fn wf(&self) -> bool {
        forall|a: int, b: int|
            0 <= a < b < self.pairs@.len() ==> entry_key(self.pairs@[a]) != entry_key(
                self.pairs@[b],
            )
    }

    /// The relation that the judge gives for the pair of texts `a` and `b`.
    pub open spec fn relation_between(&self, a: Seq<char>, b: Seq<char>) -> SemanticRelation {
        match lookup(self.pairs@, pair_key(a, b)) {
            Some(r) => r,
            None => self.default_relation,
        }
    }

    pub fn new(default_relation: SemanticRelation) -> (r: Self)
        ensures
            r.wf(),
            r.default_relation == default_relation,
            r.pairs@.len() == 0,
    {
        FixedSemanticJudge { default_relation, pairs: Vec::new() }
    }

    /// Fixes the relation of the pair of texts `left` and `right`, in either
    /// order.
    pub fn with_pair_text(self, left: &str, right: &str, relation: SemanticRelation) -> (r: Self)
        requires
            self.wf(),
        ensures
            r.wf(),
            r.default_relation == self.default_relation,
            forall|a: Seq<char>, b: Seq<char>|
                #[trigger] r.relation_between(a, b) == if pair_key(a, b) == pair_key(left@, right@) {
                    relation
                } else {
                    self.relation_between(a, b)
                },
    {
        let (first, second) = if text_less_eq(left, right) {
            (String::from_str(left), String::from_str(right))
        } else {
            (String::from_str(right), String::from_str(left))
        };
        let ghost k = pair_key(left@, right@);
        assert((first@, second@) == k);
        let mut pairs = self.pairs;
        let ghost old_pairs = pairs@;
        let mut i: usize = 0;
        while i < pairs.len() && !(pairs[i].0 == first && pairs[i].1 == second)
            invariant
                pairs@ == old_pairs,
                i <= pairs@.len(),
                first@ == k.0,
                second@ == k.1,
                forall|j: int| 0 <= j < i ==> entry_key(#[trigger] pairs@[j]) != k,
            decreases pairs@.len() - i,
        {
            i = i + 1;
        }
        let default_relation = self.default_relation;
        if i < pairs.len() {
            assert(entry_key(pairs@[i as int]) == k);
            pairs.set(i, (first, second, relation));
            let r = FixedSemanticJudge { default_relation, pairs };
            proof {
                assert(r.wf()) by {
                    assert forall|a: int, b: int|
                        0 <= a < b < r.pairs@.len() implies entry_key(r.pairs@[a]) != entry_key(
                            r.pairs@[b],
                        ) by {
                        assert(entry_key(old_pairs[a]) != entry_key(old_pairs[b]));
                    }
                }
                assert forall|a: Seq<char>, b: Seq<char>|
                    #[trigger] r.relation_between(a, b) == if pair_key(a, b) == k {
                        relation
                    } else {
                        self.relation_between(a, b)
                    } by {
                    let q = pair_key(a, b);
                    if q == k {
                        lemma_lookup_at(r.pairs@, q, i as int);
                    } else {
                        lemma_same_lookup(old_pairs, r.pairs@, q);
                    }
                }
            }
            r
        } else {
            pairs.push((first, second, relation));
            let r = FixedSemanticJudge { default_relation, pairs };
            proof {
                let n = old_pairs.len() as int;
                assert(r.wf()) by {
                    assert forall|a: int, b: int|
                        0 <= a < b < r.pairs@.len() implies entry_key(r.pairs@[a]) != entry_key(
                            r.pairs@[b],
                        ) by {
                        if b < n {
                            assert(entry_key(old_pairs[a]) != entry_key(old_pairs[b]));
                        } else {
                            assert(entry_key(old_pairs[a]) != k);
                        }
                    }
                }
                assert forall|a: Seq<char>, b: Seq<char>|
                    #[trigger] r.relation_between(a, b) == if pair_key(a, b) == k {
                        relation
                    } else {
                        self.relation_between(a, b)
                    } by {
                    let q = pair_key(a, b);
                    if q == k {
                        assert forall|j: int| 0 <= j < n implies entry_key(#[trigger] r.pairs@[j]) != q by {
                            assert(r.pairs@[j] == old_pairs[j]);
                        }
                        lemma_lookup_at(r.pairs@, q, n);
                    } else {
                        lemma_same_lookup(old_pairs, r.pairs@, q);
                    }
                }
            }
            r
        }
    }

    /// Fixes the relation between the canonical texts of two subjects.
    pub fn with_pair(self, left: &SemanticSubject, right: &SemanticSubject, relation: SemanticRelation) -> (r: Self)
        requires
            self.wf(),
        ensures
            r.wf(),
            r.default_relation == self.default_relation,
            forall|a: Seq<char>, b: Seq<char>|
                #[trigger] r.relation_between(a, b) == if pair_key(a, b) == pair_key(
                    canonical(left.fields@),
                    canonical(right.fields@),
                ) {
                    relation
                } else {
                    self.relation_between(a, b)
                },
    {
        let l = left.canonical_text();
        let rt = right.canonical_text();
        self.with_pair_text(l.as_str(), rt.as_str(), relation)
    }
}

/// Two tables of pairs that agree on every entry with key other than... the
/// first entry with key `q` holds the same relation in both when the entries
/// with key `q` are the same.
proof fn lemma_same_lookup(
    p: Seq<(String, String, SemanticRelation)>,
    r: Seq<(String, String, SemanticRelation)>,
    q: (Seq<char>, Seq<char>),
)
    requires
        p.len() <= r.len(),
        forall|j: int| 0 <= j < p.len() && entry_key(#[trigger] p[j]) == q ==> r[j] == p[j],
        forall|j: int| 0 <= j < p.len() && entry_key(#[trigger] p[j]) != q ==> entry_key(r[j]) != q,
        forall|j: int| p.len() <= j < r.len() ==> entry_key(#[trigger] r[j]) != q,
    ensures
        lookup(r, q) == lookup(p, q),
    decreases p.len(),
{
    if p.len() == 0 {
        lemma_lookup_none(r, q);
    } else if entry_key(p[0]) == q {
        assert(r[0] == p[0]);
    } else {
        assert(entry_key(r[0]) != q);
        assert forall|j: int| 0 <= j < p.len() - 1 && entry_key(#[trigger] p.drop_first()[j]) == q implies r.drop_first()[j] == p.drop_first()[j] by {
            assert(p.drop_first()[j] == p[j + 1]);
        }
        assert forall|j: int| 0 <= j < p.len() - 1 && entry_key(#[trigger] p.drop_first()[j]) != q implies entry_key(r.drop_first()[j]) != q by {
            assert(p.drop_first()[j] == p[j + 1]);
        }
        assert forall|j: int| p.len() - 1 <= j < r.len() - 1 implies entry_key(#[trigger] r.drop_first()[j]) != q by {
            assert(r.drop_first()[j] == r[j + 1]);
        }
        lemma_same_lookup(p.drop_first(), r.drop_first(), q);
    }
}

/// A pair fixed in a judge is answered with the relation fixed for it, in
/// either order.
pub proof fn lemma_fixed_pair_reads_back(
    before: FixedSemanticJudge,
    after: FixedSemanticJudge,
    left: Seq<char>,
    right: Seq<char>,
    relation: SemanticRelation,
)
    requires
        forall|a: Seq<char>, b: Seq<char>|
            #[trigger] after.relation_between(a, b) == if pair_key(a, b) == pair_key(left, right) {
                relation
            } else {
                before.relation_between(a, b)
            },
    ensures
        after.relation_between(left, right) == relation,
        after.relation_between(right, left) == relation,
{
    lemma_pair_key_symmetric(left, right);
    assert(after.relation_between(left, right) == relation);
    assert(after.relation_between(right, left) == relation);
}

/// The fixed judge gives a pair of texts the same relation in either order.
pub proof fn lemma_fixed_judge_symmetric(judge: FixedSemanticJudge, a: Seq<char>, b: Seq<char>)
    ensures
        judge.relation_between(a, b) == judge.relation_between(b, a),
{
    lemma_pair_key_symmetric(a, b);
}

impl Default for FixedSemanticJudge {
    fn default() -> (r: Self)
        ensures
            r.wf(),
            r.default_relation == SemanticRelation::NoRelation,
            r.pairs@.len() == 0,
    {
        FixedSemanticJudge::new(SemanticRelation::NoRelation)
    }
}

impl SemanticJudge for FixedSemanticJudge {
    /// The fixed judge never fails: it answers the relation fixed for the
    /// canonical texts of the two subjects, or its default relation.
    open spec fn judged(
        &self,
        left: SemanticSubject,
        right: SemanticSubject,
        r: Result<SemanticRelation, SemanticJudgeError>,
    ) -> bool {
        r == Ok::<SemanticRelation, SemanticJudgeError>(
            self.relation_between(canonical(left.fields@), canonical(right.fields@)),
        )
    }

    fn judge(&self, left: &SemanticSubject, right: &SemanticSubject) -> (r: Result<
        SemanticRelation,
        SemanticJudgeError,
    >)
        ensures
            r == Ok::<SemanticRelation, SemanticJudgeError>(
                self.relation_between(canonical(left.fields@), canonical(right.fields@)),
            ),
    {
        let l = left.canonical_text();
        let rt = right.canonical_text();
        let (first, second) = if text_less_eq(l.as_str(), rt.as_str()) {
            (l, rt)
        } else {
            (rt, l)
        };
        let ghost k = pair_key(canonical(left.fields@), canonical(right.fields@));
        assert((first@, second@) == k);
        let mut i: usize = 0;
        while i < self.pairs.len()
            invariant
                i <= self.pairs@.len(),
                k == pair_key(canonical(left.fields@), canonical(right.fields@)),
                first@ == k.0,
                second@ == k.1,
                forall|j: int| 0 <= j < i ==> entry_key(#[trigger] self.pairs@[j]) != k,
            decreases self.pairs@.len() - i,
        {
            if self.pairs[i].0 == first && self.pairs[i].1 == second {
                let rel = self.pairs[i].2;
                proof {
                    lemma_lookup_at(self.pairs@, k, i as int);
                    assert(rel == self.relation_between(canonical(left.fields@), canonical(right.fields@)));
                }
                return Ok(rel);
            }
            i = i + 1;
        }
        proof {
            lemma_lookup_none(self.pairs@, k);
        }
        Ok(self.default_relation)
    }
}

} // verus!
