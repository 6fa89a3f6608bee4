use vstd::prelude::*;

use crate::db::Database;
use crate::error::{DbError, SemanticIndexError};
use crate::ids::RowId;
use crate::judge::{canonical, is_subject_of, SemanticFieldValue, SemanticSubject};
use crate::table::values_fit;

verus! {

/// Checks an embedding of `len` numbers against the dimension of the index
/// it joins, if the index has one: embeddings are non-empty and share one
/// dimension.
pub fn validate_embedding_dimension(expected: Option<usize>, len: usize) -> (r: Result<(), SemanticIndexError>)
    ensures
        len == 0 ==> r == Err::<(), SemanticIndexError>(SemanticIndexError::EmptyEmbedding),
        len > 0 && expected is Some && expected->0 != len ==> r == Err::<(), SemanticIndexError>(
            SemanticIndexError::InconsistentEmbeddingDimension { expected: expected->0, found: len },
        ),
        r is Ok <==> len > 0 && (expected is None || expected == Some(len)),
{
    if len == 0 {
        return Err(SemanticIndexError::EmptyEmbedding);
    }
    match expected {
        Some(d) => {
            if len != d {
                return Err(SemanticIndexError::InconsistentEmbeddingDimension { expected: d, found: len });
            }
        },
        None => {},
    }
    Ok(())
}

/// Checks a query of `len` numbers against the dimension of the index it
/// searches.
pub fn validate_query_dimension(expected: usize, len: usize) -> (r: Result<(), SemanticIndexError>)
    ensures
        len == 0 ==> r == Err::<(), SemanticIndexError>(SemanticIndexError::EmptyEmbedding),
        len > 0 && len != expected ==> r == Err::<(), SemanticIndexError>(
            SemanticIndexError::QueryDimensionMismatch { expected, found: len },
        ),
        r is Ok <==> len > 0 && len == expected,
{
    if len == 0 {
        return Err(SemanticIndexError::EmptyEmbedding);
    }
    if len != expected {
        return Err(SemanticIndexError::QueryDimensionMismatch { expected, found: len });
    }
    Ok(())
}

impl Database {
    /// The canonical semantic text of each row of a table, in row order:
    /// what an embedder is given to index the table.
    pub fn semantic_texts(&self, table_name: &str) -> (r: Result<Vec<(RowId, String)>, DbError>)
        requires
            self.wf(),
        ensures
            match r {
                Ok(texts) => {
                    let t = self.table_at(table_name@);
                    &&& self.has_table(table_name@)
                    &&& texts@.len() == t.rows@.len()
                    &&& t.rows@.len() > 0 ==> t.schema.semantic_scope is Some
                    &&& forall|i: int|
                        0 <= i < texts@.len() ==> (#[trigger] texts@[i]).0 == t.rows@[i].id && exists|
                            fields: Seq<SemanticFieldValue>,
                        |
                            is_subject_of(t.schema.semantic_scope->0.columns@, t.schema, t.rows@[i].values@, fields)
                                && #[trigger] canonical(fields) == texts@[i].1@
                },
                Err(DbError::TableNotFound(name)) => name@ == table_name@ && !self.has_table(table_name@),
                Err(DbError::SemanticJudge(e)) => {
                    &&& self.has_table(table_name@)
                    &&& self.table_at(table_name@).schema.semantic_scope is None
                    &&& self.table_at(table_name@).rows@.len() > 0
                    &&& e == crate::error::SemanticJudgeError::NoSemanticScopeDefined
                },
                Err(_) => false,
            },
    {
        let table = self.table(table_name)?;
        proof {
            assert(self.tables@[self.table_pos(table_name@)].wf());
        }
        let mut out: Vec<(RowId, String)> = Vec::new();
        let mut i: usize = 0;
        while i < table.rows.len()
            invariant
                table.wf(),
                self.has_table(table_name@),
                *table == self.table_at(table_name@),
                i <= table.rows@.len(),
                i > 0 ==> table.schema.semantic_scope is Some,
                out@.len() == i,
                forall|k: int|
                    0 <= k < i ==> (#[trigger] out@[k]).0 == table.rows@[k].id && exists|fields: Seq<SemanticFieldValue>|
                        is_subject_of(table.schema.semantic_scope->0.columns@, table.schema, table.rows@[k].values@, fields)
                            && #[trigger] canonical(fields) == out@[k].1@,
            decreases table.rows@.len() - i,
        {
            let row = &table.rows[i];
            proof {
                assert(values_fit(table.schema, table.rows@[i as int].values@));
                if table.schema.semantic_scope is Some {
                    crate::judge::lemma_table_row_has_subject(table.schema, row.values@);
                }
            }
            let subject = match SemanticSubject::from_row(&table.schema, row) {
                Ok(s) => s,
                Err(e) => {
                    proof {
                        if table.schema.semantic_scope is Some {
                            let sc = table.schema.semantic_scope->0;
                            if e is MissingScopeValue {
                                let j = choose|j: int|
                                    0 <= j < sc.columns@.len() && (forall|k: int|
                                        0 <= k < j ==> crate::row::cell(
                                            table.schema.columns@,
                                            row.values@,
                                            #[trigger] sc.columns@[k]@,
                                        ) is Some) && crate::row::cell(table.schema.columns@, row.values@, sc.columns@[j]@)
                                        is None && #[trigger] sc.columns@[j]@ == e->MissingScopeValue_0@;
                                assert(crate::row::cell(table.schema.columns@, row.values@, sc.columns@[j]@) is Some);
                            }
                        }
                    }
                    return Err(DbError::SemanticJudge(e));
                },
            };
            let text = subject.canonical_text();
            let ghost old_out = out@;
            out.push((row.id, text));
            proof {
                assert(canonical(subject.fields@) == out@[i as int].1@);
                assert forall|k: int| 0 <= k < i + 1 implies (#[trigger] out@[k]).0 == table.rows@[k].id && exists|
                    fields: Seq<SemanticFieldValue>,
                |
                    is_subject_of(table.schema.semantic_scope->0.columns@, table.schema, table.rows@[k].values@, fields)
                        && #[trigger] canonical(fields) == out@[k].1@ by {
                    if k < i {
                        assert(out@[k] == old_out[k]);
                    } else {
                        assert(is_subject_of(
                            table.schema.semantic_scope->0.columns@,
                            table.schema,
                            table.rows@[k].values@,
                            subject.fields@,
                        ));
                    }
                }
            }
            i = i + 1;
        }
        Ok(out)
    }
}

} // verus!
