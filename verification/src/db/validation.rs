use vstd::prelude::*;
use vstd::string::*;

use crate::error::DbError;
use crate::row::{cell, ExactFilter, Row, RowInput};
use crate::schema::{
    column_index, column_pos, lemma_first_index_is_pos, names_column, ColumnRole, TableSchema,
};
use crate::table::values_fit;
use crate::value::Value;

verus! {

/// The input keys before position `i` each name a column.
pub open spec fn keys_known_upto(schema: TableSchema, input: RowInput, i: int) -> bool {
    forall|k: int| 0 <= k < i ==> names_column(schema.columns@, (#[trigger] input.entries@[k]).0@)
}

/// The columns before position `c` each have an input value of their type.
pub open spec fn columns_given_upto(schema: TableSchema, input: RowInput, c: int) -> bool {
    forall|k: int|
        0 <= k < c ==> (input.get_spec((#[trigger] schema.columns@[k]).name@) matches Some(v)
            && v.spec_data_type() == schema.columns@[k].data_type)
}

/// Why `input` does not make a row of `schema`, as the first failing check
/// finds it; or, on success, the row's values in column order.
pub open spec fn materialize_result(
    r: Result<Vec<Value>, DbError>,
    table_name: Seq<char>,
    schema: TableSchema,
    input: RowInput,
) -> bool {
    match r {
        Ok(values) => {
            &&& keys_known_upto(schema, input, input.entries@.len() as int)
            &&& columns_given_upto(schema, input, schema.columns@.len() as int)
            &&& values_fit(schema, values@)
            &&& forall|c: int|
                0 <= c < schema.columns@.len() ==> input.get_spec(
                    (#[trigger] schema.columns@[c]).name@,
                ) == Some(values@[c])
        },
        Err(DbError::UnknownColumn { table, column }) => {
            &&& table@ == table_name
            &&& exists|i: int|
                0 <= i < input.entries@.len() && keys_known_upto(schema, input, i) && !names_column(
                    schema.columns@,
                    (#[trigger] input.entries@[i]).0@,
                ) && column@ == input.entries@[i].0@
        },
        Err(DbError::MissingColumn { table, column }) => {
            &&& table@ == table_name
            &&& keys_known_upto(schema, input, input.entries@.len() as int)
            &&& exists|c: int|
                0 <= c < schema.columns@.len() && columns_given_upto(schema, input, c)
                    && input.get_spec((#[trigger] schema.columns@[c]).name@) is None && column@
                    == schema.columns@[c].name@
        },
        Err(DbError::TypeMismatch { table, column, expected, found }) => {
            &&& table@ == table_name
            &&& keys_known_upto(schema, input, input.entries@.len() as int)
            &&& exists|c: int|
                0 <= c < schema.columns@.len() && columns_given_upto(schema, input, c) && (
                input.get_spec((#[trigger] schema.columns@[c]).name@) matches Some(v)
                    && v.spec_data_type() != schema.columns@[c].data_type && expected
                    == schema.columns@[c].data_type && found == v.spec_data_type() && column@
                    == schema.columns@[c].name@)
        },
        Err(_) => false,
    }
}

/// The values of a new row, in column order: every input key must name a
/// column, every column must be given, with a value of its type.
pub fn materialize_row_values(table_name: &str, schema: &TableSchema, input: &RowInput) -> (r: Result<
    Vec<Value>,
    DbError,
>)
    requires
        schema.wf(),
        input.wf(),
    ensures
        materialize_result(r, table_name@, *schema, *input),
{
    let mut i: usize = 0;
    while i < input.entries.len()
        invariant
            schema.wf(),
            i <= input.entries@.len(),
            keys_known_upto(*schema, *input, i as int),
        decreases input.entries@.len() - i,
    {
        let idx = column_index(schema.columns.as_slice(), input.entries[i].0.as_str());
        proof {
            lemma_first_index_is_pos(schema.columns@, input.entries@[i as int].0@, idx);
        }
        if idx.is_none() {
            return Err(
                DbError::UnknownColumn {
                    table: String::from_str(table_name),
                    column: input.entries[i].0.clone(),
                },
            );
        }
        i = i + 1;
    }
    let mut values: Vec<Value> = Vec::new();
    let mut c: usize = 0;
    while c < schema.columns.len()
        invariant
            schema.wf(),
            input.wf(),
            keys_known_upto(*schema, *input, input.entries@.len() as int),
            c <= schema.columns@.len(),
            columns_given_upto(*schema, *input, c as int),
            values@.len() == c,
            forall|k: int|
                0 <= k < c ==> input.get_spec((#[trigger] schema.columns@[k]).name@) == Some(
                    values@[k],
                ),
        decreases schema.columns@.len() - c,
    {
        let column = &schema.columns[c];
        let value = match input.value_for(column.name.as_str()) {
            Some(v) => v,
            None => {
                return Err(
                    DbError::MissingColumn {
                        table: String::from_str(table_name),
                        column: column.name.clone(),
                    },
                );
            },
        };
        let found = value.data_type();
        if found != column.data_type {
            return Err(
                DbError::TypeMismatch {
                    table: String::from_str(table_name),
                    column: column.name.clone(),
                    expected: column.data_type,
                    found,
                },
            );
        }
        values.push(value.clone());
        c = c + 1;
    }
    proof {
        assert forall|k: int| 0 <= k < values@.len() implies (#[trigger] values@[k]).spec_data_type()
            == schema.columns@[k].data_type by {
            assert(input.get_spec(schema.columns@[k].name@) == Some(values@[k]));
        }
    }
    Ok(values)
}

/// `f` names a normal column of `schema` and holds a value of its type.
pub open spec fn filter_ok(schema: TableSchema, f: ExactFilter) -> bool {
    &&& names_column(schema.columns@, f.column@)
    &&& schema.columns@[column_pos(schema.columns@, f.column@)].role == ColumnRole::Normal
    &&& f.value.spec_data_type() == schema.columns@[column_pos(schema.columns@, f.column@)].data_type
}

/// The filters before position `k` are usable on `schema`.
pub open spec fn filters_ok_upto(schema: TableSchema, filters: Seq<ExactFilter>, k: int) -> bool {
    forall|j: int| 0 <= j < k ==> filter_ok(schema, #[trigger] filters[j])
}

/// Why a list of filters cannot scan `schema`, as the first failing check
/// finds it; or, on success, the column position of each filter.
pub open spec fn resolve_result(
    r: Result<Vec<usize>, DbError>,
    table_name: Seq<char>,
    schema: TableSchema,
    filters: Seq<ExactFilter>,
) -> bool {
    match r {
        Ok(idx) => {
            &&& filters_ok_upto(schema, filters, filters.len() as int)
            &&& idx@.len() == filters.len()
            &&& forall|k: int|
                0 <= k < filters.len() ==> #[trigger] idx@[k] == column_pos(
                    schema.columns@,
                    filters[k].column@,
                )
        },
        Err(DbError::UnknownColumn { table, column }) => {
            &&& table@ == table_name
            &&& exists|k: int|
                0 <= k < filters.len() && filters_ok_upto(schema, filters, k) && !names_column(
                    schema.columns@,
                    (#[trigger] filters[k]).column@,
                ) && column@ == filters[k].column@
        },
        Err(DbError::ExactFilterOnNonNormalColumn { table, column, role }) => {
            &&& table@ == table_name
            &&& exists|k: int|
                0 <= k < filters.len() && filters_ok_upto(schema, filters, k) && names_column(
                    schema.columns@,
                    (#[trigger] filters[k]).column@,
                ) && role == schema.columns@[column_pos(schema.columns@, filters[k].column@)].role
                    && role != ColumnRole::Normal && column@ == filters[k].column@
        },
        Err(DbError::TypeMismatch { table, column, expected, found }) => {
            &&& table@ == table_name
            &&& exists|k: int|
                0 <= k < filters.len() && filters_ok_upto(schema, filters, k) && names_column(
                    schema.columns@,
                    (#[trigger] filters[k]).column@,
                ) && schema.columns@[column_pos(schema.columns@, filters[k].column@)].role
                    == ColumnRole::Normal && expected == schema.columns@[column_pos(
                    schema.columns@,
                    filters[k].column@,
                )].data_type && found == filters[k].value.spec_data_type() && expected != found
                    && column@ == filters[k].column@
        },
        Err(_) => false,
    }
}

/// The column position of each filter: filters may only test normal columns,
/// with values of the column's type.
pub fn resolve_exact_filters(schema: &TableSchema, table_name: &str, filters: &[ExactFilter]) -> (r:
    Result<Vec<usize>, DbError>)
    requires
        schema.wf(),
    ensures
        resolve_result(r, table_name@, *schema, filters@),
{
    let mut resolved: Vec<usize> = Vec::new();
    let mut k: usize = 0;
    while k < filters.len()
        invariant
            schema.wf(),
            k <= filters@.len(),
            filters_ok_upto(*schema, filters@, k as int),
            resolved@.len() == k,
            forall|j: int|
                0 <= j < k ==> #[trigger] resolved@[j] == column_pos(schema.columns@, filters@[j].column@),
        decreases filters@.len() - k,
    {
        let filter = &filters[k];
        let idx = column_index(schema.columns.as_slice(), filter.column.as_str());
        proof {
            lemma_first_index_is_pos(schema.columns@, filter.column@, idx);
        }
        let index = match idx {
            Some(index) => index,
            None => {
                return Err(
                    DbError::UnknownColumn {
                        table: String::from_str(table_name),
                        column: filter.column.clone(),
                    },
                );
            },
        };
        let column = &schema.columns[index];
        match column.role {
            ColumnRole::Normal => {},
            ColumnRole::Semantic => {
                return Err(
                    DbError::ExactFilterOnNonNormalColumn {
                        table: String::from_str(table_name),
                        column: column.name.clone(),
                        role: column.role,
                    },
                );
            },
        }
        let found = filter.value.data_type();
        if found != column.data_type {
            return Err(
                DbError::TypeMismatch {
                    table: String::from_str(table_name),
                    column: column.name.clone(),
                    expected: column.data_type,
                    found,
                },
            );
        }
        resolved.push(index);
        k = k + 1;
    }
    Ok(resolved)
}

/// A row matches the filters when each filtered column holds the filter's
/// value.
pub open spec fn row_matches(schema: TableSchema, values: Seq<Value>, filters: Seq<ExactFilter>) -> bool {
    forall|k: int|
        0 <= k < filters.len() ==> (cell(schema.columns@, values, (#[trigger] filters[k]).column@) matches Some(
            v,
        ) && v@ == filters[k].value@)
}

/// Whether `row` holds each filter's value at the filter's column position.
pub fn row_matches_exact_filters(row: &Row, indices: &[usize], filters: &[ExactFilter]) -> (r: bool)
    requires
        indices@.len() == filters@.len(),
    ensures
        r == forall|k: int|
            0 <= k < filters@.len() ==> #[trigger] indices@[k] < row.values@.len() && row.values@[indices@[k] as int]@
                == filters@[k].value@,
{
    let mut k: usize = 0;
    while k < indices.len()
        invariant
            indices@.len() == filters@.len(),
            k <= indices@.len(),
            forall|j: int|
                0 <= j < k ==> #[trigger] indices@[j] < row.values@.len() && row.values@[indices@[j] as int]@
                    == filters@[j].value@,
        decreases indices@.len() - k,
    {
        match row.value_at(indices[k]) {
            Some(v) => {
                if !v.same_as(&filters[k].value) {
                    return false;
                }
            },
            None => {
                return false;
            },
        }
        k = k + 1;
    }
    true
}

} // verus!
