use vstd::prelude::*;
use vstd::string::*;

use crate::db::validation::{
    filters_ok_upto, resolve_exact_filters, resolve_result, row_matches, row_matches_exact_filters,
};
use crate::db::Database;
use crate::error::DbError;
use crate::row::{ExactFilter, NamedValues, Row};
use crate::schema::{column_pos, TableSchema};
use crate::table::{named_row_of, values_fit};

verus! {

/// The rows that match the filters, in order.
pub open spec fn matching(schema: TableSchema, rows: Seq<Row>, filters: Seq<ExactFilter>) -> Seq<Row>
    decreases rows.len(),
{
    if rows.len() == 0 {
        Seq::empty()
    } else {
        let m = matching(schema, rows.drop_last(), filters);
        if row_matches(schema, rows.last().values@, filters) {
            m.push(rows.last())
        } else {
            m
        }
    }
}

impl Database {
    /// Each row of the table as column names paired with values.
    pub fn named_rows(&self, table_name: &str) -> (r: Result<Vec<NamedValues>, DbError>)
        requires
            self.wf(),
        ensures
            match r {
                Ok(rows) => {
                    let t = self.table_at(table_name@);
                    &&& self.has_table(table_name@)
                    &&& rows@.len() == t.rows@.len()
                    &&& forall|i: int| 0 <= i < rows@.len() ==> named_row_of(#[trigger] rows@[i], t.schema, t.rows@[i])
                },
                Err(DbError::TableNotFound(name)) => name@ == table_name@ && !self.has_table(table_name@),
                Err(_) => false,
            },
    {
        let table = self.table(table_name)?;
        assert(self.tables@[self.table_pos(table_name@)].wf());
        Ok(table.named_rows())
    }

    /// The rows whose normal columns hold the filters' values, as column names
    /// paired with values.
    pub fn scan_exact(&self, table_name: &str, filters: &[ExactFilter]) -> (r: Result<Vec<NamedValues>, DbError>)
        requires
            self.wf(),
        ensures
            match r {
                Ok(rows) => {
                    let t = self.table_at(table_name@);
                    let m = matching(t.schema, t.rows@, filters@);
                    &&& self.has_table(table_name@)
                    &&& filters_ok_upto(t.schema, filters@, filters@.len() as int)
                    &&& rows@.len() == m.len()
                    &&& forall|i: int| 0 <= i < rows@.len() ==> named_row_of(#[trigger] rows@[i], t.schema, m[i])
                },
                Err(DbError::TableNotFound(name)) => name@ == table_name@ && !self.has_table(table_name@),
                Err(e) => self.has_table(table_name@) && resolve_result(
                    Err(e),
                    table_name@,
                    self.table_at(table_name@).schema,
                    filters@,
                ),
            },
    {
        let table = self.table(table_name)?;
        assert(table.wf());
        let indices = resolve_exact_filters(&table.schema, table_name, filters)?;
        let mut out: Vec<NamedValues> = Vec::new();
        let mut i: usize = 0;
        while i < table.rows.len()
            invariant
                table.wf(),
                filters_ok_upto(table.schema, filters@, filters@.len() as int),
                indices@.len() == filters@.len(),
                forall|k: int|
                    0 <= k < filters@.len() ==> #[trigger] indices@[k] == column_pos(
                        table.schema.columns@,
                        filters@[k].column@,
                    ),
                i <= table.rows@.len(),
                out@.len() == matching(table.schema, table.rows@.take(i as int), filters@).len(),
                forall|j: int|
                    0 <= j < out@.len() ==> named_row_of(
                        #[trigger] out@[j],
                        table.schema,
                        matching(table.schema, table.rows@.take(i as int), filters@)[j],
                    ),
            decreases table.rows@.len() - i,
        {
            let row = &table.rows[i];
            let ghost t = table.rows@.take(i + 1);
            let ghost m0 = matching(table.schema, table.rows@.take(i as int), filters@);
            assert(t.drop_last() =~= table.rows@.take(i as int));
            assert(t.last() == *row);
            let is_match = row_matches_exact_filters(row, indices.as_slice(), filters);
            proof {
                assert(values_fit(table.schema, row.values@));
                if is_match {
                    assert forall|k: int| 0 <= k < filters@.len() implies (crate::row::cell(
                        table.schema.columns@,
                        row.values@,
                        (#[trigger] filters@[k]).column@,
                    ) matches Some(v) && v@ == filters@[k].value@) by {
                        assert(crate::db::validation::filter_ok(table.schema, filters@[k]));
                        assert(indices@[k] < row.values@.len());
                    }
                } else {
                    let k = choose|k: int|
                        0 <= k < filters@.len() && !(#[trigger] indices@[k] < row.values@.len()
                            && row.values@[indices@[k] as int]@ == filters@[k].value@);
                    assert(crate::db::validation::filter_ok(table.schema, filters@[k]));
                    assert(!(crate::row::cell(table.schema.columns@, row.values@, filters@[k].column@) matches Some(
                        v,
                    ) && v@ == filters@[k].value@));
                }
            }
            if is_match {
                let named = row.as_named_values(&table.schema);
                assert(named_row_of(named, table.schema, *row));
                out.push(named);
            }
            i = i + 1;
        }
        assert(table.rows@.take(table.rows@.len() as int) =~= table.rows@);
        Ok(out)
    }
}

} // verus!
