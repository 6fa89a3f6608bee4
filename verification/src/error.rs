use vstd::prelude::*;

use crate::ids::{BindingId, ConflictId, RowId};
use crate::schema::{role_name, ColumnRole};
use crate::text::{nat_text, push_nat_text};
use crate::value::{data_type_name, DataType};
use vstd::string::*;

verus! {

/// Why a schema, a column or a filter could not be built.
#[derive(Debug, Clone, PartialEq, Eq)]
pub enum SchemaError {
    EmptyIdentifier(&'static str),
    NoColumns,
    DuplicateColumnName(String),
    EmptySemanticScope,
    DuplicateSemanticScopeColumn(String),
    MissingSemanticScope,
    UnknownSemanticScopeColumn(String),
    NonSemanticScopeColumn { column: String, role: ColumnRole },
}

/// Why the semantic subject of a row could not be extracted.
#[derive(Debug, Clone, PartialEq, Eq)]
pub enum SemanticJudgeError {
    NoSemanticScopeDefined,
    MissingScopeValue(String),
}

/// Why a semantic index could not be built or searched.
#[derive(Debug, Clone, PartialEq, Eq)]
pub enum SemanticIndexError {
    MissingEmbedding(String),
    EmptyEmbedding,
    InconsistentEmbeddingDimension { expected: usize, found: usize },
    QueryDimensionMismatch { expected: usize, found: usize },
}

/// Why a database operation failed.
#[derive(Debug, Clone, PartialEq, Eq)]
pub enum DbError {
    Schema(SchemaError),
    SemanticJudge(SemanticJudgeError),
    SemanticIndex(SemanticIndexError),
    TableAlreadyExists(String),
    TableNotFound(String),
    BindingSetNotFound(BindingId),
    StorageIo { path: String, message: String },
    StorageFormat { path: String, message: String },
    SemanticIndexNotBuilt(String),
    SemanticIndexRowNotIndexed { table: String, row_id: RowId },
    RowNotFound { table: String, row_id: RowId },
    UnknownColumn { table: String, column: String },
    MissingColumn { table: String, column: String },
    TypeMismatch { table: String, column: String, expected: DataType, found: DataType },
    ExactFilterOnNonNormalColumn { table: String, column: String, role: ColumnRole },
    InvalidSemanticEdge { table: String, left: RowId, right: RowId },
    EmptyConflictRecordRows { table: String },
    ConflictRecordNotFound { table: String, conflict_id: ConflictId },
}

/// The message of a schema error.
pub open spec fn schema_error_text(e: SchemaError) -> Seq<char> {
    match e {
        SchemaError::EmptyIdentifier(kind) => kind@ + " must be non-empty"@,
        SchemaError::NoColumns => "table schema must contain at least one column"@,
        SchemaError::DuplicateColumnName(c) => "table schema contains duplicate column name: "@ + c@,
        SchemaError::EmptySemanticScope => "semantic scope must contain at least one semantic column"@,
        SchemaError::DuplicateSemanticScopeColumn(c) => "semantic scope contains duplicate column name: "@ + c@,
        SchemaError::MissingSemanticScope => "table schema with semantic columns must declare a semantic scope"@,
        SchemaError::UnknownSemanticScopeColumn(c) => "semantic scope references unknown column: "@ + c@,
        SchemaError::NonSemanticScopeColumn { column, role } => "semantic scope can only include semantic columns, but "@
            + column@ + " is "@ + role_name(role),
    }
}

/// The message of a semantic judgment error.
pub open spec fn judge_error_text(e: SemanticJudgeError) -> Seq<char> {
    match e {
        SemanticJudgeError::NoSemanticScopeDefined => "semantic judgment requires a table schema with a semantic scope"@,
        SemanticJudgeError::MissingScopeValue(c) => "semantic scope column is missing from row values: "@ + c@,
    }
}

/// The message of a semantic index error.
pub open spec fn index_error_text(e: SemanticIndexError) -> Seq<char> {
    match e {
        SemanticIndexError::MissingEmbedding(t) => "missing embedding for semantic text: "@ + t@,
        SemanticIndexError::EmptyEmbedding => "semantic index embeddings must be non-empty"@,
        SemanticIndexError::InconsistentEmbeddingDimension { expected, found } =>
            "semantic index embeddings must share one dimension, expected "@ + nat_text(expected as nat) + ", found "@
            + nat_text(found as nat),
        SemanticIndexError::QueryDimensionMismatch { expected, found } =>
            "semantic search query dimension mismatch: expected "@ + nat_text(expected as nat) + ", found "@ + nat_text(
            found as nat,
        ),
    }
}

/// The message of a database error.
pub open spec fn db_error_text(e: DbError) -> Seq<char> {
    match e {
        DbError::Schema(inner) => schema_error_text(inner),
        DbError::SemanticJudge(inner) => judge_error_text(inner),
        DbError::SemanticIndex(inner) => index_error_text(inner),
        DbError::TableAlreadyExists(t) => "table already exists: "@ + t@,
        DbError::TableNotFound(t) => "unknown table: "@ + t@,
        DbError::BindingSetNotFound(id) => "unknown binding set: "@ + nat_text(id.0 as nat),
        DbError::StorageIo { path, message } => "storage I/O failed for "@ + path@ + ": "@ + message@,
        DbError::StorageFormat { path, message } => "storage format error for "@ + path@ + ": "@ + message@,
        DbError::SemanticIndexNotBuilt(t) => "semantic index has not been built for table "@ + t@,
        DbError::SemanticIndexRowNotIndexed { table, row_id } => "row "@ + nat_text(row_id.0 as nat)
            + " is not present in the semantic index for table "@ + table@,
        DbError::RowNotFound { table, row_id } => "unknown row "@ + nat_text(row_id.0 as nat) + " in table "@ + table@,
        DbError::UnknownColumn { table, column } => "unknown column "@ + column@ + " for table "@ + table@,
        DbError::MissingColumn { table, column } => "missing value for column "@ + column@ + " in table "@ + table@,
        DbError::TypeMismatch { table, column, expected, found } => "type mismatch for "@ + table@ + "."@ + column@
            + ": expected "@ + data_type_name(expected) + ", found "@ + data_type_name(found),
        DbError::ExactFilterOnNonNormalColumn { table, column, role } => "exact scan only supports normal columns, but "@
            + table@ + "."@ + column@ + " is "@ + role_name(role),
        DbError::InvalidSemanticEdge { table, left, right } => "semantic relation in table "@ + table@
            + " requires two different existing rows, found "@ + nat_text(left.0 as nat) + " and "@ + nat_text(
            right.0 as nat,
        ),
        DbError::EmptyConflictRecordRows { table } => "conflict record in table "@ + table@
            + " must reference at least one row"@,
        DbError::ConflictRecordNotFound { table, conflict_id } => "unknown conflict record "@ + nat_text(
            conflict_id.0 as nat,
        ) + " in table "@ + table@,
    }
}

/// `lit` followed by `tail`.
fn text_then(lit: &str, tail: &str) -> (r: String)
    ensures
        r@ == lit@ + tail@,
{
    let mut out = String::from_str(lit);
    out.append(tail);
    out
}

/// `lit` followed by the decimal text of `n`.
fn text_then_number(lit: &str, n: u64) -> (r: String)
    ensures
        r@ == lit@ + nat_text(n as nat),
{
    let mut out = String::from_str(lit);
    push_nat_text(n, &mut out);
    out
}

impl SchemaError {
    /// The message that describes the error.
    pub fn message(&self) -> (r: String)
        ensures
            r@ == schema_error_text(*self),
    {
        match self {
            SchemaError::EmptyIdentifier(kind) => {
                let mut out = String::from_str(kind);
                out.append(" must be non-empty");
                out
            },
            SchemaError::NoColumns => String::from_str("table schema must contain at least one column"),
            SchemaError::DuplicateColumnName(c) => text_then("table schema contains duplicate column name: ", c.as_str()),
            SchemaError::EmptySemanticScope => String::from_str("semantic scope must contain at least one semantic column"),
            SchemaError::DuplicateSemanticScopeColumn(c) => text_then(
                "semantic scope contains duplicate column name: ",
                c.as_str(),
            ),
            SchemaError::MissingSemanticScope => String::from_str(
                "table schema with semantic columns must declare a semantic scope",
            ),
            SchemaError::UnknownSemanticScopeColumn(c) => text_then(
                "semantic scope references unknown column: ",
                c.as_str(),
            ),
            SchemaError::NonSemanticScopeColumn { column, role } => {
                let mut out = text_then("semantic scope can only include semantic columns, but ", column.as_str());
                out.append(" is ");
                out.append(role.name());
                out
            },
        }
    }
}

impl SemanticJudgeError {
    /// The message that describes the error.
    pub fn message(&self) -> (r: String)
        ensures
            r@ == judge_error_text(*self),
    {
        match self {
            SemanticJudgeError::NoSemanticScopeDefined => String::from_str(
                "semantic judgment requires a table schema with a semantic scope",
            ),
            SemanticJudgeError::MissingScopeValue(c) => text_then(
                "semantic scope column is missing from row values: ",
                c.as_str(),
            ),
        }
    }
}

impl SemanticIndexError {
    /// The message that describes the error.
    pub fn message(&self) -> (r: String)
        ensures
            r@ == index_error_text(*self),
    {
        match self {
            SemanticIndexError::MissingEmbedding(t) => text_then("missing embedding for semantic text: ", t.as_str()),
            SemanticIndexError::EmptyEmbedding => String::from_str("semantic index embeddings must be non-empty"),
            SemanticIndexError::InconsistentEmbeddingDimension { expected, found } => {
                let mut out = text_then_number(
                    "semantic index embeddings must share one dimension, expected ",
                    *expected as u64,
                );
                out.append(", found ");
                push_nat_text(*found as u64, &mut out);
                out
            },
            SemanticIndexError::QueryDimensionMismatch { expected, found } => {
                let mut out = text_then_number("semantic search query dimension mismatch: expected ", *expected as u64);
                out.append(", found ");
                push_nat_text(*found as u64, &mut out);
                out
            },
        }
    }
}

impl DbError {
    /// The message that describes the error.
    pub fn message(&self) -> (r: String)
        ensures
            r@ == db_error_text(*self),
    {
        match self {
            DbError::Schema(inner) => inner.message(),
            DbError::SemanticJudge(inner) => inner.message(),
            DbError::SemanticIndex(inner) => inner.message(),
            DbError::TableAlreadyExists(t) => text_then("table already exists: ", t.as_str()),
            DbError::TableNotFound(t) => text_then("unknown table: ", t.as_str()),
            DbError::BindingSetNotFound(id) => text_then_number("unknown binding set: ", id.0),
            DbError::StorageIo { path, message } => {
                let mut out = text_then("storage I/O failed for ", path.as_str());
                out.append(": ");
                out.append(message.as_str());
                out
            },
            DbError::StorageFormat { path, message } => {
                let mut out = text_then("storage format error for ", path.as_str());
                out.append(": ");
                out.append(message.as_str());
                out
            },
            DbError::SemanticIndexNotBuilt(t) => text_then("semantic index has not been built for table ", t.as_str()),
            DbError::SemanticIndexRowNotIndexed { table, row_id } => {
                let mut out = text_then_number("row ", row_id.0);
                out.append(" is not present in the semantic index for table ");
                out.append(table.as_str());
                out
            },
            DbError::RowNotFound { table, row_id } => {
                let mut out = text_then_number("unknown row ", row_id.0);
                out.append(" in table ");
                out.append(table.as_str());
                out
            },
            DbError::UnknownColumn { table, column } => {
                let mut out = text_then("unknown column ", column.as_str());
                out.append(" for table ");
                out.append(table.as_str());
                out
            },
            DbError::MissingColumn { table, column } => {
                let mut out = text_then("missing value for column ", column.as_str());
                out.append(" in table ");
                out.append(table.as_str());
                out
            },
            DbError::TypeMismatch { table, column, expected, found } => {
                let mut out = text_then("type mismatch for ", table.as_str());
                out.append(".");
                out.append(column.as_str());
                out.append(": expected ");
                out.append(expected.name());
                out.append(", found ");
                out.append(found.name());
                out
            },
            DbError::ExactFilterOnNonNormalColumn { table, column, role } => {
                let mut out = text_then("exact scan only supports normal columns, but ", table.as_str());
                out.append(".");
                out.append(column.as_str());
                out.append(" is ");
                out.append(role.name());
                out
            },
            DbError::InvalidSemanticEdge { table, left, right } => {
                let mut out = text_then("semantic relation in table ", table.as_str());
                out.append(" requires two different existing rows, found ");
                push_nat_text(left.0, &mut out);
                out.append(" and ");
                push_nat_text(right.0, &mut out);
                out
            },
            DbError::EmptyConflictRecordRows { table } => {
                let mut out = text_then("conflict record in table ", table.as_str());
                out.append(" must reference at least one row");
                out
            },
            DbError::ConflictRecordNotFound { table, conflict_id } => {
                let mut out = text_then_number("unknown conflict record ", conflict_id.0);
                out.append(" in table ");
                out.append(table.as_str());
                out
            },
        }
    }
}

impl From<SchemaError> for DbError {
    fn from(value: SchemaError) -> (r: Self) {
        DbError::Schema(value)
    }
}

impl vstd::std_specs::convert::FromSpecImpl<SchemaError> for DbError {
    open spec fn obeys_from_spec() -> bool {
        true
    }

    open spec fn from_spec(v: SchemaError) -> DbError {
        DbError::Schema(v)
    }
}

impl From<SemanticJudgeError> for DbError {
    fn from(value: SemanticJudgeError) -> (r: Self) {
        DbError::SemanticJudge(value)
    }
}

impl vstd::std_specs::convert::FromSpecImpl<SemanticJudgeError> for DbError {
    open spec fn obeys_from_spec() -> bool {
        true
    }

    open spec fn from_spec(v: SemanticJudgeError) -> DbError {
        DbError::SemanticJudge(v)
    }
}

impl From<SemanticIndexError> for DbError {
    fn from(value: SemanticIndexError) -> (r: Self) {
        DbError::SemanticIndex(value)
    }
}

impl vstd::std_specs::convert::FromSpecImpl<SemanticIndexError> for DbError {
    open spec fn obeys_from_spec() -> bool {
        true
    }

    open spec fn from_spec(v: SemanticIndexError) -> DbError {
        DbError::SemanticIndex(v)
    }
}

} // verus!
