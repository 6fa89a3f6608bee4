//! A conflict-aware belief database: typed tables of rows, semantic relations
//! between rows, binding sets and conservative projections.

pub mod binding;
pub mod cli;
pub mod db;
pub mod embedding;
pub mod error;
pub mod ids;
pub mod judge;
pub mod persist;
pub mod projection;
pub mod relation;
pub mod row;
pub mod schema;
pub mod semantic;
pub mod sets;
pub mod table;
pub mod text;
pub mod value;

pub use binding::BindingSet;
pub use db::Database;
pub use error::{DbError, SchemaError, SemanticIndexError, SemanticJudgeError};
pub use ids::{BindingId, ConflictId, RowId};
pub use judge::{FixedSemanticJudge, SemanticFieldValue, SemanticJudge, SemanticSubject};
pub use persist::PersistOutcome;
pub use projection::{ProjectionMode, ProjectionOutcome, ProjectionPolicy};
pub use relation::{ConflictRecord, ConflictStatus, SemanticEdge};
pub use row::{ExactFilter, NamedValues, Row, RowInput};
pub use schema::{ColumnRole, ColumnSchema, SemanticScope, TableSchema};
pub use semantic::{semantic_insert_action, CompatibleRelation, SemanticAction, SemanticRelation};
pub use table::Table;
pub use value::{DataType, Value};
