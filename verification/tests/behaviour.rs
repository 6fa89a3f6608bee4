use agentdb::cli::command::{ColumnSpec, Command};
use agentdb::cli::input::parse_row_input;
use agentdb::cli::parse::parse_args;
use agentdb::cli::usage::{usage_text, CliError};
use agentdb::embedding::{validate_embedding_dimension, validate_query_dimension};
use agentdb::{
    BindingId, ColumnRole, ColumnSchema, ConflictId, ConflictStatus, DataType, Database, DbError, ExactFilter,
    FixedSemanticJudge, ProjectionPolicy, RowId, RowInput, SchemaError, SemanticEdge, SemanticIndexError,
    SemanticJudge, SemanticJudgeError, SemanticRelation, SemanticScope, SemanticSubject, TableSchema, Value,
};

fn claims_schema() -> TableSchema {
    TableSchema::new(
        "claims",
        vec![
            ColumnSchema::new("project", DataType::Text, ColumnRole::Normal).unwrap(),
            ColumnSchema::new("turn", DataType::Int64, ColumnRole::Normal).unwrap(),
            ColumnSchema::new("claim", DataType::Text, ColumnRole::Semantic).unwrap(),
        ],
        Some(SemanticScope::new(&["claim"]).unwrap()),
    )
    .unwrap()
}

fn claim_input(project: &str, turn: i64, claim: &str) -> RowInput {
    RowInput::new()
        .with_value("project", Value::Text(project.to_owned()))
        .with_value("turn", Value::Int64(turn))
        .with_value("claim", Value::Text(claim.to_owned()))
}

fn claims_db() -> Database {
    let mut db = Database::new();
    db.create_table(claims_schema()).unwrap();
    db
}

fn put(db: &mut Database, turn: i64, claim: &str) -> RowId {
    db.persist("claims", claim_input("p", turn, claim)).unwrap().row_id()
}

fn args(items: &[&str]) -> Vec<String> {
    items.iter().map(|s| s.to_string()).collect()
}

fn cli_error(items: &[&str]) -> String {
    match parse_args(args(items)) {
        Err(e) => e.message,
        Ok(c) => panic!("expected an error, got {:?}", c),
    }
}

#[test]
fn edge_is_the_same_whichever_row_comes_first() {
    let a = RowId::new(3);
    let b = RowId::new(8);
    assert_eq!(SemanticEdge::new(a, b), SemanticEdge::new(b, a));
    assert_eq!(SemanticEdge::new(b, a).first(), a);
    assert_eq!(SemanticEdge::new(b, a).second(), b);
}

#[test]
fn fixed_judge_answers_a_pair_in_either_order() {
    let mut db = claims_db();
    let a = put(&mut db, 1, "alpha");
    let b = put(&mut db, 2, "beta");
    let table = db.table("claims").unwrap();
    let sa = SemanticSubject::from_row(table.schema(), db.row("claims", a).unwrap()).unwrap();
    let sb = SemanticSubject::from_row(table.schema(), db.row("claims", b).unwrap()).unwrap();
    let judge = FixedSemanticJudge::default().with_pair(&sb, &sa, SemanticRelation::support());
    assert_eq!(judge.judge(&sa, &sb).unwrap(), SemanticRelation::support());
    assert_eq!(judge.judge(&sb, &sa).unwrap(), SemanticRelation::support());
    assert_eq!(judge.judge(&sa, &sa).unwrap(), SemanticRelation::none());
}

#[test]
fn fixed_judge_replaces_a_pair_it_is_given_again() {
    let mut db = claims_db();
    let a = put(&mut db, 1, "alpha");
    let b = put(&mut db, 2, "beta");
    let table = db.table("claims").unwrap();
    let sa = SemanticSubject::from_row(table.schema(), db.row("claims", a).unwrap()).unwrap();
    let sb = SemanticSubject::from_row(table.schema(), db.row("claims", b).unwrap()).unwrap();
    let judge = FixedSemanticJudge::new(SemanticRelation::compatible())
        .with_pair_text("claim=alpha", "claim=beta", SemanticRelation::conflict())
        .with_pair_text("claim=beta", "claim=alpha", SemanticRelation::compressible());
    assert_eq!(judge.judge(&sa, &sb).unwrap(), SemanticRelation::compressible());
    assert_eq!(judge.judge(&sa, &sa).unwrap(), SemanticRelation::compatible());
}

#[test]
fn bind_then_unbind_restores_the_binding_rows() {
    let mut db = claims_db();
    let a = put(&mut db, 1, "alpha");
    let b = put(&mut db, 2, "beta");
    let binding = db.create_binding_set("claims").unwrap();
    db.bind_row(binding, b).unwrap();
    let before = db.binding_set(binding).unwrap().rows().to_vec();
    assert!(db.bind_row(binding, a).unwrap());
    assert_eq!(db.binding_set(binding).unwrap().rows(), &[a, b]);
    assert!(db.unbind_row(binding, a).unwrap());
    assert_eq!(db.binding_set(binding).unwrap().rows(), before.as_slice());
}

#[test]
fn binding_a_row_twice_changes_the_binding_once() {
    let mut db = claims_db();
    let a = put(&mut db, 1, "alpha");
    let binding = db.create_binding_set("claims").unwrap();
    assert!(db.bind_row(binding, a).unwrap());
    let once = db.binding_set(binding).unwrap().rows().to_vec();
    assert!(!db.bind_row(binding, a).unwrap());
    assert_eq!(db.binding_set(binding).unwrap().rows(), once.as_slice());
}

#[test]
fn binding_identifiers_count_up_from_one() {
    let mut db = claims_db();
    assert_eq!(db.create_binding_set("claims").unwrap(), BindingId::new(1));
    assert_eq!(db.create_binding_set("claims").unwrap(), BindingId::new(2));
}

#[test]
fn adding_an_edge_twice_keeps_one_edge() {
    let mut db = claims_db();
    let a = put(&mut db, 1, "alpha");
    let b = put(&mut db, 2, "beta");
    db.add_conflict_edge("claims", b, a).unwrap();
    db.add_conflict_edge("claims", a, b).unwrap();
    assert_eq!(db.conflict_edges("claims").unwrap(), &[SemanticEdge::new(a, b)]);
}

#[test]
fn support_and_compressible_edges_are_also_compatible_edges() {
    let mut db = claims_db();
    let a = put(&mut db, 1, "alpha");
    let b = put(&mut db, 2, "beta");
    let c = put(&mut db, 3, "gamma");
    db.add_support_edge("claims", a, b).unwrap();
    db.add_compressible_edge("claims", c, b).unwrap();
    assert_eq!(
        db.compatible_edges("claims").unwrap(),
        &[SemanticEdge::new(a, b), SemanticEdge::new(b, c)]
    );
    assert_eq!(db.support_edges("claims").unwrap(), &[SemanticEdge::new(a, b)]);
    assert_eq!(db.compressible_edges("claims").unwrap(), &[SemanticEdge::new(b, c)]);
}

#[test]
fn persisted_row_reads_back_with_its_values() {
    let mut db = claims_db();
    let first = put(&mut db, 1, "alpha");
    let second = db.persist("claims", claim_input("q", -7, "beta")).unwrap();
    assert_eq!(second.row_id(), RowId::new(2));
    let row = db.row("claims", second.row_id()).unwrap();
    assert_eq!(
        row.values(),
        &[Value::Text("q".to_owned()), Value::Int64(-7), Value::Text("beta".to_owned())]
    );
    let schema = db.table("claims").unwrap().schema();
    assert_eq!(
        db.row("claims", first).unwrap().get(schema, "claim"),
        Some(&Value::Text("alpha".to_owned()))
    );
}

#[test]
fn semantic_write_keeps_earlier_rows_and_relations() {
    let mut db = claims_db();
    let a = put(&mut db, 1, "alpha");
    let b = put(&mut db, 2, "beta");
    db.add_support_edge("claims", a, b).unwrap();
    let judge = FixedSemanticJudge::default().with_pair_text("claim=gamma", "claim=alpha", SemanticRelation::conflict());
    let outcome = db.persist_semantic("claims", claim_input("p", 3, "gamma"), &judge).unwrap();
    let c = outcome.row_id();
    assert_eq!(c, RowId::new(3));
    assert_eq!(db.named_rows("claims").unwrap().len(), 3);
    assert_eq!(
        db.row("claims", a).unwrap().values(),
        &[Value::Text("p".to_owned()), Value::Int64(1), Value::Text("alpha".to_owned())]
    );
    assert_eq!(db.support_edges("claims").unwrap(), &[SemanticEdge::new(a, b)]);
    assert_eq!(db.conflict_edges("claims").unwrap(), &[SemanticEdge::new(a, c)]);
}

#[test]
fn each_semantic_conflict_has_an_open_record_naming_both_rows() {
    let mut db = claims_db();
    let a = put(&mut db, 1, "alpha");
    let b = put(&mut db, 2, "beta");
    let judge = FixedSemanticJudge::new(SemanticRelation::conflict());
    let outcome = db.persist_semantic("claims", claim_input("p", 3, "gamma"), &judge).unwrap();
    let c = outcome.row_id();
    assert_eq!(outcome.conflict_edges(), &[SemanticEdge::new(a, c), SemanticEdge::new(b, c)]);
    assert_eq!(outcome.conflict_ids(), &[ConflictId::new(1), ConflictId::new(2)]);
    for (edge, id) in outcome.conflict_edges().iter().zip(outcome.conflict_ids()) {
        let record = db.conflict_record("claims", *id).unwrap();
        assert_eq!(record.status(), ConflictStatus::Open);
        assert_eq!(record.rows(), &[edge.first(), edge.second()]);
    }
}

#[test]
fn semantic_write_reports_support_edges_among_compatible_ones() {
    let mut db = claims_db();
    let a = put(&mut db, 1, "alpha");
    let b = put(&mut db, 2, "beta");
    let judge = FixedSemanticJudge::default()
        .with_pair_text("claim=gamma", "claim=alpha", SemanticRelation::compatible())
        .with_pair_text("claim=gamma", "claim=beta", SemanticRelation::support());
    let outcome = db.persist_semantic("claims", claim_input("p", 3, "gamma"), &judge).unwrap();
    let c = outcome.row_id();
    assert_eq!(outcome.compatible_edges(), &[SemanticEdge::new(a, c), SemanticEdge::new(b, c)]);
    assert_eq!(outcome.support_edges(), &[SemanticEdge::new(b, c)]);
    assert!(outcome.has_semantic_effects());
}

#[test]
fn repeated_candidates_are_judged_once() {
    let mut db = claims_db();
    let a = put(&mut db, 1, "alpha");
    let judge = FixedSemanticJudge::new(SemanticRelation::conflict());
    let outcome = db
        .persist_semantic_with_candidates("claims", claim_input("p", 2, "beta"), &[a, a, a], &judge)
        .unwrap();
    assert_eq!(outcome.conflict_ids().len(), 1);
    assert_eq!(db.conflict_records("claims").unwrap().len(), 1);
}

#[test]
fn projection_sorts_every_considered_row_into_exactly_one_list() {
    let mut db = claims_db();
    let a = put(&mut db, 1, "alpha");
    let b = put(&mut db, 2, "beta");
    let c = put(&mut db, 3, "gamma");
    let d = put(&mut db, 4, "delta");
    db.add_conflict_edge("claims", a, b).unwrap();
    db.add_conflict_edge("claims", c, d).unwrap();
    db.add_support_edge("claims", c, a).unwrap();
    let binding = db.create_binding_set("claims").unwrap();
    db.bind_row(binding, a).unwrap();
    db.bind_row(binding, d).unwrap();
    let p = db.project_binding(binding, ProjectionPolicy::conservative()).unwrap();
    assert_eq!(p.considered_rows(), &[a, b, c, d]);
    for row in p.considered_rows() {
        let lists = [p.accepted_rows(), p.suppressed_rows(), p.ambiguous_rows()];
        assert_eq!(lists.iter().filter(|list| list.contains(row)).count(), 1);
    }
    assert_eq!(p.accepted_rows(), &[a, c]);
    assert_eq!(p.suppressed_rows(), &[b, d]);
    assert!(p.ambiguous_rows().is_empty());
}

#[test]
fn projection_considers_every_bound_row() {
    let mut db = claims_db();
    let a = put(&mut db, 1, "alpha");
    let b = put(&mut db, 2, "beta");
    let binding = db.create_binding_set("claims").unwrap();
    db.bind_row(binding, b).unwrap();
    db.bind_row(binding, a).unwrap();
    let p = db.project_binding(binding, ProjectionPolicy::conservative()).unwrap();
    assert_eq!(p.considered_rows(), &[a, b]);
    assert_eq!(p.accepted_rows(), &[a, b]);
    assert_eq!(p.binding_id(), binding);
}

#[test]
fn conflict_with_equal_support_leaves_both_rows_ambiguous() {
    let mut db = claims_db();
    let a = put(&mut db, 1, "alpha");
    let b = put(&mut db, 2, "beta");
    db.add_conflict_edge("claims", a, b).unwrap();
    let binding = db.create_binding_set("claims").unwrap();
    db.bind_row(binding, a).unwrap();
    let p = db.project_binding(binding, ProjectionPolicy::conservative()).unwrap();
    assert_eq!(p.considered_rows(), &[a, b]);
    assert!(p.accepted_rows().is_empty());
    assert!(p.suppressed_rows().is_empty());
    assert_eq!(p.ambiguous_rows(), &[a, b]);
    assert!(p.consulted_conflicts().is_empty());
}

#[test]
fn open_conflict_record_is_consulted_and_resolved_by_support() {
    let mut db = claims_db();
    let a = put(&mut db, 1, "alpha");
    let b = put(&mut db, 2, "beta");
    let c = put(&mut db, 3, "gamma");
    let conflict = db.create_conflict_record("claims", &[a, b]).unwrap();
    db.add_support_edge("claims", b, c).unwrap();
    let binding = db.create_binding_set("claims").unwrap();
    db.bind_row(binding, a).unwrap();
    db.bind_row(binding, b).unwrap();
    let p = db.project_binding(binding, ProjectionPolicy::conservative()).unwrap();
    assert_eq!(p.considered_rows(), &[a, b, c]);
    assert_eq!(p.consulted_conflicts(), &[conflict]);
    assert_eq!(p.accepted_rows(), &[b, c]);
    assert_eq!(p.suppressed_rows(), &[a]);
}

#[test]
fn compressible_chain_keeps_only_its_best_supported_row() {
    let mut db = claims_db();
    let a = put(&mut db, 1, "alpha");
    let b = put(&mut db, 2, "beta");
    let c = put(&mut db, 3, "gamma");
    let d = put(&mut db, 4, "delta");
    db.add_compressible_edge("claims", a, b).unwrap();
    db.add_compressible_edge("claims", b, c).unwrap();
    db.add_support_edge("claims", c, d).unwrap();
    let binding = db.create_binding_set("claims").unwrap();
    for row in [a, b, c, d] {
        db.bind_row(binding, row).unwrap();
    }
    let p = db.project_binding(binding, ProjectionPolicy::conservative()).unwrap();
    assert_eq!(p.accepted_rows(), &[c, d]);
    assert_eq!(p.suppressed_rows(), &[a, b]);
}

#[test]
fn compressible_tie_keeps_the_smallest_identifier() {
    let mut db = claims_db();
    let a = put(&mut db, 1, "alpha");
    let b = put(&mut db, 2, "beta");
    db.add_compressible_edge("claims", b, a).unwrap();
    let binding = db.create_binding_set("claims").unwrap();
    db.bind_row(binding, b).unwrap();
    db.bind_row(binding, a).unwrap();
    let p = db.project_binding(binding, ProjectionPolicy::conservative()).unwrap();
    assert_eq!(p.accepted_rows(), &[a]);
    assert_eq!(p.suppressed_rows(), &[b]);
}

#[test]
fn projection_of_unknown_binding_fails() {
    let db = claims_db();
    let err = db.project_binding(BindingId::new(4), ProjectionPolicy::conservative()).unwrap_err();
    assert_eq!(err, DbError::BindingSetNotFound(BindingId::new(4)));
}

#[test]
fn scan_with_no_filters_returns_every_row() {
    let mut db = claims_db();
    put(&mut db, 1, "alpha");
    put(&mut db, 2, "beta");
    let rows = db.scan_exact("claims", &[]).unwrap();
    assert_eq!(rows.len(), 2);
    assert_eq!(rows[1].get("claim"), Some(&Value::Text("beta".to_owned())));
}

#[test]
fn scan_rejects_filters_of_the_wrong_type_or_unknown_column() {
    let db = claims_db();
    let err = db
        .scan_exact("claims", &[ExactFilter::new("turn", Value::Text("x".to_owned())).unwrap()])
        .unwrap_err();
    assert_eq!(
        err,
        DbError::TypeMismatch {
            table: "claims".to_owned(),
            column: "turn".to_owned(),
            expected: DataType::Int64,
            found: DataType::Text,
        }
    );
    let err = db
        .scan_exact("claims", &[ExactFilter::new("nope", Value::Int64(1)).unwrap()])
        .unwrap_err();
    assert_eq!(err, DbError::UnknownColumn { table: "claims".to_owned(), column: "nope".to_owned() });
    assert_eq!(ExactFilter::new("  ", Value::Int64(1)).unwrap_err(), SchemaError::EmptyIdentifier("filter column"));
}

#[test]
fn writes_to_unknown_tables_fail() {
    let mut db = claims_db();
    let err = db.persist("nope", claim_input("p", 1, "x")).unwrap_err();
    assert_eq!(err, DbError::TableNotFound("nope".to_owned()));
    let judge = FixedSemanticJudge::default();
    let err = db.persist_semantic("nope", claim_input("p", 1, "x"), &judge).unwrap_err();
    assert_eq!(err, DbError::TableNotFound("nope".to_owned()));
}

#[test]
fn creating_a_table_twice_fails() {
    let mut db = claims_db();
    assert_eq!(db.create_table(claims_schema()).unwrap_err(), DbError::TableAlreadyExists("claims".to_owned()));
}

#[test]
fn persist_rejects_unknown_columns() {
    let mut db = claims_db();
    let input = claim_input("p", 1, "x").with_value("extra", Value::Bool(true));
    let err = db.persist("claims", input).unwrap_err();
    assert_eq!(err, DbError::UnknownColumn { table: "claims".to_owned(), column: "extra".to_owned() });
}

#[test]
fn later_value_for_a_column_replaces_the_earlier_one() {
    let input = RowInput::new()
        .with_value("turn", Value::Int64(1))
        .with_value(" turn ", Value::Int64(2));
    assert_eq!(input.value_for("turn"), Some(&Value::Int64(2)));
    assert_eq!(input.values().len(), 1);
}

#[test]
fn conflict_records_need_rows_and_known_identifiers() {
    let mut db = claims_db();
    let a = put(&mut db, 1, "alpha");
    assert_eq!(
        db.create_conflict_record("claims", &[]).unwrap_err(),
        DbError::EmptyConflictRecordRows { table: "claims".to_owned() }
    );
    assert_eq!(
        db.create_conflict_record("claims", &[a, RowId::new(9)]).unwrap_err(),
        DbError::RowNotFound { table: "claims".to_owned(), row_id: RowId::new(9) }
    );
    assert_eq!(
        db.conflict_record("claims", ConflictId::new(5)).unwrap_err(),
        DbError::ConflictRecordNotFound { table: "claims".to_owned(), conflict_id: ConflictId::new(5) }
    );
    assert_eq!(
        db.set_conflict_status("claims", ConflictId::new(5), ConflictStatus::Resolved).unwrap_err(),
        DbError::ConflictRecordNotFound { table: "claims".to_owned(), conflict_id: ConflictId::new(5) }
    );
    let single = db.create_conflict_record("claims", &[a, a]).unwrap();
    assert_eq!(db.conflict_record("claims", single).unwrap().rows(), &[a]);
}

#[test]
fn semantic_write_needs_a_semantic_scope() {
    let mut db = Database::new();
    db.create_table(
        TableSchema::new(
            "plain",
            vec![ColumnSchema::new("n", DataType::Int64, ColumnRole::Normal).unwrap()],
            None,
        )
        .unwrap(),
    )
    .unwrap();
    let judge = FixedSemanticJudge::default();
    let err = db
        .persist_semantic("plain", RowInput::new().with_value("n", Value::Int64(1)), &judge)
        .unwrap_err();
    assert_eq!(err, DbError::SemanticJudge(SemanticJudgeError::NoSemanticScopeDefined));
    assert!(db.named_rows("plain").unwrap().is_empty());
}

#[test]
fn semantic_write_with_a_missing_candidate_fails_and_writes_nothing() {
    let mut db = claims_db();
    let a = put(&mut db, 1, "alpha");
    let judge = FixedSemanticJudge::default();
    let err = db
        .persist_semantic_with_candidates("claims", claim_input("p", 2, "beta"), &[a, RowId::new(40)], &judge)
        .unwrap_err();
    assert_eq!(err, DbError::RowNotFound { table: "claims".to_owned(), row_id: RowId::new(40) });
    assert_eq!(db.named_rows("claims").unwrap().len(), 1);
}

#[test]
fn enriching_a_missing_row_fails() {
    let mut db = claims_db();
    let judge = FixedSemanticJudge::default();
    let err = db.enrich_row_semantic("claims", RowId::new(3), &[], &judge).unwrap_err();
    assert_eq!(err, DbError::RowNotFound { table: "claims".to_owned(), row_id: RowId::new(3) });
}

#[test]
fn enrichment_skips_the_row_itself() {
    let mut db = claims_db();
    let a = put(&mut db, 1, "alpha");
    let judge = FixedSemanticJudge::new(SemanticRelation::conflict());
    let outcome = db.enrich_row_semantic("claims", a, &[a], &judge).unwrap();
    assert_eq!(outcome.row_id(), a);
    assert!(!outcome.has_semantic_effects());
}

#[test]
fn schema_errors_name_what_is_wrong() {
    assert_eq!(
        ColumnSchema::new("   ", DataType::Text, ColumnRole::Normal).unwrap_err(),
        SchemaError::EmptyIdentifier("column name")
    );
    assert_eq!(TableSchema::new("t", vec![], None).unwrap_err(), SchemaError::NoColumns);
    assert_eq!(SemanticScope::new(&[]).unwrap_err(), SchemaError::EmptySemanticScope);
    assert_eq!(
        SemanticScope::new(&["a", " a "]).unwrap_err(),
        SchemaError::DuplicateSemanticScopeColumn("a".to_owned())
    );
    let err = TableSchema::new(
        "t",
        vec![ColumnSchema::new("a", DataType::Text, ColumnRole::Semantic).unwrap()],
        Some(SemanticScope::new(&["b"]).unwrap()),
    )
    .unwrap_err();
    assert_eq!(err, SchemaError::UnknownSemanticScopeColumn("b".to_owned()));
}

#[test]
fn identifiers_are_trimmed_once_and_for_all() {
    let column = ColumnSchema::new("  topic \t", DataType::Text, ColumnRole::Normal).unwrap();
    assert_eq!(column.name(), "topic");
    let again = ColumnSchema::new(column.name(), DataType::Text, ColumnRole::Normal).unwrap();
    assert_eq!(again.name(), column.name());
    let schema = TableSchema::new(" notes ", vec![column], None).unwrap();
    assert_eq!(schema.name(), "notes");
}

#[test]
fn error_messages_read_as_the_display_text() {
    assert_eq!(DbError::TableNotFound("t".to_owned()).message(), "unknown table: t");
    assert_eq!(DbError::BindingSetNotFound(BindingId::new(12)).message(), "unknown binding set: 12");
    assert_eq!(
        DbError::RowNotFound { table: "t".to_owned(), row_id: RowId::new(305) }.message(),
        "unknown row 305 in table t"
    );
    assert_eq!(
        DbError::TypeMismatch {
            table: "t".to_owned(),
            column: "c".to_owned(),
            expected: DataType::Int64,
            found: DataType::Bool,
        }
        .message(),
        "type mismatch for t.c: expected int64, found bool"
    );
    assert_eq!(
        DbError::ExactFilterOnNonNormalColumn {
            table: "t".to_owned(),
            column: "c".to_owned(),
            role: ColumnRole::Semantic,
        }
        .message(),
        "exact scan only supports normal columns, but t.c is semantic"
    );
    assert_eq!(
        DbError::InvalidSemanticEdge { table: "t".to_owned(), left: RowId::new(1), right: RowId::new(0) }.message(),
        "semantic relation in table t requires two different existing rows, found 1 and 0"
    );
    assert_eq!(
        DbError::StorageIo { path: "/x".to_owned(), message: "denied".to_owned() }.message(),
        "storage I/O failed for /x: denied"
    );
    assert_eq!(
        DbError::Schema(SchemaError::NonSemanticScopeColumn { column: "p".to_owned(), role: ColumnRole::Normal })
            .message(),
        "semantic scope can only include semantic columns, but p is normal"
    );
    assert_eq!(SchemaError::EmptyIdentifier("table name").message(), "table name must be non-empty");
    assert_eq!(
        DbError::SemanticJudge(SemanticJudgeError::MissingScopeValue("claim".to_owned())).message(),
        "semantic scope column is missing from row values: claim"
    );
    assert_eq!(
        SemanticIndexError::InconsistentEmbeddingDimension { expected: 3, found: 10 }.message(),
        "semantic index embeddings must share one dimension, expected 3, found 10"
    );
    assert_eq!(
        DbError::ConflictRecordNotFound { table: "t".to_owned(), conflict_id: ConflictId::new(0) }.message(),
        "unknown conflict record 0 in table t"
    );
}

#[test]
fn values_display_as_text() {
    assert_eq!(Value::Int64(-9_223_372_036_854_775_808).to_text(), "-9223372036854775808");
    assert_eq!(Value::Int64(40).to_text(), "40");
    assert_eq!(Value::Bool(false).to_text(), "false");
    assert_eq!(Value::Text("x y".to_owned()).to_text(), "x y");
    assert_eq!(DataType::Int64.name(), "int64");
    assert_eq!(ColumnRole::Semantic.name(), "semantic");
}

#[test]
fn semantic_subject_text_shows_integers_in_decimal() {
    let schema = TableSchema::new(
        "t",
        vec![
            ColumnSchema::new("n", DataType::Int64, ColumnRole::Semantic).unwrap(),
            ColumnSchema::new("s", DataType::Text, ColumnRole::Semantic).unwrap(),
        ],
        Some(SemanticScope::new(&["s", "n"]).unwrap()),
    )
    .unwrap();
    let row = agentdb::Row::new(RowId::new(1), vec![Value::Int64(-12), Value::Text("hi".to_owned())]);
    let subject = SemanticSubject::from_row(&schema, &row).unwrap();
    assert_eq!(subject.canonical_text(), "s=hi\nn=-12");
}

#[test]
fn semantic_texts_follow_row_order() {
    let mut db = claims_db();
    put(&mut db, 1, "alpha");
    put(&mut db, 2, "beta");
    let texts = db.semantic_texts("claims").unwrap();
    assert_eq!(
        texts,
        vec![(RowId::new(1), "claim=alpha".to_owned()), (RowId::new(2), "claim=beta".to_owned())]
    );
}

#[test]
fn embedding_dimensions_are_checked() {
    assert_eq!(validate_embedding_dimension(None, 0), Err(SemanticIndexError::EmptyEmbedding));
    assert_eq!(validate_embedding_dimension(None, 4), Ok(()));
    assert_eq!(validate_embedding_dimension(Some(4), 4), Ok(()));
    assert_eq!(
        validate_embedding_dimension(Some(4), 3),
        Err(SemanticIndexError::InconsistentEmbeddingDimension { expected: 4, found: 3 })
    );
    assert_eq!(validate_query_dimension(3, 0), Err(SemanticIndexError::EmptyEmbedding));
    assert_eq!(
        validate_query_dimension(3, 2),
        Err(SemanticIndexError::QueryDimensionMismatch { expected: 3, found: 2 })
    );
    assert_eq!(validate_query_dimension(3, 3), Ok(()));
}

#[test]
fn cli_parses_every_command() {
    assert!(matches!(parse_args(args(&["-h"])), Ok(Command::Help)));
    assert!(matches!(
        parse_args(args(&["init", "--db", "a.json"])),
        Ok(Command::Init { db_path }) if db_path == "a.json"
    ));
    match parse_args(args(&[
        "create-table", "--db", "d", "--table", "t", "--column", " name : text : normal ", "--column",
        "score:int64:semantic", "--scope", "score, name",
    ])) {
        Ok(Command::CreateTable { db_path, table_name, column_specs, scope }) => {
            assert_eq!(db_path, "d");
            assert_eq!(table_name, "t");
            assert_eq!(
                column_specs,
                vec![
                    ColumnSpec { name: "name".to_owned(), data_type: DataType::Text, role: ColumnRole::Normal },
                    ColumnSpec { name: "score".to_owned(), data_type: DataType::Int64, role: ColumnRole::Semantic },
                ]
            );
            assert_eq!(scope, Some(vec!["score".to_owned(), "name".to_owned()]));
        }
        other => panic!("unexpected {:?}", other),
    }
    match parse_args(args(&["persist", "--db", "d", "--table", "t", "--set", " k =v=w", "--set", "b=true"])) {
        Ok(Command::Persist { raw_values, .. }) => {
            assert_eq!(
                raw_values,
                vec![("k".to_owned(), "v=w".to_owned()), ("b".to_owned(), "true".to_owned())]
            );
        }
        other => panic!("unexpected {:?}", other),
    }
    assert!(matches!(
        parse_args(args(&["bind-add", "--row", "12", "--db", "d", "--binding", "+7"])),
        Ok(Command::BindAdd { binding_id: 7, row_id: 12, .. })
    ));
    assert!(matches!(
        parse_args(args(&["bind-remove", "--db", "d", "--binding", "1", "--row", "18446744073709551615"])),
        Ok(Command::BindRemove { binding_id: 1, row_id: 18446744073709551615, .. })
    ));
    assert!(matches!(
        parse_args(args(&["project", "--db", "d", "--binding", "3"])),
        Ok(Command::Project { binding_id: 3, .. })
    ));
    assert!(matches!(
        parse_args(args(&["show-binding", "--db", "d", "--binding", "0"])),
        Ok(Command::ShowBinding { binding_id: 0, .. })
    ));
    assert!(matches!(
        parse_args(args(&["show-table", "--db", "d", "--table", "t"])),
        Ok(Command::ShowTable { .. })
    ));
    assert!(matches!(
        parse_args(args(&["bind-create", "--db", "d", "--table", "t"])),
        Ok(Command::BindCreate { .. })
    ));
}

#[test]
fn cli_reports_what_is_wrong() {
    let usage = usage_text();
    assert!(usage.starts_with("Usage:\n  agentdb init --db PATH\n"));
    assert_eq!(cli_error(&[]), format!("missing command\n\n{usage}"));
    assert_eq!(cli_error(&["frob"]), format!("unknown command `frob`\n\n{usage}"));
    assert_eq!(cli_error(&["init"]), format!("missing required option `--db`\n\n{usage}"));
    assert_eq!(cli_error(&["init", "--db", "d", "--x", "1"]), format!("unknown option `--x`\n\n{usage}"));
    assert_eq!(cli_error(&["init", "--db", "d", "extra"]), format!("unexpected positional argument `extra`\n\n{usage}"));
    assert_eq!(
        cli_error(&["bind-add", "--db", "d", "--binding", "x1", "--row", "2"]),
        "invalid numeric value for `--binding`: `x1` (invalid digit found in string)"
    );
    assert_eq!(
        cli_error(&["bind-add", "--db", "d", "--binding", "-1", "--row", "2"]),
        "invalid numeric value for `--binding`: `-1` (invalid digit found in string)"
    );
    assert_eq!(
        cli_error(&["create-table", "--db", "d", "--table", "t"]),
        format!("create-table requires at least one --column NAME:TYPE:ROLE\n\n{usage}")
    );
    assert_eq!(
        cli_error(&["create-table", "--db", "d", "--table", "t", "--column", "a:float:normal"]),
        "unknown data type `float`, expected text|int64|bool"
    );
    assert_eq!(
        cli_error(&["create-table", "--db", "d", "--table", "t", "--column", "a:text"]),
        "unknown column role ``, expected normal|semantic"
    );
    assert_eq!(
        cli_error(&["create-table", "--db", "d", "--table", "t", "--column", "a:text:normal:x"]),
        "invalid column spec `a:text:normal:x`, expected NAME:TYPE:ROLE"
    );
    assert_eq!(
        cli_error(&["persist", "--db", "d", "--table", "t", "--set", "novalue"]),
        "invalid --set value `novalue`, expected KEY=VALUE"
    );
    assert_eq!(
        cli_error(&["persist", "--db", "d", "--table", "t", "--set", " =v"]),
        "invalid --set value ` =v`, key must be non-empty"
    );
    assert_eq!(
        cli_error(&["show-table", "--db", "d", "--table"]),
        format!("missing required option `--table`\n\n{usage}")
    );
    assert_eq!(CliError::with_usage("oops").message, format!("oops\n\n{usage}"));
}

#[test]
fn row_input_from_the_command_line_keeps_the_last_value_of_each_column() {
    let raws = vec![
        ("turn".to_owned(), "5".to_owned()),
        ("claim".to_owned(), "first".to_owned()),
        ("turn".to_owned(), "-42".to_owned()),
    ];
    let input = parse_row_input(&claims_schema(), &raws).unwrap();
    assert_eq!(input.value_for("turn"), Some(&Value::Int64(-42)));
    assert_eq!(input.value_for("claim"), Some(&Value::Text("first".to_owned())));
    assert_eq!(input.value_for("project"), None);
}

#[test]
fn row_input_from_the_command_line_reports_what_is_wrong() {
    let schema = claims_schema();
    let err = parse_row_input(&schema, &[]).unwrap_err();
    assert_eq!(err.message, "persist requires at least one --set KEY=VALUE pair");
    let raws = vec![("zeta".to_owned(), "1".to_owned()), ("beta".to_owned(), "2".to_owned())];
    let err = parse_row_input(&schema, &raws).unwrap_err();
    assert_eq!(err.message, "unknown column `beta` for table `claims`");
    let raws = vec![("turn".to_owned(), "12x".to_owned())];
    let err = parse_row_input(&schema, &raws).unwrap_err();
    assert_eq!(err.message, "invalid int64 value `12x`: invalid digit found in string");
    let flags = TableSchema::new(
        "flags",
        vec![ColumnSchema::new("on", DataType::Bool, ColumnRole::Normal).unwrap()],
        None,
    )
    .unwrap();
    let err = parse_row_input(&flags, &[("on".to_owned(), "yes".to_owned())]).unwrap_err();
    assert_eq!(err.message, "invalid bool value `yes`, expected true or false");
    let input = parse_row_input(&flags, &[("on".to_owned(), "false".to_owned())]).unwrap();
    assert_eq!(input.value_for("on"), Some(&Value::Bool(false)));
}

#[test]
fn rows_of_a_tied_conflict_accepted_after_winning_other_conflicts() {
    let mut db = claims_db();
    let rows: Vec<RowId> = (1..=6).map(|n| put(&mut db, n, &format!("claim {n}"))).collect();
    let (x, y, z, w, s1, s2) = (rows[0], rows[1], rows[2], rows[3], rows[4], rows[5]);
    db.add_support_edge("claims", x, s1).unwrap();
    db.add_support_edge("claims", y, s2).unwrap();
    db.add_conflict_edge("claims", x, y).unwrap();
    db.add_conflict_edge("claims", x, z).unwrap();
    db.add_conflict_edge("claims", y, w).unwrap();
    let binding = db.create_binding_set("claims").unwrap();
    for row in &rows {
        db.bind_row(binding, *row).unwrap();
    }
    let p = db.project_binding(binding, ProjectionPolicy::conservative()).unwrap();
    assert_eq!(p.accepted_rows(), &[x, y, s1, s2]);
    assert_eq!(p.suppressed_rows(), &[z, w]);
    assert!(p.ambiguous_rows().is_empty());
}

#[test]
fn lone_conflict_without_support_accepts_neither_row() {
    let mut db = claims_db();
    let a = put(&mut db, 1, "alpha");
    let b = put(&mut db, 2, "beta");
    let c = put(&mut db, 3, "gamma");
    db.create_conflict_record("claims", &[a, b, c]).unwrap();
    let binding = db.create_binding_set("claims").unwrap();
    for row in [a, b, c] {
        db.bind_row(binding, row).unwrap();
    }
    let p = db.project_binding(binding, ProjectionPolicy::conservative()).unwrap();
    assert!(p.accepted_rows().is_empty());
    assert_eq!(p.ambiguous_rows(), &[a, b, c]);
    assert_eq!(p.consulted_conflicts().len(), 1);
}

#[test]
fn component_errors_convert_into_database_errors() {
    assert_eq!(DbError::from(SchemaError::NoColumns), DbError::Schema(SchemaError::NoColumns));
    assert_eq!(
        DbError::from(SemanticJudgeError::NoSemanticScopeDefined),
        DbError::SemanticJudge(SemanticJudgeError::NoSemanticScopeDefined)
    );
    assert_eq!(
        DbError::from(SemanticIndexError::EmptyEmbedding),
        DbError::SemanticIndex(SemanticIndexError::EmptyEmbedding)
    );
    assert_eq!(
        DbError::from(SemanticIndexError::EmptyEmbedding).message(),
        "semantic index embeddings must be non-empty"
    );
}

#[test]
fn subject_of_a_short_row_misses_its_scope_value() {
    let row = agentdb::Row::new(RowId::new(1), vec![Value::Text("p".to_owned())]);
    let err = SemanticSubject::from_row(&claims_schema(), &row).unwrap_err();
    assert_eq!(err, SemanticJudgeError::MissingScopeValue("claim".to_owned()));
}

#[test]
fn neighbors_are_mutual() {
    let mut db = claims_db();
    let a = put(&mut db, 1, "alpha");
    let b = put(&mut db, 2, "beta");
    let c = put(&mut db, 3, "gamma");
    db.add_support_edge("claims", c, a).unwrap();
    db.add_support_edge("claims", b, c).unwrap();
    assert_eq!(db.support_neighbors("claims", c).unwrap(), vec![a, b]);
    assert_eq!(db.support_neighbors("claims", a).unwrap(), vec![c]);
    assert_eq!(db.support_neighbors("claims", b).unwrap(), vec![c]);
    assert!(db.conflict_neighbors("claims", a).unwrap().is_empty());
}

#[test]
fn named_rows_list_columns_in_the_order_of_their_names() {
    let mut db = claims_db();
    put(&mut db, 7, "alpha");
    let rows = db.named_rows("claims").unwrap();
    let names: Vec<&str> = rows[0].entries.iter().map(|(name, _)| name.as_str()).collect();
    assert_eq!(names, vec!["claim", "project", "turn"]);
    assert_eq!(rows[0].get("turn"), Some(&Value::Int64(7)));
    assert_eq!(rows[0].get("claim"), Some(&Value::Text("alpha".to_owned())));
}

#[test]
fn new_ids_count_the_rows_and_records_before_them() {
    let mut db = claims_db();
    let a = put(&mut db, 1, "alpha");
    let b = put(&mut db, 2, "beta");
    assert_eq!(b.value(), db.table("claims").unwrap().rows().len() as u64);
    let first = db.create_conflict_record("claims", &[a, b]).unwrap();
    let second = db.create_conflict_record("claims", &[b]).unwrap();
    assert_eq!(first, ConflictId::new(1));
    assert_eq!(second, ConflictId::new(2));
    assert_eq!(db.conflict_records("claims").unwrap().len(), 2);
}

#[test]
fn fixed_judge_enrichment_twice_adds_nothing_the_second_time() {
    let mut db = claims_db();
    let a = put(&mut db, 1, "alpha");
    let b = put(&mut db, 2, "beta");
    let judge = FixedSemanticJudge::default().with_pair_text("claim=alpha", "claim=beta", SemanticRelation::conflict());
    let first = db.enrich_row_semantic("claims", b, &[a], &judge).unwrap();
    assert_eq!(first.conflict_edges().len(), 1);
    let second = db.enrich_row_semantic("claims", b, &[a], &judge).unwrap();
    assert!(!second.has_semantic_effects());
    assert_eq!(db.conflict_edges("claims").unwrap().len(), 1);
    assert_eq!(db.conflict_records("claims").unwrap().len(), 1);
}

#[test]
fn named_rows_give_each_row_as_named_values_gives_it() {
    let mut db = claims_db();
    put(&mut db, 1, "alpha");
    put(&mut db, 2, "beta");
    let table = db.table("claims").unwrap();
    let named = db.named_rows("claims").unwrap();
    assert_eq!(named.len(), table.rows().len());
    for (i, row) in table.rows().iter().enumerate() {
        assert_eq!(named[i], row.as_named_values(table.schema()));
    }
}

#[test]
fn a_written_row_reads_back_and_leaves_the_others_alone() {
    let mut db = claims_db();
    let a = put(&mut db, 1, "alpha");
    let before = db.row("claims", a).unwrap().clone();
    assert!(db.row("claims", RowId::new(2)).is_err());
    let b = put(&mut db, 2, "beta");
    assert_eq!(b, RowId::new(2));
    assert_eq!(
        db.row("claims", b).unwrap().values(),
        &[Value::Text("p".to_owned()), Value::Int64(2), Value::Text("beta".to_owned())]
    );
    assert_eq!(db.row("claims", a).unwrap(), &before);
}
