use anvildb::mvcc::MvccCatalog;
use anvildb::sql_ast::{
    ColumnName, ComparisonOp, KvExecutionPlan, LogicalPlan, Predicate, SqlStatement, TableName,
};
use anvildb::sql_parser::parse_statement;
use anvildb::sql_plan::{
    column_headers, evaluate_predicate, lower_plan_for_kv, plan_sql, plan_statement, project_row,
};

#[test]
fn parses_insert_delete_update_and_select_statements() {
    let insert = parse_statement("INSERT INTO kv (key, value) VALUES ('planet', 'saturn');")
        .expect("insert should parse");
    assert_eq!(
        insert,
        SqlStatement::Insert {
            table: TableName::Kv,
            key: "planet".to_owned(),
            value: "saturn".to_owned(),
        }
    );

    let delete =
        parse_statement("DELETE FROM kv WHERE key = 'planet'").expect("delete should parse");
    assert_eq!(
        delete,
        SqlStatement::Delete {
            table: TableName::Kv,
            predicate: Predicate {
                column: ColumnName::Key,
                op: ComparisonOp::Eq,
                value: "planet".to_owned(),
            },
        }
    );

    let update = parse_statement("UPDATE kv SET value = 'gas' WHERE key != 'moon'")
        .expect("update should parse");
    assert_eq!(
        update,
        SqlStatement::Update {
            table: TableName::Kv,
            value: "gas".to_owned(),
            predicate: Predicate {
                column: ColumnName::Key,
                op: ComparisonOp::NotEq,
                value: "moon".to_owned(),
            },
        }
    );

    let select = parse_statement("SELECT key, value FROM kv WHERE value != 'cold'")
        .expect("select should parse");
    assert_eq!(
        select,
        SqlStatement::Select {
            table: TableName::Kv,
            projections: vec![ColumnName::Key, ColumnName::Value],
            predicate: Some(Predicate {
                column: ColumnName::Value,
                op: ComparisonOp::NotEq,
                value: "cold".to_owned(),
            }),
        }
    );
}

#[test]
fn parse_rejects_unsupported_forms() {
    let unsupported =
        parse_statement("CREATE TABLE kv (key TEXT)").expect_err("ddl should be rejected");
    assert!(unsupported
        .to_string()
        .contains("unsupported SQL statement"));

    let bad_update = parse_statement("UPDATE kv SET key = 'x' WHERE key = 'y'")
        .expect_err("key assignment should be rejected");
    assert!(bad_update
        .to_string()
        .contains("only `SET value = ...` is supported"));
}

#[test]
fn planner_builds_tree_and_lowering_extracts_kv_plan() {
    let select_plan = plan_sql("SELECT value FROM kv WHERE key = 'planet'")
        .expect("select plan should build");
    assert!(matches!(select_plan, LogicalPlan::Projection { .. }));

    let lowered = lower_plan_for_kv(&select_plan).expect("lowering should succeed");
    assert_eq!(
        lowered,
        KvExecutionPlan::Select {
            columns: vec![ColumnName::Value],
            predicate: Some(Predicate {
                column: ColumnName::Key,
                op: ComparisonOp::Eq,
                value: "planet".to_owned(),
            }),
        }
    );

    let insert_stmt =
        parse_statement("INSERT INTO kv (key, value) VALUES ('a', '1')").expect("insert");
    let insert_plan = plan_statement(insert_stmt);
    let lowered_insert = lower_plan_for_kv(&insert_plan).expect("insert lowering");
    assert_eq!(
        lowered_insert,
        KvExecutionPlan::Insert {
            key: "a".to_owned(),
            value: "1".to_owned(),
        }
    );
}

#[test]
fn predicate_and_projection_helpers_work() {
    let predicate = Predicate {
        column: ColumnName::Value,
        op: ComparisonOp::NotEq,
        value: "earth".to_owned(),
    };
    assert!(evaluate_predicate("planet", "saturn", &predicate));
    assert!(!evaluate_predicate("planet", "earth", &predicate));

    let row = project_row("planet", "saturn", &[ColumnName::Key, ColumnName::Value]);
    assert_eq!(row, vec!["planet".to_owned(), "saturn".to_owned()]);
    assert_eq!(
        column_headers(&[ColumnName::Key, ColumnName::Value]),
        vec!["key".to_owned(), "value".to_owned()]
    );
}

#[test]
fn mvcc_catalog_tracks_version_visibility() {
    let mut catalog = MvccCatalog::default();
    let txn1 = catalog.begin_transaction(1);
    let txn2 = catalog.begin_transaction(2);
    assert_eq!(txn1.id, 1);
    assert_eq!(txn2.id, 2);

    catalog.apply_committed_put("planet".to_owned(), "earth".to_owned(), 10, txn1.id);
    catalog.apply_committed_put("planet".to_owned(), "saturn".to_owned(), 20, txn2.id);
    catalog.apply_committed_delete("planet".to_owned(), 30, txn2.id);

    assert_eq!(catalog.read_visible("planet", 9), None);
    assert_eq!(catalog.read_visible("planet", 10), Some("earth"));
    assert_eq!(catalog.read_visible("planet", 25), Some("saturn"));
    assert_eq!(catalog.read_visible("planet", 35), None);

    let chain = catalog.chain("planet").expect("chain should exist");
    assert_eq!(chain.versions().len(), 3);
    assert_eq!(chain.versions()[0].end_ts, Some(20));
    assert_eq!(chain.versions()[1].end_ts, Some(30));
    assert_eq!(chain.versions()[2].end_ts, None);
}
