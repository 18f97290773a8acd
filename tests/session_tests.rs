use toydb::catalog::Catalog;
use toydb::session::Session;
use toydb::statement::{
    AlterOperation, ColumnDef, Entity, Error, ExplainRow, ObjectKind, Output, Statement, ViewQuery,
};

fn s(text: &str) -> String {
    text.to_string()
}

fn col(name: &str, data_type: &str, is_primary_key: bool) -> ColumnDef {
    ColumnDef { name: s(name), data_type: s(data_type), is_primary_key }
}

fn row(name: &str, data_type: &str, key: &str) -> ExplainRow {
    ExplainRow { name: s(name), data_type: s(data_type), key: s(key) }
}

fn fresh() -> Session {
    Session::new(Catalog::new())
}

fn create_db(name: &str) -> Statement {
    Statement::CreateDatabase { name: s(name) }
}

fn create_table(name: &str, columns: Vec<ColumnDef>) -> Statement {
    Statement::CreateTable { name: s(name), columns }
}

fn create_view(name: &str, definition: &str, references: &[&str]) -> Statement {
    Statement::CreateView {
        name: s(name),
        query: ViewQuery {
            definition: s(definition),
            references: references.iter().map(|r| s(r)).collect(),
        },
    }
}

fn drop(kind: ObjectKind, names: &[&str]) -> Statement {
    Statement::Drop { kind, names: names.iter().map(|n| s(n)).collect() }
}

fn explain(name: &str) -> Statement {
    Statement::ExplainTable { name: s(name) }
}

fn users_session() -> Session {
    let mut session = fresh();
    session.handle(create_db("shop")).unwrap();
    session
        .handle(create_table("users", vec![col("id", "INT", true), col("name", "TEXT", false)]))
        .unwrap();
    session
}

fn not_found(entity: Entity, name: &str) -> Error {
    Error::NotFound { entity, name: s(name) }
}

fn already_exists(entity: Entity, name: &str) -> Error {
    Error::AlreadyExists { entity, name: s(name) }
}

#[test]
fn scenario_create_alter_explain() {
    let mut session = fresh();
    assert_eq!(session.current_db_name(), None);
    assert_eq!(session.handle(create_db("shop")), Ok(Output::Done));
    assert_eq!(session.current_db_name(), Some("shop"));
    session
        .handle(create_table("users", vec![col("id", "INT", true), col("name", "TEXT", false)]))
        .unwrap();
    let add = Statement::AlterTable {
        name: s("users"),
        operations: vec![AlterOperation::AddColumn { column: col("email", "TEXT", false) }],
    };
    assert_eq!(session.handle(add), Ok(Output::Done));
    assert_eq!(
        session.handle(explain("users")),
        Ok(Output::Columns(vec![
            row("id", "INT", "PRI"),
            row("name", "TEXT", ""),
            row("email", "TEXT", ""),
        ]))
    );
}

#[test]
fn scenario_view_records_dependency() {
    let mut session = users_session();
    assert_eq!(
        session.handle(create_view("active_users", "SELECT * FROM users", &["users"])),
        Ok(Output::Done)
    );
    let users = session.catalog.objects.iter().find(|o| o.name == "users").unwrap().id;
    let view = session.catalog.objects.iter().find(|o| o.name == "active_users").unwrap().id;
    assert_eq!(session.catalog.dependencies.len(), 1);
    assert_eq!(session.catalog.dependencies[0].view_id, view);
    assert_eq!(session.catalog.dependencies[0].dependent_object_id, users);
    assert_eq!(session.handle(Statement::ShowTables), Ok(Output::Tables(vec![s("users")])));
}

#[test]
fn scenario_use_missing_database() {
    let mut session = fresh();
    session.handle(create_db("shop")).unwrap();
    assert_eq!(
        session.handle(Statement::Use { name: s("nonexistent") }),
        Err(not_found(Entity::Database, "nonexistent"))
    );
    assert_eq!(session.current_db_name(), Some("shop"));
}

#[test]
fn use_switches_database() {
    let mut session = fresh();
    session.handle(create_db("a")).unwrap();
    session.handle(create_db("b")).unwrap();
    assert_eq!(session.current_db_name(), Some("a"));
    session.handle(Statement::Use { name: s("b") }).unwrap();
    assert_eq!(session.current_db_name(), Some("b"));
}

#[test]
fn duplicate_database_fails() {
    let mut session = fresh();
    session.handle(create_db("shop")).unwrap();
    assert_eq!(session.handle(create_db("shop")), Err(already_exists(Entity::Database, "shop")));
    assert_eq!(session.catalog.databases.len(), 1);
}

#[test]
fn duplicate_table_fails() {
    let mut session = users_session();
    assert_eq!(
        session.handle(create_table("users", vec![])),
        Err(already_exists(Entity::Table, "users"))
    );
}

#[test]
fn view_and_table_share_no_name() {
    let mut session = users_session();
    assert_eq!(
        session.handle(create_view("users", "SELECT * FROM users", &["users"])),
        Err(already_exists(Entity::View, "users"))
    );
    session.handle(create_view("v", "SELECT * FROM users", &["users"])).unwrap();
    assert_eq!(session.handle(create_table("v", vec![])), Err(already_exists(Entity::Table, "v")));
}

#[test]
fn same_table_in_two_databases() {
    let mut session = users_session();
    session.handle(create_db("other")).unwrap();
    session.handle(Statement::Use { name: s("other") }).unwrap();
    assert_eq!(
        session.handle(create_table("users", vec![col("id", "INT", true), col("name", "TEXT", false)])),
        Ok(Output::Done)
    );
    assert_eq!(session.handle(Statement::ShowTables), Ok(Output::Tables(vec![s("users")])));
}

#[test]
fn duplicate_column_rolls_back_table() {
    let mut session = fresh();
    session.handle(create_db("shop")).unwrap();
    assert_eq!(
        session.handle(create_table("t", vec![col("a", "INT", false), col("a", "TEXT", false)])),
        Err(already_exists(Entity::Column, "a"))
    );
    assert_eq!(session.handle(Statement::ShowTables), Ok(Output::Tables(vec![])));
    assert!(session.catalog.columns.is_empty());
}

#[test]
fn drop_table_cascades() {
    let mut session = users_session();
    assert_eq!(session.catalog.columns.len(), 2);
    assert_eq!(session.handle(drop(ObjectKind::Table, &["users"])), Ok(Output::Done));
    assert!(session.catalog.columns.is_empty());
    assert_eq!(session.handle(explain("users")), Err(not_found(Entity::Table, "users")));
}

#[test]
fn drop_table_restricted_by_view() {
    let mut session = users_session();
    session.handle(create_view("v", "SELECT * FROM users", &["users"])).unwrap();
    assert_eq!(session.handle(drop(ObjectKind::Table, &["users"])), Err(Error::ConstraintViolation));
    assert_eq!(session.handle(Statement::ShowTables), Ok(Output::Tables(vec![s("users")])));
    assert_eq!(session.handle(drop(ObjectKind::View, &["v"])), Ok(Output::Done));
    assert!(session.catalog.dependencies.is_empty());
    assert_eq!(session.handle(drop(ObjectKind::Table, &["users"])), Ok(Output::Done));
}

#[test]
fn drop_missing_rolls_back_earlier_names() {
    let mut session = users_session();
    assert_eq!(
        session.handle(drop(ObjectKind::Table, &["users", "ghost"])),
        Err(not_found(Entity::Table, "ghost"))
    );
    assert_eq!(session.handle(Statement::ShowTables), Ok(Output::Tables(vec![s("users")])));
    assert_eq!(session.catalog.columns.len(), 2);
}

#[test]
fn drop_view_by_table_kind_fails() {
    let mut session = users_session();
    session.handle(create_view("v", "SELECT * FROM users", &["users"])).unwrap();
    assert_eq!(session.handle(drop(ObjectKind::Table, &["v"])), Err(not_found(Entity::Table, "v")));
    assert_eq!(session.handle(drop(ObjectKind::View, &["users"])), Err(not_found(Entity::View, "users")));
}

#[test]
fn alter_is_atomic() {
    let mut session = users_session();
    let alter = Statement::AlterTable {
        name: s("users"),
        operations: vec![
            AlterOperation::AddColumn { column: col("x", "INT", false) },
            AlterOperation::DropColumn { name: s("y") },
        ],
    };
    assert_eq!(session.handle(alter), Err(not_found(Entity::Column, "y")));
    assert_eq!(
        session.handle(explain("users")),
        Ok(Output::Columns(vec![row("id", "INT", "PRI"), row("name", "TEXT", "")]))
    );
}

#[test]
fn alter_drop_column() {
    let mut session = users_session();
    let alter = Statement::AlterTable {
        name: s("users"),
        operations: vec![AlterOperation::DropColumn { name: s("name") }],
    };
    assert_eq!(session.handle(alter), Ok(Output::Done));
    assert_eq!(session.handle(explain("users")), Ok(Output::Columns(vec![row("id", "INT", "PRI")])));
}

#[test]
fn alter_drop_sees_only_columns_before_statement() {
    let mut session = users_session();
    let alter = Statement::AlterTable {
        name: s("users"),
        operations: vec![
            AlterOperation::AddColumn { column: col("x", "INT", false) },
            AlterOperation::DropColumn { name: s("x") },
        ],
    };
    assert_eq!(session.handle(alter), Err(not_found(Entity::Column, "x")));
}

#[test]
fn alter_add_existing_column_fails() {
    let mut session = users_session();
    let alter = Statement::AlterTable {
        name: s("users"),
        operations: vec![AlterOperation::AddColumn { column: col("id", "INT", false) }],
    };
    assert_eq!(session.handle(alter), Err(already_exists(Entity::Column, "id")));
}

#[test]
fn alter_missing_table_fails() {
    let mut session = users_session();
    let alter = Statement::AlterTable { name: s("ghost"), operations: vec![] };
    assert_eq!(session.handle(alter), Err(not_found(Entity::Table, "ghost")));
}

#[test]
fn alter_other_operation_unsupported() {
    let mut session = users_session();
    let alter = Statement::AlterTable {
        name: s("users"),
        operations: vec![
            AlterOperation::AddColumn { column: col("x", "INT", false) },
            AlterOperation::Other { what: s("RENAME TO people") },
        ],
    };
    assert_eq!(session.handle(alter), Err(Error::Unsupported { what: s("RENAME TO people") }));
    assert_eq!(session.catalog.columns.len(), 2);
}

#[test]
fn other_statement_unsupported() {
    let mut session = users_session();
    assert_eq!(
        session.handle(Statement::Other { what: s("SELECT 1") }),
        Err(Error::Unsupported { what: s("SELECT 1") })
    );
}

#[test]
fn no_database_selected() {
    let mut session = fresh();
    let statements = vec![
        create_table("t", vec![]),
        drop(ObjectKind::Table, &["t"]),
        drop(ObjectKind::View, &["t"]),
        Statement::AlterTable { name: s("t"), operations: vec![] },
        Statement::ShowTables,
        explain("t"),
        create_view("v", "SELECT 1", &[]),
    ];
    for stmt in statements {
        assert_eq!(session.handle(stmt), Err(Error::NoDatabaseSelected));
    }
    assert!(session.catalog.objects.is_empty());
    assert!(session.catalog.databases.is_empty());
}

#[test]
fn view_with_missing_reference_fails() {
    let mut session = users_session();
    assert_eq!(
        session.handle(create_view("v", "SELECT * FROM users JOIN ghost", &["users", "ghost"])),
        Err(not_found(Entity::Object, "ghost"))
    );
    assert_eq!(session.catalog.objects.len(), 1);
}

#[test]
fn view_reads_from_other_database() {
    let mut session = users_session();
    session.handle(create_db("other")).unwrap();
    session.handle(Statement::Use { name: s("other") }).unwrap();
    assert_eq!(session.handle(create_view("v", "SELECT * FROM users", &["users"])), Ok(Output::Done));
    let view = session.catalog.objects.iter().find(|o| o.name == "v").unwrap();
    assert_eq!(session.catalog.dependencies[0].view_id, view.id);
}

#[test]
fn view_reading_a_table_twice_fails() {
    let mut session = users_session();
    assert_eq!(
        session.handle(create_view("v", "SELECT * FROM users a JOIN users b", &["users", "users"])),
        Err(Error::ConstraintViolation)
    );
    assert_eq!(session.catalog.objects.len(), 1);
    assert!(session.catalog.dependencies.is_empty());
}

#[test]
fn explain_missing_table_fails() {
    let mut session = users_session();
    assert_eq!(session.handle(explain("ghost")), Err(not_found(Entity::Table, "ghost")));
}

#[test]
fn show_tables_keeps_creation_order() {
    let mut session = fresh();
    session.handle(create_db("d")).unwrap();
    session.handle(create_table("b", vec![])).unwrap();
    session.handle(create_table("a", vec![])).unwrap();
    session.handle(create_view("v", "SELECT * FROM a", &["a"])).unwrap();
    session.handle(create_table("c", vec![])).unwrap();
    assert_eq!(
        session.handle(Statement::ShowTables),
        Ok(Output::Tables(vec![s("b"), s("a"), s("c")]))
    );
}

#[test]
fn drop_current_database_clears_selection() {
    let mut session = fresh();
    session.handle(create_db("a")).unwrap();
    session.handle(create_db("b")).unwrap();
    assert_eq!(session.drop_database(s("b")), Ok(()));
    assert_eq!(session.current_db_name(), Some("a"));
    assert_eq!(session.drop_database(s("a")), Ok(()));
    assert_eq!(session.current_db_name(), None);
    assert_eq!(session.drop_database(s("a")), Err(not_found(Entity::Database, "a")));
}

#[test]
fn ids_are_never_reused() {
    let mut session = users_session();
    let first = session.catalog.objects[0].id;
    session.handle(drop(ObjectKind::Table, &["users"])).unwrap();
    session.handle(create_table("users", vec![])).unwrap();
    assert!(session.catalog.objects[0].id > first);
}

#[test]
fn exhausted_ids_fail() {
    let mut catalog = Catalog::new();
    catalog.next_id = u64::MAX;
    let mut session = Session::new(catalog);
    assert_eq!(session.handle(create_db("shop")), Err(Error::StoreUnavailable));
    assert_eq!(session.current_db_name(), None);
}

#[test]
fn drop_view_keeps_columns() {
    let mut session = users_session();
    session.handle(create_view("v", "SELECT * FROM users", &["users"])).unwrap();
    assert_eq!(session.handle(drop(ObjectKind::View, &["v"])), Ok(Output::Done));
    assert_eq!(session.catalog.columns.len(), 2);
    assert!(session.catalog.dependencies.is_empty());
    assert_eq!(
        session.handle(explain("users")),
        Ok(Output::Columns(vec![row("id", "INT", "PRI"), row("name", "TEXT", "")]))
    );
}

#[test]
fn explain_keeps_creation_order_after_changes() {
    let mut session = users_session();
    let alter = Statement::AlterTable {
        name: s("users"),
        operations: vec![
            AlterOperation::DropColumn { name: s("id") },
            AlterOperation::AddColumn { column: col("email", "TEXT", false) },
            AlterOperation::AddColumn { column: col("id", "BIGINT", true) },
        ],
    };
    assert_eq!(session.handle(alter), Ok(Output::Done));
    assert_eq!(
        session.handle(explain("users")),
        Ok(Output::Columns(vec![
            row("name", "TEXT", ""),
            row("email", "TEXT", ""),
            row("id", "BIGINT", "PRI"),
        ]))
    );
    let ids: Vec<u64> = session.catalog.columns.iter().map(|c| c.id).collect();
    assert!(ids.windows(2).all(|w| w[0] < w[1]));
}

#[test]
fn view_over_two_tables_records_both() {
    let mut session = users_session();
    session.handle(create_table("orders", vec![col("id", "INT", true)])).unwrap();
    assert_eq!(
        session.handle(create_view("v", "SELECT * FROM users JOIN orders", &["users", "orders"])),
        Ok(Output::Done)
    );
    let id_of = |n: &str| session.catalog.objects.iter().find(|o| o.name == n).unwrap().id;
    let (users, orders, view) = (id_of("users"), id_of("orders"), id_of("v"));
    assert_eq!(session.catalog.dependencies.len(), 2);
    assert_eq!(session.catalog.dependencies[0].view_id, view);
    assert_eq!(session.catalog.dependencies[0].dependent_object_id, users);
    assert_eq!(session.catalog.dependencies[1].dependent_object_id, orders);
}
