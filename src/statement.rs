//! The statements a session accepts, the failures it reports and the rows it
//! hands back.
use vstd::prelude::*;

verus! {

/// The kind of a named schema object.
#[derive(Clone, Copy, Debug, PartialEq, Eq, Structural)]
pub enum ObjectKind {
    Table,
    View,
}

/// What a failure is about.
#[derive(Clone, Copy, Debug, PartialEq, Eq, Structural)]
pub enum Entity {
    Database,
    Table,
    View,
    Column,
    /// An object that a view's query reads from.
    Object,
}

/// The failures a statement can end with. None of them ends the session.
#[derive(Clone, Debug, PartialEq, Eq)]
pub enum Error {
    NoDatabaseSelected,
    NotFound { entity: Entity, name: String },
    AlreadyExists { entity: Entity, name: String },
    Unsupported { what: String },
    /// The store cannot take another row (its ids are used up).
    StoreUnavailable,
    /// A delete that a view dependency restricts.
    ConstraintViolation,
}

/// One column of a `CREATE TABLE` or of `ALTER TABLE ... ADD COLUMN`.
#[derive(Clone, Debug, PartialEq, Eq)]
pub struct ColumnDef {
    pub name: String,
    /// The data type, as rendered text.
    pub data_type: String,
    pub is_primary_key: bool,
}

/// One operation of an `ALTER TABLE`.
#[derive(Clone, Debug, PartialEq, Eq)]
pub enum AlterOperation {
    AddColumn { column: ColumnDef },
    DropColumn { name: String },
    /// Any other operation, by its text.
    Other { what: String },
}

/// The defining query of a view: its canonical text, and the names of the
/// objects it reads from, in the order they occur.
#[derive(Clone, Debug, PartialEq, Eq)]
pub struct ViewQuery {
    pub definition: String,
    pub references: Vec<String>,
}

/// A parsed statement.
#[derive(Clone, Debug, PartialEq, Eq)]
pub enum Statement {
    CreateDatabase { name: String },
    Use { name: String },
    CreateTable { name: String, columns: Vec<ColumnDef> },
    Drop { kind: ObjectKind, names: Vec<String> },
    AlterTable { name: String, operations: Vec<AlterOperation> },
    ShowTables,
    ExplainTable { name: String },
    CreateView { name: String, query: ViewQuery },
    /// Any other statement, by its text.
    Other { what: String },
}

/// One row of `EXPLAIN TABLE`: a column's name, its data type, and `PRI` for
/// a primary key column or the empty string.
#[derive(Clone, Debug, PartialEq, Eq)]
pub struct ExplainRow {
    pub name: String,
    pub data_type: String,
    pub key: String,
}

/// What a successful statement hands back.
#[derive(Clone, Debug, PartialEq, Eq)]
pub enum Output {
    Done,
    Tables(Vec<String>),
    Columns(Vec<ExplainRow>),
}

/// The key marker of `EXPLAIN TABLE` for a column.
pub open spec fn key_marker(is_primary_key: bool) -> Seq<char> {
    if is_primary_key {
        "PRI"@
    } else {
        ""@
    }
}

/// The entity that a statement on objects of `kind` is about.
pub open spec fn entity_of(kind: ObjectKind) -> Entity {
    match kind {
        ObjectKind::Table => Entity::Table,
        ObjectKind::View => Entity::View,
    }
}

pub fn entity_for(kind: ObjectKind) -> (r: Entity)
    ensures
        r == entity_of(kind),
{
    match kind {
        ObjectKind::Table => Entity::Table,
        ObjectKind::View => Entity::View,
    }
}

} // verus!
