//! A session: the selected database, and one handler per statement kind.
//! Each statement changes the catalog as one unit: where it fails, the
//! catalog is left as it was.
use vstd::prelude::*;

use crate::catalog::{
    columns_of, database_key, table_names_in, Catalog, CatalogModel, Column, Database, ObjectBody,
    ViewDependency,
};
use crate::statement::{
    key_marker, AlterOperation, ColumnDef, Entity, Error, ExplainRow, ObjectKind, Output,
    Statement, ViewQuery,
};

verus! {

/// What a session holds: the catalog and the selected database.
pub struct SessionModel {
    pub catalog: CatalogModel,
    pub current: Option<Database>,
}

/// The index among `columns` of the first column called `name`.
pub open spec fn column_index(columns: Seq<Column>, name: Seq<char>) -> int {
    choose|i: int|
        0 <= i < columns.len() && columns[i].name@ == name && forall|j: int|
            0 <= j < i ==> columns[j].name@ != name
}

pub open spec fn has_column_named(columns: Seq<Column>, name: Seq<char>) -> bool {
    exists|i: int| 0 <= i < columns.len() && columns[i].name@ == name
}

/// The rows of `EXPLAIN TABLE` for `columns`.
pub open spec fn explains(rows: Seq<ExplainRow>, columns: Seq<Column>) -> bool {
    &&& rows.len() == columns.len()
    &&& forall|i: int|
        0 <= i < rows.len() ==> rows[i].name == columns[i].name && rows[i].data_type
            == columns[i].data_type && rows[i].key@ == key_marker(columns[i].is_primary_key)
}

pub open spec fn unit_of(r: Result<Output, Error>) -> Result<(), Error> {
    match r {
        Ok(_) => Ok(()),
        Err(e) => Err(e),
    }
}

impl CatalogModel {
    /// The index of the database called `name` (meaningful where `has_database`).
    pub open spec fn database_index(self, name: Seq<char>) -> int {
        choose|i: int| 0 <= i < self.databases.len() && self.databases[i].name@ == name
    }

    /// The id of the table of `db` called `name` (meaningful where it exists).
    pub open spec fn table_id(self, db: u64, name: Seq<char>) -> u64 {
        self.objects[self.object_index(db, ObjectKind::Table, name)].id
    }

    /// One operation of `ALTER TABLE` on table `table_id`; `snapshot` holds the
    /// table's columns as they were before the statement.
    pub open spec fn with_alteration(
        self,
        table_id: u64,
        snapshot: Seq<Column>,
        op: AlterOperation,
    ) -> Result<CatalogModel, Error> {
        match op {
            AlterOperation::AddColumn { column } => self.with_column(table_id, column),
            AlterOperation::DropColumn { name } => {
                if has_column_named(snapshot, name@) {
                    Ok(self.without_column(snapshot[column_index(snapshot, name@)].id))
                } else {
                    Err(Error::NotFound { entity: Entity::Column, name })
                }
            },
            AlterOperation::Other { what } => Err(Error::Unsupported { what }),
        }
    }

    /// The operations one after the other; the first failure stops it.
    pub open spec fn with_alterations(
        self,
        table_id: u64,
        snapshot: Seq<Column>,
        ops: Seq<AlterOperation>,
    ) -> Result<CatalogModel, Error>
        decreases ops.len(),
    {
        if ops.len() == 0 {
            Ok(self)
        } else {
            match self.with_alterations(table_id, snapshot, ops.drop_last()) {
                Ok(m) => m.with_alteration(table_id, snapshot, ops.last()),
                Err(e) => Err(e),
            }
        }
    }

    /// The id of the first object, over all databases, called `name`.
    pub open spec fn named_id(self, name: Seq<char>) -> u64 {
        self.objects[self.first_named(name)].id
    }

    /// The position of the first of `names` that no object is called.
    pub open spec fn first_unknown(self, names: Seq<String>) -> int {
        choose|k: int|
            0 <= k < names.len() && !self.has_named(names[k]@) && forall|j: int|
                0 <= j < k ==> self.has_named(names[j]@)
    }

    /// The ids of the objects that `names` refer to: for each name, the
    /// first object of any database so called. It fails on the first name
    /// that no object has.
    pub open spec fn resolve(self, names: Seq<String>) -> Result<Seq<u64>, Error> {
        if forall|k: int| 0 <= k < names.len() ==> self.has_named(#[trigger] names[k]@) {
            Ok(Seq::new(names.len(), |k: int| self.named_id(names[k]@)))
        } else {
            Err(Error::NotFound { entity: Entity::Object, name: names[self.first_unknown(names)] })
        }
    }
}

impl SessionModel {
    pub open spec fn wf(self) -> bool {
        &&& self.catalog.wf()
        &&& self.current matches Some(d) ==> self.catalog.databases.contains(d)
    }

    /// Where the catalog changed as `c` says, the session with it; else the
    /// session as it was, and the failure.
    pub open spec fn commit(self, c: Result<CatalogModel, Error>) -> (SessionModel, Result<(), Error>) {
        match c {
            Ok(m) => (SessionModel { catalog: m, ..self }, Ok(())),
            Err(e) => (self, Err(e)),
        }
    }

    pub open spec fn create_database(self, name: String) -> (SessionModel, Result<(), Error>) {
        match self.catalog.with_database(name) {
            Ok(m) => (
                SessionModel {
                    catalog: m,
                    current: if self.current is None {
                        Some(Database { id: self.catalog.next_id, name })
                    } else {
                        self.current
                    },
                },
                Ok(()),
            ),
            Err(e) => (self, Err(e)),
        }
    }

    pub open spec fn use_database(self, name: String) -> (SessionModel, Result<(), Error>) {
        if self.catalog.has_database(name@) {
            (
                SessionModel {
                    current: Some(self.catalog.databases[self.catalog.database_index(name@)]),
                    ..self
                },
                Ok(()),
            )
        } else {
            (self, Err(Error::NotFound { entity: Entity::Database, name }))
        }
    }

    pub open spec fn create_table(self, name: String, columns: Seq<ColumnDef>) -> (
        SessionModel,
        Result<(), Error>,
    ) {
        match self.current {
            None => (self, Err(Error::NoDatabaseSelected)),
            Some(db) => self.commit(
                match self.catalog.with_object(db.id, name, ObjectBody::Table) {
                    Ok(m) => m.with_columns(self.catalog.next_id, columns),
                    Err(e) => Err(e),
                },
            ),
        }
    }

    pub open spec fn drop_objects(self, kind: ObjectKind, names: Seq<String>) -> (
        SessionModel,
        Result<(), Error>,
    ) {
        match self.current {
            None => (self, Err(Error::NoDatabaseSelected)),
            Some(db) => self.commit(self.catalog.without_objects(db.id, kind, names)),
        }
    }

    pub open spec fn alter_table(self, name: String, ops: Seq<AlterOperation>) -> (
        SessionModel,
        Result<(), Error>,
    ) {
        match self.current {
            None => (self, Err(Error::NoDatabaseSelected)),
            Some(db) => if !self.catalog.has_object(db.id, ObjectKind::Table, name@) {
                (self, Err(Error::NotFound { entity: Entity::Table, name }))
            } else {
                let id = self.catalog.table_id(db.id, name@);
                self.commit(
                    self.catalog.with_alterations(id, columns_of(self.catalog.columns, id), ops),
                )
            },
        }
    }

    pub open spec fn show_tables(self) -> (SessionModel, Result<(), Error>) {
        match self.current {
            None => (self, Err(Error::NoDatabaseSelected)),
            Some(db) => (self, Ok(())),
        }
    }

    pub open spec fn explain_table(self, name: String) -> (SessionModel, Result<(), Error>) {
        match self.current {
            None => (self, Err(Error::NoDatabaseSelected)),
            Some(db) => if self.catalog.has_object(db.id, ObjectKind::Table, name@) {
                (self, Ok(()))
            } else {
                (self, Err(Error::NotFound { entity: Entity::Table, name }))
            },
        }
    }

    pub open spec fn create_view(self, name: String, query: ViewQuery) -> (
        SessionModel,
        Result<(), Error>,
    ) {
        match self.current {
            None => (self, Err(Error::NoDatabaseSelected)),
            Some(db) => match self.catalog.resolve(query.references@) {
                Err(e) => (self, Err(e)),
                Ok(ids) => self.commit(
                    match self.catalog.with_object(
                        db.id,
                        name,
                        ObjectBody::View { definition: query.definition },
                    ) {
                        Ok(m) => m.with_dependencies(self.catalog.next_id, ids),
                        Err(e) => Err(e),
                    },
                ),
            },
        }
    }

    /// Deletes the database called `name`; where it is the selected one, no
    /// database is selected after it.
    pub open spec fn drop_database(self, name: String) -> (SessionModel, Result<(), Error>) {
        if self.catalog.has_database(name@) {
            (
                SessionModel {
                    catalog: self.catalog.without_database(name@),
                    current: match self.current {
                        Some(d) => if d.name@ == name@ {
                            None
                        } else {
                            Some(d)
                        },
                        None => None,
                    },
                },
                Ok(()),
            )
        } else {
            (self, Err(Error::NotFound { entity: Entity::Database, name }))
        }
    }

    /// What a statement does to the session, and whether it succeeds.
    pub open spec fn step(self, stmt: Statement) -> (SessionModel, Result<(), Error>) {
        match stmt {
            Statement::CreateDatabase { name } => self.create_database(name),
            Statement::Use { name } => self.use_database(name),
            Statement::CreateTable { name, columns } => self.create_table(name, columns@),
            Statement::Drop { kind, names } => self.drop_objects(kind, names@),
            Statement::AlterTable { name, operations } => self.alter_table(name, operations@),
            Statement::ShowTables => self.show_tables(),
            Statement::ExplainTable { name } => self.explain_table(name),
            Statement::CreateView { name, query } => self.create_view(name, query),
            Statement::Other { what } => (self, Err(Error::Unsupported { what })),
        }
    }

    /// What a successful statement hands back.
    pub open spec fn output_of(self, stmt: Statement, out: Output) -> bool {
        match stmt {
            Statement::ShowTables => match self.current {
                Some(db) => out matches Output::Tables(names) && names@ == table_names_in(
                    self.catalog.objects,
                    db.id,
                ),
                None => false,
            },
            Statement::ExplainTable { name } => match self.current {
                Some(db) => out matches Output::Columns(rows) && explains(
                    rows@,
                    columns_of(self.catalog.columns, self.catalog.table_id(db.id, name@)),
                ),
                None => false,
            },
            _ => out == Output::Done,
        }
    }
}

/// A session over a catalog.
pub struct Session {
    pub catalog: Catalog,
    pub current: Option<Database>,
}

impl View for Session {
    type V = SessionModel;

    open spec fn view(&self) -> SessionModel {
        SessionModel { catalog: self.catalog@, current: self.current }
    }
}

impl Session {
    /// A session over `catalog`, with no database selected.
    pub fn new(catalog: Catalog) -> (r: Session)
        requires
            catalog@.wf(),
        ensures
            r@.wf(),
            r@.catalog == catalog@,
            r@.current is None,
    {
        Session { catalog, current: None }
    }

    /// The name of the selected database.
    pub fn current_db_name(&self) -> (r: Option<&str>)
        ensures
            match self.current {
                Some(d) => r matches Some(s) && s@ == d.name@,
                None => r is None,
            },
    {
        match &self.current {
            Some(d) => Some(d.name.as_str()),
            None => None,
        }
    }

    fn current_db_id(&self) -> (r: Result<u64, Error>)
        ensures
            match self.current {
                Some(d) => r == Ok::<u64, Error>(d.id),
                None => r == Err::<u64, Error>(Error::NoDatabaseSelected),
            },
    {
        match &self.current {
            Some(d) => Ok(d.id),
            None => Err(Error::NoDatabaseSelected),
        }
    }

    /// `CREATE DATABASE`: the first database of a session without one
    /// becomes the selected one.
    pub fn create_database(&mut self, name: String) -> (r: Result<(), Error>)
        requires
            old(self)@.wf(),
        ensures
            final(self)@.wf(),
            (final(self)@, r) == old(self)@.create_database(name),
    {
        proof {
            reveal(CatalogModel::wf);
        }
        let ghost before = self@;
        match self.catalog.insert_database(name) {
            Ok(db) => {
                proof {
                    let dbs = self@.catalog.databases;
                    assert(dbs[dbs.len() - 1] == db);
                    assert(dbs.contains(db));
                    if before.current is Some {
                        let d = before.current.unwrap();
                        let k = choose|k: int|
                            0 <= k < before.catalog.databases.len() && before.catalog.databases[k]
                                == d;
                        assert(dbs[k] == d);
                    }
                }
                if self.current.is_none() {
                    self.current = Some(db);
                }
                Ok(())
            },
            Err(e) => Err(e),
        }
    }

    /// `USE`: selects the database called `name`.
    pub fn use_database(&mut self, name: String) -> (r: Result<(), Error>)
        requires
            old(self)@.wf(),
        ensures
            final(self)@.wf(),
            (final(self)@, r) == old(self)@.use_database(name),
    {
        proof {
            reveal(CatalogModel::wf);
        }
        match self.catalog.find_database(&name) {
            Some(i) => {
                proof {
                    let m = self@.catalog;
                    assert(m.has_database(name@));
                    let k = m.database_index(name@);
                    if k != i {
                        assert(database_key(m.databases[k]) != database_key(
                            m.databases[i as int],
                        ));
                    }
                    assert(m.databases.contains(m.databases[i as int]));
                }
                self.current = Some(self.catalog.databases[i].duplicate());
                Ok(())
            },
            None => Err(Error::NotFound { entity: Entity::Database, name }),
        }
    }

    /// Deletes the database called `name`. The objects of the database are
    /// kept: nothing in the catalog ties them to it.
    pub fn drop_database(&mut self, name: String) -> (r: Result<(), Error>)
        requires
            old(self)@.wf(),
        ensures
            final(self)@.wf(),
            (final(self)@, r) == old(self)@.drop_database(name),
    {
        proof {
            reveal(CatalogModel::wf);
        }
        let ghost before = self@;
        if self.catalog.find_database(&name).is_none() {
            return Err(Error::NotFound { entity: Entity::Database, name });
        }
        self.catalog.delete_database(&name);
        let clear = match &self.current {
            Some(d) => d.name == name,
            None => false,
        };
        if clear {
            self.current = None;
        }
        proof {
            if self.current is Some {
                let d = self.current.unwrap();
                let dbs = before.catalog.databases;
                let keep = |x: Database| x.name@ != name@;
                let k = choose|k: int| 0 <= k < dbs.len() && dbs[k] == d;
                dbs.lemma_filter_contains(keep, k);
            }
        }
        Ok(())
    }

    /// `CREATE TABLE`: adds the table to the selected database, then its
    /// columns in order.
    pub fn create_table(&mut self, name: String, columns: Vec<ColumnDef>) -> (r: Result<(), Error>)
        requires
            old(self)@.wf(),
        ensures
            final(self)@.wf(),
            (final(self)@, r) == old(self)@.create_table(name, columns@),
    {
        let db = match self.current_db_id() {
            Ok(id) => id,
            Err(e) => return Err(e),
        };
        let ghost before = self@;
        let ghost table_name = name;
        let snapshot = self.catalog.duplicate();
        let table_id = match self.catalog.insert_object(db, name, ObjectBody::Table) {
            Ok(id) => id,
            Err(e) => return Err(e),
        };
        let ghost created = self@.catalog;
        proof {
            let n = (created.objects.len() - 1) as int;
            assert(created.objects[n].id == table_id);
            assert(created.is_object_of_kind(table_id, ObjectKind::Table));
        }
        let mut i: usize = 0;
        while i < columns.len()
            invariant
                i <= columns@.len(),
                self.catalog@.wf(),
                snapshot@ == before.catalog,
                before == old(self)@,
                before.wf(),
                before.current matches Some(d) && d.id == db,
                before.catalog.with_object(db, table_name, ObjectBody::Table) == Ok::<
                    CatalogModel,
                    Error,
                >(created),
                table_id == before.catalog.next_id,
                table_name == name,
                self.current == before.current,
                self.catalog@.databases == before.catalog.databases,
                self.catalog@.is_object_of_kind(table_id, ObjectKind::Table),
                created.with_columns(table_id, columns@.subrange(0, i as int)) == Ok::<
                    CatalogModel,
                    Error,
                >(self.catalog@),
            decreases columns@.len() - i,
        {
            assert(columns@.subrange(0, i + 1).drop_last() =~= columns@.subrange(0, i as int));
            match self.catalog.insert_column(table_id, &columns[i]) {
                Ok(()) => {},
                Err(e) => {
                    proof {
                        lemma_columns_fail(created, table_id, columns@, i as int);
                    }
                    self.catalog = snapshot;
                    return Err(e);
                },
            }
            i = i + 1;
        }
        assert(columns@.subrange(0, columns@.len() as int) =~= columns@);
        Ok(())
    }

    /// `DROP TABLE` / `DROP VIEW`: deletes the objects of the selected
    /// database one after the other.
    pub fn drop_objects(&mut self, kind: ObjectKind, names: Vec<String>) -> (r: Result<(), Error>)
        requires
            old(self)@.wf(),
        ensures
            final(self)@.wf(),
            (final(self)@, r) == old(self)@.drop_objects(kind, names@),
    {
        let db = match self.current_db_id() {
            Ok(id) => id,
            Err(e) => return Err(e),
        };
        let ghost before = self@;
        let snapshot = self.catalog.duplicate();
        let mut i: usize = 0;
        while i < names.len()
            invariant
                i <= names@.len(),
                self.catalog@.wf(),
                snapshot@ == before.catalog,
                before == old(self)@,
                before.wf(),
                before.current matches Some(d) && d.id == db,
                self.current == before.current,
                self.catalog@.databases == before.catalog.databases,
                before.catalog.without_objects(db, kind, names@.subrange(0, i as int)) == Ok::<
                    CatalogModel,
                    Error,
                >(self.catalog@),
            decreases names@.len() - i,
        {
            assert(names@.subrange(0, i + 1).drop_last() =~= names@.subrange(0, i as int));
            match self.catalog.delete_object(db, kind, &names[i]) {
                Ok(()) => {},
                Err(e) => {
                    proof {
                        lemma_drops_fail(before.catalog, db, kind, names@, i as int);
                    }
                    self.catalog = snapshot;
                    return Err(e);
                },
            }
            i = i + 1;
        }
        assert(names@.subrange(0, names@.len() as int) =~= names@);
        Ok(())
    }

    /// `ALTER TABLE`: applies the operations in order to a table of the
    /// selected database. `DROP COLUMN` finds its column among those the
    /// table had before the statement.
    pub fn alter_table(&mut self, name: String, operations: Vec<AlterOperation>) -> (r: Result<
        (),
        Error,
    >)
        requires
            old(self)@.wf(),
        ensures
            final(self)@.wf(),
            (final(self)@, r) == old(self)@.alter_table(name, operations@),
    {
        let db = match self.current_db_id() {
            Ok(id) => id,
            Err(e) => return Err(e),
        };
        let idx = match self.catalog.find_object(db, ObjectKind::Table, &name) {
            Some(i) => i,
            None => return Err(Error::NotFound { entity: Entity::Table, name }),
        };
        let table_id = self.catalog.objects[idx].id;
        proof {
            assert(self@.catalog.objects[idx as int].id == table_id);
        }
        let loaded = self.catalog.table_columns(table_id);
        let snapshot = self.catalog.duplicate();
        match apply_alterations(&mut self.catalog, table_id, &loaded, &operations) {
            Ok(()) => Ok(()),
            Err(e) => {
                self.catalog = snapshot;
                Err(e)
            },
        }
    }

    /// `SHOW TABLES`: the names of the tables of the selected database, in
    /// the catalog's order; views are not listed.
    pub fn show_tables(&self) -> (r: Result<Vec<String>, Error>)
        ensures
            match self.current {
                Some(d) => r matches Ok(names) && names@ == table_names_in(self@.catalog.objects, d.id),
                None => r == Err::<Vec<String>, Error>(Error::NoDatabaseSelected),
            },
    {
        let db = match self.current_db_id() {
            Ok(id) => id,
            Err(e) => return Err(e),
        };
        Ok(self.catalog.table_names(db))
    }

    /// `EXPLAIN TABLE`: one row per column of a table of the selected
    /// database.
    pub fn explain_table(&self, name: String) -> (r: Result<Vec<ExplainRow>, Error>)
        requires
            self@.wf(),
        ensures
            (self@, unit_of_rows(r)) == self@.explain_table(name),
            r matches Ok(rows) ==> self.current matches Some(d) && explains(
                rows@,
                columns_of(self@.catalog.columns, self@.catalog.table_id(d.id, name@)),
            ),
    {
        let db = match self.current_db_id() {
            Ok(id) => id,
            Err(e) => return Err(e),
        };
        let idx = match self.catalog.find_object(db, ObjectKind::Table, &name) {
            Some(i) => i,
            None => return Err(Error::NotFound { entity: Entity::Table, name }),
        };
        let columns = self.catalog.table_columns(self.catalog.objects[idx].id);
        let mut rows: Vec<ExplainRow> = Vec::new();
        let mut i: usize = 0;
        while i < columns.len()
            invariant
                i <= columns@.len(),
                rows@.len() == i,
                forall|k: int|
                    0 <= k < i ==> rows@[k].name == columns@[k].name && rows@[k].data_type
                        == columns@[k].data_type && rows@[k].key@ == key_marker(
                        columns@[k].is_primary_key,
                    ),
            decreases columns@.len() - i,
        {
            let c = &columns[i];
            let key = if c.is_primary_key {
                "PRI".to_owned()
            } else {
                "".to_owned()
            };
            rows.push(ExplainRow { name: c.name.clone(), data_type: c.data_type.clone(), key });
            i = i + 1;
        }
        Ok(rows)
    }

    /// `CREATE VIEW`: finds the objects the query reads from (in any
    /// database), then adds the view to the selected database and records
    /// what it reads from.
    pub fn create_view(&mut self, name: String, query: ViewQuery) -> (r: Result<(), Error>)
        requires
            old(self)@.wf(),
        ensures
            final(self)@.wf(),
            (final(self)@, r) == old(self)@.create_view(name, query),
    {
        let db = match self.current_db_id() {
            Ok(id) => id,
            Err(e) => return Err(e),
        };
        let ghost before = self@;
        let ids = match resolve_references(&self.catalog, &query.references) {
            Ok(ids) => ids,
            Err(e) => return Err(e),
        };
        let snapshot = self.catalog.duplicate();
        let view_id = match self.catalog.insert_object(
            db,
            name,
            ObjectBody::View { definition: query.definition },
        ) {
            Ok(id) => id,
            Err(e) => return Err(e),
        };
        proof {
            let created = self@.catalog;
            let n = (created.objects.len() - 1) as int;
            assert(created.objects[n].id == view_id);
            assert forall|k: int| 0 <= k < ids@.len() implies created.is_object(
                #[trigger] ids@[k],
            ) by {
                let q = choose|q: int|
                    0 <= q < before.catalog.objects.len() && before.catalog.objects[q].id
                        == ids@[k];
                assert(created.objects[q] == before.catalog.objects[q]);
            }
        }
        match add_dependencies(&mut self.catalog, view_id, &ids) {
            Ok(()) => Ok(()),
            Err(e) => {
                self.catalog = snapshot;
                Err(e)
            },
        }
    }

    /// Runs one statement.
    pub fn handle(&mut self, stmt: Statement) -> (r: Result<Output, Error>)
        requires
            old(self)@.wf(),
        ensures
            final(self)@.wf(),
            (final(self)@, unit_of(r)) == old(self)@.step(stmt),
            r matches Ok(out) ==> old(self)@.output_of(stmt, out),
    {
        match stmt {
            Statement::CreateDatabase { name } => match self.create_database(name) {
                Ok(()) => Ok(Output::Done),
                Err(e) => Err(e),
            },
            Statement::Use { name } => match self.use_database(name) {
                Ok(()) => Ok(Output::Done),
                Err(e) => Err(e),
            },
            Statement::CreateTable { name, columns } => match self.create_table(name, columns) {
                Ok(()) => Ok(Output::Done),
                Err(e) => Err(e),
            },
            Statement::Drop { kind, names } => match self.drop_objects(kind, names) {
                Ok(()) => Ok(Output::Done),
                Err(e) => Err(e),
            },
            Statement::AlterTable { name, operations } => match self.alter_table(name, operations) {
                Ok(()) => Ok(Output::Done),
                Err(e) => Err(e),
            },
            Statement::ShowTables => match self.show_tables() {
                Ok(names) => Ok(Output::Tables(names)),
                Err(e) => Err(e),
            },
            Statement::ExplainTable { name } => match self.explain_table(name) {
                Ok(rows) => Ok(Output::Columns(rows)),
                Err(e) => Err(e),
            },
            Statement::CreateView { name, query } => match self.create_view(name, query) {
                Ok(()) => Ok(Output::Done),
                Err(e) => Err(e),
            },
            Statement::Other { what } => Err(Error::Unsupported { what }),
        }
    }
}

/// One operation of `ALTER TABLE` on table `table_id`, whose columns before
/// the statement are `loaded`. Where it fails, the caller rolls back.
fn apply_alteration(
    catalog: &mut Catalog,
    table_id: u64,
    loaded: &Vec<Column>,
    op: &AlterOperation,
) -> (r: Result<(), Error>)
    requires
        old(catalog)@.wf(),
        old(catalog)@.is_object_of_kind(table_id, ObjectKind::Table),
    ensures
        final(catalog)@.wf(),
        final(catalog)@.databases == old(catalog)@.databases,
        final(catalog)@.objects == old(catalog)@.objects,
        match old(catalog)@.with_alteration(table_id, loaded@, *op) {
            Ok(m) => r == Ok::<(), Error>(()) && final(catalog)@ == m,
            Err(e) => r == Err::<(), Error>(e),
        },
{
    match op {
        AlterOperation::AddColumn { column } => catalog.insert_column(table_id, column),
        AlterOperation::DropColumn { name } => {
            match find_column(loaded, name) {
                Some(j) => {
                    catalog.delete_column(loaded[j].id);
                    Ok(())
                },
                None => Err(Error::NotFound { entity: Entity::Column, name: name.clone() }),
            }
        },
        AlterOperation::Other { what } => Err(Error::Unsupported { what: what.clone() }),
    }
}

/// The operations of `ALTER TABLE` one after the other, as
/// `with_alterations` says. Where one fails, the caller rolls back.
fn apply_alterations(
    catalog: &mut Catalog,
    table_id: u64,
    loaded: &Vec<Column>,
    ops: &Vec<AlterOperation>,
) -> (r: Result<(), Error>)
    requires
        old(catalog)@.wf(),
        old(catalog)@.is_object_of_kind(table_id, ObjectKind::Table),
    ensures
        final(catalog)@.wf(),
        final(catalog)@.databases == old(catalog)@.databases,
        match old(catalog)@.with_alterations(table_id, loaded@, ops@) {
            Ok(m) => r == Ok::<(), Error>(()) && final(catalog)@ == m,
            Err(e) => r == Err::<(), Error>(e),
        },
{
    let ghost start = catalog@;
    let mut i: usize = 0;
    while i < ops.len()
        invariant
            i <= ops@.len(),
            catalog@.wf(),
            start == old(catalog)@,
            catalog@.databases == start.databases,
            catalog@.objects == start.objects,
            start.is_object_of_kind(table_id, ObjectKind::Table),
            start.with_alterations(table_id, loaded@, ops@.subrange(0, i as int)) == Ok::<
                CatalogModel,
                Error,
            >(catalog@),
        decreases ops@.len() - i,
    {
        let ghost prefix = ops@.subrange(0, i + 1);
        assert(prefix.drop_last() =~= ops@.subrange(0, i as int));
        assert(prefix.last() == ops@[i as int]);
        let ghost current = catalog@;
        match apply_alteration(catalog, table_id, loaded, &ops[i]) {
            Ok(()) => {
                assert(start.with_alterations(table_id, loaded@, prefix) == current.with_alteration(
                    table_id,
                    loaded@,
                    ops@[i as int],
                ));
            },
            Err(e) => {
                proof {
                    lemma_alterations_fail(start, table_id, loaded@, ops@, i as int);
                }
                return Err(e);
            },
        }
        i = i + 1;
    }
    assert(ops@.subrange(0, ops@.len() as int) =~= ops@);
    Ok(())
}

/// Records that view `view_id` reads from each of `ids`, as
/// `with_dependencies` says. Where one fails, the caller rolls back.
fn add_dependencies(catalog: &mut Catalog, view_id: u64, ids: &Vec<u64>) -> (r: Result<(), Error>)
    requires
        old(catalog)@.wf(),
        old(catalog)@.is_object_of_kind(view_id, ObjectKind::View),
        forall|k: int| 0 <= k < ids@.len() ==> old(catalog)@.is_object(#[trigger] ids@[k]),
    ensures
        final(catalog)@.wf(),
        final(catalog)@.databases == old(catalog)@.databases,
        match old(catalog)@.with_dependencies(view_id, ids@) {
            Ok(m) => r == Ok::<(), Error>(()) && final(catalog)@ == m,
            Err(e) => r == Err::<(), Error>(e),
        },
{
    let ghost start = catalog@;
    let mut i: usize = 0;
    while i < ids.len()
        invariant
            i <= ids@.len(),
            catalog@.wf(),
            start == old(catalog)@,
            catalog@.databases == start.databases,
            catalog@.objects == start.objects,
            start.is_object_of_kind(view_id, ObjectKind::View),
            forall|k: int| 0 <= k < ids@.len() ==> start.is_object(#[trigger] ids@[k]),
            start.with_dependencies(view_id, ids@.subrange(0, i as int)) == Ok::<
                CatalogModel,
                Error,
            >(catalog@),
        decreases ids@.len() - i,
    {
        assert(ids@.subrange(0, i + 1).drop_last() =~= ids@.subrange(0, i as int));
        assert(start.is_object(ids@[i as int]));
        match catalog.insert_dependency(ViewDependency { view_id, dependent_object_id: ids[i] }) {
            Ok(()) => {},
            Err(e) => {
                proof {
                    lemma_dependencies_fail(start, view_id, ids@, i as int);
                }
                return Err(e);
            },
        }
        i = i + 1;
    }
    assert(ids@.subrange(0, ids@.len() as int) =~= ids@);
    Ok(())
}

/// The ids of the objects that `names` refer to, as `resolve` says.
fn resolve_references(catalog: &Catalog, names: &Vec<String>) -> (r: Result<Vec<u64>, Error>)
    ensures
        match catalog@.resolve(names@) {
            Ok(ids) => r matches Ok(v) && v@ == ids,
            Err(e) => r == Err::<Vec<u64>, Error>(e),
        },
        r matches Ok(v) ==> forall|k: int| 0 <= k < v@.len() ==> catalog@.is_object(#[trigger] v@[k]),
{
    let mut ids: Vec<u64> = Vec::new();
    let mut i: usize = 0;
    while i < names.len()
        invariant
            i <= names@.len(),
            ids@.len() == i,
            forall|k: int|
                0 <= k < i ==> catalog@.has_named(#[trigger] names@[k]@) && ids@[k]
                    == catalog@.named_id(names@[k]@),
            forall|k: int| 0 <= k < ids@.len() ==> catalog@.is_object(#[trigger] ids@[k]),
        decreases names@.len() - i,
    {
        match catalog.find_named(&names[i]) {
            Some(j) => {
                ids.push(catalog.objects[j].id);
                proof {
                    assert(catalog@.objects[j as int].id == ids@[i as int]);
                }
            },
            None => {
                proof {
                    let k = catalog@.first_unknown(names@);
                    assert(!catalog@.has_named(names@[i as int]@));
                    if k < i {
                        assert(catalog@.has_named(names@[k]@));
                    } else if k > i {
                        assert(catalog@.has_named(names@[i as int]@));
                    }
                }
                return Err(Error::NotFound { entity: Entity::Object, name: names[i].clone() });
            },
        }
        i = i + 1;
    }
    assert(ids@ =~= Seq::new(names@.len(), |k: int| catalog@.named_id(names@[k]@)));
    Ok(ids)
}

/// The index among `columns` of the first column called `name`.
pub fn find_column(columns: &Vec<Column>, name: &String) -> (r: Option<usize>)
    ensures
        match r {
            Some(i) => has_column_named(columns@, name@) && i == column_index(columns@, name@)
                && i < columns@.len(),
            None => !has_column_named(columns@, name@),
        },
{
    let mut i: usize = 0;
    while i < columns.len()
        invariant
            i <= columns@.len(),
            forall|j: int| 0 <= j < i ==> columns@[j].name@ != name@,
        decreases columns@.len() - i,
    {
        if columns[i].name == *name {
            proof {
                let k = column_index(columns@, name@);
                assert(columns@[i as int].name@ == name@);
                if k < i {
                    assert(columns@[k].name@ != name@);
                } else if k > i {
                    assert(columns@[i as int].name@ != name@);
                }
            }
            return Some(i);
        }
        i = i + 1;
    }
    None
}

pub open spec fn unit_of_rows(r: Result<Vec<ExplainRow>, Error>) -> Result<(), Error> {
    match r {
        Ok(_) => Ok(()),
        Err(e) => Err(e),
    }
}

/// Once deleting an object fails, the statement fails the same way.
pub proof fn lemma_drops_fail(m: CatalogModel, db: u64, kind: ObjectKind, names: Seq<String>, i: int)
    requires
        0 <= i < names.len(),
        m.without_objects(db, kind, names.subrange(0, i + 1)) is Err,
    ensures
        m.without_objects(db, kind, names) == m.without_objects(db, kind, names.subrange(0, i + 1)),
    decreases names.len(),
{
    if i + 1 < names.len() {
        assert(names.drop_last().subrange(0, i + 1) =~= names.subrange(0, i + 1));
        lemma_drops_fail(m, db, kind, names.drop_last(), i);
    } else {
        assert(names.subrange(0, i + 1) =~= names);
    }
}

/// Once an operation fails, the statement fails the same way.
pub proof fn lemma_alterations_fail(
    m: CatalogModel,
    table_id: u64,
    snapshot: Seq<Column>,
    ops: Seq<AlterOperation>,
    i: int,
)
    requires
        0 <= i < ops.len(),
        m.with_alterations(table_id, snapshot, ops.subrange(0, i + 1)) is Err,
    ensures
        m.with_alterations(table_id, snapshot, ops) == m.with_alterations(
            table_id,
            snapshot,
            ops.subrange(0, i + 1),
        ),
    decreases ops.len(),
{
    if i + 1 < ops.len() {
        assert(ops.drop_last().subrange(0, i + 1) =~= ops.subrange(0, i + 1));
        lemma_alterations_fail(m, table_id, snapshot, ops.drop_last(), i);
    } else {
        assert(ops.subrange(0, i + 1) =~= ops);
    }
}

/// Once recording a dependency fails, the statement fails the same way.
pub proof fn lemma_dependencies_fail(m: CatalogModel, view_id: u64, ids: Seq<u64>, i: int)
    requires
        0 <= i < ids.len(),
        m.with_dependencies(view_id, ids.subrange(0, i + 1)) is Err,
    ensures
        m.with_dependencies(view_id, ids) == m.with_dependencies(view_id, ids.subrange(0, i + 1)),
    decreases ids.len(),
{
    if i + 1 < ids.len() {
        assert(ids.drop_last().subrange(0, i + 1) =~= ids.subrange(0, i + 1));
        lemma_dependencies_fail(m, view_id, ids.drop_last(), i);
    } else {
        assert(ids.subrange(0, i + 1) =~= ids);
    }
}


/// Once adding a column fails, adding it and more after it fails the same way.
pub proof fn lemma_columns_fail(m: CatalogModel, table_id: u64, defs: Seq<ColumnDef>, i: int)
    requires
        0 <= i < defs.len(),
        m.with_columns(table_id, defs.subrange(0, i)) is Ok,
        m.with_columns(table_id, defs.subrange(0, i)).unwrap().with_column(table_id, defs[i]) is Err,
    ensures
        m.with_columns(table_id, defs) == m.with_columns(table_id, defs.subrange(0, i + 1)),
        m.with_columns(table_id, defs) == m.with_columns(table_id, defs.subrange(0, i)).unwrap().with_column(table_id, defs[i]),
    decreases defs.len(),
{
    assert(defs.subrange(0, i + 1).drop_last() =~= defs.subrange(0, i));
    if i + 1 < defs.len() {
        assert(defs.drop_last().subrange(0, i) =~= defs.subrange(0, i));
        assert(defs.drop_last().subrange(0, i + 1) =~= defs.subrange(0, i + 1));
        lemma_columns_fail(m, table_id, defs.drop_last(), i);
    } else {
        assert(defs.subrange(0, i + 1) =~= defs);
    }
}

} // verus!
